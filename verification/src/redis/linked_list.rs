//! The list value of the store: a chain of nodes, appended at the tail.
use vstd::prelude::*;

verus! {

pub struct LinkedList {
    pub value: String,
    pub next: Option<Box<LinkedList>>,
}

impl View for LinkedList {
    type V = Seq<Seq<char>>;

    open spec fn view(&self) -> Seq<Seq<char>> {
        self.values()
    }
}

impl LinkedList {
    /// The values of the nodes, head first.
    pub open spec fn values(self) -> Seq<Seq<char>>
        decreases self,
    {
        seq![self.value@] + match self.next {
            Some(node) => node.values(),
            None => Seq::<Seq<char>>::empty(),
        }
    }

    pub fn new(value: String) -> (l: LinkedList)
        ensures
            l@ == seq![value@],
    {
        let l = LinkedList { value, next: None };
        assert(l@ =~= seq![value@]);
        l
    }

    /// Takes the last value off the list. A one-node list gives its value
    /// and keeps the node with an empty value; a one-node list whose value
    /// is already empty gives nothing.
    pub fn pop(&mut self) -> (r: Option<String>)
        ensures
            old(self)@.len() >= 2 ==> {
                &&& r matches Some(v) && v@ == old(self)@.last()
                &&& final(self)@ == old(self)@.drop_last()
            },
            old(self)@.len() == 1 && old(self)@[0].len() == 0 ==> r is None && final(self)@ == old(self)@,
            old(self)@.len() == 1 && old(self)@[0].len() != 0 ==> {
                &&& r matches Some(v) && v@ == old(self)@[0]
                &&& final(self)@ == seq![Seq::<char>::empty()]
            },
        decreases old(self)@.len(),
    {
        proof { lemma_view_len(self); }
        match self.next.take() {
            Some(mut next_node) => {
                proof { lemma_view_len(&*next_node); }
                if next_node.next.is_none() {
                    proof {
                        assert(old(self)@ =~= seq![self.value@] + seq![next_node.value@]);
                        assert(self@ =~= seq![self.value@]);
                    }
                    Some(next_node.value)
                } else {
                    let ghost tail = next_node@;
                    let r = (&mut *next_node).pop();
                    self.next = Some(next_node);
                    proof {
                        assert(old(self)@ =~= seq![self.value@] + tail);
                        assert(self@ =~= seq![self.value@] + next_node@);
                        assert(self@ =~= old(self)@.drop_last());
                    }
                    r
                }
            },
            None => {
                proof {
                    assert(old(self)@ =~= seq![self.value@]);
                }
                if self.value.as_str().is_empty() {
                    None
                } else {
                    let old_value = self.value.clone();
                    self.value = String::new();
                    self.next = None;
                    proof {
                        assert(self@ =~= seq![Seq::<char>::empty()]);
                    }
                    Some(old_value)
                }
            },
        }
    }

    /// Adds `value` after the last node.
    pub fn append(&mut self, value: String)
        ensures
            final(self)@ == old(self)@.push(value@),
        decreases old(self)@.len(),
    {
        proof { lemma_view_len(self); }
        match self.next.take() {
            Some(mut next_node) => {
                let ghost tail = next_node@;
                proof { lemma_view_len(&*next_node); }
                (&mut *next_node).append(value);
                self.next = Some(next_node);
                proof {
                    assert(old(self)@ =~= seq![self.value@] + tail);
                    assert(self@ =~= seq![self.value@] + next_node@);
                }
            },
            None => {
                self.next = Some(Box::new(LinkedList::new(value)));
                proof {
                    assert(old(self)@ =~= seq![self.value@]);
                }
            },
        }
    }
}

/// A list holds at least its head.
pub proof fn lemma_view_len(l: &LinkedList)
    ensures
        l@.len() >= 1,
        l@[0] == l.value@,
        l.next is None ==> l@.len() == 1,
        l.next matches Some(n) ==> l@.len() == 1 + n@.len() && l@ == seq![l.value@] + n@,
{
}

/// Whatever is appended is what the next pop gives back, and the list is as before.
pub proof fn append_then_pop(before: Seq<Seq<char>>, v: Seq<char>)
    requires
        before.len() >= 1,
    ensures
        before.push(v).len() >= 2,
        before.push(v).last() == v,
        before.push(v).drop_last() == before,
{
    assert(before.push(v).drop_last() =~= before);
}

} // verus!
