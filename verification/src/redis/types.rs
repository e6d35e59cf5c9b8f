//! The values the store holds.
use vstd::prelude::*;
use crate::str_map::{StrMap, string_view};
use crate::redis::linked_list::LinkedList;
use crate::redis::stream::{Stream, StreamModel, stream_model};

verus! {

pub enum ValueType {
    String(String),
    Hash(StrMap<String>),
    LinkedList(LinkedList),
    Stream(Stream),
}

pub struct RedisValue {
    pub value: ValueType,
}

/// A stored value, by its contents.
pub enum ValueModel {
    Text(Seq<char>),
    Hash(Map<Seq<char>, Seq<char>>),
    List(Seq<Seq<char>>),
    Stream(StreamModel),
}

pub open spec fn value_model(v: RedisValue) -> ValueModel {
    match v.value {
        ValueType::String(s) => ValueModel::Text(s@),
        ValueType::Hash(m) => ValueModel::Hash(string_view(m)),
        ValueType::LinkedList(l) => ValueModel::List(l@),
        ValueType::Stream(s) => ValueModel::Stream(stream_model(s)),
    }
}

/// The keys of the store.
pub type Db = StrMap<RedisValue>;

/// When each key expires, in milliseconds since the Unix epoch.
pub type Cache = StrMap<i64>;

/// The store, key by key.
pub open spec fn db_model(db: Db) -> Map<Seq<char>, ValueModel> {
    db.map().map_values(|v: RedisValue| value_model(v))
}

pub open spec fn value_wf(v: RedisValue) -> bool {
    match v.value {
        ValueType::Hash(m) => m.wf(),
        ValueType::Stream(s) => s.wf(),
        _ => true,
    }
}

pub open spec fn db_wf(db: Db) -> bool {
    &&& db.wf()
    &&& forall|k: Seq<char>| #[trigger] db.map().dom().contains(k) ==> value_wf(db.map()[k])
}

} // verus!
