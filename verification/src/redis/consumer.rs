//! Consumer groups of a stream.
use vstd::prelude::*;
use crate::str_map::StrMap;

verus! {

pub struct ConsumerGroup {
    pub name: String,
    /// The last entry ID delivered to this group.
    pub last_delivered_id: String,
    /// Consumer name to consumer.
    pub consumers: StrMap<Consumer>,
    /// Entry ID to the delivery not yet acknowledged.
    pub pending: StrMap<PendingEntry>,
}

pub struct Consumer {
    pub name: String,
    /// The IDs of the entries given to this consumer and not yet acknowledged.
    pub pending: StrMap<()>,
    pub last_seen: u64,
}

pub struct PendingEntry {
    pub entry_id: String,
    pub consumer_name: String,
    /// When the entry was delivered, in milliseconds since the Unix epoch.
    pub timestamp: u64,
    /// How many times the entry was delivered.
    pub delivery_count: u32,
}

impl ConsumerGroup {
    pub open spec fn wf(&self) -> bool {
        &&& self.consumers.wf()
        &&& self.pending.wf()
        &&& forall|k: Seq<char>| #[trigger] self.consumers.map().dom().contains(k) ==> self.consumers.map()[k].pending.wf()
    }
}

/// A pending delivery, by its contents.
pub struct PendingModel {
    pub entry_id: Seq<char>,
    pub consumer_name: Seq<char>,
    pub timestamp: u64,
    pub delivery_count: u32,
}

/// A consumer, by its contents.
pub struct ConsumerModel {
    pub name: Seq<char>,
    pub pending: Set<Seq<char>>,
    pub last_seen: u64,
}

/// A consumer group, by its contents.
pub struct GroupModel {
    pub name: Seq<char>,
    pub last_delivered_id: Seq<char>,
    pub consumers: Map<Seq<char>, ConsumerModel>,
    pub pending: Map<Seq<char>, PendingModel>,
}

pub open spec fn pending_model(p: PendingEntry) -> PendingModel {
    PendingModel {
        entry_id: p.entry_id@,
        consumer_name: p.consumer_name@,
        timestamp: p.timestamp,
        delivery_count: p.delivery_count,
    }
}

pub open spec fn consumer_model(c: Consumer) -> ConsumerModel {
    ConsumerModel { name: c.name@, pending: c.pending.map().dom(), last_seen: c.last_seen }
}

pub open spec fn group_model(g: ConsumerGroup) -> GroupModel {
    GroupModel {
        name: g.name@,
        last_delivered_id: g.last_delivered_id@,
        consumers: g.consumers.map().map_values(|c: Consumer| consumer_model(c)),
        pending: g.pending.map().map_values(|p: PendingEntry| pending_model(p)),
    }
}

} // verus!
