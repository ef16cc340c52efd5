//! The authoritative table from surrogate keys to event identifiers.

use crate::event::EventId;
use crate::ident::{Key, MappingIdentifier, SmallerIdentifier};
use crate::keyset::keys_of;
use std::collections::HashMap;
use vstd::prelude::*;

verus! {

broadcast use vstd::std_specs::hash::group_hash_axioms;

/// The identifiers that the keys of `window` resolve to, in the same
/// order; a key whose surrogate key the table does not know is passed over.
pub open spec fn resolved(table: Map<u64, EventId>, window: Seq<Key>) -> Seq<EventId>
    decreases window.len(),
{
    if window.len() == 0 {
        Seq::empty()
    } else {
        let rest = resolved(table, window.drop_last());
        if table.contains_key(window.last().sid) {
            rest.push(table[window.last().sid])
        } else {
            rest
        }
    }
}

/// Where the table knows every key, resolving keeps the length.
pub proof fn lemma_resolved_len(table: Map<u64, EventId>, window: Seq<Key>)
    requires
        forall|i: int| 0 <= i < window.len() ==> table.contains_key((#[trigger] window[i]).sid),
    ensures
        resolved(table, window).len() == window.len(),
        forall|i: int|
            0 <= i < window.len() ==> #[trigger] resolved(table, window)[i] == table[window[i].sid],
    decreases window.len(),
{
    if window.len() > 0 {
        let front = window.drop_last();
        assert forall|i: int| 0 <= i < front.len() implies table.contains_key(
            (#[trigger] front[i]).sid,
        ) by {
            assert(front[i] == window[i]);
        }
        lemma_resolved_len(table, front);
        assert(table.contains_key(window[window.len() - 1].sid));
    }
}

/// Surrogate key to event identifier, one entry per admitted event.
pub struct Mapping {
    table: HashMap<u64, EventId>,
}

impl View for Mapping {
    type V = Map<u64, EventId>;

    closed spec fn view(&self) -> Map<u64, EventId> {
        self.table@
    }
}

impl Mapping {
    /// The table without entries.
    pub fn new() -> (r: Self)
        ensures
            r@ == Map::<u64, EventId>::empty(),
    {
        Mapping { table: HashMap::new() }
    }

    /// Records that `sid` stands for the event `id`.
    pub fn insert(&mut self, sid: SmallerIdentifier, id: EventId)
        ensures
            final(self)@ == old(self)@.insert(sid@, id),
    {
        let n: u64 = sid.to_u64();
        self.table.insert(n, id);
    }

    /// The identifier that `sid` stands for, if the table knows it.
    pub fn get(&self, sid: &SmallerIdentifier) -> (r: Option<EventId>)
        ensures
            r == (if self@.contains_key(sid@) {
                Some(self@[sid@])
            } else {
                None
            }),
    {
        let n: u64 = sid.to_u64();
        match self.table.get(&n) {
            Some(id) => Some(*id),
            None => None,
        }
    }

    /// Takes out every entry.
    pub fn clear(&mut self)
        ensures
            final(self)@ == Map::<u64, EventId>::empty(),
    {
        self.table.clear();
    }

    /// Resolves each key of `window` in turn.
    pub fn resolve(&self, window: &Vec<MappingIdentifier>) -> (r: Vec<EventId>)
        ensures
            r@ == resolved(self@, keys_of(window@)),
    {
        let mut out: Vec<EventId> = Vec::new();
        let mut i: usize = 0;
        while i < window.len()
            invariant
                i <= window.len(),
                out@ == resolved(self@, keys_of(window@).take(i as int)),
            decreases window.len() - i,
        {
            proof {
                let next = keys_of(window@).take(i + 1);
                assert(next.drop_last() =~= keys_of(window@).take(i as int));
                assert(next.last() == window@[i as int]@);
            }
            match self.get(&window[i].sid) {
                Some(id) => out.push(id),
                None => {},
            }
            i = i + 1;
        }
        assert(keys_of(window@).take(window.len() as int) =~= keys_of(window@));
        out
    }
}

} // verus!
