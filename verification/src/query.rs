//! What a query answers, stated over the contents of the indexes, and the
//! steps that are shared by every way of computing it.

use crate::buckets::buckets_union;
use crate::event::{EventId, Filter, PublicKey};
use crate::ident::{ordered, precedes, Key, MappingIdentifier};
use crate::keyset::{keys_of, lemma_ordered_unique, time_matches, KeySet};
use crate::mapping::resolved;
use crate::tags::{tag_matches, TagsModel};
use vstd::prelude::*;

verus! {

/// The contents of the engine.
pub struct State {
    /// The number of the surrogate key issued last; 0 before the first.
    pub counter: u64,
    /// Surrogate key to event identifier.
    pub mapping: Map<u64, EventId>,
    /// Kind to the keys of the events of that kind.
    pub kinds: Map<u16, Set<Key>>,
    /// Author to the keys of the events by that author.
    pub authors: Map<PublicKey, Set<Key>>,
    /// The keys of all events, which the index by creation time groups by
    /// timestamp.
    pub created_at: Set<Key>,
    /// Letter to the events that carry it, each with its values.
    pub tags: TagsModel,
}

/// Whether the filter bounds the creation time on either side.
pub open spec fn timed(f: Filter) -> bool {
    f.since.is_some() || f.until.is_some()
}

/// Whether the filter asks for a time range that holds no timestamp.
pub open spec fn contradictory(f: Filter) -> bool {
    f.since.is_some() && f.until.is_some() && f.since.unwrap() > f.until.unwrap()
}

/// Whether the filter has a predicate that is answered from the indexes.
pub open spec fn constrained(f: Filter) -> bool {
    f.kinds@.len() > 0 || f.authors@.len() > 0 || timed(f) || f.generic_tags@.len() > 0
}

/// Whether the event `key` meets every predicate that the filter has. A
/// filter without any predicate is met by no event.
pub open spec fn matches(s: State, f: Filter, key: Key) -> bool {
    &&& constrained(f)
    &&& f.kinds@.len() > 0 ==> buckets_union(s.kinds, f.kinds@).contains(key)
    &&& f.authors@.len() > 0 ==> buckets_union(s.authors, f.authors@).contains(key)
    &&& timed(f) ==> time_matches(s.created_at, f.since, f.until).contains(key)
    &&& f.generic_tags@.len() > 0 ==> tag_matches(s.tags, f.generic_tags@).contains(key)
}

/// The events that meet every predicate of the filter.
pub open spec fn matching(s: State, f: Filter) -> Set<Key> {
    Set::new(|key: Key| matches(s, f, key))
}

/// The keys of a set in index order.
pub open spec fn sorted_keys(keys: Set<Key>) -> Seq<Key> {
    choose|q: Seq<Key>| ordered(q) && q.to_set() == keys
}

/// How many keys a window over `len` keys retains under `limit`.
pub open spec fn retained(len: nat, limit: Option<usize>) -> nat {
    match limit {
        Some(l) => if l < len {
            l as nat
        } else {
            len
        },
        None => len,
    }
}

/// The first keys of the index order, as many as the limit allows, turned
/// round so that the oldest of them comes first.
pub open spec fn window(keys: Seq<Key>, limit: Option<usize>) -> Seq<Key> {
    keys.take(retained(keys.len(), limit) as int).reverse()
}

/// The answer to a query.
pub open spec fn query_result(s: State, f: Filter) -> Seq<EventId> {
    if f.ids@.len() > 0 {
        f.ids@
    } else if contradictory(f) {
        Seq::empty()
    } else {
        resolved(s.mapping, window(sorted_keys(matching(s, f)), f.limit))
    }
}

/// The running candidate set after one more predicate has been applied:
/// the first predicate's candidates as they are, and from then on what
/// they have in common with the running set.
pub open spec fn narrowed(started: bool, running: Set<Key>, candidates: Set<Key>) -> Set<Key> {
    if started {
        running.intersect(candidates)
    } else {
        candidates
    }
}

/// An ordered sequence is the index order of its own elements.
pub proof fn lemma_sorted_keys(q: Seq<Key>)
    requires
        ordered(q),
    ensures
        sorted_keys(q.to_set()) == q,
{
    let p = sorted_keys(q.to_set());
    assert(ordered(p) && p.to_set() == q.to_set());
    lemma_ordered_unique(p, q);
}

/// In a window the older of two keys comes first: the key at a later
/// position precedes, in index order, the key at an earlier one.
pub proof fn lemma_window_oldest_first(keys: Seq<Key>, limit: Option<usize>, i: int, j: int)
    requires
        ordered(keys),
        0 <= i < j < window(keys, limit).len(),
    ensures
        precedes(window(keys, limit)[j], window(keys, limit)[i]),
        window(keys, limit)[i].timestamp <= window(keys, limit)[j].timestamp,
{
    let n = retained(keys.len(), limit) as int;
    let front = keys.take(n);
    assert(window(keys, limit)[i] == front[n - 1 - i]);
    assert(window(keys, limit)[j] == front[n - 1 - j]);
    assert(precedes(keys[n - 1 - j], keys[n - 1 - i]));
}

/// A window holds the newest keys: every key left out is preceded by
/// every key retained.
pub proof fn lemma_window_newest(keys: Seq<Key>, limit: Option<usize>, i: int, j: int)
    requires
        ordered(keys),
        0 <= i < window(keys, limit).len(),
        window(keys, limit).len() <= j < keys.len(),
    ensures
        window(keys, limit).len() == retained(keys.len(), limit),
        precedes(window(keys, limit)[i], keys[j]),
{
    let n = retained(keys.len(), limit) as int;
    let front = keys.take(n);
    assert(window(keys, limit)[i] == front[n - 1 - i]);
    assert(precedes(keys[n - 1 - i], keys[j]));
}

/// An event that fails one of the predicates that the filter has is left
/// out, whatever other predicates it meets.
pub proof fn lemma_conjunctive(s: State, f: Filter, key: Key)
    ensures
        f.kinds@.len() > 0 && !buckets_union(s.kinds, f.kinds@).contains(key) ==> !matching(
            s,
            f,
        ).contains(key),
        f.authors@.len() > 0 && !buckets_union(s.authors, f.authors@).contains(key) ==> !matching(
            s,
            f,
        ).contains(key),
        timed(f) && !time_matches(s.created_at, f.since, f.until).contains(key) ==> !matching(
            s,
            f,
        ).contains(key),
        f.generic_tags@.len() > 0 && !tag_matches(s.tags, f.generic_tags@).contains(key)
            ==> !matching(s, f).contains(key),
{
}

/// With both bounds at `t`, the time predicate admits exactly the events
/// created at `t`.
pub proof fn lemma_point_range(all: Set<Key>, t: u64, key: Key)
    ensures
        time_matches(all, Some(t), Some(t)).contains(key) <==> all.contains(key) && key.timestamp
            == t,
{
}

/// A filter without identifiers whose lower time bound lies above its
/// upper one is answered with nothing, whatever the indexes hold.
pub proof fn lemma_contradictory_range(s: State, f: Filter)
    requires
        f.ids@.len() == 0,
        f.since.is_some(),
        f.until.is_some(),
        f.since.unwrap() > f.until.unwrap(),
    ensures
        query_result(s, f) == Seq::<EventId>::empty(),
{
}

/// A filter that names identifiers is answered with exactly those,
/// whatever the indexes hold.
pub proof fn lemma_ids_short_circuit(s: State, f: Filter)
    requires
        f.ids@.len() > 0,
    ensures
        query_result(s, f) == f.ids@,
{
}

/// Narrows the running candidate set by the candidates of one more
/// predicate: where `main` is empty it takes over the keys of `other`, and
/// else it keeps the keys that `other` holds too.
pub fn intersect_or_extend(main: &mut KeySet, other: &KeySet)
    requires
        old(main).wf(),
        other.wf(),
    ensures
        final(main).wf(),
        final(main).set() == (if old(main)@.len() == 0 {
            other.set()
        } else {
            old(main).set().intersect(other.set())
        }),
{
    if main.is_empty() {
        let merged = main.union(other);
        assert(main.set() =~= Set::<Key>::empty());
        assert(merged.set() =~= other.set());
        *main = merged;
    } else {
        let common = main.intersection(other);
        *main = common;
    }
}

/// Applies one more predicate to the running candidate set.
pub fn narrow(running: &mut KeySet, started: bool, candidates: &KeySet)
    requires
        old(running).wf(),
        candidates.wf(),
        !started ==> old(running)@.len() == 0,
    ensures
        final(running).wf(),
        final(running).set() == narrowed(started, old(running).set(), candidates.set()),
{
    if started && running.is_empty() {
        assert(running.set() =~= Set::<Key>::empty());
        assert(running.set() =~= running.set().intersect(candidates.set()));
    } else {
        intersect_or_extend(running, candidates);
    }
}

/// The first keys of the index order, as many as the limit allows, oldest
/// first.
pub fn paginate(keys: &KeySet, limit: Option<usize>) -> (r: Vec<MappingIdentifier>)
    ensures
        keys_of(r@) == window(keys@, limit),
{
    let len: usize = keys.len();
    let n: usize = match limit {
        Some(l) => if l < len {
            l
        } else {
            len
        },
        None => len,
    };
    let mut out: Vec<MappingIdentifier> = Vec::new();
    let mut i: usize = n;
    while i > 0
        invariant
            i <= n <= keys@.len(),
            out@.len() == n - i,
            forall|t: int| 0 <= t < out@.len() ==> (#[trigger] out@[t])@ == keys@[n - 1 - t],
        decreases i,
    {
        i = i - 1;
        out.push(keys.get(i));
    }
    assert(keys_of(out@) =~= window(keys@, limit));
    out
}

/// A copy of a list of identifiers.
pub fn copy_ids(ids: &Vec<EventId>) -> (r: Vec<EventId>)
    ensures
        r@ == ids@,
{
    let mut out: Vec<EventId> = Vec::new();
    let mut i: usize = 0;
    while i < ids.len()
        invariant
            i <= ids.len(),
            out@ == ids@.take(i as int),
        decreases ids.len() - i,
    {
        out.push(ids[i]);
        assert(ids@.take(i + 1) =~= ids@.take(i as int).push(ids@[i as int]));
        i = i + 1;
    }
    assert(ids@.take(ids.len() as int) =~= ids@);
    out
}

} // verus!
