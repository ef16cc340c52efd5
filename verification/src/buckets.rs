//! Indexes from a predicate key to the bucket of composite keys filed
//! under it: by kind, by author, and by creation time.

use crate::assoc::{AssocList, ExactEq};
use crate::event::PublicKey;
use crate::ident::{Key, MappingIdentifier};
use crate::keyset::{time_matches, KeySet};
use std::collections::HashMap;
use vstd::prelude::*;

verus! {

broadcast use vstd::std_specs::hash::group_hash_axioms;

/// The keys filed under `k`; none where the index has no such bucket.
pub open spec fn bucket<K>(index: Map<K, Set<Key>>, k: K) -> Set<Key> {
    if index.contains_key(k) {
        index[k]
    } else {
        Set::empty()
    }
}

/// The index after `key` has been filed under `k`.
pub open spec fn filed<K>(index: Map<K, Set<Key>>, k: K, key: Key) -> Map<K, Set<Key>> {
    index.insert(k, bucket(index, k).insert(key))
}

/// The keys filed under any of the wanted predicate keys.
pub open spec fn buckets_union<K>(index: Map<K, Set<Key>>, wanted: Seq<K>) -> Set<Key> {
    Set::new(
        |key: Key|
            exists|i: int| 0 <= i < wanted.len() && bucket(index, #[trigger] wanted[i]).contains(key),
    )
}

/// Looking one more wanted key up adds that key's bucket.
pub proof fn lemma_buckets_union_step<K>(index: Map<K, Set<Key>>, wanted: Seq<K>, i: int)
    requires
        0 <= i < wanted.len(),
    ensures
        buckets_union(index, wanted.take(i + 1)) =~= buckets_union(index, wanted.take(i)).union(
            bucket(index, wanted[i]),
        ),
{
    let more = wanted.take(i + 1);
    let less = wanted.take(i);
    assert forall|key: Key|
        buckets_union(index, more).contains(key) <==> (buckets_union(index, less).contains(key)
            || bucket(index, wanted[i]).contains(key)) by {
        if buckets_union(index, more).contains(key) {
            let j = choose|j: int|
                0 <= j < more.len() && bucket(index, #[trigger] more[j]).contains(key);
            if j < i {
                assert(less[j] == more[j]);
            }
        }
        if buckets_union(index, less).contains(key) {
            let j = choose|j: int|
                0 <= j < less.len() && bucket(index, #[trigger] less[j]).contains(key);
            assert(more[j] == less[j]);
        }
        if bucket(index, wanted[i]).contains(key) {
            assert(more[i] == wanted[i]);
        }
    }
}

/// Filing a key under `k` adds it to the answer for every list of wanted
/// predicate keys that names `k`, and changes no other answer.
pub proof fn lemma_filed_union<K>(
    index: Map<K, Set<Key>>,
    k: K,
    key: Key,
    wanted: Seq<K>,
    x: Key,
)
    ensures
        buckets_union(filed(index, k, key), wanted).contains(x) <==> buckets_union(
            index,
            wanted,
        ).contains(x) || (x == key && wanted.contains(k)),
{
    let after = filed(index, k, key);
    if buckets_union(after, wanted).contains(x) {
        let i = choose|i: int| 0 <= i < wanted.len() && bucket(after, #[trigger] wanted[i]).contains(x);
        if wanted[i] == k {
            if x != key {
                assert(bucket(index, wanted[i]).contains(x));
            }
        } else {
            assert(bucket(index, wanted[i]).contains(x));
        }
    }
    if buckets_union(index, wanted).contains(x) {
        let i = choose|i: int| 0 <= i < wanted.len() && bucket(index, #[trigger] wanted[i]).contains(x);
        assert(bucket(after, wanted[i]).contains(x));
    }
    if x == key && wanted.contains(k) {
        let i = choose|i: int| 0 <= i < wanted.len() && wanted[i] == k;
        assert(bucket(after, wanted[i]).contains(x));
    }
}

/// The index by kind: a hash map from the number of a kind to the bucket
/// of that kind.
pub struct KindIndex {
    map: HashMap<u16, KeySet>,
}

impl View for KindIndex {
    type V = Map<u16, Set<Key>>;

    closed spec fn view(&self) -> Map<u16, Set<Key>> {
        Map::new(|k: u16| self.map@.contains_key(k), |k: u16| self.map@[k].set())
    }
}

impl KindIndex {
    /// The invariant of the type: every bucket is in index order.
    pub closed spec fn wf(&self) -> bool {
        forall|k: u16| self.map@.contains_key(k) ==> (#[trigger] self.map@[k]).wf()
    }

    /// The index without buckets.
    pub fn new() -> (r: Self)
        ensures
            r.wf(),
            r@ == Map::<u16, Set<Key>>::empty(),
    {
        let r = KindIndex { map: HashMap::new() };
        assert(r@ =~= Map::<u16, Set<Key>>::empty());
        r
    }

    /// Files `key` under `kind`.
    pub fn insert(&mut self, kind: u16, key: MappingIdentifier)
        requires
            old(self).wf(),
        ensures
            final(self).wf(),
            final(self)@ == filed(old(self)@, kind, key@),
    {
        let ghost before = self.map@;
        let found = self.map.remove(&kind);
        let mut set = match found {
            Some(s) => s,
            None => KeySet::new(),
        };
        proof {
            assert(self.map@ == before.remove(kind));
            assert(set.wf());
            assert(set.set() =~= bucket(old(self)@, kind));
        }
        set.insert(key);
        self.map.insert(kind, set);
        proof {
            assert forall|x: u16| self.map@.contains_key(x) implies (#[trigger] self.map@[x]).wf() by {
                if x != kind {
                    assert(before.contains_key(x));
                }
            }
            assert(self@ =~= filed(old(self)@, kind, key@));
        }
    }

    /// The keys filed under any of the wanted kinds.
    pub fn query_index(&self, wanted: &Vec<u16>) -> (r: KeySet)
        requires
            self.wf(),
        ensures
            r.wf(),
            r.set() == buckets_union(self@, wanted@),
    {
        let mut result = KeySet::new();
        let mut i: usize = 0;
        proof {
            assert(result.set() =~= buckets_union(self@, wanted@.take(0)));
        }
        while i < wanted.len()
            invariant
                i <= wanted.len(),
                self.wf(),
                result.wf(),
                result.set() =~= buckets_union(self@, wanted@.take(i as int)),
            decreases wanted.len() - i,
        {
            proof {
                lemma_buckets_union_step(self@, wanted@, i as int);
            }
            match self.map.get(&wanted[i]) {
                Some(ids) => {
                    assert(self.map@.contains_key(wanted@[i as int]) && *ids == self.map@[wanted@[i as int]]);
                    result = result.union(ids);
                },
                None => {
                    assert(!self.map@.contains_key(wanted@[i as int]));
                },
            }
            i = i + 1;
        }
        proof {
            assert(wanted@.take(wanted.len() as int) =~= wanted@);
        }
        result
    }

    /// Takes out every bucket.
    pub fn clear(&mut self)
        ensures
            final(self).wf(),
            final(self)@ == Map::<u16, Set<Key>>::empty(),
    {
        self.map.clear();
        assert(self@ =~= Map::<u16, Set<Key>>::empty());
    }
}

/// An index from predicate keys that are no integers to buckets of
/// composite keys.
pub struct BucketIndex<K> {
    list: AssocList<K, KeySet>,
}

/// The index by author.
pub type AuthorIndex = BucketIndex<PublicKey>;

impl<K: ExactEq> View for BucketIndex<K> {
    type V = Map<K, Set<Key>>;

    closed spec fn view(&self) -> Map<K, Set<Key>> {
        Map::new(|k: K| self.list@.contains_key(k), |k: K| self.list@[k].set())
    }
}

impl<K: ExactEq> BucketIndex<K> {
    /// The invariant of the type: no predicate key has two buckets, and
    /// every bucket is in index order.
    pub closed spec fn wf(&self) -> bool {
        self.list.wf() && forall|k: K| self.list@.contains_key(k) ==> (#[trigger] self.list@[k]).wf()
    }

    /// The index without buckets.
    pub fn new() -> (r: Self)
        ensures
            r.wf(),
            r@ == Map::<K, Set<Key>>::empty(),
    {
        let r = BucketIndex { list: AssocList::new() };
        assert(r@ =~= Map::<K, Set<Key>>::empty());
        r
    }

    /// Files `key` under `k`.
    pub fn insert(&mut self, k: K, key: MappingIdentifier)
        requires
            old(self).wf(),
        ensures
            final(self).wf(),
            final(self)@ == filed(old(self)@, k, key@),
    {
        let ghost before = self.list@;
        let found = self.list.remove(&k);
        let mut set = match found {
            Some(s) => s,
            None => KeySet::new(),
        };
        proof {
            assert(set.set() =~= bucket(old(self)@, k));
        }
        set.insert(key);
        self.list.insert(k, set);
        proof {
            assert forall|x: K| self.list@.contains_key(x) implies (#[trigger] self.list@[x]).wf() by {
                if x != k {
                    assert(before.contains_key(x));
                }
            }
            assert(self@ =~= filed(old(self)@, k, key@));
        }
    }

    /// The keys filed under any of the wanted predicate keys.
    pub fn query_index(&self, wanted: &Vec<K>) -> (r: KeySet)
        requires
            self.wf(),
        ensures
            r.wf(),
            r.set() == buckets_union(self@, wanted@),
    {
        let mut result = KeySet::new();
        let mut i: usize = 0;
        proof {
            assert(result.set() =~= buckets_union(self@, wanted@.take(0)));
        }
        while i < wanted.len()
            invariant
                i <= wanted.len(),
                self.wf(),
                result.wf(),
                result.set() =~= buckets_union(self@, wanted@.take(i as int)),
            decreases wanted.len() - i,
        {
            proof {
                lemma_buckets_union_step(self@, wanted@, i as int);
            }
            match self.list.get(&wanted[i]) {
                Some(ids) => {
                    result = result.union(ids);
                },
                None => {},
            }
            i = i + 1;
        }
        proof {
            assert(wanted@.take(wanted.len() as int) =~= wanted@);
        }
        result
    }

    /// Takes out every bucket.
    pub fn clear(&mut self)
        ensures
            final(self).wf(),
            final(self)@ == Map::<K, Set<Key>>::empty(),
    {
        self.list.clear();
        assert(self@ =~= Map::<K, Set<Key>>::empty());
    }
}

/// The index by creation time: every key filed, in index order, so that
/// the keys of one timestamp stand together and a range of timestamps is
/// one run of keys.
pub struct CreatedAtIndex {
    keys: KeySet,
}

impl View for CreatedAtIndex {
    type V = Set<Key>;

    closed spec fn view(&self) -> Set<Key> {
        self.keys.set()
    }
}

impl CreatedAtIndex {
    /// The invariant of the type: the keys are in index order.
    pub closed spec fn wf(&self) -> bool {
        self.keys.wf()
    }

    /// The keys filed under the timestamp `t`.
    pub open spec fn bucket(&self, t: u64) -> Set<Key> {
        time_matches(self@, Some(t), Some(t))
    }

    /// The index without keys.
    pub fn new() -> (r: Self)
        ensures
            r.wf(),
            r@ == Set::<Key>::empty(),
    {
        let r = CreatedAtIndex { keys: KeySet::new() };
        assert(r@ =~= Set::<Key>::empty());
        r
    }

    /// Files `key` under its timestamp.
    pub fn insert(&mut self, key: MappingIdentifier)
        requires
            old(self).wf(),
        ensures
            final(self).wf(),
            final(self)@ == old(self)@.insert(key@),
    {
        self.keys.insert(key);
    }

    /// Takes out every key.
    pub fn clear(&mut self)
        ensures
            final(self).wf(),
            final(self)@ == Set::<Key>::empty(),
    {
        self.keys = KeySet::new();
        assert(self@ =~= Set::<Key>::empty());
    }

    /// The keys filed under the timestamps within the bounds.
    pub fn range(&self, since: Option<u64>, until: Option<u64>) -> (r: KeySet)
        requires
            self.wf(),
        ensures
            r.wf(),
            r.set() == time_matches(self@, since, until),
    {
        self.keys.within(since, until)
    }
}

} // verus!
