//! A small association list: the container behind the indexes whose
//! predicate keys are not integers.

use vstd::prelude::*;

verus! {

/// Keys that can be tested for equality in executable code.
pub trait ExactEq: Sized {
    /// Whether both values are the same.
    fn same(&self, other: &Self) -> (r: bool)
        ensures
            r == (*self == *other),
    ;
}

impl ExactEq for char {
    fn same(&self, other: &Self) -> (r: bool) {
        *self == *other
    }
}

impl ExactEq for [u8; 32] {
    fn same(&self, other: &Self) -> (r: bool) {
        let mut i: usize = 0;
        while i < 32
            invariant
                i <= 32,
                forall|j: int| 0 <= j < i ==> self@[j] == other@[j],
            decreases 32 - i,
        {
            if self[i] != other[i] {
                return false;
            }
            i = i + 1;
        }
        assert(*self =~= *other);
        true
    }
}

/// The map that two parallel sequences of distinct keys and of values
/// spell out.
pub open spec fn map_of<K, V>(keys: Seq<K>, values: Seq<V>) -> Map<K, V> {
    Map::new(|k: K| keys.contains(k), |k: K| values[keys.index_of(k)])
}

/// In a sequence without duplicates an element is found where it stands.
pub proof fn lemma_index_of<K>(keys: Seq<K>, i: int)
    requires
        keys.no_duplicates(),
        0 <= i < keys.len(),
    ensures
        keys.contains(keys[i]),
        keys.index_of(keys[i]) == i,
{
    assert(keys.contains(keys[i]));
    let j = keys.index_of(keys[i]);
    assert(0 <= j < keys.len() && keys[j] == keys[i]);
}

/// Appending a fresh key with its value adds one entry to the map.
pub proof fn lemma_map_of_push<K, V>(keys: Seq<K>, values: Seq<V>, k: K, v: V)
    requires
        keys.no_duplicates(),
        keys.len() == values.len(),
        !keys.contains(k),
    ensures
        keys.push(k).no_duplicates(),
        map_of(keys.push(k), values.push(v)) =~= map_of(keys, values).insert(k, v),
{
    let keys2 = keys.push(k);
    let values2 = values.push(v);
    assert forall|i: int, j: int|
        0 <= i < keys2.len() && 0 <= j < keys2.len() && i != j implies keys2[i] != keys2[j] by {
        if i < keys.len() {
            assert(keys.contains(keys[i]));
        }
        if j < keys.len() {
            assert(keys.contains(keys[j]));
        }
    }
    assert forall|x: K| keys2.contains(x) <==> (keys.contains(x) || x == k) by {
        if keys2.contains(x) {
            let i = choose|i: int| 0 <= i < keys2.len() && keys2[i] == x;
            if i < keys.len() {
                assert(keys[i] == x);
            }
        }
        if keys.contains(x) {
            let i = choose|i: int| 0 <= i < keys.len() && keys[i] == x;
            assert(keys2[i] == x);
        }
        if x == k {
            assert(keys2[keys.len() as int] == x);
        }
    }
    assert forall|x: K| keys2.contains(x) implies #[trigger] map_of(keys2, values2)[x] == map_of(
        keys,
        values,
    ).insert(k, v)[x] by {
        let i = choose|i: int| 0 <= i < keys2.len() && keys2[i] == x;
        lemma_index_of(keys2, i);
        if i < keys.len() {
            lemma_index_of(keys, i);
        }
    }
}

/// Taking out the key at position `i` with its value removes one entry
/// from the map.
pub proof fn lemma_map_of_remove<K, V>(keys: Seq<K>, values: Seq<V>, i: int)
    requires
        keys.no_duplicates(),
        keys.len() == values.len(),
        0 <= i < keys.len(),
    ensures
        keys.remove(i).no_duplicates(),
        !keys.remove(i).contains(keys[i]),
        map_of(keys.remove(i), values.remove(i)) =~= map_of(keys, values).remove(keys[i]),
        map_of(keys, values).contains_key(keys[i]),
        map_of(keys, values)[keys[i]] == values[i],
{
    let keys2 = keys.remove(i);
    let values2 = values.remove(i);
    lemma_index_of(keys, i);
    assert forall|a: int, b: int|
        0 <= a < keys2.len() && 0 <= b < keys2.len() && a != b implies keys2[a] != keys2[b] by {
        let a0 = if a < i {
            a
        } else {
            a + 1
        };
        let b0 = if b < i {
            b
        } else {
            b + 1
        };
        assert(keys2[a] == keys[a0] && keys2[b] == keys[b0]);
    }
    assert forall|x: K| keys2.contains(x) <==> (keys.contains(x) && x != keys[i]) by {
        if keys2.contains(x) {
            let a = choose|a: int| 0 <= a < keys2.len() && keys2[a] == x;
            let a0 = if a < i {
                a
            } else {
                a + 1
            };
            assert(keys[a0] == x);
        }
        if keys.contains(x) && x != keys[i] {
            let a0 = choose|a: int| 0 <= a < keys.len() && keys[a] == x;
            let a = if a0 < i {
                a0
            } else {
                a0 - 1
            };
            assert(keys2[a] == x);
        }
    }
    assert forall|x: K| keys2.contains(x) implies #[trigger] map_of(keys2, values2)[x] == map_of(
        keys,
        values,
    ).remove(keys[i])[x] by {
        let a = choose|a: int| 0 <= a < keys2.len() && keys2[a] == x;
        let a0 = if a < i {
            a
        } else {
            a + 1
        };
        lemma_index_of(keys2, a);
        lemma_index_of(keys, a0);
    }
}

/// A map from keys to values, held as a list of entries with distinct
/// keys.
pub struct AssocList<K, V> {
    keys: Vec<K>,
    values: Vec<V>,
}

impl<K: ExactEq, V> View for AssocList<K, V> {
    type V = Map<K, V>;

    closed spec fn view(&self) -> Map<K, V> {
        map_of(self.keys@, self.values@)
    }
}

impl<K: ExactEq, V> AssocList<K, V> {
    /// The invariant of the type: no key occurs twice.
    pub closed spec fn wf(&self) -> bool {
        self.keys@.no_duplicates() && self.keys@.len() == self.values@.len()
    }

    /// The map without entries.
    pub fn new() -> (r: Self)
        ensures
            r.wf(),
            r@ == Map::<K, V>::empty(),
    {
        let r = AssocList { keys: Vec::new(), values: Vec::new() };
        assert(r@ =~= Map::<K, V>::empty());
        r
    }

    /// The position of the entry for `k`, if there is one.
    fn find(&self, k: &K) -> (r: Option<usize>)
        requires
            self.wf(),
        ensures
            match r {
                Some(i) => i < self.keys@.len() && self.keys@[i as int] == *k,
                None => !self.keys@.contains(*k),
            },
    {
        let mut i: usize = 0;
        while i < self.keys.len()
            invariant
                i <= self.keys.len(),
                forall|j: int| 0 <= j < i ==> self.keys@[j] != *k,
            decreases self.keys.len() - i,
        {
            if self.keys[i].same(k) {
                assert(self.keys@.contains(*k));
                return Some(i);
            }
            i = i + 1;
        }
        None
    }

    /// The value held for `k`, if there is one.
    pub fn get(&self, k: &K) -> (r: Option<&V>)
        requires
            self.wf(),
        ensures
            match r {
                Some(v) => self@.contains_key(*k) && *v == self@[*k],
                None => !self@.contains_key(*k),
            },
    {
        match self.find(k) {
            Some(i) => {
                proof {
                    lemma_index_of(self.keys@, i as int);
                }
                Some(&self.values[i])
            },
            None => None,
        }
    }

    /// Takes out the entry for `k`, and hands back its value if there was
    /// one.
    pub fn remove(&mut self, k: &K) -> (r: Option<V>)
        requires
            old(self).wf(),
        ensures
            final(self).wf(),
            final(self)@ == old(self)@.remove(*k),
            match r {
                Some(v) => old(self)@.contains_key(*k) && v == old(self)@[*k],
                None => !old(self)@.contains_key(*k),
            },
    {
        match self.find(k) {
            Some(i) => {
                proof {
                    lemma_map_of_remove(self.keys@, self.values@, i as int);
                }
                self.keys.remove(i);
                let v = self.values.remove(i);
                Some(v)
            },
            None => {
                assert(self@.remove(*k) =~= self@);
                None
            },
        }
    }

    /// Sets the value held for `k`, replacing an earlier one.
    pub fn insert(&mut self, k: K, v: V)
        requires
            old(self).wf(),
        ensures
            final(self).wf(),
            final(self)@ == old(self)@.insert(k, v),
    {
        let _ = self.remove(&k);
        proof {
            assert(!self@.contains_key(k));
            assert(!self.keys@.contains(k));
            lemma_map_of_push(self.keys@, self.values@, k, v);
            assert(old(self)@.remove(k).insert(k, v) =~= old(self)@.insert(k, v));
        }
        self.keys.push(k);
        self.values.push(v);
    }

    /// Takes out every entry.
    pub fn clear(&mut self)
        ensures
            final(self).wf(),
            final(self)@ == Map::<K, V>::empty(),
    {
        self.keys.clear();
        self.values.clear();
        assert(self@ =~= Map::<K, V>::empty());
    }
}

} // verus!
