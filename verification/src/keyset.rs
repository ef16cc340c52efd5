//! Ordered sets of composite keys: the buckets of the indexes and the
//! candidate sets of a query.

use crate::ident::{ordered, precedes, Key, MappingIdentifier};
use vstd::prelude::*;

verus! {

/// The keys that a sequence of identifiers stands for, in the same order.
pub open spec fn keys_of(v: Seq<MappingIdentifier>) -> Seq<Key> {
    v.map_values(|m: MappingIdentifier| m@)
}

/// Appending an element adds it to the set of elements.
pub proof fn lemma_push_set(s: Seq<Key>, x: Key)
    ensures
        s.push(x).to_set() =~= s.to_set().insert(x),
{
    assert forall|k: Key| s.push(x).to_set().contains(k) <==> s.to_set().insert(x).contains(
        k,
    ) by {
        if s.push(x).contains(k) {
            let i = choose|i: int| 0 <= i < s.push(x).len() && s.push(x)[i] == k;
            if i < s.len() {
                assert(s[i] == k);
            }
        }
        if s.contains(k) {
            let i = choose|i: int| 0 <= i < s.len() && s[i] == k;
            assert(s.push(x)[i] == k);
        }
        if k == x {
            assert(s.push(x)[s.len() as int] == k);
        }
    }
}

/// Inserting an element anywhere adds it to the set of elements.
pub proof fn lemma_insert_set(s: Seq<Key>, p: int, x: Key)
    requires
        0 <= p <= s.len(),
    ensures
        s.insert(p, x).to_set() =~= s.to_set().insert(x),
{
    let after = s.insert(p, x);
    assert forall|k: Key| after.to_set().contains(k) <==> s.to_set().insert(x).contains(k) by {
        if after.contains(k) {
            let i = choose|i: int| 0 <= i < after.len() && after[i] == k;
            if i < p {
                assert(s[i] == k);
            } else if i > p {
                assert(s[i - 1] == k);
            }
        }
        if s.contains(k) {
            let i = choose|i: int| 0 <= i < s.len() && s[i] == k;
            if i < p {
                assert(after[i] == k);
            } else {
                assert(after[i + 1] == k);
            }
        }
        if k == x {
            assert(after[p] == k);
        }
    }
}

/// An ordered sequence holds no key twice.
pub proof fn lemma_ordered_distinct(s: Seq<Key>)
    requires
        ordered(s),
    ensures
        s.no_duplicates(),
{
    assert forall|i: int, j: int| 0 <= i < s.len() && 0 <= j < s.len() && i != j implies s[i]
        != s[j] by {
        if i < j {
            assert(precedes(s[i], s[j]));
        } else {
            assert(precedes(s[j], s[i]));
        }
    }
}

/// Lengthening a prefix by one adds the next element to its set.
pub proof fn lemma_take_step(s: Seq<Key>, i: int)
    requires
        0 <= i < s.len(),
    ensures
        s.take(i + 1).to_set() =~= s.take(i).to_set().insert(s[i]),
{
    assert(s.take(i + 1) =~= s.take(i).push(s[i]));
    lemma_push_set(s.take(i), s[i]);
}

/// Two ordered sequences with the same elements are the same sequence.
pub proof fn lemma_ordered_unique(s: Seq<Key>, t: Seq<Key>)
    requires
        ordered(s),
        ordered(t),
        s.to_set() == t.to_set(),
    ensures
        s == t,
    decreases s.len(),
{
    if s.len() == 0 {
        if t.len() > 0 {
            assert(t.contains(t[0]));
            assert(t.to_set().contains(t[0]));
            assert(s.contains(t[0]));
        }
        assert(s =~= t);
    } else if t.len() == 0 {
        assert(s.contains(s[0]));
        assert(s.to_set().contains(s[0]));
        assert(t.contains(s[0]));
    } else {
        assert(s.contains(s[0]));
        assert(t.contains(t[0]));
        assert(s.to_set().contains(s[0]));
        assert(t.to_set().contains(t[0]));
        assert(t.contains(s[0]));
        assert(s.contains(t[0]));
        let q = choose|q: int| 0 <= q < t.len() && t[q] == s[0];
        let p = choose|p: int| 0 <= p < s.len() && s[p] == t[0];
        assert(s[0] == t[0]) by {
            if p > 0 && q > 0 {
                assert(precedes(s[0], s[p]));
                assert(precedes(t[0], t[q]));
            }
        }
        let s1 = s.skip(1);
        let t1 = t.skip(1);
        assert(ordered(s1)) by {
            assert forall|i: int, j: int| 0 <= i < j < s1.len() implies precedes(
                #[trigger] s1[i],
                #[trigger] s1[j],
            ) by {
                assert(precedes(s[i + 1], s[j + 1]));
            }
        }
        assert(ordered(t1)) by {
            assert forall|i: int, j: int| 0 <= i < j < t1.len() implies precedes(
                #[trigger] t1[i],
                #[trigger] t1[j],
            ) by {
                assert(precedes(t[i + 1], t[j + 1]));
            }
        }
        assert forall|k: Key| s1.to_set().contains(k) <==> t1.to_set().contains(k) by {
            if s1.contains(k) {
                let i = choose|i: int| 0 <= i < s1.len() && s1[i] == k;
                assert(s[i + 1] == k);
                assert(precedes(s[0], s[i + 1]));
                assert(s.contains(k));
                assert(s.to_set().contains(k));
                assert(t.contains(k));
                let j = choose|j: int| 0 <= j < t.len() && t[j] == k;
                assert(t1[j - 1] == k);
            }
            if t1.contains(k) {
                let i = choose|i: int| 0 <= i < t1.len() && t1[i] == k;
                assert(t[i + 1] == k);
                assert(precedes(t[0], t[i + 1]));
                assert(t.contains(k));
                assert(t.to_set().contains(k));
                assert(s.contains(k));
                let j = choose|j: int| 0 <= j < s.len() && s[j] == k;
                assert(s1[j - 1] == k);
            }
        }
        assert(s1.to_set() =~= t1.to_set());
        lemma_ordered_unique(s1, t1);
        assert(s =~= seq![s[0]] + s1);
        assert(t =~= seq![t[0]] + t1);
    }
}

/// Whether a timestamp lies within the bounds that are given; both bounds
/// are inclusive, and an absent bound admits everything on its side.
pub open spec fn in_range(t: u64, since: Option<u64>, until: Option<u64>) -> bool {
    (since matches Some(s) ==> s <= t) && (until matches Some(u) ==> t <= u)
}

/// The keys of `all` whose timestamp lies within the bounds.
pub open spec fn time_matches(all: Set<Key>, since: Option<u64>, until: Option<u64>) -> Set<Key> {
    Set::new(|k: Key| all.contains(k) && in_range(k.timestamp, since, until))
}

/// A set of composite keys, kept in index order: newest first, and among
/// equal timestamps by ascending surrogate key.
#[derive(Debug, Clone)]
pub struct KeySet {
    keys: Vec<MappingIdentifier>,
}

impl View for KeySet {
    type V = Seq<Key>;

    closed spec fn view(&self) -> Seq<Key> {
        keys_of(self.keys@)
    }
}

impl KeySet {
    /// The invariant of the type: the keys are in index order, so none
    /// occurs twice.
    pub open spec fn wf(&self) -> bool {
        ordered(self@)
    }

    /// The keys held, without their order.
    pub open spec fn set(&self) -> Set<Key> {
        self@.to_set()
    }

    /// The empty set.
    pub fn new() -> (r: Self)
        ensures
            r.wf(),
            r@ == Seq::<Key>::empty(),
    {
        let r = KeySet { keys: Vec::new() };
        assert(r@ =~= Seq::<Key>::empty());
        r
    }

    /// How many keys are held.
    pub fn len(&self) -> (n: usize)
        ensures
            n == self@.len(),
    {
        self.keys.len()
    }

    /// Whether no key is held.
    pub fn is_empty(&self) -> (r: bool)
        ensures
            r == (self@.len() == 0),
    {
        self.keys.len() == 0
    }

    /// The key at position `i` of the index order.
    pub fn get(&self, i: usize) -> (r: MappingIdentifier)
        requires
            i < self@.len(),
        ensures
            r@ == self@[i as int],
    {
        self.keys[i]
    }

    /// The number of keys held that come strictly before `key`.
    pub fn rank(&self, key: &MappingIdentifier) -> (p: usize)
        requires
            self.wf(),
        ensures
            p <= self@.len(),
            forall|t: int| 0 <= t < p ==> precedes(#[trigger] self@[t], key@),
            forall|t: int| p <= t < self@.len() ==> !precedes(#[trigger] self@[t], key@),
    {
        let mut lo: usize = 0;
        let mut hi: usize = self.keys.len();
        while lo < hi
            invariant
                lo <= hi <= self@.len(),
                self@.len() == self.keys.len(),
                self.wf(),
                forall|t: int| 0 <= t < lo ==> precedes(#[trigger] self@[t], key@),
                forall|t: int| hi <= t < self@.len() ==> !precedes(#[trigger] self@[t], key@),
            decreases hi - lo,
        {
            let mid: usize = lo + (hi - lo) / 2;
            if self.keys[mid].precedes(key) {
                assert forall|t: int| 0 <= t < mid + 1 implies precedes(
                    #[trigger] self@[t],
                    key@,
                ) by {
                    if t < mid {
                        assert(precedes(self@[t], self@[mid as int]));
                    }
                }
                lo = mid + 1;
            } else {
                assert forall|t: int| mid <= t < self@.len() implies !precedes(
                    #[trigger] self@[t],
                    key@,
                ) by {
                    if t > mid {
                        assert(precedes(self@[mid as int], self@[t]));
                    }
                }
                hi = mid;
            }
        }
        lo
    }

    /// Whether `key` is held.
    pub fn contains(&self, key: &MappingIdentifier) -> (r: bool)
        requires
            self.wf(),
        ensures
            r == self.set().contains(key@),
    {
        let p = self.rank(key);
        let r = p < self.keys.len() && self.keys[p].same(key);
        proof {
            if self@.contains(key@) {
                let q = choose|q: int| 0 <= q < self@.len() && self@[q] == key@;
                if q > p {
                    assert(precedes(self@[p as int], self@[q]));
                }
            }
            if r {
                assert(self@[p as int] == key@);
            }
        }
        r
    }

    /// Where `key` stands, if it is held.
    pub fn position(&self, key: &MappingIdentifier) -> (r: Option<usize>)
        requires
            self.wf(),
        ensures
            match r {
                Some(p) => p < self@.len() && self@[p as int] == key@,
                None => !self@.contains(key@),
            },
    {
        let p = self.rank(key);
        if p < self.keys.len() && self.keys[p].same(key) {
            Some(p)
        } else {
            proof {
                if self@.contains(key@) {
                    let q = choose|q: int| 0 <= q < self@.len() && self@[q] == key@;
                    if q > p {
                        assert(precedes(self@[p as int], self@[q]));
                    }
                }
            }
            None
        }
    }

    /// Adds `key`, and says where it now stands and whether it was new.
    pub fn place(&mut self, key: MappingIdentifier) -> (r: (usize, bool))
        requires
            old(self).wf(),
        ensures
            final(self).wf(),
            r.0 <= old(self)@.len(),
            r.0 < final(self)@.len(),
            final(self)@[r.0 as int] == key@,
            r.1 == !old(self)@.contains(key@),
            r.1 ==> final(self)@ == old(self)@.insert(r.0 as int, key@),
            !r.1 ==> final(self)@ == old(self)@,
    {
        let p = self.rank(&key);
        let ghost before = self@;
        if p < self.keys.len() && self.keys[p].same(&key) {
            (p, false)
        } else {
            self.keys.insert(p, key);
            proof {
                let after = self@;
                assert(after =~= before.insert(p as int, key@));
                if before.contains(key@) {
                    let q = choose|q: int| 0 <= q < before.len() && before[q] == key@;
                    if q > p {
                        assert(precedes(before[p as int], before[q]));
                    }
                }
                assert forall|i: int, j: int| 0 <= i < j < after.len() implies precedes(
                    #[trigger] after[i],
                    #[trigger] after[j],
                ) by {
                    if j < p {
                        assert(precedes(before[i], before[j]));
                    } else if j == p {
                        assert(precedes(before[i], key@));
                    } else if i < p {
                        assert(precedes(before[i], before[j - 1]));
                    } else if i == p {
                        assert(!precedes(before[j - 1], key@));
                        assert(!precedes(before[p as int], key@));
                        if j - 1 > p {
                            assert(precedes(before[p as int], before[j - 1]));
                        }
                    } else {
                        assert(precedes(before[i - 1], before[j - 1]));
                    }
                }
            }
            (p, true)
        }
    }

    /// Adds `key`, and says whether it was new.
    pub fn insert(&mut self, key: MappingIdentifier) -> (added: bool)
        requires
            old(self).wf(),
        ensures
            final(self).wf(),
            final(self).set() == old(self).set().insert(key@),
            added == !old(self).set().contains(key@),
    {
        let (p, added) = self.place(key);
        proof {
            if added {
                lemma_insert_set(old(self)@, p as int, key@);
            } else {
                assert(old(self)@.to_set().insert(key@) =~= old(self)@.to_set());
            }
        }
        added
    }

    /// The keys held by `self` or by `other`.
    pub fn union(&self, other: &KeySet) -> (r: KeySet)
        requires
            self.wf(),
            other.wf(),
        ensures
            r.wf(),
            r.set() == self.set().union(other.set()),
    {
        let n: usize = self.keys.len();
        let m: usize = other.keys.len();
        let mut out: Vec<MappingIdentifier> = Vec::new();
        let mut i: usize = 0;
        let mut j: usize = 0;
        proof {
            assert(keys_of(out@).to_set() =~= self@.take(0).to_set().union(
                other@.take(0).to_set(),
            ));
        }
        while i < n || j < m
            invariant
                i <= n,
                j <= m,
                n == self.keys.len(),
                m == other.keys.len(),
                n == self@.len(),
                m == other@.len(),
                self.wf(),
                other.wf(),
                ordered(keys_of(out@)),
                forall|t: int, p: int|
                    0 <= t < out.len() && i <= p < n ==> precedes(
                        #[trigger] keys_of(out@)[t],
                        #[trigger] self@[p],
                    ),
                forall|t: int, q: int|
                    0 <= t < out.len() && j <= q < m ==> precedes(
                        #[trigger] keys_of(out@)[t],
                        #[trigger] other@[q],
                    ),
                keys_of(out@).to_set() =~= self@.take(i as int).to_set().union(
                    other@.take(j as int).to_set(),
                ),
            decreases (n - i) + (m - j),
        {
            let ghost prev = keys_of(out@);
            let left: bool = j >= m || (i < n && !other.keys[j].precedes(&self.keys[i]));
            let right: bool = i >= n || (j < m && !self.keys[i].precedes(&other.keys[j]));
            let next: MappingIdentifier = if left {
                self.keys[i]
            } else {
                other.keys[j]
            };
            proof {
                if left && right {
                    assert(self@[i as int] == other@[j as int]);
                }
                if left {
                    lemma_take_step(self@, i as int);
                    assert(next@ == self@[i as int]);
                }
                if right {
                    lemma_take_step(other@, j as int);
                    assert(next@ == other@[j as int]);
                }
                lemma_push_set(prev, next@);
                assert(keys_of(out@.push(next)) =~= prev.push(next@));
                assert forall|p: int| i <= p < n && !(left && p == i) implies precedes(
                    next@,
                    #[trigger] self@[p],
                ) by {
                    if left {
                        assert(precedes(self@[i as int], self@[p]));
                    } else {
                        assert(precedes(other@[j as int], self@[i as int]));
                        if p > i {
                            assert(precedes(self@[i as int], self@[p]));
                        }
                    }
                }
                assert forall|q: int| j <= q < m && !(right && q == j) implies precedes(
                    next@,
                    #[trigger] other@[q],
                ) by {
                    if right {
                        assert(precedes(other@[j as int], other@[q]));
                    } else {
                        assert(precedes(self@[i as int], other@[j as int]));
                        if q > j {
                            assert(precedes(other@[j as int], other@[q]));
                        }
                    }
                }
                assert forall|a: int, b: int| 0 <= a < b < prev.push(next@).len() implies precedes(
                    #[trigger] prev.push(next@)[a],
                    #[trigger] prev.push(next@)[b],
                ) by {
                    if b < prev.len() {
                        assert(precedes(prev[a], prev[b]));
                    } else if left {
                        assert(precedes(prev[a], self@[i as int]));
                    } else {
                        assert(precedes(prev[a], other@[j as int]));
                    }
                }
            }
            out.push(next);
            if left {
                i = i + 1;
            }
            if right {
                j = j + 1;
            }
        }
        let r = KeySet { keys: out };
        proof {
            assert(self@.take(n as int) =~= self@);
            assert(other@.take(m as int) =~= other@);
        }
        r
    }

    /// The keys held by both `self` and `other`.
    pub fn intersection(&self, other: &KeySet) -> (r: KeySet)
        requires
            self.wf(),
            other.wf(),
        ensures
            r.wf(),
            r.set() == self.set().intersect(other.set()),
    {
        let n: usize = self.keys.len();
        let m: usize = other.keys.len();
        let mut out: Vec<MappingIdentifier> = Vec::new();
        let mut i: usize = 0;
        let mut j: usize = 0;
        while i < n && j < m
            invariant
                i <= n,
                j <= m,
                n == self.keys.len(),
                m == other.keys.len(),
                n == self@.len(),
                m == other@.len(),
                self.wf(),
                other.wf(),
                ordered(keys_of(out@)),
                forall|t: int, p: int|
                    0 <= t < out.len() && i <= p < n ==> precedes(
                        #[trigger] keys_of(out@)[t],
                        #[trigger] self@[p],
                    ),
                forall|k: Key|
                    keys_of(out@).to_set().contains(k) ==> self@.contains(k) && other@.contains(
                        k,
                    ),
                forall|p: int, q: int|
                    0 <= p < n && 0 <= q < m && #[trigger] self@[p] == #[trigger] other@[q]
                        ==> keys_of(out@).to_set().contains(self@[p]) || (p >= i && q >= j),
            decreases (n - i) + (m - j),
        {
            let ghost prev = keys_of(out@);
            let a: MappingIdentifier = self.keys[i];
            let b: MappingIdentifier = other.keys[j];
            if a.precedes(&b) {
                proof {
                    assert forall|p: int, q: int|
                        0 <= p < n && 0 <= q < m && #[trigger] self@[p] == #[trigger] other@[q]
                            && !prev.to_set().contains(self@[p]) implies p >= i + 1 && q >= j by {
                        if p == i && q > j {
                            assert(precedes(other@[j as int], other@[q]));
                        }
                    }
                }
                i = i + 1;
            } else if b.precedes(&a) {
                proof {
                    assert forall|p: int, q: int|
                        0 <= p < n && 0 <= q < m && #[trigger] self@[p] == #[trigger] other@[q]
                            && !prev.to_set().contains(self@[p]) implies p >= i && q >= j + 1 by {
                        if q == j && p > i {
                            assert(precedes(self@[i as int], self@[p]));
                        }
                    }
                }
                j = j + 1;
            } else {
                proof {
                    assert(self@[i as int] == other@[j as int]);
                    assert(self@.contains(a@));
                    assert(other@.contains(a@));
                    lemma_push_set(prev, a@);
                    assert(keys_of(out@.push(a)) =~= prev.push(a@));
                    assert forall|x: int, y: int|
                        0 <= x < y < prev.push(a@).len() implies precedes(
                        #[trigger] prev.push(a@)[x],
                        #[trigger] prev.push(a@)[y],
                    ) by {
                        if y < prev.len() {
                            assert(precedes(prev[x], prev[y]));
                        } else {
                            assert(precedes(prev[x], self@[i as int]));
                        }
                    }
                    assert forall|t: int, p: int|
                        0 <= t < prev.push(a@).len() && i + 1 <= p < n implies precedes(
                        #[trigger] prev.push(a@)[t],
                        #[trigger] self@[p],
                    ) by {
                        if t < prev.len() {
                            assert(precedes(prev[t], self@[p]));
                        } else {
                            assert(precedes(self@[i as int], self@[p]));
                        }
                    }
                }
                out.push(a);
                i = i + 1;
                j = j + 1;
            }
        }
        let r = KeySet { keys: out };
        proof {
            assert forall|k: Key| r@.to_set().contains(k) <==> self@.to_set().intersect(
                other@.to_set(),
            ).contains(k) by {
                if self@.contains(k) && other@.contains(k) {
                    let p = choose|p: int| 0 <= p < self@.len() && self@[p] == k;
                    let q = choose|q: int| 0 <= q < other@.len() && other@[q] == k;
                    assert(self@[p] == other@[q]);
                }
            }
            assert(r@.to_set() =~= self@.to_set().intersect(other@.to_set()));
        }
        r
    }

    /// The keys held whose timestamp lies within the bounds.
    pub fn within(&self, since: Option<u64>, until: Option<u64>) -> (r: KeySet)
        requires
            self.wf(),
        ensures
            r.wf(),
            r.set() == time_matches(self.set(), since, until),
    {
        let n: usize = self.keys.len();
        let mut out: Vec<MappingIdentifier> = Vec::new();
        let mut i: usize = 0;
        proof {
            assert(keys_of(out@).to_set() =~= time_matches(
                self@.take(0).to_set(),
                since,
                until,
            ));
        }
        while i < n
            invariant
                i <= n,
                n == self.keys.len(),
                n == self@.len(),
                self.wf(),
                ordered(keys_of(out@)),
                forall|t: int, p: int|
                    0 <= t < out.len() && i <= p < n ==> precedes(
                        #[trigger] keys_of(out@)[t],
                        #[trigger] self@[p],
                    ),
                keys_of(out@).to_set() =~= time_matches(
                    self@.take(i as int).to_set(),
                    since,
                    until,
                ),
            decreases n - i,
        {
            let ghost prev = keys_of(out@);
            let k: MappingIdentifier = self.keys[i];
            let after: bool = match since {
                Some(s) => s <= k.timestamp,
                None => true,
            };
            let before: bool = match until {
                Some(u) => k.timestamp <= u,
                None => true,
            };
            proof {
                lemma_take_step(self@, i as int);
            }
            if after && before {
                proof {
                    lemma_push_set(prev, k@);
                    assert(keys_of(out@.push(k)) =~= prev.push(k@));
                    assert forall|x: int, y: int|
                        0 <= x < y < prev.push(k@).len() implies precedes(
                        #[trigger] prev.push(k@)[x],
                        #[trigger] prev.push(k@)[y],
                    ) by {
                        if y < prev.len() {
                            assert(precedes(prev[x], prev[y]));
                        } else {
                            assert(precedes(prev[x], self@[i as int]));
                        }
                    }
                    assert forall|t: int, p: int|
                        0 <= t < prev.push(k@).len() && i + 1 <= p < n implies precedes(
                        #[trigger] prev.push(k@)[t],
                        #[trigger] self@[p],
                    ) by {
                        if t < prev.len() {
                            assert(precedes(prev[t], self@[p]));
                        } else {
                            assert(precedes(self@[i as int], self@[p]));
                        }
                    }
                }
                out.push(k);
            }
            i = i + 1;
        }
        proof {
            assert(self@.take(n as int) =~= self@);
        }
        KeySet { keys: out }
    }
}

} // verus!
