//! Surrogate keys and the composite ordering key stored in every index.

use vstd::prelude::*;

verus! {

/// What a composite ordering key stands for: the creation time of an event
/// and the number of its surrogate key.
pub struct Key {
    pub timestamp: u64,
    pub sid: u64,
}

/// The order in which keys are kept and walked: the later timestamp first,
/// and among equal timestamps the smaller surrogate key first.
pub open spec fn precedes(a: Key, b: Key) -> bool {
    a.timestamp > b.timestamp || (a.timestamp == b.timestamp && a.sid < b.sid)
}

/// A sequence of keys in which each key precedes all that follow it.
pub open spec fn ordered(s: Seq<Key>) -> bool {
    forall|i: int, j: int| 0 <= i < j < s.len() ==> precedes(#[trigger] s[i], #[trigger] s[j])
}

/// The number that the first `k` bytes spell when read most significant
/// byte first.
pub open spec fn be_prefix(b: Seq<u8>, k: nat) -> nat
    decreases k,
{
    if k == 0 {
        0
    } else {
        be_prefix(b, (k - 1) as nat) * 256 + b[k - 1] as nat
    }
}

/// The number that eight bytes spell when read most significant byte first.
pub open spec fn be_value(b: Seq<u8>) -> nat
    recommends
        b.len() == 8,
{
    be_prefix(b, 8)
}

/// 256 raised to the power `k`.
pub open spec fn pow256(k: nat) -> nat
    decreases k,
{
    if k == 0 {
        1
    } else {
        256 * pow256((k - 1) as nat)
    }
}

/// Byte-wise dictionary order on the first `k` bytes of two sequences.
pub open spec fn lex_less_upto(a: Seq<u8>, b: Seq<u8>, k: nat) -> bool {
    exists|i: int| differ_first_at(a, b, k, i)
}

/// `i` is a position below `k` where `a` holds the smaller byte and before
/// which the two sequences agree.
pub open spec fn differ_first_at(a: Seq<u8>, b: Seq<u8>, k: nat, i: int) -> bool {
    0 <= i < k && a[i] < b[i] && a.take(i) == b.take(i)
}

/// Byte-wise dictionary order on eight-byte sequences.
pub open spec fn lex_less(a: Seq<u8>, b: Seq<u8>) -> bool
    recommends
        a.len() == 8,
        b.len() == 8,
{
    lex_less_upto(a, b, 8)
}

/// `k` bytes spell a number below 256 to the `k`.
pub proof fn lemma_be_prefix_bound(b: Seq<u8>, k: nat)
    requires
        k <= b.len(),
    ensures
        be_prefix(b, k) < pow256(k),
    decreases k,
{
    if k > 0 {
        lemma_be_prefix_bound(b, (k - 1) as nat);
    }
}

/// A larger exponent never gives a smaller power.
pub proof fn lemma_pow256_monotonic(j: nat, k: nat)
    requires
        j <= k,
    ensures
        pow256(j) <= pow256(k),
        pow256(j) >= 1,
    decreases k - j,
{
    if j < k {
        lemma_pow256_monotonic(j + 1, k);
    } else {
        lemma_pow256_positive(j);
    }
}

/// Every power of 256 is at least 1.
pub proof fn lemma_pow256_positive(k: nat)
    ensures
        pow256(k) >= 1,
    decreases k,
{
    if k > 0 {
        lemma_pow256_positive((k - 1) as nat);
    }
}

/// Eight bytes always spell a number that fits in 64 bits.
pub proof fn lemma_be_value_bounds(b: Seq<u8>)
    requires
        b.len() == 8,
    ensures
        be_value(b) <= u64::MAX,
{
    lemma_be_prefix_bound(b, 8);
    reveal_with_fuel(pow256, 9);
}

/// On equally long prefixes, the numbers spelled are equal exactly when
/// the bytes are, and ordered exactly as the bytes are in dictionary order.
pub proof fn lemma_prefix_order(a: Seq<u8>, b: Seq<u8>, k: nat)
    requires
        k <= a.len(),
        k <= b.len(),
    ensures
        a.take(k as int) == b.take(k as int) <==> be_prefix(a, k) == be_prefix(b, k),
        lex_less_upto(a, b, k) <==> be_prefix(a, k) < be_prefix(b, k),
    decreases k,
{
    if k == 0 {
        assert(a.take(0) =~= b.take(0));
    } else {
        let m = (k - 1) as nat;
        lemma_prefix_order(a, b, m);
        let pa = be_prefix(a, m);
        let pb = be_prefix(b, m);
        assert(a.take(k as int).take(m as int) =~= a.take(m as int));
        assert(b.take(k as int).take(m as int) =~= b.take(m as int));
        if a.take(k as int) == b.take(k as int) {
            assert(a.take(k as int)[m as int] == a[m as int]);
            assert(b.take(k as int)[m as int] == b[m as int]);
        }
        if pa == pb && a[m as int] == b[m as int] {
            assert(a.take(k as int) =~= a.take(m as int).push(a[m as int]));
            assert(b.take(k as int) =~= b.take(m as int).push(b[m as int]));
        }
        if lex_less_upto(a, b, k) {
            let i = choose|i: int| differ_first_at(a, b, k, i);
            if i < m {
                assert(differ_first_at(a, b, m, i));
            }
        }
        if pa < pb {
            let i = choose|i: int| differ_first_at(a, b, m, i);
            assert(differ_first_at(a, b, k, i));
        }
        if pa == pb && a[m as int] < b[m as int] {
            assert(differ_first_at(a, b, k, m as int));
        }
    }
}

/// Comparing two surrogate keys byte by byte gives the same answer as
/// comparing the numbers they encode.
pub proof fn lemma_lex_order_is_numeric(a: Seq<u8>, b: Seq<u8>)
    requires
        a.len() == 8,
        b.len() == 8,
    ensures
        lex_less(a, b) <==> be_value(a) < be_value(b),
        a == b <==> be_value(a) == be_value(b),
{
    lemma_prefix_order(a, b, 8);
    assert(a.take(8) =~= a);
    assert(b.take(8) =~= b);
}

/// Compact stand-in for an event identifier inside the indexes: eight
/// bytes holding a counter value, most significant byte first.
#[derive(Debug, Clone, Copy, PartialEq, Eq, PartialOrd, Ord, Hash)]
pub struct SmallerIdentifier(pub [u8; 8]);

impl View for SmallerIdentifier {
    type V = u64;

    open spec fn view(&self) -> u64 {
        be_value(self.0@) as u64
    }
}

impl SmallerIdentifier {
    /// Wraps eight bytes as a surrogate key.
    pub fn new(sid: [u8; 8]) -> (r: Self)
        ensures
            r.0 == sid,
    {
        Self(sid)
    }

    /// The surrogate key that encodes `n`.
    pub fn from_u64(n: u64) -> (r: Self)
        ensures
            r@ == n,
    {
        let q1: u64 = n / 256;
        let q2: u64 = q1 / 256;
        let q3: u64 = q2 / 256;
        let q4: u64 = q3 / 256;
        let q5: u64 = q4 / 256;
        let q6: u64 = q5 / 256;
        let q7: u64 = q6 / 256;
        let r = Self::new(
            [
                q7 as u8,
                (q6 % 256) as u8,
                (q5 % 256) as u8,
                (q4 % 256) as u8,
                (q3 % 256) as u8,
                (q2 % 256) as u8,
                (q1 % 256) as u8,
                (n % 256) as u8,
            ],
        );
        proof {
            let b = r.0@;
            assert(q7 < 256);
            assert(be_prefix(b, 0) == 0);
            assert(be_prefix(b, 1) == q7);
            assert(be_prefix(b, 2) == q6);
            assert(be_prefix(b, 3) == q5);
            assert(be_prefix(b, 4) == q4);
            assert(be_prefix(b, 5) == q3);
            assert(be_prefix(b, 6) == q2);
            assert(be_prefix(b, 7) == q1);
            assert(be_prefix(b, 8) == n);
        }
        r
    }

    /// The number that this surrogate key encodes.
    pub fn to_u64(&self) -> (n: u64)
        ensures
            n == self@,
    {
        let mut n: u64 = 0;
        let mut k: usize = 0;
        while k < 8
            invariant
                k <= 8,
                n == be_prefix(self.0@, k as nat),
            decreases 8 - k,
        {
            proof {
                lemma_be_prefix_bound(self.0@, k as nat);
                lemma_be_prefix_bound(self.0@, (k + 1) as nat);
                lemma_pow256_monotonic((k + 1) as nat, 8);
                reveal_with_fuel(pow256, 9);
            }
            n = n * 256 + self.0[k] as u64;
            k = k + 1;
        }
        proof {
            lemma_be_value_bounds(self.0@);
        }
        n
    }
}

/// The unit stored in every index: an event's creation time together with
/// its surrogate key.
#[derive(Debug, Clone, Copy, PartialEq, Eq, Hash)]
pub struct MappingIdentifier {
    pub timestamp: u64,
    pub sid: SmallerIdentifier,
}

impl View for MappingIdentifier {
    type V = Key;

    open spec fn view(&self) -> Key {
        Key { timestamp: self.timestamp, sid: self.sid@ }
    }
}

impl MappingIdentifier {
    /// Whether `self` comes strictly before `other` in index order.
    pub fn precedes(&self, other: &Self) -> (r: bool)
        ensures
            r == precedes(self@, other@),
    {
        if self.timestamp != other.timestamp {
            self.timestamp > other.timestamp
        } else {
            self.sid.to_u64() < other.sid.to_u64()
        }
    }

    /// Whether both keys stand for the same timestamp and surrogate key.
    pub fn same(&self, other: &Self) -> (r: bool)
        ensures
            r == (self@ == other@),
    {
        self.timestamp == other.timestamp && self.sid.to_u64() == other.sid.to_u64()
    }
}

} // verus!
