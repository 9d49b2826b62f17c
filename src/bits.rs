//! Sets of bit positions of a codepoint, used as hash functions.
use vstd::prelude::*;
use vstd::arithmetic::power2::{pow2, lemma_pow2_unfold, lemma2_to64};
use vstd::bits::{lemma_usize_shr_is_div, lemma_usize_shl_is_mul, lemma_usize_pow2_no_overflow};

verus! {

/// An upper bound on the bits needed to represent any Unicode codepoint:
/// every codepoint is below `2^UNICODE_BITS`.
pub const UNICODE_BITS: u8 = 21;

/// The indices are strictly ascending and each is a bit of a codepoint.
pub open spec fn valid_indices(s: Seq<u8>) -> bool {
    &&& forall|i: int, j: int| 0 <= i < j < s.len() ==> s[i] < s[j]
    &&& forall|i: int| 0 <= i < s.len() ==> s[i] < UNICODE_BITS
}

/// The elements of `a` that are not in `b`, in the order of `a`.
pub open spec fn minus(a: Seq<u8>, b: Seq<u8>) -> Seq<u8> {
    a.filter(|x: u8| !b.contains(x))
}

/// Bit `k` of `t`.
pub open spec fn bit_of(t: nat, k: nat) -> nat {
    (t / pow2(k)) % 2
}

/// The bits of `t` at the positions `s`, packed into the low bits of the
/// result: position `s[i]` of `t` becomes bit `i`.
pub open spec fn extracted(s: Seq<u8>, t: nat) -> nat
    decreases s.len(),
{
    if s.len() == 0 {
        0
    } else {
        extracted(s.drop_last(), t) + bit_of(t, s.last() as nat) * pow2((s.len() - 1) as nat)
    }
}

/// The number of places where two neighbouring positions of `s` are not
/// adjacent.
pub open spec fn gaps(s: Seq<u8>) -> nat
    decreases s.len(),
{
    if s.len() < 2 {
        0
    } else {
        gaps(s.drop_last()) + if s.last() > s[s.len() - 2] + 1 { 1nat } else { 0nat }
    }
}

/// A set of bit positions of a codepoint, kept in ascending order.
pub struct Bits {
    indices: Vec<u8>,
}

impl View for Bits {
    type V = Seq<u8>;

    closed spec fn view(&self) -> Seq<u8> {
        self.indices@
    }
}

pub proof fn lemma_extracted_bound(s: Seq<u8>, t: nat)
    ensures
        extracted(s, t) < pow2(s.len()),
    decreases s.len(),
{
    lemma2_to64();
    if s.len() > 0 {
        lemma_pow2_unfold(s.len());
        lemma_extracted_bound(s.drop_last(), t);
        assert(bit_of(t, s.last() as nat) <= 1);
        assert(bit_of(t, s.last() as nat) * pow2((s.len() - 1) as nat) <= pow2((s.len() - 1) as nat))
            by (nonlinear_arith)
            requires
                bit_of(t, s.last() as nat) <= 1,
        ;
    }
}

proof fn lemma_or_is_add(r: usize, b: usize, i: usize)
    requires
        b <= 1,
        i < 32,
        r < (1usize << i),
    ensures
        r | (b << i) == r + (b << i),
        b << i == if b == 0 { 0usize } else { 1usize << i },
{
    assert(r | (b << i) == r + (b << i) && b << i == if b == 0 { 0usize } else { 1usize << i })
        by (bit_vector)
        requires
            b <= 1,
            i < 32,
            r < (1usize << i),
    ;
}

impl Bits {
    pub open spec fn wf(&self) -> bool {
        valid_indices(self@)
    }

    /// The set `{lo, lo + 1, ..., hi - 1}`.
    pub fn range(lo: u8, hi: u8) -> (r: Bits)
        requires
            lo <= hi <= UNICODE_BITS,
        ensures
            r.wf(),
            r@.len() == hi - lo,
            forall|i: int| 0 <= i < r@.len() ==> r@[i] == lo + i,
    {
        let mut indices: Vec<u8> = Vec::new();
        let mut b: u8 = lo;
        while b < hi
            invariant
                lo <= b <= hi <= UNICODE_BITS,
                indices@.len() == b - lo,
                forall|i: int| 0 <= i < indices@.len() ==> indices@[i] == lo + i,
            decreases hi - b,
        {
            indices.push(b);
            b = b + 1;
        }
        Bits { indices }
    }

    /// The set holding the given positions, or `None` where they are not
    /// strictly ascending or one is not a bit of a codepoint.
    pub fn from_indices(indices: Vec<u8>) -> (r: Option<Bits>)
        ensures
            r is Some <==> valid_indices(indices@),
            r matches Some(b) ==> b.wf() && b@ == indices@,
    {
        let mut i: usize = 0;
        while i < indices.len()
            invariant
                i <= indices@.len(),
                forall|a: int, c: int| 0 <= a < c < i ==> indices@[a] < indices@[c],
                forall|a: int| 0 <= a < i ==> indices@[a] < UNICODE_BITS,
            decreases indices@.len() - i,
        {
            if indices[i] >= UNICODE_BITS || (i > 0 && indices[i - 1] >= indices[i]) {
                assert(!valid_indices(indices@)) by {
                    if i > 0 && indices@[i - 1] >= indices@[i as int] {
                        assert(!(indices@[i - 1] < indices@[i as int]));
                    }
                }
                return None;
            }
            assert forall|a: int, c: int| 0 <= a < c < i + 1 implies indices@[a] < indices@[c] by {
                if c == i && a < i - 1 {
                    assert(indices@[a] < indices@[i - 1]);
                }
            }
            i = i + 1;
        }
        Some(Bits { indices })
    }

    /// The positions of `self` that are not in `sub`, in ascending order.
    pub fn without(&self, sub: &Bits) -> (r: Bits)
        requires
            self.wf(),
            sub.wf(),
        ensures
            r.wf(),
            r@ == minus(self@, sub@),
    {
        let ghost pred = |x: u8| !sub@.contains(x);
        let mut out_indices: Vec<u8> = Vec::with_capacity(self.indices.len());
        let mut si: usize = 0;
        let mut i: usize = 0;
        while i < self.indices.len()
            invariant
                self.wf(),
                sub.wf(),
                pred == (|x: u8| !sub@.contains(x)),
                i <= self@.len(),
                si <= sub@.len(),
                out_indices@ == self@.take(i as int).filter(pred),
                forall|k: int| 0 <= k < si ==> i < self@.len() ==> sub@[k] < self@[i as int],
                forall|k: int| 0 <= k < si ==> #[trigger] sub@[k] < UNICODE_BITS,
                forall|k: int| 0 <= k < out_indices@.len() ==> self@.take(i as int).contains(#[trigger] out_indices@[k]),
            decreases self@.len() - i,
        {
            let index = self.indices[i];
            while si < sub.indices.len() && sub.indices[si] < index
                invariant
                    sub.wf(),
                    si <= sub@.len(),
                    forall|k: int| 0 <= k < si ==> sub@[k] < index,
                decreases sub@.len() - si,
            {
                si = si + 1;
            }
            let keep = si >= sub.indices.len() || sub.indices[si] != index;
            proof {
                assert(keep == pred(index)) by {
                    if keep {
                        assert forall|k: int| 0 <= k < sub@.len() implies sub@[k] != index by {
                            if k >= si {
                                if si < sub@.len() {
                                    assert(sub@[si as int] >= index);
                                    if k > si {
                                        assert(sub@[si as int] < sub@[k]);
                                    }
                                }
                            }
                        }
                    } else {
                        assert(sub@[si as int] == index);
                    }
                }
                assert(self@.take(i + 1).drop_last() =~= self@.take(i as int));
                reveal(Seq::filter);
            }
            if keep {
                out_indices.push(index);
            }
            proof {
                assert forall|k: int| 0 <= k < si && i + 1 < self@.len() implies sub@[k] < self@[i + 1] by {
                    assert(self@[i as int] < self@[i + 1]);
                }
                assert forall|k: int| 0 <= k < out_indices@.len() implies self@.take(i + 1).contains(#[trigger] out_indices@[k]) by {
                    if k < out_indices@.len() - 1 || !keep {
                        let x = out_indices@[k];
                        assert(self@.take(i as int).contains(x));
                        let j = choose|j: int| 0 <= j < i && self@.take(i as int)[j] == x;
                        assert(self@.take(i + 1)[j] == x);
                    } else {
                        assert(self@.take(i + 1)[i as int] == index);
                    }
                }
            }
            i = i + 1;
        }
        assert(self@.take(i as int) =~= self@);
        proof {
            let r = out_indices@;
            assert forall|a: int, c: int| 0 <= a < c < r.len() implies r[a] < r[c] by {
                lemma_filter_ascending(self@, pred, a, c);
            }
            assert forall|a: int| 0 <= a < r.len() implies r[a] < UNICODE_BITS by {
                assert(self@.contains(r[a]));
            }
        }
        Bits { indices: out_indices }
    }

    /// The positions, ascending.
    pub fn indices(&self) -> (r: &[u8])
        ensures
            r@ == self@,
    {
        self.indices.as_slice()
    }

    /// The number of positions in the set.
    pub fn count(&self) -> (r: usize)
        ensures
            r == self@.len(),
    {
        self.indices.len()
    }

    /// Copies the bits of `target` at the positions of `self` into the low
    /// bits of the result, lowest position first; all other bits are zero.
    pub fn extract(&self, target: usize) -> (r: usize)
        requires
            self.wf(),
        ensures
            r == extracted(self@, target as nat),
            r < pow2(self@.len()),
    {
        let mut result: usize = 0;
        let mut i: usize = 0;
        proof {
            lemma_bits_len(self@);
            lemma2_to64();
        }
        while i < self.indices.len()
            invariant
                self.wf(),
                self@.len() <= UNICODE_BITS,
                i <= self@.len(),
                result == extracted(self@.take(i as int), target as nat),
                result < pow2(i as nat),
            decreases self@.len() - i,
        {
            let bit_index = self.indices[i];
            let b: usize = (target >> bit_index) & 1;
            proof {
                lemma_usize_shr_is_div(target, bit_index as usize);
                assert(((target >> bit_index) & 1) == (target >> bit_index) % 2) by (bit_vector);
                assert(b == bit_of(target as nat, bit_index as nat));
                lemma_usize_pow2_no_overflow(i as nat);
                lemma_usize_shl_is_mul(1, i);
                lemma_or_is_add(result, b, i);
                assert(self@.take(i + 1).drop_last() =~= self@.take(i as int));
                lemma_pow2_unfold((i + 1) as nat);
                let p = pow2(i as nat);
                assert(self@.take(i + 1).last() == bit_index);
                if b == 0 {
                    assert(b * p == 0);
                } else {
                    assert(b * p == p);
                }
            }
            result = result | (b << i);
            i = i + 1;
        }
        assert(self@.take(i as int) =~= self@);
        result
    }

    /// The number of places where two neighbouring positions are not adjacent.
    pub fn discontinuities(&self) -> (r: usize)
        requires
            self.wf(),
        ensures
            r == gaps(self@),
    {
        let mut discontinuities: usize = 0;
        let mut i: usize = 1;
        proof {
            lemma_gaps_bound(self@);
        }
        if self.indices.len() == 0 {
            return 0;
        }
        while i < self.indices.len()
            invariant
                self.wf(),
                1 <= i <= self@.len(),
                discontinuities == gaps(self@.take(i as int)),
                gaps(self@.take(i as int)) < i,
            decreases self@.len() - i,
        {
            proof {
                assert(self@.take(i + 1).drop_last() =~= self@.take(i as int));
            }
            if self.indices[i] > self.indices[i - 1] + 1 {
                discontinuities = discontinuities + 1;
            }
            i = i + 1;
        }
        assert(self@.take(i as int) =~= self@);
        discontinuities
    }
}

pub proof fn lemma_bits_wf_len(b: &Bits)
    requires
        b.wf(),
    ensures
        b@.len() <= UNICODE_BITS,
{
    lemma_bits_len(b@);
}

proof fn lemma_bits_len(s: Seq<u8>)
    requires
        valid_indices(s),
    ensures
        s.len() <= UNICODE_BITS,
{
    if s.len() > UNICODE_BITS {
        assert forall|i: int| 0 <= i < s.len() implies s[i] >= i by {
            lemma_ascending_at_least(s, i);
        }
        assert(s[UNICODE_BITS as int] >= UNICODE_BITS);
    }
}

proof fn lemma_ascending_at_least(s: Seq<u8>, i: int)
    requires
        valid_indices(s),
        0 <= i < s.len(),
    ensures
        s[i] >= i,
    decreases i,
{
    if i > 0 {
        lemma_ascending_at_least(s, i - 1);
    }
}

proof fn lemma_gaps_bound(s: Seq<u8>)
    ensures
        s.len() > 0 ==> gaps(s) < s.len(),
    decreases s.len(),
{
    if s.len() > 1 {
        lemma_gaps_bound(s.drop_last());
    }
}

proof fn lemma_filter_ascending(s: Seq<u8>, pred: spec_fn(u8) -> bool, a: int, c: int)
    requires
        forall|i: int, j: int| 0 <= i < j < s.len() ==> s[i] < s[j],
        0 <= a < c < s.filter(pred).len(),
    ensures
        s.filter(pred)[a] < s.filter(pred)[c],
    decreases s.len(),
{
    reveal(Seq::filter);
    let sub = s.drop_last().filter(pred);
    if pred(s.last()) && c == sub.len() {
        broadcast use Seq::lemma_filter_contains_rev;
        assert(sub.contains(sub[a]));
        assert(s.drop_last().contains(sub[a]));
    } else {
        lemma_filter_ascending(s.drop_last(), pred, a, c);
    }
}

/// The binomial coefficient `n` choose `k`.
pub open spec fn binom(n: nat, k: nat) -> nat
    decreases n,
{
    if k == 0 {
        1
    } else if n == 0 {
        0
    } else {
        binom((n - 1) as nat, (k - 1) as nat) + binom((n - 1) as nat, k)
    }
}

/// `c` lists positions below `n`, strictly ascending.
pub open spec fn is_combination(c: Seq<usize>, n: nat) -> bool {
    &&& forall|a: int, b: int| 0 <= a < b < c.len() ==> c[a] < c[b]
    &&& forall|a: int| 0 <= a < c.len() ==> c[a] < n
}

/// The colexicographic rank of the positions `c[j..]`: the sum of
/// `c[m]` choose `m + 1` over those positions.
pub open spec fn rank_from(c: Seq<usize>, j: int) -> nat
    decreases c.len() - j,
{
    if 0 <= j < c.len() {
        binom(c[j] as nat, (j + 1) as nat) + rank_from(c, j + 1)
    } else {
        0
    }
}

/// The same sum over the first `n` positions of `c`.
pub open spec fn head_rank(c: Seq<usize>, n: int) -> nat
    decreases n,
{
    if 0 < n <= c.len() {
        head_rank(c, n - 1) + binom(c[n - 1] as nat, n as nat)
    } else {
        0
    }
}

/// Where each element of `sub` stands in `bits`.
pub open spec fn positions(bits: Seq<u8>, sub: Seq<u8>) -> Seq<usize> {
    sub.map_values(|x: u8| bits.index_of(x) as usize)
}

/// The colexicographic rank of the subset `sub` of `bits`: distinct ranks
/// mean distinct subsets.
pub open spec fn subset_rank(bits: Seq<u8>, sub: Seq<u8>) -> nat {
    rank_from(positions(bits, sub), 0)
}

/// `sub` is a `k`-element subset of `bits`, ascending.
pub open spec fn is_subset_of(sub: Seq<u8>, bits: Seq<u8>, k: nat) -> bool {
    &&& valid_indices(sub)
    &&& sub.len() == k
    &&& forall|j: int| 0 <= j < sub.len() ==> bits.contains(#[trigger] sub[j])
}

pub proof fn lemma_binom_above(n: nat, k: nat)
    requires
        k > n,
    ensures
        binom(n, k) == 0,
    decreases n,
{
    if n > 0 {
        lemma_binom_above((n - 1) as nat, (k - 1) as nat);
        lemma_binom_above((n - 1) as nat, k);
    }
}

pub proof fn lemma_binom_one(n: nat)
    ensures
        binom(n, 1) == n,
    decreases n,
{
    if n > 0 {
        lemma_binom_one((n - 1) as nat);
        assert(binom((n - 1) as nat, 0) == 1);
        assert(binom(n, 1) == binom((n - 1) as nat, 0) + binom((n - 1) as nat, 1));
    } else {
        assert(binom(0, 1) == 0);
    }
}

pub proof fn lemma_binom_bound(n: nat, k: nat)
    ensures
        binom(n, k) <= pow2(n),
    decreases n,
{
    lemma2_to64();
    if n > 0 {
        lemma_pow2_unfold(n);
        lemma_binom_bound((n - 1) as nat, k);
        if k > 0 {
            lemma_binom_bound((n - 1) as nat, (k - 1) as nat);
        }
    }
}

proof fn lemma_rank_split(c: Seq<usize>, n: int)
    requires
        0 <= n <= c.len(),
    ensures
        rank_from(c, 0) == head_rank(c, n) + rank_from(c, n),
    decreases n,
{
    if n > 0 {
        lemma_rank_split(c, n - 1);
    }
}

proof fn lemma_rank_tail(c: Seq<usize>, d: Seq<usize>, j: int)
    requires
        0 <= j,
        c.len() == d.len(),
        forall|m: int| j <= m < c.len() ==> c[m] == d[m],
    ensures
        rank_from(c, j) == rank_from(d, j),
    decreases c.len() - j,
{
    if j < c.len() {
        lemma_rank_tail(c, d, j + 1);
    }
}

proof fn lemma_head_zero(c: Seq<usize>, n: int)
    requires
        0 <= n <= c.len(),
        forall|m: int| 0 <= m < n ==> c[m] == m,
    ensures
        head_rank(c, n) == 0,
    decreases n,
{
    if n > 0 {
        lemma_head_zero(c, n - 1);
        lemma_binom_above(c[n - 1] as nat, n as nat);
    }
}

/// The hockey-stick identity on a run of consecutive positions starting at
/// `m0`.
proof fn lemma_hockey(c: Seq<usize>, m0: nat, i: int)
    requires
        0 <= i < c.len(),
        forall|m: int| 0 <= m <= i ==> c[m] == m0 + m,
    ensures
        head_rank(c, i + 1) + 1 == binom((m0 + i + 1) as nat, (i + 1) as nat),
    decreases i,
{
    if i == 0 {
        lemma_binom_one(m0);
        lemma_binom_one(m0 + 1);
    } else {
        lemma_hockey(c, m0, i - 1);
    }
}

/// A combination whose rank is positive has a position above its slot.
proof fn lemma_rank_positive(c: Seq<usize>, n: nat)
    requires
        is_combination(c, n),
        rank_from(c, 0) > 0,
    ensures
        exists|i: int| 0 <= i < c.len() && c[i] > i,
{
    if forall|i: int| 0 <= i < c.len() ==> !(c[i] > i) {
        assert forall|m: int| 0 <= m < c.len() implies c[m] == m by {
            lemma_combination_at_least(c, n, m);
        }
        lemma_head_zero(c, c.len() as int);
        lemma_rank_split(c, c.len() as int);
    }
}

proof fn lemma_combination_at_least(c: Seq<usize>, n: nat, i: int)
    requires
        is_combination(c, n),
        0 <= i < c.len(),
    ensures
        c[i] >= i,
    decreases i,
{
    if i > 0 {
        lemma_combination_at_least(c, n, i - 1);
    }
}

/// Ascending positions pick out an ascending subset, and each position is
/// where its element stands.
proof fn lemma_select(bits: Seq<u8>, c: Seq<usize>, sub: Seq<u8>)
    requires
        valid_indices(bits),
        is_combination(c, bits.len()),
        sub.len() == c.len(),
        forall|j: int| 0 <= j < c.len() ==> sub[j] == bits[c[j] as int],
    ensures
        is_subset_of(sub, bits, c.len()),
        positions(bits, sub) =~= c,
{
    assert forall|j: int| 0 <= j < sub.len() implies bits.contains(#[trigger] sub[j]) by {
        assert(bits[c[j] as int] == sub[j]);
    }
    assert forall|j: int| 0 <= j < sub.len() implies bits.index_of(sub[j]) == c[j] by {
        let x = sub[j];
        assert(bits[c[j] as int] == x);
        let k = bits.index_of(x);
        if k != c[j] {
            if k < c[j] {
                assert(bits[k] < bits[c[j] as int]);
            } else {
                assert(bits[c[j] as int] < bits[k]);
            }
        }
    }
    assert forall|a: int, b: int| 0 <= a < b < sub.len() implies sub[a] < sub[b] by {
        assert(c[a] < c[b]);
    }
}

proof fn lemma_binom_monotone(a: nat, b: nat, j: nat)
    requires
        a <= b,
    ensures
        binom(a, j) <= binom(b, j),
    decreases b - a,
{
    if a < b {
        lemma_binom_monotone(a, (b - 1) as nat, j);
    }
}

proof fn lemma_head_rank_upper(c: Seq<usize>, n: nat, m: int)
    requires
        is_combination(c, n),
        1 <= m <= c.len(),
    ensures
        head_rank(c, m) < binom((c[m - 1] + 1) as nat, m as nat),
    decreases m,
{
    let x = c[m - 1] as nat;
    if m == 1 {
        lemma_binom_one(x);
        lemma_binom_one(x + 1);
        assert(head_rank(c, 0) == 0);
    } else {
        lemma_head_rank_upper(c, n, m - 1);
        assert(c[m - 2] < c[m - 1]);
        lemma_binom_monotone((c[m - 2] + 1) as nat, x, (m - 1) as nat);
        assert(binom(x + 1, m as nat) == binom(x, (m - 1) as nat) + binom(x, m as nat));
    }
}

proof fn lemma_head_rank_injective(c: Seq<usize>, d: Seq<usize>, n: nat, m: int)
    requires
        is_combination(c, n),
        is_combination(d, n),
        0 <= m <= c.len(),
        m <= d.len(),
        head_rank(c, m) == head_rank(d, m),
    ensures
        forall|j: int| 0 <= j < m ==> c[j] == d[j],
    decreases m,
{
    if m > 0 {
        let (x, y) = (c[m - 1] as nat, d[m - 1] as nat);
        if x < y {
            lemma_head_rank_upper(c, n, m);
            lemma_binom_monotone(x + 1, y, m as nat);
        } else if y < x {
            lemma_head_rank_upper(d, n, m);
            lemma_binom_monotone(y + 1, x, m as nat);
        }
        lemma_head_rank_injective(c, d, n, m - 1);
    }
}

/// The positions of a `k`-element subset form a `k`-combination of the
/// positions of `bits`, and pick out the subset.
pub proof fn lemma_positions(bits: Seq<u8>, sub: Seq<u8>, k: nat)
    requires
        valid_indices(bits),
        is_subset_of(sub, bits, k),
    ensures
        positions(bits, sub).len() == k,
        is_combination(positions(bits, sub), bits.len()),
        forall|j: int| 0 <= j < k ==> bits[#[trigger] positions(bits, sub)[j] as int] == sub[j],
{
    let p = positions(bits, sub);
    lemma_bits_len(bits);
    assert forall|j: int| 0 <= j < k implies 0 <= bits.index_of(sub[j]) < bits.len() && bits[bits.index_of(sub[j])] == sub[j]
        && p[j] as int == bits.index_of(sub[j]) by {
        assert(bits.contains(sub[j]));
    }
    assert forall|j: int| 0 <= j < k implies bits[#[trigger] p[j] as int] == sub[j] by {
        assert(p[j] as int == bits.index_of(sub[j]));
    }
    assert forall|a: int, b: int| 0 <= a < b < p.len() implies p[a] < p[b] by {
        let (ia, ib) = (bits.index_of(sub[a]), bits.index_of(sub[b]));
        assert(p[a] as int == ia && p[b] as int == ib);
        assert(sub[a] < sub[b]);
        if ia > ib {
            assert(bits[ib] < bits[ia]);
        }
    }
    assert forall|a: int| 0 <= a < p.len() implies p[a] < bits.len() by {
        assert(bits.contains(sub[a]));
    }
}

/// A `k`-element subset ranks below `n` choose `k`.
pub proof fn lemma_subset_rank_bound(bits: Seq<u8>, sub: Seq<u8>, k: nat)
    requires
        valid_indices(bits),
        is_subset_of(sub, bits, k),
    ensures
        subset_rank(bits, sub) < binom(bits.len(), k),
{
    let p = positions(bits, sub);
    lemma_positions(bits, sub, k);
    lemma_rank_split(p, k as int);
    if k == 0 {
        assert(head_rank(p, 0) == 0);
    } else {
        lemma_head_rank_upper(p, bits.len(), k as int);
        lemma_binom_monotone((p[k - 1] + 1) as nat, bits.len(), k);
    }
}

/// Two `k`-element subsets of the same rank are the same subset.
pub proof fn lemma_subset_rank_injective(bits: Seq<u8>, a: Seq<u8>, b: Seq<u8>, k: nat)
    requires
        valid_indices(bits),
        is_subset_of(a, bits, k),
        is_subset_of(b, bits, k),
        subset_rank(bits, a) == subset_rank(bits, b),
    ensures
        a == b,
{
    let (pa, pb) = (positions(bits, a), positions(bits, b));
    lemma_positions(bits, a, k);
    lemma_positions(bits, b, k);
    lemma_rank_split(pa, k as int);
    lemma_rank_split(pb, k as int);
    lemma_head_rank_injective(pa, pb, bits.len(), k as int);
    assert forall|j: int| 0 <= j < k implies a[j] == b[j] by {
        assert(bits[pa[j] as int] == a[j]);
        assert(bits[pb[j] as int] == b[j]);
    }
    assert(a =~= b);
}

/// Computes `n` choose `k` row by row of Pascal's triangle.
pub fn binomial(n: usize, k: usize) -> (r: usize)
    requires
        n <= UNICODE_BITS,
    ensures
        r == binom(n as nat, k as nat),
{
    if k > n {
        proof {
            lemma_binom_above(n as nat, k as nat);
        }
        return 0;
    }
    let mut row: Vec<usize> = Vec::new();
    row.push(1);
    let mut j: usize = 1;
    while j <= k
        invariant
            1 <= j <= k + 1,
            k <= n <= UNICODE_BITS,
            row@.len() == j,
            forall|a: int| 0 <= a < j ==> row@[a] == binom(0, a as nat),
        decreases k + 1 - j,
    {
        row.push(0);
        j = j + 1;
    }
    let mut m: usize = 0;
    while m < n
        invariant
            m <= n <= UNICODE_BITS,
            k <= n,
            row@.len() == k + 1,
            forall|a: int| 0 <= a <= k ==> row@[a] == binom(m as nat, a as nat),
        decreases n - m,
    {
        let mut next: Vec<usize> = Vec::new();
        next.push(1);
        let mut a: usize = 1;
        while a <= k
            invariant
                1 <= a <= k + 1,
                k <= n,
                m < n <= UNICODE_BITS,
                row@.len() == k + 1,
                forall|b: int| 0 <= b <= k ==> row@[b] == binom(m as nat, b as nat),
                next@.len() == a,
                forall|b: int| 0 <= b < a ==> next@[b] == binom((m + 1) as nat, b as nat),
            decreases k + 1 - a,
        {
            proof {
                lemma_binom_bound(m as nat, a as nat);
                lemma_binom_bound(m as nat, (a - 1) as nat);
                lemma_pow2_unfold((m + 1) as nat);
                lemma_binom_bound((m + 1) as nat, a as nat);
                lemma_usize_pow2_no_overflow((m + 1) as nat);
            }
            next.push(row[a - 1] + row[a]);
            a = a + 1;
        }
        row = next;
        m = m + 1;
    }
    row[k]
}

/// The `k`-element subsets of a set of positions, enumerated one at a time
/// in descending colexicographic order.
pub struct BitComb<'a> {
    bits: &'a Bits,
    size: usize,
    indices: Vec<usize>,
    remaining: usize,
}

impl<'a> BitComb<'a> {
    /// The positions whose subsets are enumerated.
    pub closed spec fn source(&self) -> Seq<u8> {
        self.bits@
    }

    /// The size of each subset.
    pub closed spec fn size(&self) -> nat {
        self.size as nat
    }

    /// How many subsets are still to come.
    pub closed spec fn left(&self) -> nat {
        self.remaining as nat
    }

    pub closed spec fn wf(&self) -> bool {
        &&& self.bits.wf()
        &&& self.remaining > 0 ==> {
            &&& self.indices@.len() == self.size
            &&& is_combination(self.indices@, self.bits@.len())
            &&& rank_from(self.indices@, 0) + 1 == self.remaining
        }
    }

    /// Starts the enumeration of the `n`-element subsets of `bits`.
    pub fn new(bits: &'a Bits, n: usize) -> (r: Self)
        requires
            bits.wf(),
        ensures
            r.wf(),
            r.source() == bits@,
            r.size() == n,
            r.left() == binom(bits@.len(), n as nat),
    {
        proof {
            lemma_bits_len(bits@);
        }
        let num_bits = bits.count();
        let mut indices: Vec<usize> = Vec::new();
        if num_bits >= n {
            let mut i: usize = 0;
            while i < n
                invariant
                    n <= num_bits,
                    i <= n,
                    indices@.len() == i,
                    forall|m: int| 0 <= m < i ==> indices@[m] == num_bits - n + m,
                decreases n - i,
            {
                indices.push(num_bits - (n - i));
                i = i + 1;
            }
        }
        let remaining = binomial(num_bits, n);
        proof {
            if num_bits >= n && n > 0 {
                let c = indices@;
                lemma_hockey(c, (num_bits - n) as nat, n - 1);
                lemma_rank_split(c, n as int);
            } else if num_bits >= n {
                assert(rank_from(indices@, 0) == 0);
            } else {
                lemma_binom_above(num_bits as nat, n as nat);
            }
        }
        BitComb { bits, size: n, indices, remaining }
    }

    /// The number of subsets still to come.
    pub fn len(&self) -> (r: usize)
        ensures
            r == self.left(),
    {
        self.remaining
    }

    /// The next subset, or `None` once all have been produced. Each subset
    /// produced has the rank that `left` reaches after it, so the ranks of
    /// successive subsets strictly decrease and no subset comes twice.
    pub fn next(&mut self) -> (r: Option<Bits>)
        requires
            old(self).wf(),
        ensures
            final(self).wf(),
            final(self).source() == old(self).source(),
            final(self).size() == old(self).size(),
            old(self).left() == 0 ==> r is None && final(self).left() == 0,
            old(self).left() > 0 ==> {
                &&& final(self).left() == old(self).left() - 1
                &&& r matches Some(b) && {
                    &&& b.wf()
                    &&& is_subset_of(b@, old(self).source(), old(self).size())
                    &&& subset_rank(old(self).source(), b@) == final(self).left()
                }
            },
    {
        if self.remaining == 0 {
            return None;
        }
        let mut selected: Vec<u8> = Vec::new();
        let mut j: usize = 0;
        while j < self.indices.len()
            invariant
                self.wf(),
                self.remaining > 0,
                j <= self.indices@.len(),
                selected@.len() == j,
                forall|m: int| 0 <= m < j ==> selected@[m] == self.bits@[self.indices@[m] as int],
            decreases self.indices@.len() - j,
        {
            selected.push(self.bits.indices[self.indices[j]]);
            j = j + 1;
        }
        let ghost old_c = self.indices@;
        proof {
            lemma_select(self.bits@, old_c, selected@);
        }
        if self.remaining > 1 {
            proof {
                lemma_rank_positive(old_c, self.bits@.len());
            }
            let mut i: usize = 0;
            while i < self.indices.len() && self.indices[i] <= i
                invariant
                    self.indices@ == old_c,
                    self.remaining == old(self).remaining,
                    self.bits == old(self).bits,
                    self.size == old(self).size,
                    is_combination(old_c, self.bits@.len()),
                    exists|p: int| 0 <= p < old_c.len() && old_c[p] > p,
                    i <= old_c.len(),
                    forall|m: int| 0 <= m < i ==> old_c[m] == m,
                decreases old_c.len() - i,
            {
                proof {
                    lemma_combination_at_least(old_c, self.bits@.len(), i as int);
                }
                i = i + 1;
            }
            proof {
                if i == old_c.len() {
                    let p = choose|p: int| 0 <= p < old_c.len() && old_c[p] > p;
                    assert(old_c[p] == p);
                }
            }
            let bit_index = self.indices[i];
            let mut j: usize = 0;
            while j <= i
                invariant
                    self.remaining == old(self).remaining,
                    self.bits == old(self).bits,
                    self.size == old(self).size,
                    i < old_c.len(),
                    bit_index == old_c[i as int],
                    bit_index > i,
                    j <= i + 1,
                    self.indices@.len() == old_c.len(),
                    forall|m: int| 0 <= m < j ==> self.indices@[m] == bit_index - (i - m + 1),
                    forall|m: int| j <= m < old_c.len() ==> self.indices@[m] == old_c[m],
                decreases i + 1 - j,
            {
                self.indices.set(j, bit_index - (i - j + 1));
                j = j + 1;
            }
            proof {
                let c = self.indices@;
                let n = self.bits@.len();
                let m0 = (bit_index - i - 1) as nat;
                assert forall|m: int| 0 <= m <= i implies c[m] == m0 + m by {}
                lemma_hockey(c, m0, i as int);
                lemma_rank_tail(c, old_c, i + 1);
                lemma_rank_split(c, i + 1);
                lemma_rank_split(old_c, i as int);
                lemma_rank_split(old_c, i + 1);
                lemma_head_zero(old_c, i as int);
                assert(head_rank(old_c, i + 1) == binom(bit_index as nat, (i + 1) as nat));
                assert(is_combination(c, n)) by {
                    assert forall|a: int, b: int| 0 <= a < b < c.len() implies c[a] < c[b] by {
                        if b > i && a <= i {
                            assert(c[b] == old_c[b]);
                            assert(old_c[i as int] < old_c[b]);
                            assert(c[a] < bit_index);
                        } else if b > i {
                            assert(c[b] == old_c[b]);
                            assert(c[a] == old_c[a]);
                        }
                    }
                    assert forall|a: int| 0 <= a < c.len() implies c[a] < n by {
                        if a > i {
                            assert(c[a] == old_c[a]);
                        } else {
                            assert(c[a] < bit_index);
                            assert(old_c[i as int] < n);
                        }
                    }
                }
            }
        } else {
            proof {
                assert(rank_from(old_c, 0) == 0);
            }
        }
        self.remaining = self.remaining - 1;
        Some(Bits { indices: selected })
    }
}

impl Bits {
    /// The `n`-element subsets of `self`, each produced once.
    pub fn combinations(&self, n: usize) -> (r: BitComb<'_>)
        requires
            self.wf(),
        ensures
            r.wf(),
            r.source() == self@,
            r.size() == n,
            r.left() == binom(self@.len(), n as nat),
    {
        BitComb::new(self, n)
    }
}

/// Each `k`-element subset of `bits` has a rank below `n` choose `k`, and
/// no other `k`-element subset has the same rank. As `next` produces, for
/// each rank from `n` choose `k` minus one down to zero, a `k`-element
/// subset of that rank, the enumeration yields every `k`-element subset
/// exactly once.
pub proof fn lemma_enumeration_exact(bits: Seq<u8>, a: Seq<u8>, b: Seq<u8>, k: nat)
    requires
        valid_indices(bits),
        is_subset_of(a, bits, k),
        is_subset_of(b, bits, k),
    ensures
        subset_rank(bits, a) < binom(bits.len(), k),
        subset_rank(bits, a) == subset_rank(bits, b) <==> a == b,
{
    lemma_subset_rank_bound(bits, a, k);
    if subset_rank(bits, a) == subset_rank(bits, b) {
        lemma_subset_rank_injective(bits, a, b, k);
    }
}

} // verus!
