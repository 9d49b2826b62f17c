//! Groups of codepoints that share a hash value, and their deduplication.
use vstd::prelude::*;
use vstd::arithmetic::power2::pow2;
use crate::bits::{Bits, extracted};

verus! {

/// Codepoints strictly ascending.
pub open spec fn ascending(s: Seq<(u32, u8)>) -> bool {
    forall|i: int, j: int| 0 <= i < j < s.len() ==> s[i].0 < s[j].0
}

/// No codepoint occurs in both `a` and `b`.
pub open spec fn apart(a: Seq<(u32, u8)>, b: Seq<(u32, u8)>) -> bool {
    forall|i: int, j: int| 0 <= i < a.len() && 0 <= j < b.len() ==> a[i].0 != b[j].0
}

/// The widths of `s`, in order.
pub open spec fn widths_of(s: Seq<(u32, u8)>) -> Seq<u8> {
    s.map_values(|e: (u32, u8)| e.1)
}

/// One of `a` and `b` is a prefix of the other.
pub open spec fn prefix_compatible(a: Seq<u8>, b: Seq<u8>) -> bool {
    a.is_prefix_of(b) || b.is_prefix_of(a)
}

/// The longer of `a` and `b`; `a` when they are as long.
pub open spec fn longer(a: Seq<u8>, b: Seq<u8>) -> Seq<u8> {
    if a.len() < b.len() {
        b
    } else {
        a
    }
}

/// The entries whose codepoint hashes to `h` under `bits`.
pub open spec fn in_slot(bits: Seq<u8>, h: int) -> spec_fn((u32, u8)) -> bool {
    |e: (u32, u8)| extracted(bits, e.0 as nat) == h
}

/// Every member has the same width.
pub open spec fn uniform(s: Seq<(u32, u8)>) -> bool {
    forall|i: int, j: int| 0 <= i < s.len() && 0 <= j < s.len() ==> s[i].1 == s[j].1
}

/// All pairs of `m` have one width.
pub open spec fn uniform_members(m: Set<(u32, u8)>) -> bool {
    forall|p: (u32, u8), q: (u32, u8)| m.contains(p) && m.contains(q) ==> p.1 == q.1
}

/// What a bucket stands for: its (codepoint, width) pairs and its width
/// sequence.
pub type BucketModel = (Set<(u32, u8)>, Seq<u8>);

/// The models of a sequence of buckets.
pub open spec fn models(s: Seq<Bucket>) -> Seq<BucketModel> {
    s.map_values(|b: Bucket| (b.members(), b.pattern()))
}

/// The first bucket of `acc`, from `i` on, whose width sequence is prefix
/// compatible with `p`; `acc.len()` where there is none.
pub open spec fn first_fit(acc: Seq<BucketModel>, p: Seq<u8>, i: int) -> int
    decreases acc.len() - i,
{
    if 0 <= i < acc.len() {
        if prefix_compatible(acc[i].1, p) {
            i
        } else {
            first_fit(acc, p, i + 1)
        }
    } else {
        acc.len() as int
    }
}

/// Deduplication of `inputs` in order: each bucket merges into the first
/// earlier kept bucket it is prefix compatible with, or is kept as a new
/// one. The result gives, for each input, the index of the bucket that took
/// it, and the kept buckets.
pub open spec fn dedup(inputs: Seq<BucketModel>) -> (Seq<int>, Seq<BucketModel>)
    decreases inputs.len(),
{
    if inputs.len() == 0 {
        (Seq::empty(), Seq::empty())
    } else {
        let (idx, acc) = dedup(inputs.drop_last());
        let b = inputs.last();
        let f = first_fit(acc, b.1, 0);
        if f < acc.len() {
            (idx.push(f), acc.update(f, (acc[f].0 + b.0, longer(acc[f].1, b.1))))
        } else {
            (idx.push(acc.len() as int), acc.push(b))
        }
    }
}

/// Buckets that no codepoint belongs to twice.
pub open spec fn pairwise_apart(s: Seq<Bucket>) -> bool {
    forall|i: int, j: int| 0 <= i < s.len() && 0 <= j < s.len() && i != j ==> apart(#[trigger] s[i].entries(), #[trigger] s[j].entries())
}

proof fn lemma_first_fit(acc: Seq<BucketModel>, p: Seq<u8>, i: int, j: int)
    requires
        0 <= j <= i <= acc.len(),
        forall|k: int| 0 <= k < i ==> !prefix_compatible(#[trigger] acc[k].1, p),
        i < acc.len() ==> prefix_compatible(acc[i].1, p),
    ensures
        first_fit(acc, p, j) == i,
    decreases i - j,
{
    if j < i {
        lemma_first_fit(acc, p, i, j + 1);
    }
}

/// A group of codepoints with their widths, and the width sequence that the
/// group stores as one table entry.
pub struct Bucket {
    entries: Vec<(u32, u8)>,
    pattern: Vec<u8>,
}

proof fn lemma_push_to_set<A>(s: Seq<A>, x: A)
    ensures
        s.push(x).to_set() == s.to_set().insert(x),
{
    assert forall|y: A| s.push(x).to_set().contains(y) <==> s.to_set().insert(x).contains(y) by {
        if s.to_set().contains(y) {
            let k = choose|k: int| 0 <= k < s.len() && s[k] == y;
            assert(s.push(x)[k] == y);
        }
        if y == x {
            assert(s.push(x)[s.len() as int] == x);
        }
        if s.push(x).to_set().contains(y) && y != x {
            let k = choose|k: int| 0 <= k < s.len() + 1 && s.push(x)[k] == y;
            assert(s[k] == y);
        }
    }
    assert(s.push(x).to_set() =~= s.to_set().insert(x));
}

/// Whether `a` is a prefix of `b`.
fn prefix_eq(a: &Vec<u8>, b: &Vec<u8>) -> (r: bool)
    requires
        a@.len() <= b@.len(),
    ensures
        r == a@.is_prefix_of(b@),
{
    let mut i: usize = 0;
    while i < a.len()
        invariant
            a@.len() <= b@.len(),
            i <= a@.len(),
            forall|k: int| 0 <= k < i ==> a@[k] == b@[k],
        decreases a@.len() - i,
    {
        if a[i] != b[i] {
            assert(a@[i as int] != b@.subrange(0, a@.len() as int)[i as int]);
            return false;
        }
        i = i + 1;
    }
    assert(a@ =~= b@.subrange(0, a@.len() as int));
    true
}

/// The entries of `a` and `b` in one ascending sequence.
fn merge_entries(a: &Vec<(u32, u8)>, b: &Vec<(u32, u8)>) -> (r: Vec<(u32, u8)>)
    requires
        ascending(a@),
        ascending(b@),
        apart(a@, b@),
    ensures
        ascending(r@),
        r@.to_set() == a@.to_set() + b@.to_set(),
{
    let mut out: Vec<(u32, u8)> = Vec::new();
    let mut i: usize = 0;
    let mut j: usize = 0;
    while i < a.len() || j < b.len()
        invariant
            ascending(a@),
            ascending(b@),
            apart(a@, b@),
            i <= a@.len(),
            j <= b@.len(),
            ascending(out@),
            out@.to_set() == a@.take(i as int).to_set() + b@.take(j as int).to_set(),
            forall|k: int| 0 <= k < out@.len() ==> i < a@.len() ==> out@[k].0 < a@[i as int].0,
            forall|k: int| 0 <= k < out@.len() ==> j < b@.len() ==> out@[k].0 < b@[j as int].0,
        decreases a@.len() + b@.len() - i - j,
    {
        if j >= b.len() || (i < a.len() && a[i].0 < b[j].0) {
            let e = a[i];
            proof {
                lemma_push_to_set(out@, e);
                lemma_push_to_set(a@.take(i as int), e);
                assert(a@.take(i + 1) =~= a@.take(i as int).push(e));
                assert forall|k: int| 0 <= k < out@.len() && i + 1 < a@.len() implies out@[k].0 < a@[i + 1].0 by {
                    assert(a@[i as int].0 < a@[i + 1].0);
                }
            }
            out.push(e);
            i = i + 1;
        } else {
            let e = b[j];
            proof {
                if i < a@.len() {
                    assert(a@[i as int].0 != b@[j as int].0);
                }
                lemma_push_to_set(out@, e);
                lemma_push_to_set(b@.take(j as int), e);
                assert(b@.take(j + 1) =~= b@.take(j as int).push(e));
                assert forall|k: int| 0 <= k < out@.len() && j + 1 < b@.len() implies out@[k].0 < b@[j + 1].0 by {
                    assert(b@[j as int].0 < b@[j + 1].0);
                }
            }
            out.push(e);
            j = j + 1;
        }
        proof {
            assert(out@.to_set() =~= a@.take(i as int).to_set() + b@.take(j as int).to_set());
        }
    }
    assert(a@.take(i as int) =~= a@);
    assert(b@.take(j as int) =~= b@);
    out
}

impl Bucket {
    /// The members with their widths, ascending by codepoint.
    pub closed spec fn entries(&self) -> Seq<(u32, u8)> {
        self.entries@
    }

    /// The width sequence that the bucket stores.
    pub closed spec fn pattern(&self) -> Seq<u8> {
        self.pattern@
    }

    /// The (codepoint, width) pairs that the bucket represents.
    pub open spec fn members(&self) -> Set<(u32, u8)> {
        self.entries().to_set()
    }

    pub open spec fn wf(&self) -> bool {
        ascending(self.entries())
    }

    /// An empty bucket with room for `cap` members.
    pub fn with_capacity(cap: usize) -> (r: Bucket)
        ensures
            r.wf(),
            r.entries() == Seq::<(u32, u8)>::empty(),
            r.pattern() == Seq::<u8>::empty(),
    {
        Bucket { entries: Vec::with_capacity(cap), pattern: Vec::with_capacity(cap) }
    }

    /// The bucket of the codepoints `chars`, each with its width in `widths`.
    pub fn from_chars(widths: &[u8], chars: &[u32]) -> (r: Bucket)
        requires
            forall|i: int, j: int| 0 <= i < j < chars@.len() ==> chars@[i] < chars@[j],
            forall|i: int| 0 <= i < chars@.len() ==> chars@[i] < widths@.len(),
        ensures
            r.wf(),
            r.entries().len() == chars@.len(),
            forall|i: int| 0 <= i < chars@.len() ==> #[trigger] r.entries()[i] == (chars@[i], widths@[chars@[i] as int]),
            r.pattern() == widths_of(r.entries()),
    {
        let mut bucket = Bucket::with_capacity(chars.len());
        let mut i: usize = 0;
        while i < chars.len()
            invariant
                forall|a: int, b: int| 0 <= a < b < chars@.len() ==> chars@[a] < chars@[b],
                forall|a: int| 0 <= a < chars@.len() ==> chars@[a] < widths@.len(),
                i <= chars@.len(),
                bucket.wf(),
                bucket.entries().len() == i,
                forall|a: int| 0 <= a < i ==> #[trigger] bucket.entries()[a] == (chars@[a], widths@[chars@[a] as int]),
                bucket.pattern() == widths_of(bucket.entries()),
            decreases chars@.len() - i,
        {
            let ch = chars[i];
            proof {
                if i > 0 {
                    assert(bucket.entries()[i - 1].0 == chars@[i - 1]);
                }
            }
            bucket.push(ch, widths[ch as usize]);
            proof {
                assert(widths_of(bucket.entries()) =~= bucket.pattern());
            }
            i = i + 1;
        }
        bucket
    }

    /// Appends a member, whose codepoint must be above every member's.
    pub fn push(&mut self, ch: u32, width: u8)
        requires
            old(self).wf(),
            old(self).entries().len() > 0 ==> old(self).entries().last().0 < ch,
        ensures
            final(self).wf(),
            final(self).entries() == old(self).entries().push((ch, width)),
            final(self).pattern() == old(self).pattern().push(width),
    {
        self.entries.push((ch, width));
        self.pattern.push(width);
    }

    /// Merges `rhs` into `self` where one width sequence is a prefix of the
    /// other: `self` then holds the members of both and the longer sequence.
    /// Otherwise nothing changes and the result is `false`.
    pub fn consume(&mut self, rhs: &Bucket) -> (r: bool)
        requires
            old(self).wf(),
            rhs.wf(),
            apart(old(self).entries(), rhs.entries()),
        ensures
            final(self).wf(),
            r == prefix_compatible(old(self).pattern(), rhs.pattern()),
            r ==> final(self).members() == old(self).members() + rhs.members(),
            r ==> final(self).pattern() == longer(old(self).pattern(), rhs.pattern()),
            !r ==> *final(self) == *old(self),
    {
        let self_shorter = self.pattern.len() < rhs.pattern.len();
        let compatible = if self_shorter {
            prefix_eq(&self.pattern, &rhs.pattern)
        } else {
            prefix_eq(&rhs.pattern, &self.pattern)
        };
        proof {
            if compatible != prefix_compatible(old(self).pattern(), rhs.pattern()) {
                let (a, b) = (old(self).pattern(), rhs.pattern());
                if a.is_prefix_of(b) && !self_shorter {
                    assert(a =~= b);
                    assert(b =~= a.subrange(0, b.len() as int));
                }
                if b.is_prefix_of(a) && self_shorter {
                    assert(false);
                }
            }
        }
        if !compatible {
            return false;
        }
        if self_shorter {
            self.pattern = rhs.pattern.clone();
        }
        self.entries = merge_entries(&self.entries, &rhs.entries);
        true
    }

    /// The members with their widths, ascending by codepoint.
    pub fn iter(&self) -> (r: &[(u32, u8)])
        ensures
            r@ == self.entries(),
    {
        self.entries.as_slice()
    }

    /// The width sequence that the bucket stores.
    pub fn width_pattern(&self) -> (r: &[u8])
        ensures
            r@ == self.pattern(),
    {
        self.pattern.as_slice()
    }

    /// The number of members.
    pub fn size(&self) -> (r: usize)
        ensures
            r == self.entries().len(),
    {
        self.entries.len()
    }

    /// A bucket with the same members and width sequence.
    pub fn duplicate(&self) -> (r: Bucket)
        ensures
            r.entries() == self.entries(),
            r.pattern() == self.pattern(),
    {
        let mut entries: Vec<(u32, u8)> = Vec::with_capacity(self.entries.len());
        let mut i: usize = 0;
        while i < self.entries.len()
            invariant
                i <= self.entries@.len(),
                entries@ == self.entries@.take(i as int),
            decreases self.entries@.len() - i,
        {
            entries.push(self.entries[i]);
            i = i + 1;
            assert(entries@ =~= self.entries@.take(i as int));
        }
        let mut pattern: Vec<u8> = Vec::with_capacity(self.pattern.len());
        let mut i: usize = 0;
        while i < self.pattern.len()
            invariant
                i <= self.pattern@.len(),
                pattern@ == self.pattern@.take(i as int),
            decreases self.pattern@.len() - i,
        {
            pattern.push(self.pattern[i]);
            i = i + 1;
            assert(pattern@ =~= self.pattern@.take(i as int));
        }
        assert(entries@ =~= self.entries@);
        assert(pattern@ =~= self.pattern@);
        Bucket { entries, pattern }
    }

    /// Whether every member has the same width: such a bucket needs no
    /// further level of indexing.
    pub fn is_uniform(&self) -> (r: bool)
        ensures
            r == uniform(self.entries()),
            r == uniform_members(self.members()),
    {
        proof {
            let s = self.entries();
            assert(uniform(s) <==> uniform_members(s.to_set())) by {
                if uniform(s) {
                    assert forall|p: (u32, u8), q: (u32, u8)| s.to_set().contains(p) && s.to_set().contains(q) implies p.1 == q.1 by {
                        let a = choose|a: int| 0 <= a < s.len() && s[a] == p;
                        let b = choose|b: int| 0 <= b < s.len() && s[b] == q;
                    }
                }
                if uniform_members(s.to_set()) {
                    assert forall|a: int, b: int| 0 <= a < s.len() && 0 <= b < s.len() implies s[a].1 == s[b].1 by {
                        assert(s.to_set().contains(s[a]));
                        assert(s.to_set().contains(s[b]));
                    }
                }
            }
        }
        if self.entries.len() == 0 {
            return true;
        }
        let width = self.entries[0].1;
        let mut i: usize = 1;
        while i < self.entries.len()
            invariant
                1 <= i <= self.entries@.len(),
                width == self.entries@[0].1,
                forall|k: int| 0 <= k < i ==> self.entries@[k].1 == width,
            decreases self.entries@.len() - i,
        {
            if self.entries[i].1 != width {
                proof {
                    let s = self.entries();
                    assert(s.to_set().contains(s[i as int]));
                    assert(s.to_set().contains(s[0]));
                    assert(!uniform_members(self.members()));
                }
                return false;
            }
            i = i + 1;
        }
        true
    }
}

/// Splits the members of `parent` by their hash under `bits`: member `(c, w)`
/// goes to bucket `extract(c)`, in the order of `parent`.
pub fn make_buckets(parent: &Bucket, bits: &Bits) -> (r: Vec<Bucket>)
    requires
        parent.wf(),
        bits.wf(),
    ensures
        r@.len() == pow2(bits@.len()),
        forall|h: int| 0 <= h < r@.len() ==> {
            &&& (#[trigger] r@[h]).wf()
            &&& r@[h].entries() == parent.entries().filter(in_slot(bits@, h))
            &&& r@[h].pattern() == widths_of(r@[h].entries())
        },
{
    let count = bits.count();
    proof {
        crate::bits::lemma_bits_wf_len(bits);
        vstd::bits::lemma_usize_pow2_no_overflow(count as nat);
        vstd::bits::lemma_usize_shl_is_mul(1, count);
    }
    let num_buckets: usize = 1usize << count;
    let bucket_size = parent.size() / num_buckets;
    let mut buckets: Vec<Bucket> = Vec::new();
    let mut h: usize = 0;
    while h < num_buckets
        invariant
            h <= num_buckets,
            buckets@.len() == h,
            forall|k: int| 0 <= k < h ==> (#[trigger] buckets@[k]).entries().len() == 0 && buckets@[k].pattern().len() == 0,
        decreases num_buckets - h,
    {
        buckets.push(Bucket::with_capacity(bucket_size));
        h = h + 1;
    }
    let mut i: usize = 0;
    while i < parent.entries.len()
        invariant
            parent.wf(),
            bits.wf(),
            num_buckets == pow2(bits@.len()),
            i <= parent.entries@.len(),
            buckets@.len() == num_buckets,
            forall|k: int| 0 <= k < num_buckets ==> {
                &&& (#[trigger] buckets@[k]).wf()
                &&& buckets@[k].entries() == parent.entries().take(i as int).filter(in_slot(bits@, k))
                &&& buckets@[k].pattern() == widths_of(buckets@[k].entries())
            },
        decreases parent.entries@.len() - i,
    {
        let (c, width) = parent.entries[i];
        let slot = bits.extract(c as usize);
        let ghost prev = buckets@;
        proof {
            let s = parent.entries().take(i as int);
            let f = s.filter(in_slot(bits@, slot as int));
            assert(buckets@[slot as int].entries() == f);
            if f.len() > 0 {
                broadcast use Seq::lemma_filter_contains_rev;
                assert(f.contains(f.last()));
                assert(s.contains(f.last()));
                let k = choose|k: int| 0 <= k < s.len() && s[k] == f.last();
                assert(parent.entries()[k].0 < parent.entries()[i as int].0);
            }
        }
        buckets[slot].push(c, width);
        proof {
            reveal(Seq::filter);
            assert forall|k: int| 0 <= k < num_buckets implies {
                &&& (#[trigger] buckets@[k]).wf()
                &&& buckets@[k].entries() == parent.entries().take(i + 1).filter(in_slot(bits@, k))
                &&& buckets@[k].pattern() == widths_of(buckets@[k].entries())
            } by {
                assert(parent.entries().take(i + 1).drop_last() =~= parent.entries().take(i as int));
                assert(parent.entries().take(i + 1).last() == (c, width));
                if k == slot {
                    assert(widths_of(buckets@[k].entries()) =~= buckets@[k].pattern());
                } else {
                    assert(buckets@[k] == prev[k]);
                }
            }
        }
        i = i + 1;
    }
    assert(parent.entries().take(i as int) =~= parent.entries());
    buckets
}

/// A well-formed bucket's entries are fixed by its members: two ascending
/// sequences with the same elements are equal.
pub proof fn lemma_ascending_set_eq(s: Seq<(u32, u8)>, t: Seq<(u32, u8)>)
    requires
        ascending(s),
        ascending(t),
        s.to_set() == t.to_set(),
    ensures
        s == t,
    decreases s.len(),
{
    if s.len() == 0 {
        if t.len() > 0 {
            assert(t.to_set().contains(t[0]));
        }
        assert(s =~= t);
    } else {
        assert(s.to_set().contains(s[0]));
        let j = choose|j: int| 0 <= j < t.len() && t[j] == s[0];
        assert(t.to_set().contains(t[0]));
        let i = choose|i: int| 0 <= i < s.len() && s[i] == t[0];
        if i > 0 {
            assert(s[0].0 < s[i].0);
        }
        if j > 0 {
            assert(t[0].0 < t[j].0);
        }
        assert(s[0] == t[0]);
        let (s1, t1) = (s.drop_first(), t.drop_first());
        assert forall|x: (u32, u8)| s1.to_set().contains(x) <==> t1.to_set().contains(x) by {
            if s1.to_set().contains(x) {
                let a = choose|a: int| 0 <= a < s1.len() && s1[a] == x;
                assert(s[a + 1] == x);
                assert(s.to_set().contains(x));
                let b = choose|b: int| 0 <= b < t.len() && t[b] == x;
                if b == 0 {
                    assert(s[0].0 < s[a + 1].0);
                }
                assert(t1[b - 1] == x);
            }
            if t1.to_set().contains(x) {
                let a = choose|a: int| 0 <= a < t1.len() && t1[a] == x;
                assert(t[a + 1] == x);
                assert(t.to_set().contains(x));
                let b = choose|b: int| 0 <= b < s.len() && s[b] == x;
                if b == 0 {
                    assert(t[0].0 < t[a + 1].0);
                }
                assert(s1[b - 1] == x);
            }
        }
        assert(s1.to_set() =~= t1.to_set());
        lemma_ascending_set_eq(s1, t1);
        assert(s =~= t1.insert(0, s[0]));
        assert(t =~= t1.insert(0, t[0]));
    }
}

/// A merge keeps every codepoint's width: where `merged` holds the pairs of
/// `a` and `b`, each codepoint of either has in `merged` the width it had,
/// and no other.
pub proof fn lemma_merge_keeps_widths(a: Bucket, b: Bucket, merged: Bucket, c: u32, w: u8)
    requires
        merged.wf(),
        merged.members() == a.members() + b.members(),
        a.members().contains((c, w)) || b.members().contains((c, w)),
    ensures
        merged.members().contains((c, w)),
        forall|p: (u32, u8)| merged.members().contains(p) && p.0 == c ==> p.1 == w,
{
    let s = merged.entries();
    assert(s.to_set().contains((c, w)));
    let i = choose|i: int| 0 <= i < s.len() && s[i] == (c, w);
    assert forall|p: (u32, u8)| merged.members().contains(p) && p.0 == c implies p.1 == w by {
        let j = choose|j: int| 0 <= j < s.len() && s[j] == p;
        if i < j {
            assert(s[i].0 < s[j].0);
        } else if j < i {
            assert(s[j].0 < s[i].0);
        }
    }
}

/// Deduplicated buckets, with the index of the bucket that took each input.
pub struct IndexedBuckets {
    indexes: Vec<usize>,
    buckets: Vec<Bucket>,
}

impl IndexedBuckets {
    /// For each input bucket, the index of the kept bucket that took it.
    pub closed spec fn index_seq(&self) -> Seq<usize> {
        self.indexes@
    }

    /// The kept buckets.
    pub closed spec fn bucket_seq(&self) -> Seq<Bucket> {
        self.buckets@
    }

    pub open spec fn wf(&self) -> bool {
        &&& forall|k: int| 0 <= k < self.bucket_seq().len() ==> (#[trigger] self.bucket_seq()[k]).wf()
        &&& pairwise_apart(self.bucket_seq())
    }

    /// Deduplicates `input`: each bucket is merged into the first kept bucket
    /// that `consume` accepts, or kept as a new one.
    pub fn from_buckets(input: Vec<Bucket>) -> (r: IndexedBuckets)
        requires
            forall|k: int| 0 <= k < input@.len() ==> (#[trigger] input@[k]).wf(),
            pairwise_apart(input@),
        ensures
            r.wf(),
            r.index_seq().map_values(|x: usize| x as int) == dedup(models(input@)).0,
            models(r.bucket_seq()) == dedup(models(input@)).1,
    {
        let mut indexes: Vec<usize> = Vec::new();
        let mut buckets: Vec<Bucket> = Vec::new();
        let ghost ins = models(input@);
        let mut idx: usize = 0;
        while idx < input.len()
            invariant
                forall|k: int| 0 <= k < input@.len() ==> (#[trigger] input@[k]).wf(),
                pairwise_apart(input@),
                ins == models(input@),
                idx <= input@.len(),
                indexes@.map_values(|x: usize| x as int) == dedup(ins.take(idx as int)).0,
                models(buckets@) == dedup(ins.take(idx as int)).1,
                indexes@.len() == idx,
                forall|m: int| 0 <= m < idx ==> indexes@[m] < buckets@.len(),
                forall|k: int| 0 <= k < buckets@.len() ==> (#[trigger] buckets@[k]).wf(),
                forall|k: int, e: (u32, u8)| 0 <= k < buckets@.len() && #[trigger] buckets@[k].members().contains(e) ==>
                    exists|m: int| 0 <= m < idx && indexes@[m] == k && #[trigger] input@[m].members().contains(e),
            decreases input@.len() - idx,
        {
            let ghost before = buckets@;
            let ghost prefix = ins.take(idx as int);
            proof {
                assert(ins.take(idx + 1).drop_last() =~= prefix);
                assert(ins.take(idx + 1).last() == ins[idx as int]);
                assert forall|k: int| 0 <= k < buckets@.len() implies apart((#[trigger] buckets@[k]).entries(), input@[idx as int].entries()) by {
                    assert forall|a: int, b: int| 0 <= a < buckets@[k].entries().len() && 0 <= b < input@[idx as int].entries().len()
                        implies buckets@[k].entries()[a].0 != input@[idx as int].entries()[b].0 by {
                        let e = buckets@[k].entries()[a];
                        assert(buckets@[k].members().contains(e));
                        let m = choose|m: int| 0 <= m < idx && indexes@[m] == k && #[trigger] input@[m].members().contains(e);
                        let c = choose|c: int| 0 <= c < input@[m].entries().len() && input@[m].entries()[c] == e;
                        assert(apart(input@[m].entries(), input@[idx as int].entries()));
                    }
                }
            }
            let mut i: usize = 0;
            let mut placed: bool = false;
            while i < buckets.len() && !placed
                invariant
                    input@[idx as int].wf(),
                    idx < input@.len(),
                    buckets@.len() == before.len(),
                    i <= buckets@.len(),
                    forall|k: int| 0 <= k < i ==> !prefix_compatible(#[trigger] before[k].pattern(), input@[idx as int].pattern()),
                    forall|k: int| 0 <= k < before.len() ==> (#[trigger] before[k]).wf(),
                    forall|k: int| 0 <= k < before.len() ==> apart((#[trigger] before[k]).entries(), input@[idx as int].entries()),
                    !placed ==> buckets@ == before,
                    placed ==> {
                        &&& i < before.len()
                        &&& prefix_compatible(before[i as int].pattern(), input@[idx as int].pattern())
                        &&& buckets@ == before.update(i as int, buckets@[i as int])
                        &&& buckets@[i as int].wf()
                        &&& buckets@[i as int].members() == before[i as int].members() + input@[idx as int].members()
                        &&& buckets@[i as int].pattern() == longer(before[i as int].pattern(), input@[idx as int].pattern())
                    },
                decreases buckets@.len() - i + if placed { 0int } else { 1int },
            {
                let ok = buckets[i].consume(&input[idx]);
                if ok {
                    placed = true;
                } else {
                    proof {
                        assert(buckets@ =~= before);
                    }
                    i = i + 1;
                }
            }
            let ghost acc = dedup(prefix).1;
            proof {
                assert(acc == models(before));
                assert forall|k: int| 0 <= k < i implies !prefix_compatible(#[trigger] acc[k].1, ins[idx as int].1) by {
                    assert(acc[k].1 == before[k].pattern());
                }
                lemma_first_fit(acc, ins[idx as int].1, i as int, 0);
            }
            if placed {
                indexes.push(i);
                proof {
                    assert(models(buckets@) =~= dedup(ins.take(idx + 1)).1);
                }
            } else {
                indexes.push(buckets.len());
                buckets.push(input[idx].duplicate());
                proof {
                    assert(models(buckets@) =~= dedup(ins.take(idx + 1)).1);
                }
            }
            proof {
                assert(indexes@.map_values(|x: usize| x as int) =~= dedup(ins.take(idx + 1)).0);
                assert forall|k: int, e: (u32, u8)| 0 <= k < buckets@.len() && #[trigger] buckets@[k].members().contains(e) implies
                    exists|m: int| 0 <= m < idx + 1 && indexes@[m] == k && #[trigger] input@[m].members().contains(e) by {
                    if k < before.len() && before[k].members().contains(e) {
                        let m = choose|m: int| 0 <= m < idx && indexes@[m] == k && #[trigger] input@[m].members().contains(e);
                        assert(indexes@[m] == k);
                    } else {
                        assert(indexes@[idx as int] == k);
                        assert(input@[idx as int].members().contains(e));
                    }
                }
            }
            idx = idx + 1;
        }
        proof {
            assert(ins.take(idx as int) =~= ins);
            assert forall|i: int, j: int| 0 <= i < buckets@.len() && 0 <= j < buckets@.len() && i != j implies apart(#[trigger] buckets@[i].entries(), #[trigger] buckets@[j].entries()) by {
                assert forall|a: int, b: int| 0 <= a < buckets@[i].entries().len() && 0 <= b < buckets@[j].entries().len()
                    implies buckets@[i].entries()[a].0 != buckets@[j].entries()[b].0 by {
                    let e = buckets@[i].entries()[a];
                    let f = buckets@[j].entries()[b];
                    assert(buckets@[i].members().contains(e));
                    assert(buckets@[j].members().contains(f));
                    let m1 = choose|m: int| 0 <= m < idx && indexes@[m] == i && #[trigger] input@[m].members().contains(e);
                    let m2 = choose|m: int| 0 <= m < idx && indexes@[m] == j && #[trigger] input@[m].members().contains(f);
                    let c1 = choose|c: int| 0 <= c < input@[m1].entries().len() && input@[m1].entries()[c] == e;
                    let c2 = choose|c: int| 0 <= c < input@[m2].entries().len() && input@[m2].entries()[c] == f;
                    assert(apart(input@[m1].entries(), input@[m2].entries()));
                }
            }
        }
        IndexedBuckets { indexes, buckets }
    }

    /// For each input bucket, the index of the kept bucket that took it.
    pub fn indexes(&self) -> (r: &[usize])
        ensures
            r@ == self.index_seq(),
    {
        self.indexes.as_slice()
    }

    /// The kept buckets.
    pub fn buckets(&self) -> (r: &[Bucket])
        ensures
            r@ == self.bucket_seq(),
    {
        self.buckets.as_slice()
    }

    /// Whether every kept bucket is uniform, so that no further level is
    /// needed.
    pub fn is_uniform(&self) -> (r: bool)
        ensures
            r == forall|k: int| 0 <= k < self.bucket_seq().len() ==> uniform_members(#[trigger] self.bucket_seq()[k].members()),
    {
        let mut k: usize = 0;
        while k < self.buckets.len()
            invariant
                k <= self.buckets@.len(),
                forall|j: int| 0 <= j < k ==> uniform_members(#[trigger] self.buckets@[j].members()),
            decreases self.buckets@.len() - k,
        {
            if !self.buckets[k].is_uniform() {
                assert(!uniform_members(self.bucket_seq()[k as int].members()));
                return false;
            }
            k = k + 1;
        }
        true
    }
}

} // verus!
