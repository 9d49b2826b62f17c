//! The search for the bits that index each level of a width table.
use vstd::prelude::*;
use vstd::arithmetic::power2::pow2;
use crate::bits::{
    Bits, gaps, is_subset_of, minus, subset_rank, lemma_subset_rank_bound,
    lemma_subset_rank_injective, UNICODE_BITS,
};
use crate::bucket::{
    Bucket, BucketModel, IndexedBuckets, apart, dedup, in_slot, make_buckets, models,
    pairwise_apart, uniform_members, widths_of, lemma_ascending_set_eq,
};

verus! {

/// The buckets that hashing the members of `p` by `bits` gives, one per
/// hash value.
pub open spec fn split_model(p: Seq<(u32, u8)>, bits: Seq<u8>) -> Seq<BucketModel> {
    Seq::new(
        pow2(bits.len()),
        |h: int|
            {
                let e = p.filter(in_slot(bits, h));
                (e.to_set(), widths_of(e))
            },
    )
}

/// The buckets that hashing each parent bucket by `bits` gives, parent by
/// parent.
pub open spec fn hashed(parents: Seq<Bucket>, bits: Seq<u8>) -> Seq<BucketModel>
    decreases parents.len(),
{
    if parents.len() == 0 {
        Seq::empty()
    } else {
        hashed(parents.drop_last(), bits) + split_model(parents.last().entries(), bits)
    }
}

/// Every bucket of `ib` is uniform.
pub open spec fn all_uniform(ib: IndexedBuckets) -> bool {
    forall|k: int| 0 <= k < ib.bucket_seq().len() ==> uniform_members(#[trigger] ib.bucket_seq()[k].members())
}

/// `bits` is a valid choice for a level over `parents`: `k` bits of
/// `usable`, within the discontinuity budget, and `ib` is the deduplication
/// of the parents hashed by `bits`.
pub open spec fn level_ok(
    parents: Seq<Bucket>,
    usable: Seq<u8>,
    k: usize,
    max_discontinuities: usize,
    bits: Bits,
    ib: IndexedBuckets,
) -> bool {
    &&& bits.wf()
    &&& is_subset_of(bits@, usable, k as nat)
    &&& gaps(bits@) <= max_discontinuities
    &&& ib.wf()
    &&& ib.index_seq().map_values(|x: usize| x as int) == dedup(hashed(parents, bits@)).0
    &&& models(ib.bucket_seq()) == dedup(hashed(parents, bits@)).1
}

/// `chain`, innermost level first, is a table over `parents`: its last
/// element is a valid level for the first key width of `schedule`, and
/// either its buckets are all uniform and it is the only element, or the
/// rest is a table over its buckets with the remaining bits and widths.
pub open spec fn valid_chain(
    parents: Seq<Bucket>,
    usable: Seq<u8>,
    schedule: Seq<usize>,
    max_discontinuities: usize,
    chain: Seq<(Bits, IndexedBuckets)>,
) -> bool
    decreases chain.len(),
{
    if chain.len() == 0 || schedule.len() == 0 {
        false
    } else {
        let (bits, ib) = chain.last();
        &&& level_ok(parents, usable, schedule[0], max_discontinuities, bits, ib)
        &&& if chain.len() == 1 {
            all_uniform(ib)
        } else {
            valid_chain(
                ib.bucket_seq(),
                minus(usable, bits@),
                schedule.drop_first(),
                max_discontinuities,
                chain.drop_last(),
            )
        }
    }
}

/// The number of kept buckets over all levels of `chain`.
pub open spec fn chain_cost(chain: Seq<(Bits, IndexedBuckets)>) -> nat
    decreases chain.len(),
{
    if chain.len() == 0 {
        0
    } else {
        chain_cost(chain.drop_last()) + chain.last().1.bucket_seq().len()
    }
}

proof fn lemma_filter_member<A>(s: Seq<A>, pred: spec_fn(A) -> bool, i: int)
    requires
        0 <= i < s.filter(pred).len(),
    ensures
        s.contains(s.filter(pred)[i]),
        pred(s.filter(pred)[i]),
{
    broadcast use Seq::lemma_filter_contains_rev;
    s.lemma_filter_pred(pred, i);
    assert(s.filter(pred).contains(s.filter(pred)[i]));
}

/// Hashes every parent bucket by `bits`, one run of buckets per parent.
fn hash_parents(parents: &[Bucket], bits: &Bits) -> (r: Vec<Bucket>)
    requires
        forall|k: int| 0 <= k < parents@.len() ==> (#[trigger] parents@[k]).wf(),
        pairwise_apart(parents@),
        bits.wf(),
    ensures
        forall|k: int| 0 <= k < r@.len() ==> (#[trigger] r@[k]).wf(),
        pairwise_apart(r@),
        models(r@) == hashed(parents@, bits@),
{
    let ghost n = pow2(bits@.len()) as int;
    proof {
        vstd::arithmetic::power2::lemma_pow2_pos(bits@.len());
    }
    let mut combo_buckets: Vec<Bucket> = Vec::new();
    let mut i: usize = 0;
    while i < parents.len()
        invariant
            forall|k: int| 0 <= k < parents@.len() ==> (#[trigger] parents@[k]).wf(),
            pairwise_apart(parents@),
            bits.wf(),
            n == pow2(bits@.len()),
            n > 0,
            i <= parents@.len(),
            combo_buckets@.len() == i * n,
            forall|k: int| 0 <= k < combo_buckets@.len() ==> {
                &&& (#[trigger] combo_buckets@[k]).wf()
                &&& combo_buckets@[k].entries() == parents@[k / n].entries().filter(in_slot(bits@, k % n))
                &&& combo_buckets@[k].pattern() == widths_of(combo_buckets@[k].entries())
            },
            models(combo_buckets@) == hashed(parents@.take(i as int), bits@),
        decreases parents@.len() - i,
    {
        let mut buckets = make_buckets(&parents[i], bits);
        let ghost before = combo_buckets@;
        let ghost added = buckets@;
        combo_buckets.append(&mut buckets);
        proof {
            assert(combo_buckets@ == before + added);
            assert((i + 1) * n == i * n + n) by (nonlinear_arith);
            assert forall|k: int| 0 <= k < combo_buckets@.len() implies {
                &&& (#[trigger] combo_buckets@[k]).wf()
                &&& combo_buckets@[k].entries() == parents@[k / n].entries().filter(in_slot(bits@, k % n))
                &&& combo_buckets@[k].pattern() == widths_of(combo_buckets@[k].entries())
            } by {
                if k >= before.len() {
                    let h = k - before.len();
                    assert(combo_buckets@[k] == added[h]);
                    vstd::arithmetic::div_mod::lemma_fundamental_div_mod_converse(k, n, i as int, h);
                } else {
                    assert(combo_buckets@[k] == before[k]);
                }
            }
            assert(parents@.take(i + 1).drop_last() =~= parents@.take(i as int));
            assert(parents@.take(i + 1).last() == parents@[i as int]);
            assert(models(added) =~= split_model(parents@[i as int].entries(), bits@));
            assert(models(combo_buckets@) =~= models(before) + models(added));
        }
        i = i + 1;
    }
    proof {
        assert(parents@.take(i as int) =~= parents@);
        assert forall|a: int, b: int| 0 <= a < combo_buckets@.len() && 0 <= b < combo_buckets@.len() && a != b
            implies apart(#[trigger] combo_buckets@[a].entries(), #[trigger] combo_buckets@[b].entries()) by {
            let (pa, pb) = (a / n, b / n);
            let (ha, hb) = (a % n, b % n);
            vstd::arithmetic::div_mod::lemma_fundamental_div_mod(a, n);
            vstd::arithmetic::div_mod::lemma_fundamental_div_mod(b, n);
            assert(0 <= pa < parents@.len()) by (nonlinear_arith)
                requires
                    a == n * pa + ha,
                    0 <= ha < n,
                    0 <= a < i * n,
                    i == parents@.len(),
            ;
            assert(0 <= pb < parents@.len()) by (nonlinear_arith)
                requires
                    b == n * pb + hb,
                    0 <= hb < n,
                    0 <= b < i * n,
                    i == parents@.len(),
            ;
            let ea = parents@[pa].entries();
            let eb = parents@[pb].entries();
            assert forall|x: int, y: int| 0 <= x < combo_buckets@[a].entries().len() && 0 <= y < combo_buckets@[b].entries().len()
                implies combo_buckets@[a].entries()[x].0 != combo_buckets@[b].entries()[y].0 by {
                let u = combo_buckets@[a].entries()[x];
                let v = combo_buckets@[b].entries()[y];
                lemma_filter_member(ea, in_slot(bits@, ha), x);
                lemma_filter_member(eb, in_slot(bits@, hb), y);
                let xi = choose|xi: int| 0 <= xi < ea.len() && ea[xi] == u;
                let yi = choose|yi: int| 0 <= yi < eb.len() && eb[yi] == v;
                if pa != pb {
                    assert(apart(ea, eb));
                } else if u.0 == v.0 {
                    if xi < yi {
                        assert(ea[xi].0 < ea[yi].0);
                    } else if yi < xi {
                        assert(ea[yi].0 < ea[xi].0);
                    }
                    assert(ha == hb);
                    assert(a == b);
                }
            }
        }
    }
    combo_buckets
}

/// `p` and `q` hold buckets with the same entries, in the same order.
pub open spec fn same_entries(p: Seq<Bucket>, q: Seq<Bucket>) -> bool {
    &&& p.len() == q.len()
    &&& forall|i: int| 0 <= i < p.len() ==> (#[trigger] p[i]).entries() == q[i].entries()
}

proof fn lemma_hashed_same(p: Seq<Bucket>, q: Seq<Bucket>, bits: Seq<u8>)
    requires
        same_entries(p, q),
    ensures
        hashed(p, bits) == hashed(q, bits),
    decreases p.len(),
{
    if p.len() > 0 {
        assert(same_entries(p.drop_last(), q.drop_last())) by {
            assert forall|i: int| 0 <= i < p.len() - 1 implies (#[trigger] p.drop_last()[i]).entries() == q.drop_last()[i].entries() by {
                assert(p[i].entries() == q[i].entries());
            }
        }
        lemma_hashed_same(p.drop_last(), q.drop_last(), bits);
        assert(p.last().entries() == q.last().entries());
    }
}

proof fn lemma_models_fix_entries(p: Seq<Bucket>, q: Seq<Bucket>)
    requires
        forall|k: int| 0 <= k < p.len() ==> (#[trigger] p[k]).wf(),
        forall|k: int| 0 <= k < q.len() ==> (#[trigger] q[k]).wf(),
        models(p) == models(q),
    ensures
        same_entries(p, q),
{
    assert(p.len() == models(p).len() && q.len() == models(q).len());
    assert forall|i: int| 0 <= i < p.len() implies (#[trigger] p[i]).entries() == q[i].entries() by {
        assert(models(p)[i] == models(q)[i]);
        assert(p[i].wf() && q[i].wf());
        lemma_ascending_set_eq(p[i].entries(), q[i].entries());
    }
}

proof fn lemma_valid_chain_same(
    p: Seq<Bucket>,
    q: Seq<Bucket>,
    usable: Seq<u8>,
    schedule: Seq<usize>,
    max_discontinuities: usize,
    chain: Seq<(Bits, IndexedBuckets)>,
)
    requires
        same_entries(p, q),
        valid_chain(p, usable, schedule, max_discontinuities, chain),
    ensures
        valid_chain(q, usable, schedule, max_discontinuities, chain),
{
    lemma_hashed_same(p, q, chain.last().0@);
}

/// The number of kept buckets over all levels of `chain`, saturating at
/// `usize::MAX`.
fn total_buckets(chain: &Vec<(Bits, IndexedBuckets)>) -> (r: usize)
    ensures
        r == if chain_cost(chain@) > usize::MAX { usize::MAX } else { chain_cost(chain@) as usize },
{
    let mut total: usize = 0;
    let mut i: usize = 0;
    while i < chain.len()
        invariant
            i <= chain@.len(),
            total == if chain_cost(chain@.take(i as int)) > usize::MAX { usize::MAX } else { chain_cost(chain@.take(i as int)) as usize },
        decreases chain@.len() - i,
    {
        proof {
            assert(chain@.take(i + 1).drop_last() =~= chain@.take(i as int));
            assert(chain@.take(i + 1).last() == chain@[i as int]);
        }
        total = total.saturating_add(chain[i].1.buckets().len());
        i = i + 1;
    }
    assert(chain@.take(i as int) =~= chain@);
    total
}

/// Searches for the bits that index each level of a table over
/// `parent_buckets`: level `i` uses `index_bits[i]` bits of `usable`, none
/// used twice, each choice within `max_discontinuities`. The first choice
/// whose buckets are all uniform ends the search at its level; otherwise
/// the chain with the fewest kept buckets over all levels is kept. The
/// result lists the levels innermost first, or is `None` where no choice
/// reaches uniform buckets within the schedule.
pub fn optimal_table(
    parent_buckets: &[Bucket],
    usable: Bits,
    index_bits: &[usize],
    max_discontinuities: usize,
) -> (r: Option<Vec<(Bits, IndexedBuckets)>>)
    requires
        forall|k: int| 0 <= k < parent_buckets@.len() ==> (#[trigger] parent_buckets@[k]).wf(),
        pairwise_apart(parent_buckets@),
        usable.wf(),
    ensures
        r matches Some(chain) ==> valid_chain(parent_buckets@, usable@, index_bits@, max_discontinuities, chain@),
        r is None ==> forall|chain: Seq<(Bits, IndexedBuckets)>|
            !valid_chain(parent_buckets@, usable@, index_bits@, max_discontinuities, chain),
        (exists|chain: Seq<(Bits, IndexedBuckets)>|
            chain.len() == 1 && valid_chain(parent_buckets@, usable@, index_bits@, max_discontinuities, chain))
            ==> (r matches Some(chain) && chain@.len() == 1),
    decreases index_bits@.len(),
{
    if index_bits.len() == 0 {
        return None;
    }
    let k = index_bits[0];
    let rest_bits = &index_bits[1..index_bits.len()];
    assert(rest_bits@ == index_bits@.drop_first());
    let mut combinations = usable.combinations(k);
    let mut min_cost: usize = usize::MAX;
    let mut best: Option<Vec<(Bits, IndexedBuckets)>> = None;
    proof {
        assert forall|chain: Seq<(Bits, IndexedBuckets)>|
            #[trigger] valid_chain(parent_buckets@, usable@, index_bits@, max_discontinuities, chain)
            implies subset_rank(usable@, chain.last().0@) < combinations.left() by {
            lemma_subset_rank_bound(usable@, chain.last().0@, k as nat);
        }
    }
    let mut single: bool = false;
    loop
        invariant_except_break
            !single,
            forall|chain: Seq<(Bits, IndexedBuckets)>|
                #[trigger] valid_chain(parent_buckets@, usable@, index_bits@, max_discontinuities, chain) && chain.len() == 1
                ==> subset_rank(usable@, chain.last().0@) < combinations.left(),
        invariant
            forall|j: int| 0 <= j < parent_buckets@.len() ==> (#[trigger] parent_buckets@[j]).wf(),
            pairwise_apart(parent_buckets@),
            usable.wf(),
            index_bits@.len() > 0,
            k == index_bits@[0],
            rest_bits@ == index_bits@.drop_first(),
            combinations.wf(),
            combinations.source() == usable@,
            combinations.size() == k,
            best matches Some(chain) ==> valid_chain(parent_buckets@, usable@, index_bits@, max_discontinuities, chain@),
            best is None ==> forall|chain: Seq<(Bits, IndexedBuckets)>|
                #[trigger] valid_chain(parent_buckets@, usable@, index_bits@, max_discontinuities, chain)
                ==> subset_rank(usable@, chain.last().0@) < combinations.left(),
        ensures
            best matches Some(chain) ==> valid_chain(parent_buckets@, usable@, index_bits@, max_discontinuities, chain@),
            best is None ==> forall|chain: Seq<(Bits, IndexedBuckets)>|
                !valid_chain(parent_buckets@, usable@, index_bits@, max_discontinuities, chain),
            single ==> (best matches Some(chain) && chain@.len() == 1),
            !single ==> forall|chain: Seq<(Bits, IndexedBuckets)>|
                chain.len() == 1 ==> !valid_chain(parent_buckets@, usable@, index_bits@, max_discontinuities, chain),
        decreases combinations.left(),
    {
        let combo = match combinations.next() {
            Some(c) => c,
            None => break,
        };
        // A valid chain whose top level ranks where `combo` does uses `combo`.
        proof {
            assert forall|chain: Seq<(Bits, IndexedBuckets)>|
                #[trigger] valid_chain(parent_buckets@, usable@, index_bits@, max_discontinuities, chain)
                && subset_rank(usable@, chain.last().0@) == combinations.left()
                implies chain.last().0@ == combo@ by {
                lemma_subset_rank_injective(usable@, chain.last().0@, combo@, k as nat);
            }
        }
        if combo.discontinuities() > max_discontinuities {
            continue;
        }
        let combo_buckets = hash_parents(parent_buckets, &combo);
        let indexed = IndexedBuckets::from_buckets(combo_buckets);
        if indexed.is_uniform() {
            let mut chain: Vec<(Bits, IndexedBuckets)> = Vec::new();
            chain.push((combo, indexed));
            proof {
                assert(chain@.last() == (combo, indexed));
            }
            best = Some(chain);
            single = true;
            break;
        }
        // No single level over `combo` is uniform, so no one-level chain
        // ranks where `combo` does.
        proof {
            assert forall|chain: Seq<(Bits, IndexedBuckets)>|
                #[trigger] valid_chain(parent_buckets@, usable@, index_bits@, max_discontinuities, chain) && chain.len() == 1
                implies subset_rank(usable@, chain.last().0@) < combinations.left() by {
                if subset_rank(usable@, chain.last().0@) == combinations.left() {
                    let (top, ib) = chain.last();
                    lemma_models_fix_entries(ib.bucket_seq(), indexed.bucket_seq());
                    assert forall|j: int| 0 <= j < indexed.bucket_seq().len() implies
                        uniform_members(#[trigger] indexed.bucket_seq()[j].members()) by {
                        assert(ib.bucket_seq()[j].entries() == indexed.bucket_seq()[j].entries());
                        assert(uniform_members(ib.bucket_seq()[j].members()));
                    }
                }
            }
        }
        let rest = usable.without(&combo);
        let found = optimal_table(indexed.buckets(), rest, rest_bits, max_discontinuities);
        proof {
            if found is None && best is None {
                assert forall|chain: Seq<(Bits, IndexedBuckets)>|
                    #[trigger] valid_chain(parent_buckets@, usable@, index_bits@, max_discontinuities, chain)
                    implies subset_rank(usable@, chain.last().0@) < combinations.left() by {
                    if subset_rank(usable@, chain.last().0@) == combinations.left() {
                        let (top, ib) = chain.last();
                        assert(top@ == combo@);
                        lemma_models_fix_entries(ib.bucket_seq(), indexed.bucket_seq());
                        if chain.len() == 1 {
                            assert forall|j: int| 0 <= j < indexed.bucket_seq().len() implies
                                uniform_members(#[trigger] indexed.bucket_seq()[j].members()) by {
                                assert(ib.bucket_seq()[j].entries() == indexed.bucket_seq()[j].entries());
                                assert(uniform_members(ib.bucket_seq()[j].members()));
                            }
                        } else {
                            lemma_valid_chain_same(
                                ib.bucket_seq(),
                                indexed.bucket_seq(),
                                minus(usable@, top@),
                                index_bits@.drop_first(),
                                max_discontinuities,
                                chain.drop_last(),
                            );
                        }
                    }
                }
            }
        }
        match found {
            Some(mut recurse) => {
                let ghost inner = recurse@;
                recurse.push((combo, indexed));
                proof {
                    assert(recurse@.drop_last() =~= inner);
                    assert(recurse@.last() == (combo, indexed));
                }
                let cost = total_buckets(&recurse);
                if best.is_none() || cost < min_cost {
                    min_cost = cost;
                    best = Some(recurse);
                }
            },
            None => {},
        }
    }
    proof {
        if !single {
            assert forall|chain: Seq<(Bits, IndexedBuckets)>|
                chain.len() == 1 implies !valid_chain(parent_buckets@, usable@, index_bits@, max_discontinuities, chain) by {
            }
        }
    }
    best
}

/// Whether `c` is a Unicode scalar value: a codepoint that is not a
/// surrogate.
pub open spec fn is_scalar(c: nat) -> bool {
    c < 0xD800 || (0xE000 <= c && c < 0x110000)
}

/// The scalar values below `limit`, ascending.
pub fn scalar_values(limit: u32) -> (r: Vec<u32>)
    ensures
        forall|i: int, j: int| 0 <= i < j < r@.len() ==> r@[i] < r@[j],
        forall|i: int| 0 <= i < r@.len() ==> is_scalar(r@[i] as nat) && r@[i] < limit,
        forall|c: u32| is_scalar(c as nat) && c < limit ==> r@.contains(c),
{
    let end: u32 = if limit < 0x110000 { limit } else { 0x110000 };
    let mut out: Vec<u32> = Vec::new();
    let mut c: u32 = 0;
    while c < end
        invariant
            end <= limit,
            end <= 0x110000,
            c <= end,
            forall|i: int, j: int| 0 <= i < j < out@.len() ==> out@[i] < out@[j],
            forall|i: int| 0 <= i < out@.len() ==> is_scalar(out@[i] as nat) && out@[i] < c,
            forall|d: u32| is_scalar(d as nat) && d < c ==> out@.contains(d),
        decreases end - c,
    {
        if c < 0xD800 || c >= 0xE000 {
            let ghost before = out@;
            out.push(c);
            proof {
                assert(out@[out@.len() - 1] == c);
                assert forall|d: u32| is_scalar(d as nat) && d < c + 1 implies out@.contains(d) by {
                    if d < c {
                        assert(before.contains(d));
                        let k = choose|k: int| 0 <= k < before.len() && before[k] == d;
                        assert(out@[k] == d);
                    }
                }
            }
        } else {
            proof {
                assert forall|d: u32| is_scalar(d as nat) && d < c + 1 implies out@.contains(d) by {
                    assert(d != c);
                }
            }
        }
        c = c + 1;
    }
    out
}

/// The positions `0, 1, ..., UNICODE_BITS - 1`.
pub open spec fn all_bits() -> Seq<u8> {
    Seq::new(UNICODE_BITS as nat, |i: int| i as u8)
}

/// `root` holds each scalar value below `widths.len()` with its width.
pub open spec fn is_root(root: Bucket, widths: Seq<u8>) -> bool {
    forall|p: (u32, u8)| root.members().contains(p) <==> {
        &&& (p.0 as int) < widths.len()
        &&& is_scalar(p.0 as nat)
        &&& p.1 == widths[p.0 as int]
    }
}

/// Searches for a table over every scalar value below `widths.len()`, each
/// with its width class in `widths`, with the level key widths
/// `key_widths` and the discontinuity budget `max_discontinuities`.
pub fn search_table(widths: &[u8], key_widths: &[usize], max_discontinuities: usize) -> (r: Option<Vec<(Bits, IndexedBuckets)>>)
    ensures
        r matches Some(chain) ==> exists|root: Bucket| {
            &&& root.wf()
            &&& is_root(root, widths@)
            &&& valid_chain(seq![root], all_bits(), key_widths@, max_discontinuities, chain@)
        },
        r is None ==> forall|root: Bucket, chain: Seq<(Bits, IndexedBuckets)>|
            root.wf() && is_root(root, widths@) ==> !valid_chain(seq![root], all_bits(), key_widths@, max_discontinuities, chain),
{
    let limit: u32 = if widths.len() < 0x110000 { widths.len() as u32 } else { 0x110000 };
    let chars = scalar_values(limit);
    let root = Bucket::from_chars(widths, chars.as_slice());
    proof {
        let s = root.entries();
        assert forall|p: (u32, u8)| root.members().contains(p) <==> {
            &&& (p.0 as int) < widths@.len()
            &&& is_scalar(p.0 as nat)
            &&& p.1 == widths@[p.0 as int]
        } by {
            if root.members().contains(p) {
                let i = choose|i: int| 0 <= i < s.len() && s[i] == p;
                assert(s[i] == (chars@[i], widths@[chars@[i] as int]));
            }
            if (p.0 as int) < widths@.len() && is_scalar(p.0 as nat) && p.1 == widths@[p.0 as int] {
                assert(chars@.contains(p.0));
                let i = choose|i: int| 0 <= i < chars@.len() && chars@[i] == p.0;
                assert(s[i] == p);
                assert(s.to_set().contains(p));
            }
        }
    }
    let all = Bits::range(0, UNICODE_BITS);
    assert(all@ =~= all_bits());
    let mut parents: Vec<Bucket> = Vec::new();
    parents.push(root);
    let ghost root_v = parents@[0];
    assert(parents@ =~= seq![root_v]);
    let r = optimal_table(parents.as_slice(), all, key_widths, max_discontinuities);
    proof {
        if r is None {
            assert forall|other: Bucket, chain: Seq<(Bits, IndexedBuckets)>|
                other.wf() && is_root(other, widths@) implies
                !valid_chain(seq![other], all_bits(), key_widths@, max_discontinuities, chain) by {
                assert(other.members() =~= root_v.members());
                lemma_ascending_set_eq(other.entries(), root_v.entries());
                if valid_chain(seq![other], all_bits(), key_widths@, max_discontinuities, chain) {
                    assert(same_entries(seq![other], seq![root_v]));
                    lemma_valid_chain_same(seq![other], seq![root_v], all_bits(), key_widths@, max_discontinuities, chain);
                }
            }
        }
    }
    r
}

} // verus!
