//! The largest differencing heuristic as mathematics.
//!
//! A run of the heuristic is told over positions of the input: a `Partial`
//! names the positions it has put on either side and the gap between the two
//! sides. The heuristic starts from one `Partial` per position and merges the
//! two with the largest gaps until one is left. Which of several equal gaps is
//! taken first is left open, so `reduces_to` is a relation, not a function.
use vstd::multiset::Multiset;
use vstd::prelude::*;

verus! {

/// A partial partition: the positions on either side, and how much heavier
/// the left side is than the right.
pub struct Partial {
    pub left: Seq<int>,
    pub right: Seq<int>,
    pub gap: int,
}

/// The partial partition that holds nothing.
pub open spec fn nothing() -> Partial {
    Partial { left: Seq::empty(), right: Seq::empty(), gap: 0 }
}

/// The partial partition that holds position `at`, of size `size`, on its left.
pub open spec fn single(at: int, size: int) -> Partial {
    Partial { left: seq![at], right: Seq::empty(), gap: size }
}

/// `lo` laid against `hi`: the sides of `lo` go to the opposite sides of `hi`,
/// and the gaps cancel.
pub open spec fn merged(hi: Partial, lo: Partial) -> Partial {
    Partial { left: hi.left + lo.right, right: hi.right + lo.left, gap: hi.gap - lo.gap }
}

/// One `Partial` per position of `sizes`, in order of position.
pub open spec fn singles(sizes: Seq<u64>) -> Seq<Partial> {
    Seq::new(sizes.len(), |i: int| single(i, sizes[i] as int))
}

/// What the heuristic starts from.
pub open spec fn seed(sizes: Seq<u64>) -> Multiset<Partial> {
    singles(sizes).to_multiset()
}

/// `p` is in `pool` and no gap in `pool` is larger than its gap.
pub open spec fn leads(pool: Multiset<Partial>, p: Partial) -> bool {
    &&& pool.contains(p)
    &&& forall|q: Partial| pool.contains(q) ==> q.gap <= p.gap
}

/// `hi` leads `pool`, and `lo` leads what is left of it without `hi`.
pub open spec fn top_two(pool: Multiset<Partial>, hi: Partial, lo: Partial) -> bool {
    &&& leads(pool, hi)
    &&& leads(pool.remove(hi), lo)
}

/// `pool` after `hi` and `lo` have been taken out and merged.
pub open spec fn after_merge(pool: Multiset<Partial>, hi: Partial, lo: Partial) -> Multiset<
    Partial,
> {
    pool.remove(hi).remove(lo).insert(merged(hi, lo))
}

/// Some run of the heuristic takes `pool` to `out`: an empty pool gives
/// `nothing()`, a pool of one gives that one, and a larger pool merges its
/// top two and goes on.
pub open spec fn reduces_to(pool: Multiset<Partial>, out: Partial) -> bool
    decreases pool.len(),
{
    if pool.len() == 0 {
        out == nothing()
    } else if pool.len() == 1 {
        pool.contains(out)
    } else {
        exists|hi: Partial, lo: Partial|
            #[trigger] top_two(pool, hi, lo) && reduces_to(after_merge(pool, hi, lo), out)
    }
}

/// `out` is a result of the heuristic on items of these sizes.
pub open spec fn ldm_outcome(sizes: Seq<u64>, out: Partial) -> bool {
    reduces_to(seed(sizes), out)
}

/// The total size of the items at `picks`.
pub open spec fn weight(sizes: Seq<u64>, picks: Seq<int>) -> int
    decreases picks.len(),
{
    if picks.len() == 0 {
        0
    } else {
        weight(sizes, picks.drop_last()) + sizes[picks.last()]
    }
}

/// The distance between the total sizes of two groups of positions.
pub open spec fn imbalance(sizes: Seq<u64>, left: Seq<int>, right: Seq<int>) -> int {
    let d = weight(sizes, left) - weight(sizes, right);
    if d >= 0 {
        d
    } else {
        -d
    }
}

/// The largest of `sizes`, and 0 where there is none.
pub open spec fn largest(sizes: Seq<u64>) -> int
    decreases sizes.len(),
{
    if sizes.len() == 0 {
        0
    } else if largest(sizes.drop_last()) >= sizes.last() {
        largest(sizes.drop_last())
    } else {
        sizes.last() as int
    }
}

/// `left` and `right` together hold each of the positions `0..n` once, and
/// nothing else.
pub open spec fn is_split(n: nat, left: Seq<int>, right: Seq<int>) -> bool {
    &&& (left + right).no_duplicates()
    &&& forall|k: int| 0 <= k < n <==> (left + right).contains(k)
}

/// Position `k` is on one of the sides of `p`.
pub open spec fn holds(p: Partial, k: int) -> bool {
    (p.left + p.right).contains(k)
}

/// What holds of every partial partition that a run meets: it has something
/// on its left, its positions are positions of the input and none occurs
/// twice, and its gap is what its left outweighs its right by, which is not
/// negative and not more than the largest size.
pub open spec fn fair(sizes: Seq<u64>, p: Partial) -> bool {
    &&& p.left.len() > 0
    &&& (p.left + p.right).no_duplicates()
    &&& forall|k: int| #[trigger] holds(p, k) ==> 0 <= k < sizes.len()
    &&& p.gap == weight(sizes, p.left) - weight(sizes, p.right)
    &&& 0 <= p.gap <= largest(sizes)
}

/// Some member of `pool` holds position `k`.
pub open spec fn placed(pool: Multiset<Partial>, k: int) -> bool {
    exists|p: Partial| pool.contains(p) && #[trigger] holds(p, k)
}

/// What holds of every pool that a run meets: its members are fair and
/// occur once, no position is held by two of them, and every position of the
/// input is held by one.
pub open spec fn sound(sizes: Seq<u64>, pool: Multiset<Partial>) -> bool {
    &&& forall|p: Partial| #[trigger] pool.contains(p) ==> fair(sizes, p) && pool.count(p) == 1
    &&& forall|p: Partial, q: Partial, k: int|
        pool.contains(p) && pool.contains(q) && #[trigger] holds(p, k) && #[trigger] holds(q, k)
            ==> p == q
    &&& forall|k: int| 0 <= k < sizes.len() ==> #[trigger] placed(pool, k)
}

/// The weight of two runs of positions is the sum of their weights.
proof fn lemma_weight_concat(sizes: Seq<u64>, a: Seq<int>, b: Seq<int>)
    ensures
        weight(sizes, a + b) == weight(sizes, a) + weight(sizes, b),
    decreases b.len(),
{
    if b.len() == 0 {
        assert(a + b =~= a);
    } else {
        lemma_weight_concat(sizes, a, b.drop_last());
        assert((a + b).drop_last() =~= a + b.drop_last());
    }
}

/// No size is larger than the largest.
proof fn lemma_largest_bounds(sizes: Seq<u64>, i: int)
    requires
        0 <= i < sizes.len(),
    ensures
        sizes[i] <= largest(sizes),
    decreases sizes.len(),
{
    if i < sizes.len() - 1 {
        lemma_largest_bounds(sizes.drop_last(), i);
    }
}

/// Where two runs of positions share nothing and neither repeats a
/// position, crossing their halves repeats none either, and holds what the
/// two held.
proof fn lemma_crossed_positions(a1: Seq<int>, a2: Seq<int>, b1: Seq<int>, b2: Seq<int>)
    requires
        (a1 + a2).no_duplicates(),
        (b1 + b2).no_duplicates(),
        forall|k: int| #[trigger] (a1 + a2).contains(k) ==> !(b1 + b2).contains(k),
    ensures
        ((a1 + b2) + (a2 + b1)).no_duplicates(),
        forall|k: int|
            ((a1 + b2) + (a2 + b1)).contains(k) <==> (a1 + a2).contains(k) || (b1 + b2).contains(k),
{
    let a = a1 + a2;
    let b = b1 + b2;
    let x = (a1 + b2) + (a2 + b1);
    vstd::seq_lib::lemma_multiset_commutative(a1, a2);
    vstd::seq_lib::lemma_multiset_commutative(b1, b2);
    vstd::seq_lib::lemma_multiset_commutative(a1, b2);
    vstd::seq_lib::lemma_multiset_commutative(a2, b1);
    vstd::seq_lib::lemma_multiset_commutative(a1 + b2, a2 + b1);
    a.lemma_multiset_has_no_duplicates();
    b.lemma_multiset_has_no_duplicates();
    assert forall|k: int|
        x.to_multiset().count(k) == a.to_multiset().count(k) + b.to_multiset().count(k) by {}
    assert forall|k: int| x.contains(k) <==> a.contains(k) || b.contains(k) by {
        vstd::seq_lib::to_multiset_contains(x, k);
        vstd::seq_lib::to_multiset_contains(a, k);
        vstd::seq_lib::to_multiset_contains(b, k);
    }
    assert forall|k: int| x.to_multiset().contains(k) implies x.to_multiset().count(k) == 1 by {
        vstd::seq_lib::to_multiset_contains(a, k);
        vstd::seq_lib::to_multiset_contains(b, k);
    }
    x.lemma_multiset_has_no_duplicates_conv();
}

/// What the heuristic starts from is sound, and has one member per item.
pub proof fn lemma_seed_sound(sizes: Seq<u64>)
    ensures
        sound(sizes, seed(sizes)),
        seed(sizes).len() == sizes.len(),
{
    let s = singles(sizes);
    let pool = seed(sizes);
    vstd::seq_lib::to_multiset_len(s);
    assert(s.no_duplicates()) by {
        assert forall|i: int, j: int| 0 <= i < s.len() && 0 <= j < s.len() && i != j implies s[i]
            != s[j] by {
            assert(s[i].left[0] == i);
        }
    }
    s.lemma_multiset_has_no_duplicates();
    assert forall|p: Partial| #[trigger] pool.contains(p) implies fair(sizes, p) && pool.count(p)
        == 1 by {
        vstd::seq_lib::to_multiset_contains(s, p);
        let i = choose|i: int| 0 <= i < s.len() && s[i] == p;
        lemma_single_fair(sizes, i);
    }
    assert forall|p: Partial, q: Partial, k: int|
        pool.contains(p) && pool.contains(q) && #[trigger] holds(p, k) && #[trigger] holds(
            q,
            k,
        ) implies p == q by {
        vstd::seq_lib::to_multiset_contains(s, p);
        vstd::seq_lib::to_multiset_contains(s, q);
        let i = choose|i: int| 0 <= i < s.len() && s[i] == p;
        let j = choose|j: int| 0 <= j < s.len() && s[j] == q;
        lemma_single_holds(i, sizes[i] as int, k);
        lemma_single_holds(j, sizes[j] as int, k);
    }
    assert forall|k: int| 0 <= k < sizes.len() implies #[trigger] placed(pool, k) by {
        vstd::seq_lib::to_multiset_contains(s, s[k]);
        lemma_single_holds(k, sizes[k] as int, k);
    }
}

/// A partial partition of one position holds that position and no other.
proof fn lemma_single_holds(at: int, size: int, k: int)
    ensures
        holds(single(at, size), k) <==> k == at,
{
    let all = single(at, size).left + single(at, size).right;
    assert(all[0] == at);
}

/// A partial partition of one position of the input is fair.
proof fn lemma_single_fair(sizes: Seq<u64>, i: int)
    requires
        0 <= i < sizes.len(),
    ensures
        fair(sizes, single(i, sizes[i] as int)),
{
    let p = single(i, sizes[i] as int);
    assert forall|k: int| #[trigger] holds(p, k) implies 0 <= k < sizes.len() by {
        lemma_single_holds(i, sizes[i] as int, k);
    }
    assert(p.left.drop_last() =~= Seq::<int>::empty());
    lemma_largest_bounds(sizes, i);
}

/// Merging the top two of a sound pool leaves a sound pool, one member
/// smaller, and the gap of the second is never larger than that of the first,
/// so that the merged gap is not negative.
pub proof fn lemma_merge_sound(sizes: Seq<u64>, pool: Multiset<Partial>, hi: Partial, lo: Partial)
    requires
        sound(sizes, pool),
        top_two(pool, hi, lo),
    ensures
        sound(sizes, after_merge(pool, hi, lo)),
        after_merge(pool, hi, lo).len() == pool.len() - 1,
        0 <= lo.gap <= hi.gap,
{
    let m = merged(hi, lo);
    let rest = pool.remove(hi).remove(lo);
    let next = after_merge(pool, hi, lo);
    assert(pool.contains(hi) && pool.contains(lo) && hi != lo);
    assert forall|q: Partial| rest.contains(q) <==> pool.contains(q) && q != hi && q != lo by {}
    assert forall|k: int| #[trigger] (hi.left + hi.right).contains(k) implies !(lo.left
        + lo.right).contains(k) by {
        assert(holds(hi, k));
        if holds(lo, k) {
            assert(hi == lo);
        }
    }
    lemma_crossed_positions(hi.left, hi.right, lo.left, lo.right);
    assert forall|k: int| holds(m, k) <==> holds(hi, k) || holds(lo, k) by {}
    assert(fair(sizes, m)) by {
        lemma_weight_concat(sizes, hi.left, lo.right);
        lemma_weight_concat(sizes, hi.right, lo.left);
    }
    assert(!rest.contains(m)) by {
        let k = hi.left[0];
        assert((hi.left + hi.right)[0] == k);
        assert(holds(hi, k));
    }
    assert forall|p: Partial| #[trigger] next.contains(p) implies fair(sizes, p) && next.count(p)
        == 1 by {
        if p != m {
            assert(rest.contains(p));
        }
    }
    assert forall|p: Partial, q: Partial, k: int|
        next.contains(p) && next.contains(q) && #[trigger] holds(p, k) && #[trigger] holds(
            q,
            k,
        ) implies p == q by {
        if p != m {
            assert(rest.contains(p));
        }
        if q != m {
            assert(rest.contains(q));
        }
    }
    assert forall|k: int| 0 <= k < sizes.len() implies #[trigger] placed(next, k) by {
        assert(placed(pool, k));
        let p = choose|p: Partial| pool.contains(p) && holds(p, k);
        if p == hi || p == lo {
            assert(next.contains(m) && holds(m, k));
        } else {
            assert(rest.contains(p));
        }
    }
}

/// What a run makes of a sound pool is fair and holds every position of the
/// input; of an empty pool it makes `nothing()`.
proof fn lemma_run_sound(sizes: Seq<u64>, pool: Multiset<Partial>, out: Partial)
    requires
        sound(sizes, pool),
        reduces_to(pool, out),
    ensures
        pool.len() == 0 ==> out == nothing(),
        pool.len() > 0 ==> fair(sizes, out),
        pool.len() > 0 ==> forall|k: int| 0 <= k < sizes.len() ==> holds(out, k),
    decreases pool.len(),
{
    if pool.len() == 0 {
    } else if pool.len() == 1 {
        assert forall|k: int| 0 <= k < sizes.len() implies holds(out, k) by {
            assert(placed(pool, k));
            let p = choose|p: Partial| pool.contains(p) && holds(p, k);
            if p != out {
                assert(pool.remove(out).contains(p));
                assert(pool.remove(out).len() == 0);
            }
        }
    } else {
        let (hi, lo) = choose|hi: Partial, lo: Partial| #[trigger]
            top_two(pool, hi, lo) && reduces_to(after_merge(pool, hi, lo), out);
        lemma_merge_sound(sizes, pool, hi, lo);
        lemma_run_sound(sizes, after_merge(pool, hi, lo), out);
    }
}

/// What the heuristic returns is a partition: every position of the input is
/// on one of its two sides, and on one only.
pub proof fn lemma_outcome_is_split(sizes: Seq<u64>, out: Partial)
    requires
        ldm_outcome(sizes, out),
    ensures
        is_split(sizes.len(), out.left, out.right),
{
    lemma_seed_sound(sizes);
    lemma_run_sound(sizes, seed(sizes), out);
    if sizes.len() == 0 {
        assert(out.left + out.right =~= Seq::<int>::empty());
    } else {
        assert forall|k: int| 0 <= k < sizes.len() <==> (out.left + out.right).contains(k) by {
            assert(holds(out, k) <==> (out.left + out.right).contains(k));
        }
    }
}

/// The gap that the heuristic returns is the distance between the total
/// sizes of its two sides, and the left side is the heavier one.
pub proof fn lemma_outcome_gap(sizes: Seq<u64>, out: Partial)
    requires
        ldm_outcome(sizes, out),
    ensures
        out.gap == imbalance(sizes, out.left, out.right),
        out.gap == weight(sizes, out.left) - weight(sizes, out.right),
{
    lemma_seed_sound(sizes);
    lemma_run_sound(sizes, seed(sizes), out);
}

/// The gap that the heuristic returns is no larger than the largest size.
pub proof fn lemma_outcome_bounded(sizes: Seq<u64>, out: Partial)
    requires
        ldm_outcome(sizes, out),
    ensures
        0 <= out.gap <= largest(sizes),
{
    lemma_seed_sound(sizes);
    lemma_run_sound(sizes, seed(sizes), out);
}

/// Exchanging the two sides changes neither their imbalance nor whether
/// they are a partition.
pub proof fn lemma_sides_exchanged(sizes: Seq<u64>, left: Seq<int>, right: Seq<int>)
    ensures
        imbalance(sizes, right, left) == imbalance(sizes, left, right),
        is_split(sizes.len(), right, left) <==> is_split(sizes.len(), left, right),
{
    if is_split(sizes.len(), left, right) {
        lemma_order_of_sides(sizes.len(), left, right);
    }
    if is_split(sizes.len(), right, left) {
        lemma_order_of_sides(sizes.len(), right, left);
    }
}

/// A partition stays one when its sides are exchanged.
proof fn lemma_order_of_sides(n: nat, left: Seq<int>, right: Seq<int>)
    requires
        is_split(n, left, right),
    ensures
        is_split(n, right, left),
{
    vstd::seq_lib::lemma_seq_union_to_multiset_commutative(left, right);
    (left + right).lemma_multiset_has_no_duplicates();
    (right + left).lemma_multiset_has_no_duplicates_conv();
    assert forall|k: int| 0 <= k < n <==> (right + left).contains(k) by {
        vstd::seq_lib::to_multiset_contains(left + right, k);
        vstd::seq_lib::to_multiset_contains(right + left, k);
    }
}

} // verus!
