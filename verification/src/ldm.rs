//! Two-way partitioning of weighted items by the largest differencing method.
use crate::differencing::{
    imbalance, is_split, largest, ldm_outcome, lemma_outcome_bounded, lemma_outcome_gap,
    lemma_outcome_is_split, merged, nothing, reduces_to, seed, singles, top_two, weight, Partial,
};
use crate::heap::Pending;
use vstd::prelude::*;

verus! {

/// Two groups of borrowed items and the distance between their total sizes.
pub struct LdmResult<'a, T: ?Sized> {
    pub set_1: Vec<&'a T>,
    pub set_2: Vec<&'a T>,
    pub diff: u64,
}

/// The items of `v` at the positions `at`, in that order.
pub open spec fn picked<'a, T: ?Sized>(v: Seq<(&'a T, u64)>, at: Seq<int>) -> Seq<&'a T> {
    Seq::new(at.len(), |k: int| v[at[k]].0)
}

/// The items of `v`, without their sizes.
pub open spec fn items_of<'a, T: ?Sized>(v: Seq<(&'a T, u64)>) -> Seq<&'a T> {
    Seq::new(v.len(), |i: int| v[i].0)
}

/// The sizes of `v`, without their items.
pub open spec fn sizes_of<'a, T: ?Sized>(v: Seq<(&'a T, u64)>) -> Seq<u64> {
    Seq::new(v.len(), |i: int| v[i].1)
}

impl<'a, T: ?Sized> LdmResult<'a, T> {
    /// The groups are the items of `v` that `p` names, side by side and in its
    /// order, and `diff` is its gap.
    pub open spec fn realizes(&self, v: Seq<(&'a T, u64)>, p: Partial) -> bool {
        &&& self.set_1@ == picked(v, p.left)
        &&& self.set_2@ == picked(v, p.right)
        &&& self.diff == p.gap
    }

    /// One item alone: it forms the first group, and its size is the difference.
    pub fn new(value: &'a T, size: u64) -> (r: LdmResult<'a, T>)
        ensures
            r.set_1@ == seq![value],
            r.set_2@ == Seq::<&'a T>::empty(),
            r.diff == size,
    {
        LdmResult { set_1: vec![value], set_2: Vec::new(), diff: size }
    }

    /// Lays `other` against `self`: each group of `other` joins the opposite
    /// group of `self`, behind what is there, and the differences cancel.
    /// The differences are unsigned, so `other` must not carry the larger one.
    pub fn difference(self, other: Self) -> (r: LdmResult<'a, T>)
        requires
            self.diff >= other.diff,
        ensures
            r.set_1@ == self.set_1@ + other.set_2@,
            r.set_2@ == self.set_2@ + other.set_1@,
            r.diff == self.diff - other.diff,
    {
        let mut joined = self;
        let mut other = other;
        joined.set_1.append(&mut other.set_2);
        joined.set_2.append(&mut other.set_1);
        joined.diff = joined.diff - other.diff;
        joined
    }
}

impl<'a, T: ?Sized> Default for LdmResult<'a, T> {
    /// Two empty groups, no difference.
    fn default() -> (r: Self)
        ensures
            r.set_1@ == Seq::<&'a T>::empty(),
            r.set_2@ == Seq::<&'a T>::empty(),
            r.diff == 0,
    {
        LdmResult { set_1: Vec::new(), set_2: Vec::new(), diff: 0 }
    }
}

/// Positions that hold each position of `v` once pick each item of `v` once.
proof fn lemma_permuted_items<'a, T: ?Sized>(v: Seq<(&'a T, u64)>, all: Seq<int>)
    requires
        all.no_duplicates(),
        forall|k: int| 0 <= k < v.len() <==> all.contains(k),
    ensures
        picked(v, all).to_multiset() == items_of(v).to_multiset(),
    decreases v.len(),
{
    if v.len() == 0 {
        if all.len() > 0 {
            assert(all.contains(all[0]));
        }
        assert(picked(v, all) =~= items_of(v));
    } else {
        let last = v.len() - 1;
        assert(all.contains(last));
        let j = choose|j: int| 0 <= j < all.len() && all[j] == last;
        let rest = all.remove(j);
        let fewer = v.drop_last();
        assert forall|k: int| 0 <= k < fewer.len() <==> rest.contains(k) by {
            if rest.contains(k) {
                let i = choose|i: int| 0 <= i < rest.len() && rest[i] == k;
                if i < j {
                    assert(all[i] == k);
                } else {
                    assert(all[i + 1] == k);
                }
                assert(all.contains(k));
            }
            if 0 <= k < fewer.len() {
                assert(all.contains(k));
                let i = choose|i: int| 0 <= i < all.len() && all[i] == k;
                if i < j {
                    assert(rest[i] == k);
                } else {
                    assert(rest[i - 1] == k);
                }
            }
        }
        lemma_permuted_items(fewer, rest);
        let item = v[last].0;
        assert forall|x: int| 0 <= x < rest.len() implies picked(fewer, rest)[x] == picked(
            v,
            all,
        ).remove(j)[x] by {
            assert(rest.contains(rest[x]));
        }
        assert(picked(fewer, rest) =~= picked(v, all).remove(j));
        assert(items_of(v) =~= items_of(fewer).push(item));
        vstd::seq_lib::to_multiset_remove(picked(v, all), j);
        vstd::seq_lib::to_multiset_build(items_of(fewer), item);
        vstd::seq_lib::to_multiset_contains(picked(v, all), item);
    }
}

/// The two groups of a partition hold, between them, each item of the input
/// as often as the input holds it.
pub proof fn lemma_split_keeps_items<'a, T: ?Sized>(
    v: Seq<(&'a T, u64)>,
    left: Seq<int>,
    right: Seq<int>,
)
    requires
        is_split(v.len(), left, right),
    ensures
        (picked(v, left) + picked(v, right)).to_multiset() == items_of(v).to_multiset(),
{
    assert(picked(v, left) + picked(v, right) =~= picked(v, left + right));
    lemma_permuted_items(v, left + right);
}

/// Splits the items of `v` into two groups by the largest differencing
/// method: every item starts as a group of its own, and the two results with
/// the largest differences are laid against each other until one is left.
///
/// The result is a result of that heuristic: its groups partition the input,
/// the first group is the heavier one, `diff` is the distance between the
/// groups' total sizes, and it is no larger than the largest size.
pub fn largest_differencing_method<'a, T: ?Sized>(v: &[(&'a T, u64)]) -> (r: LdmResult<'a, T>)
    ensures
        exists|left: Seq<int>, right: Seq<int>|
            {
                &&& #[trigger] is_split(v@.len(), left, right)
                &&& r.set_1@ == picked(v@, left)
                &&& r.set_2@ == picked(v@, right)
                &&& r.diff == imbalance(sizes_of(v@), left, right)
                &&& weight(sizes_of(v@), right) <= weight(sizes_of(v@), left)
                &&& ldm_outcome(sizes_of(v@), (Partial { left, right, gap: r.diff as int }))
            },
        (r.set_1@ + r.set_2@).to_multiset() == items_of(v@).to_multiset(),
        r.diff <= largest(sizes_of(v@)),
        v@.len() == 0 ==> r.set_1@.len() == 0 && r.set_2@.len() == 0 && r.diff == 0,
        v@.len() == 1 ==> r.set_1@ == seq![v@[0].0] && r.set_2@.len() == 0 && r.diff == v@[0].1,
{
    let ghost sizes = sizes_of(v@);
    let mut seeds: Vec<LdmResult<'a, T>> = Vec::new();
    let mut i: usize = 0;
    while i < v.len()
        invariant
            i <= v@.len(),
            seeds@.len() == i,
            sizes == sizes_of(v@),
            forall|j: int|
                0 <= j < i ==> (#[trigger] seeds@[j]).realizes(v@, singles(sizes)[j]),
        decreases v@.len() - i,
    {
        let one = LdmResult::new(v[i].0, v[i].1);
        proof {
            assert(one.set_1@ =~= picked(v@, singles(sizes)[i as int].left));
            assert(one.set_2@ =~= picked(v@, singles(sizes)[i as int].right));
        }
        seeds.push(one);
        i = i + 1;
    }
    let mut heap = Pending::from_vec(seeds, Ghost(v@), Ghost(singles(sizes)));
    while heap.len() > 1
        invariant
            heap.wf(),
            heap.source() == v@,
            forall|out: Partial| #[trigger]
                reduces_to(heap@.to_multiset(), out) ==> reduces_to(seed(sizes), out),
        decreases heap@.len(),
    {
        let ghost pool = heap@.to_multiset();
        let ghost hi = heap@[0];
        proof {
            vstd::seq_lib::to_multiset_len(heap@);
        }
        let max_1 = heap.pop().unwrap();
        let ghost lo = heap@[0];
        proof {
            vstd::seq_lib::to_multiset_len(heap@);
        }
        let max_2 = heap.pop().unwrap();
        proof {
            assert(top_two(pool, hi, lo));
            assert(pool.contains(lo));
        }
        let both = LdmResult::difference(max_1, max_2);
        proof {
            assert(both.set_1@ =~= picked(v@, merged(hi, lo).left));
            assert(both.set_2@ =~= picked(v@, merged(hi, lo).right));
        }
        heap.push(both, Ghost(merged(hi, lo)));
        proof {
            vstd::seq_lib::to_multiset_len(heap@);
            assert forall|out: Partial| #[trigger]
                reduces_to(heap@.to_multiset(), out) implies reduces_to(seed(sizes), out) by {
                assert(reduces_to(pool, out));
            }
        }
    }
    let ghost pool = heap@.to_multiset();
    let ghost out = if heap@.len() == 0 {
        nothing()
    } else {
        heap@[0]
    };
    proof {
        vstd::seq_lib::to_multiset_len(heap@);
        vstd::seq_lib::to_multiset_len(singles(sizes));
    }
    let r = match heap.pop() {
        Some(last) => last,
        None => LdmResult::default(),
    };
    proof {
        assert(r.set_1@ =~= picked(v@, out.left));
        assert(r.set_2@ =~= picked(v@, out.right));
        assert(reduces_to(pool, out));
        lemma_outcome_is_split(sizes, out);
        lemma_outcome_gap(sizes, out);
        lemma_outcome_bounded(sizes, out);
        lemma_split_keeps_items(v@, out.left, out.right);
        if v@.len() == 0 {
            assert(out.left + out.right =~= Seq::<int>::empty());
        }
        if v@.len() == 1 {
            vstd::seq_lib::to_multiset_contains(singles(sizes), out);
        }
    }
    r
}

} // verus!
