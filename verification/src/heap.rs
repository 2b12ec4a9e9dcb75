//! The queue of partial results that are still to be merged: a binary
//! max-heap on `diff`, laid out in a vector.
//!
//! Beside each stored result the queue remembers, in ghost state, the
//! `Partial` that the result realizes, so that its contract can speak of
//! positions of the input and not only of values.
use crate::differencing::{leads, Partial};
use crate::ldm::LdmResult;
use vstd::prelude::*;

verus! {

/// The slot above slot `i`.
pub(crate) open spec fn parent(i: int) -> int {
    (i - 1) / 2
}

/// The gap in slot `i` is no larger than the gap in the slot above it.
pub(crate) open spec fn below_parent(s: Seq<Partial>, i: int) -> bool {
    s[i].gap <= s[parent(i)].gap
}

/// The gap in slot `i` is no larger than the gap two slots above it.
pub(crate) open spec fn below_grandparent(s: Seq<Partial>, i: int) -> bool {
    s[i].gap <= s[parent(parent(i))].gap
}

/// Heap order on every slot whose parent is `lo` or later.
pub(crate) open spec fn ordered_from(s: Seq<Partial>, lo: int) -> bool {
    forall|i: int| 0 < i < s.len() && parent(i) >= lo ==> #[trigger] below_parent(s, i)
}

/// Heap order, from `lo` on, wherever slot `hole` is not involved, and no
/// child of `hole` is above the parent of `hole`: whatever `hole` holds can
/// be moved up or down without disturbing the rest.
pub(crate) open spec fn ordered_apart(s: Seq<Partial>, lo: int, hole: int) -> bool {
    &&& forall|i: int|
        0 < i < s.len() && parent(i) >= lo && i != hole && parent(i) != hole
            ==> #[trigger] below_parent(s, i)
    &&& forall|c: int|
        0 < c < s.len() && parent(c) == hole && hole > 0 && parent(hole) >= lo
            ==> #[trigger] below_grandparent(s, c)
}

/// No child of `hole` has a larger gap than `hole`.
pub(crate) open spec fn covers_children(s: Seq<Partial>, hole: int) -> bool {
    forall|c: int| 0 < c < s.len() && parent(c) == hole ==> #[trigger] below_parent(s, c)
}

/// `s` with the slots `i` and `j` exchanged.
pub(crate) open spec fn exchanged(s: Seq<Partial>, i: int, j: int) -> Seq<Partial> {
    s.update(i, s[j]).update(j, s[i])
}

/// Exchanging two slots changes the order of a sequence, not what it holds.
pub(crate) proof fn lemma_exchange_keeps_contents(s: Seq<Partial>, i: int, j: int)
    requires
        0 <= i < s.len(),
        0 <= j < s.len(),
    ensures
        exchanged(s, i, j).to_multiset() == s.to_multiset(),
{
    let half = s.update(i, s[j]);
    vstd::seq_lib::to_multiset_update(s, i, s[j]);
    vstd::seq_lib::to_multiset_update(half, j, s[i]);
    vstd::seq_lib::to_multiset_contains(s, s[i]);
}

/// In heap order the first slot holds a largest gap.
pub(crate) proof fn lemma_root_is_largest(s: Seq<Partial>, i: int)
    requires
        ordered_from(s, 0),
        0 <= i < s.len(),
    ensures
        s[i].gap <= s[0].gap,
    decreases i,
{
    if i > 0 {
        assert(below_parent(s, i));
        lemma_root_is_largest(s, parent(i));
    }
}

/// In heap order the first slot leads what the sequence holds.
pub(crate) proof fn lemma_root_leads(s: Seq<Partial>)
    requires
        ordered_from(s, 0),
        s.len() > 0,
    ensures
        leads(s.to_multiset(), s[0]),
{
    let pool = s.to_multiset();
    vstd::seq_lib::to_multiset_contains(s, s[0]);
    assert forall|q: Partial| pool.contains(q) implies q.gap <= s[0].gap by {
        vstd::seq_lib::to_multiset_contains(s, q);
        let i = choose|i: int| 0 <= i < s.len() && s[i] == q;
        lemma_root_is_largest(s, i);
    }
}

/// Taking the first slot out by putting the last in its place removes one
/// occurrence of what the first slot held.
pub(crate) proof fn lemma_take_root_contents(s: Seq<Partial>)
    requires
        s.len() > 0,
    ensures
        s.update(0, s.last()).drop_last().to_multiset() == s.to_multiset().remove(s[0]),
{
    let n = s.len() as int;
    let moved = s.update(0, s.last());
    vstd::seq_lib::to_multiset_update(s, 0, s.last());
    vstd::seq_lib::to_multiset_remove(moved, n - 1);
}

/// The partial results that wait to be merged.
pub(crate) struct Pending<'a, T: ?Sized> {
    data: Vec<LdmResult<'a, T>>,
    source: Ghost<Seq<(&'a T, u64)>>,
    shape: Ghost<Seq<Partial>>,
}

impl<'a, T: ?Sized> Pending<'a, T> {
    /// What the stored results realize, slot by slot.
    pub(crate) closed spec fn view(&self) -> Seq<Partial> {
        self.shape@
    }

    /// The input that the stored results are groups of.
    pub(crate) closed spec fn source(&self) -> Seq<(&'a T, u64)> {
        self.source@
    }

    /// Each stored result realizes its slot of the view.
    pub(crate) closed spec fn tracks(&self) -> bool {
        &&& self.shape@.len() == self.data@.len()
        &&& forall|i: int|
            0 <= i < self.data@.len() ==> (#[trigger] self.data@[i]).realizes(
                self.source@,
                self.shape@[i],
            )
    }

    /// The queue is a heap of results that realize its view.
    pub(crate) open spec fn wf(&self) -> bool {
        &&& self.tracks()
        &&& ordered_from(self@, 0)
    }

    /// The number of results in the queue.
    pub(crate) fn len(&self) -> (n: usize)
        requires
            self.tracks(),
        ensures
            n == self@.len(),
    {
        self.data.len()
    }

    /// Exchanges the results in two slots.
    fn swap(&mut self, i: usize, j: usize)
        requires
            old(self).tracks(),
            i < j < old(self)@.len(),
        ensures
            final(self).tracks(),
            final(self).source() == old(self).source(),
            final(self)@ == exchanged(old(self)@, i as int, j as int),
            final(self)@.to_multiset() == old(self)@.to_multiset(),
    {
        proof {
            lemma_exchange_keeps_contents(self.shape@, i as int, j as int);
        }
        let (head, tail) = self.data.split_at_mut(j);
        core::mem::swap(&mut head[i], &mut tail[0]);
        self.shape = Ghost(exchanged(self.shape@, i as int, j as int));
    }

    /// Moves the result in slot `pos` up until the slot above it holds no
    /// smaller difference.
    fn sift_up(&mut self, pos: usize)
        requires
            old(self).tracks(),
            pos < old(self)@.len(),
            ordered_apart(old(self)@, 0, pos as int),
            covers_children(old(self)@, pos as int),
        ensures
            final(self).wf(),
            final(self).source() == old(self).source(),
            final(self)@.to_multiset() == old(self)@.to_multiset(),
    {
        let mut pos = pos;
        while pos > 0 && self.data[pos].diff > self.data[(pos - 1) / 2].diff
            invariant
                self.tracks(),
                pos < self@.len(),
                ordered_apart(self@, 0, pos as int),
                covers_children(self@, pos as int),
                self.source() == old(self).source(),
                self@.to_multiset() == old(self)@.to_multiset(),
            decreases pos,
        {
            let up = (pos - 1) / 2;
            let ghost before = self@;
            self.swap(up, pos);
            proof {
                let now = self@;
                let h = pos as int;
                let p = up as int;
                assert forall|c: int| 0 < c < now.len() && parent(c) == p implies below_parent(
                    now,
                    c,
                ) by {
                    if c != h {
                        assert(below_parent(before, c));
                    }
                }
                assert forall|i: int|
                    0 < i < now.len() && parent(i) >= 0 && i != p && parent(i)
                        != p implies below_parent(now, i) by {
                    if parent(i) == h {
                        assert(below_grandparent(before, i));
                    } else {
                        assert(below_parent(before, i));
                    }
                }
                assert forall|c: int|
                    0 < c < now.len() && parent(c) == p && p > 0 && parent(p)
                        >= 0 implies below_grandparent(now, c) by {
                    assert(below_parent(before, p));
                    if c != h {
                        assert(below_parent(before, c));
                    }
                }
            }
            pos = up;
        }
        proof {
            let now = self@;
            assert forall|i: int| 0 < i < now.len() && parent(i) >= 0 implies below_parent(
                now,
                i,
            ) by {
                if i != pos && parent(i) != pos {
                    assert(below_parent(now, i));
                }
            }
        }
    }

    /// Moves the result in slot `pos` down, each time under the larger of
    /// its children, until neither child holds a larger difference.
    fn sift_down(&mut self, pos: usize)
        requires
            old(self).tracks(),
            pos < old(self)@.len(),
            ordered_from(old(self)@, pos + 1),
        ensures
            final(self).tracks(),
            ordered_from(final(self)@, pos as int),
            final(self).source() == old(self).source(),
            final(self)@.len() == old(self)@.len(),
            final(self)@.to_multiset() == old(self)@.to_multiset(),
    {
        let len = self.data.len();
        let start = pos;
        let mut pos = pos;
        let mut settled = false;
        while !settled && pos < len / 2
            invariant
                self.tracks(),
                len == self@.len(),
                start <= pos < len,
                ordered_apart(self@, start as int, pos as int),
                pos > start ==> below_parent(self@, pos as int),
                settled ==> covers_children(self@, pos as int),
                self.source() == old(self).source(),
                self@.to_multiset() == old(self)@.to_multiset(),
            decreases len - pos, if settled { 0int } else { 1int },
        {
            let mut child = 2 * pos + 1;
            if child + 1 < len && self.data[child].diff <= self.data[child + 1].diff {
                child = child + 1;
            }
            if self.data[pos].diff >= self.data[child].diff {
                settled = true;
            } else {
                let ghost before = self@;
                self.swap(pos, child);
                proof {
                    let now = self@;
                    let h = pos as int;
                    let c = child as int;
                    assert forall|i: int|
                        0 < i < now.len() && parent(i) >= start && i != c && parent(i)
                            != c implies below_parent(now, i) by {
                        if i == h {
                            assert(below_grandparent(before, c));
                        } else if parent(i) != h {
                            assert(below_parent(before, i));
                        }
                    }
                    assert forall|g: int|
                        0 < g < now.len() && parent(g) == c && c > 0 && parent(c)
                            >= start implies below_grandparent(now, g) by {
                        assert(below_parent(before, g));
                    }
                }
                pos = child;
            }
        }
        proof {
            let now = self@;
            assert forall|i: int| 0 < i < now.len() && parent(i) >= start implies below_parent(
                now,
                i,
            ) by {
                if i != pos && parent(i) != pos {
                    assert(below_parent(now, i));
                }
            }
        }
    }

    /// Moves the result in the first slot down to a leaf, each time under
    /// the larger of its children, and from there up to where it belongs.
    /// The result that `pop` puts into the first slot comes from the end of
    /// the queue and mostly belongs near the bottom: going all the way down
    /// first saves the comparison with it at every level.
    fn sift_down_to_bottom(&mut self)
        requires
            old(self).tracks(),
            old(self)@.len() > 0,
            ordered_apart(old(self)@, 0, 0),
        ensures
            final(self).wf(),
            final(self).source() == old(self).source(),
            final(self)@.to_multiset() == old(self)@.to_multiset(),
    {
        let len = self.data.len();
        let mut pos: usize = 0;
        while pos < len / 2
            invariant
                self.tracks(),
                len == self@.len(),
                pos < len,
                ordered_apart(self@, 0, pos as int),
                self.source() == old(self).source(),
                self@.to_multiset() == old(self)@.to_multiset(),
            decreases len - pos,
        {
            let mut child = 2 * pos + 1;
            if child + 1 < len && self.data[child].diff <= self.data[child + 1].diff {
                child = child + 1;
            }
            let ghost before = self@;
            self.swap(pos, child);
            proof {
                let now = self@;
                let h = pos as int;
                let c = child as int;
                assert forall|i: int|
                    0 < i < now.len() && parent(i) >= 0 && i != c && parent(i)
                        != c implies below_parent(now, i) by {
                    if i == h {
                        assert(below_grandparent(before, c));
                    } else if parent(i) != h {
                        assert(below_parent(before, i));
                    }
                }
                assert forall|g: int|
                    0 < g < now.len() && parent(g) == c && c > 0 && parent(c)
                        >= 0 implies below_grandparent(now, g) by {
                    assert(below_parent(before, g));
                }
            }
            pos = child;
        }
        self.sift_up(pos);
    }

    /// Makes a queue of the results in `data`, where `shape` tells slot by
    /// slot what each realizes in `source`.
    pub(crate) fn from_vec(
        data: Vec<LdmResult<'a, T>>,
        Ghost(source): Ghost<Seq<(&'a T, u64)>>,
        Ghost(shape): Ghost<Seq<Partial>>,
    ) -> (queue: Self)
        requires
            shape.len() == data@.len(),
            forall|i: int|
                0 <= i < data@.len() ==> (#[trigger] data@[i]).realizes(source, shape[i]),
        ensures
            queue.wf(),
            queue.source() == source,
            queue@.to_multiset() == shape.to_multiset(),
    {
        let mut queue = Pending { data, source: Ghost(source), shape: Ghost(shape) };
        let mut n = queue.data.len() / 2;
        while n > 0
            invariant
                queue.tracks(),
                n <= queue@.len() / 2,
                ordered_from(queue@, n as int),
                queue.source() == source,
                queue@.to_multiset() == shape.to_multiset(),
            decreases n,
        {
            n = n - 1;
            queue.sift_down(n);
        }
        queue
    }

    /// Adds `item`, which realizes `tag`, to the queue.
    pub(crate) fn push(&mut self, item: LdmResult<'a, T>, Ghost(tag): Ghost<Partial>)
        requires
            old(self).wf(),
            item.realizes(old(self).source(), tag),
        ensures
            final(self).wf(),
            final(self).source() == old(self).source(),
            final(self)@.to_multiset() == old(self)@.to_multiset().insert(tag),
    {
        let last = self.data.len();
        let ghost before = self@;
        self.data.push(item);
        self.shape = Ghost(self.shape@.push(tag));
        proof {
            let now = self@;
            vstd::seq_lib::to_multiset_build(before, tag);
            assert forall|i: int|
                0 < i < now.len() && parent(i) >= 0 && i != last && parent(i)
                    != last implies below_parent(now, i) by {
                assert(below_parent(before, i));
            }
        }
        self.sift_up(last);
    }

    /// Takes a result with the largest difference out of the queue, if
    /// there is any: the one that realizes the first slot of the view.
    pub(crate) fn pop(&mut self) -> (top: Option<LdmResult<'a, T>>)
        requires
            old(self).wf(),
        ensures
            final(self).wf(),
            final(self).source() == old(self).source(),
            old(self)@.len() == 0 ==> top is None && final(self)@ == old(self)@,
            old(self)@.len() > 0 ==> {
                &&& top is Some
                &&& top->0.realizes(old(self).source(), old(self)@[0])
                &&& leads(old(self)@.to_multiset(), old(self)@[0])
                &&& final(self)@.to_multiset() == old(self)@.to_multiset().remove(old(self)@[0])
            },
    {
        if self.data.len() == 0 {
            return None;
        }
        let ghost before = self@;
        proof {
            lemma_root_leads(before);
            lemma_take_root_contents(before);
        }
        let top = self.data.swap_remove(0);
        self.shape = Ghost(self.shape@.update(0, self.shape@.last()).drop_last());
        if self.data.len() > 0 {
            proof {
                let now = self@;
                assert forall|i: int|
                    0 < i < now.len() && parent(i) >= 0 && i != 0 && parent(i)
                        != 0 implies below_parent(now, i) by {
                    assert(below_parent(before, i));
                }
            }
            self.sift_down_to_bottom();
        }
        Some(top)
    }
}

} // verus!
