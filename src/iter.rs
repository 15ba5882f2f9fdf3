use crate::free_list::{in_range, points, ranges_wf};
use vstd::prelude::*;

verus! {

/// Yields the in-use indices of a pool in ascending order.
#[derive(Clone)]
pub struct IndexIter {
    free_ranges: Vec<(usize, usize)>,
    pos: usize,
    index: usize,
    end: usize,
}

impl IndexIter {
    /// The indices still to be yielded.
    pub closed spec fn remaining(self) -> Set<int> {
        Set::new(
            |v: int| self.index <= v < self.end && !points(self.free_ranges@).contains(v),
        )
    }

    /// The cursor's invariant: `index` is the next index to yield (or the
    /// end), every range before `pos` lies below it and every range from
    /// `pos` on lies above it.
    pub closed spec fn wf(self) -> bool {
        &&& ranges_wf(self.free_ranges@)
        &&& self.pos <= self.free_ranges@.len()
        &&& self.index <= self.end
        &&& forall|v: int| #[trigger] points(self.free_ranges@).contains(v) ==> v < self.end
        &&& forall|i: int| 0 <= i < self.pos ==> #[trigger] self.free_ranges@[i].1 < self.index
        &&& self.index < self.end ==> forall|i: int|
            self.pos <= i < self.free_ranges@.len() ==> #[trigger] self.free_ranges@[i].0
                > self.index
    }

    /// Walks `[start, end)`, skipping the indices that `free_ranges` holds.
    /// Every range given ends at or above `start` and below `end`.
    pub(crate) fn starting_at(free_ranges: Vec<(usize, usize)>, start: usize, end: usize) -> (r:
        IndexIter)
        requires
            ranges_wf(free_ranges@),
            forall|v: int| #[trigger] points(free_ranges@).contains(v) ==> v < end,
            forall|i: int| 0 <= i < free_ranges@.len() ==> #[trigger] free_ranges@[i].1 >= start,
        ensures
            r.wf(),
            r.remaining() == Set::new(
                |v: int| start <= v < end && !points(free_ranges@).contains(v),
            ),
    {
        let ghost s = free_ranges@;
        let mut index: usize = start;
        let mut pos: usize = 0;
        if start >= end {
            index = end;
        } else if free_ranges.len() > 0 && free_ranges[0].0 <= start {
            proof {
                assert(in_range(s[0], s[0].1 as int));
                assert(points(s).contains(s[0].1 as int));
            }
            index = free_ranges[0].1 + 1;
            pos = 1;
        }
        let r = IndexIter { free_ranges, pos, index, end };
        proof {
            assert forall|i: int| pos <= i < s.len() && index < end implies #[trigger] s[i].0
                > index by {
                if pos == 1 {
                    assert(s[0].1 + 1 < s[i].0);
                } else if s[i].0 <= start {
                    assert(in_range(s[i], start as int));
                }
            }
            assert forall|v: int|
                start <= v < end && !points(s).contains(v) implies r.remaining().contains(v) by {
                if pos == 1 && v < index {
                    assert(in_range(s[0], v));
                }
            }
            assert(r.remaining() =~= Set::new(
                |v: int| start <= v < end && !points(s).contains(v),
            ));
        }
        r
    }

    /// Yields the lowest remaining index, or `None` once none is left.
    pub fn next(&mut self) -> (r: Option<usize>)
        requires
            old(self).wf(),
        ensures
            final(self).wf(),
            r is None <==> old(self).remaining() == Set::<int>::empty(),
            r is None ==> final(self).remaining() == old(self).remaining(),
            r matches Some(v) ==> {
                &&& old(self).remaining().contains(v as int)
                &&& forall|w: int| #[trigger] old(self).remaining().contains(w) ==> v <= w
                &&& final(self).remaining() == old(self).remaining().remove(v as int)
            },
    {
        let ghost pre = *self;
        let ghost s = self.free_ranges@;
        if self.index >= self.end {
            proof {
                assert(pre.remaining() =~= Set::<int>::empty());
            }
            return None;
        }
        let value = self.index;
        proof {
            assert(!points(s).contains(value as int)) by {
                if points(s).contains(value as int) {
                    let i = choose|i: int| 0 <= i < s.len() && #[trigger] in_range(s[i], value as int);
                }
            }
            assert(pre.remaining().contains(value as int));
        }
        self.index = self.index + 1;
        if self.pos < self.free_ranges.len() {
            let range = self.free_ranges[self.pos];
            if self.index == range.0 {
                proof {
                    assert(in_range(s[self.pos as int], range.1 as int));
                    assert(points(s).contains(range.1 as int));
                }
                self.index = range.1 + 1;
                self.pos = self.pos + 1;
                proof {
                    assert forall|i: int| self.pos <= i < s.len() implies #[trigger] s[i].0
                        > self.index by {
                        assert(s[self.pos - 1].1 + 1 < s[i].0);
                    }
                    assert forall|v: int| value < v < self.index implies points(s).contains(v) by {
                        assert(in_range(s[self.pos - 1], v));
                    }
                }
            }
        }
        proof {
            assert(self.remaining() =~= pre.remaining().remove(value as int));
        }
        Some(value)
    }
}

/// Yields the in-use indices of a pool from a given index on, in ascending
/// order.
#[derive(Clone)]
pub struct IndexAfterIter {
    inner: IndexIter,
}

impl IndexAfterIter {
    /// The indices still to be yielded.
    pub closed spec fn remaining(self) -> Set<int> {
        self.inner.remaining()
    }

    /// The cursor's invariant.
    pub closed spec fn wf(self) -> bool {
        self.inner.wf()
    }

    /// Walks `[start, end)`, skipping the indices that `free_ranges` holds.
    /// Every range given ends at or above `start` and below `end`.
    pub(crate) fn starting_at(free_ranges: Vec<(usize, usize)>, start: usize, end: usize) -> (r:
        IndexAfterIter)
        requires
            ranges_wf(free_ranges@),
            forall|v: int| #[trigger] points(free_ranges@).contains(v) ==> v < end,
            forall|i: int| 0 <= i < free_ranges@.len() ==> #[trigger] free_ranges@[i].1 >= start,
        ensures
            r.wf(),
            r.remaining() == Set::new(
                |v: int| start <= v < end && !points(free_ranges@).contains(v),
            ),
    {
        IndexAfterIter { inner: IndexIter::starting_at(free_ranges, start, end) }
    }

    /// Yields the lowest remaining index, or `None` once none is left.
    pub fn next(&mut self) -> (r: Option<usize>)
        requires
            old(self).wf(),
        ensures
            final(self).wf(),
            r is None <==> old(self).remaining() == Set::<int>::empty(),
            r is None ==> final(self).remaining() == old(self).remaining(),
            r matches Some(v) ==> {
                &&& old(self).remaining().contains(v as int)
                &&& forall|w: int| #[trigger] old(self).remaining().contains(w) ==> v <= w
                &&& final(self).remaining() == old(self).remaining().remove(v as int)
            },
    {
        self.inner.next()
    }
}

} // verus!
