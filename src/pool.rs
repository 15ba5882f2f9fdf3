use crate::free_list::{
    append_range, clear_ranges, contains_index, empty_ranges, in_range, interval, last_range,
    lemma_first_is_bottom, lemma_interval_len, lemma_last_is_top, lemma_points_push,
    lemma_ranges_canonical, lemma_suffix, lemma_total_len, mark_free, mark_used, points,
    ranges_from, ranges_of, ranges_wf, remove_last, take_first, total_len,
};
use crate::iter::{IndexAfterIter, IndexIter};
use free_ranges::FreeRanges;
use vstd::prelude::*;

verus! {

/// Returned by [`IndexPool::return_id`] for an index that is not in use.
#[derive(Debug, PartialEq, Eq)]
pub struct AlreadyReturned;

impl AlreadyReturned {
    /// A fixed human-readable description of the error.
    pub fn description(&self) -> (r: &'static str)
        ensures
            r@ == "An index was tried to be returned to the pool, but it was already marked as free."@,
    {
        proof {
            reveal_strlit(
                "An index was tried to be returned to the pool, but it was already marked as free.",
            );
        }
        "An index was tried to be returned to the pool, but it was already marked as free."
    }
}

/// Returned by [`IndexPool::request_id`] for an index that is already in use.
#[derive(Debug, PartialEq, Eq)]
pub struct AlreadyInUse;

impl AlreadyInUse {
    /// A fixed human-readable description of the error.
    pub fn description(&self) -> (r: &'static str)
        ensures
            r@ == "An index was requested which was already marked as in use."@,
    {
        proof {
            reveal_strlit("An index was requested which was already marked as in use.");
        }
        "An index was requested which was already marked as in use."
    }
}

/// A pool which manages allocation of unique indices. Acts like a
/// pseudo-memory allocator.
///
/// Indices at or above the frontier (`maximum()`) are free. Below it, the
/// free indices are held as coalesced ranges; every other index below the
/// frontier is in use.
pub struct IndexPool {
    next_id: usize,
    in_use: usize,
    free_list: FreeRanges,
    /// How many in-use indices below the frontier are not counted by
    /// `in_use`: the block that `with_initial_index` starts with in use.
    reserved: Ghost<nat>,
}

impl IndexPool {
    /// The frontier: every index at or above it is free.
    pub closed spec fn frontier(self) -> nat {
        self.next_id as nat
    }

    /// The counter that `in_use()` reports.
    pub closed spec fn count(self) -> nat {
        self.in_use as nat
    }

    /// In-use indices that `count` leaves out.
    pub closed spec fn reserved(self) -> nat {
        self.reserved@
    }

    /// The stored free ranges below the frontier, in ascending order.
    pub closed spec fn free_ranges(self) -> Seq<(usize, usize)> {
        ranges_of(self.free_list)
    }

    /// The indices below the frontier that are free.
    pub open spec fn free_positions(self) -> Set<int> {
        points(self.free_ranges())
    }

    /// The indices currently in use.
    pub open spec fn issued(self) -> Set<int> {
        Set::new(|v: int| 0 <= v < self.frontier() && !self.free_positions().contains(v))
    }

    /// Two pools that agree on everything the contracts speak of.
    pub open spec fn same_model(self, other: Self) -> bool {
        &&& self.frontier() == other.frontier()
        &&& self.count() == other.count()
        &&& self.reserved() == other.reserved()
        &&& self.free_ranges() == other.free_ranges()
    }

    /// The pool's invariant.
    pub closed spec fn wf(self) -> bool {
        &&& self.wf_below_frontier()
        &&& self.next_id > 0 ==> !self.free_positions().contains(self.next_id - 1)
    }

    /// The invariant, but for the top free range being flush with the
    /// frontier, as it may be in the middle of `return_id`.
    closed spec fn wf_below_frontier(self) -> bool {
        &&& ranges_wf(self.free_ranges())
        &&& forall|v: int| #[trigger] self.free_positions().contains(v) ==> 0 <= v < self.next_id
        &&& self.free_positions().finite()
        &&& self.in_use + self.reserved@ + self.free_positions().len() == self.next_id
    }
}

impl IndexPool {
    /// Constructs an empty pool. Indices will start at `0`.
    pub fn new() -> (r: Self)
        ensures
            r.wf(),
            r.frontier() == 0,
            r.free_ranges().len() == 0,
            r.count() == 0,
            r.reserved() == 0,
            r.issued() == Set::<int>::empty(),
    {
        Self::with_initial_index(0)
    }

    /// Constructs a pool whose first index from `new_id` is `index`. The
    /// indices `[0, index)` start in use, and are not counted by `in_use()`.
    pub fn with_initial_index(index: usize) -> (r: Self)
        ensures
            r.wf(),
            r.frontier() == index,
            r.free_ranges().len() == 0,
            r.count() == 0,
            r.reserved() == index,
            r.issued() == Set::new(|v: int| 0 <= v < index),
    {
        let r = IndexPool {
            next_id: index,
            in_use: 0,
            free_list: empty_ranges(),
            reserved: Ghost(index as nat),
        };
        proof {
            assert(r.free_positions() =~= Set::<int>::empty());
            assert(r.issued() =~= Set::new(|v: int| 0 <= v < index));
        }
        r
    }

    /// Allocates the lowest index that is not in use.
    pub fn new_id(&mut self) -> (r: usize)
        requires
            old(self).wf(),
            old(self).frontier() < usize::MAX || old(self).free_ranges().len() > 0,
        ensures
            final(self).wf(),
            !old(self).issued().contains(r as int),
            forall|v: int| 0 <= v < r ==> old(self).issued().contains(v),
            final(self).issued() == old(self).issued().insert(r as int),
            final(self).count() == old(self).count() + 1,
            final(self).reserved() == old(self).reserved(),
            old(self).free_ranges().len() == 0 ==> r == old(self).frontier() && final(self).frontier() == old(self).frontier() + 1,
            old(self).free_ranges().len() > 0 ==> r == old(self).free_ranges()[0].0 && final(self).frontier() == old(self).frontier(),
    {
        let ghost pre = *self;
        proof {
            lemma_total_len(self.free_ranges());
        }
        if let Some(id) = take_first(&mut self.free_list) {
            proof {
                lemma_first_is_bottom(pre.free_ranges());
                assert(pre.free_positions().contains(id as int)) by {
                    assert(in_range(pre.free_ranges()[0], id as int));
                }
                assert(self.free_positions().len() == pre.free_positions().len() - 1);
            }
            self.in_use = self.in_use + 1;
            proof {
                assert(self.issued() =~= pre.issued().insert(id as int));
            }
            return id;
        }
        let id = self.next_id;
        self.next_id = self.next_id + 1;
        self.in_use = self.in_use + 1;
        proof {
            assert(pre.free_positions() =~= Set::<int>::empty());
            assert(self.issued() =~= pre.issued().insert(id as int));
        }
        id
    }

    /// Attempts to allocate the specific index `id`. Fails, changing
    /// nothing, when `id` is already in use.
    pub fn request_id(&mut self, id: usize) -> (r: Result<(), AlreadyInUse>)
        requires
            old(self).wf(),
            id < usize::MAX,
        ensures
            final(self).wf(),
            r is Ok <==> !old(self).issued().contains(id as int),
            r is Ok ==> {
                &&& final(self).issued() == old(self).issued().insert(id as int)
                &&& final(self).count() == old(self).count() + 1
                &&& final(self).reserved() == old(self).reserved()
                &&& final(self).frontier() == if id < old(self).frontier() {
                    old(self).frontier() as int
                } else {
                    id + 1
                }
            },
            r is Err ==> final(self).same_model(*old(self)),
    {
        let ghost pre = *self;
        proof {
            lemma_total_len(self.free_ranges());
        }
        if id == self.next_id {
            self.next_id = self.next_id + 1;
            self.in_use = self.in_use + 1;
            proof {
                assert(self.issued() =~= pre.issued().insert(id as int));
            }
            Ok(())
        } else if id > self.next_id {
            let lo = self.next_id;
            proof {
                assert forall|i: int| 0 <= i < pre.free_ranges().len() implies #[trigger] pre.free_ranges()[i].1 + 1 < lo by {
                    let r = pre.free_ranges()[i];
                    assert(in_range(r, r.1 as int));
                    assert(pre.free_positions().contains(r.1 as int));
                }
            }
            append_range(&mut self.free_list, lo, id - 1);
            self.next_id = id + 1;
            self.in_use = self.in_use + 1;
            proof {
                let added = (lo, (id - 1) as usize);
                lemma_points_push(pre.free_ranges(), added);
                lemma_interval_len(added);
                assert(pre.free_positions().disjoint(interval(added)));
                vstd::set_lib::lemma_set_disjoint_lens(pre.free_positions(), interval(added));
                assert forall|i: int, j: int| 0 <= i < j < self.free_ranges().len() implies #[trigger] self.free_ranges()[i].1 + 1 < #[trigger] self.free_ranges()[j].0 by {
                    if j < pre.free_ranges().len() {
                        assert(pre.free_ranges()[i].1 + 1 < pre.free_ranges()[j].0);
                    }
                }
                assert(self.issued() =~= pre.issued().insert(id as int));
            }
            Ok(())
        } else if mark_used(&mut self.free_list, id) {
            self.in_use = self.in_use + 1;
            proof {
                assert(self.free_positions().len() == pre.free_positions().len() - 1);
                assert(self.issued() =~= pre.issued().insert(id as int));
            }
            Ok(())
        } else {
            Err(AlreadyInUse)
        }
    }

    /// Gives `id` back to the pool so that it may be handed out again. Fails,
    /// changing nothing, when `id` is not in use.
    pub fn return_id(&mut self, id: usize) -> (r: Result<(), AlreadyReturned>)
        requires
            old(self).wf(),
        ensures
            final(self).wf(),
            r is Ok <==> old(self).issued().contains(id as int),
            final(self).frontier() <= old(self).frontier(),
            r is Ok ==> {
                &&& final(self).issued() == old(self).issued().remove(id as int)
                &&& final(self).count() == if old(self).count() > 0 {
                    old(self).count() - 1
                } else {
                    0
                }
                &&& final(self).reserved() == if old(self).count() > 0 {
                    old(self).reserved() as int
                } else {
                    old(self).reserved() - 1
                }
            },
            r is Err ==> final(self).same_model(*old(self)),
    {
        let ghost pre = *self;
        proof {
            lemma_total_len(self.free_ranges());
        }
        if id >= self.next_id {
            return Err(AlreadyReturned);
        }
        if id + 1 == self.next_id {
            proof {
                pre.lemma_free_below(id as int);
            }
            self.next_id = self.next_id - 1;
        } else {
            if !mark_free(&mut self.free_list, id) {
                return Err(AlreadyReturned);
            }
            proof {
                pre.lemma_free_below(id as int);
                assert(self.free_positions().len() == pre.free_positions().len() + 1);
                assert(self.next_id > 0 && !self.free_positions().contains(self.next_id - 1));
            }
        }
        if self.in_use > 0 {
            self.in_use = self.in_use - 1;
        } else {
            proof {
                self.reserved = Ghost((self.reserved@ - 1) as nat);
            }
        }
        proof {
            assert(self.issued() =~= pre.issued().remove(id as int));
        }
        loop
            invariant
                self.wf_below_frontier(),
                self.next_id <= pre.next_id,
                self.issued() == pre.issued().remove(id as int),
                self.in_use == if pre.in_use > 0 { pre.in_use - 1 } else { 0 },
                self.reserved@ == if pre.in_use > 0 { pre.reserved@ as int } else { pre.reserved@ - 1 },
            ensures
                self.wf(),
                self.next_id <= pre.next_id,
                self.issued() == pre.issued().remove(id as int),
                self.in_use == if pre.in_use > 0 { pre.in_use - 1 } else { 0 },
                self.reserved@ == if pre.in_use > 0 { pre.reserved@ as int } else { pre.reserved@ - 1 },
            decreases self.next_id,
        {
            if !self.collapse_next() {
                break;
            }
        }
        Ok(())
    }

    /// Lowers the frontier past the top free range when that range ends just
    /// below it. Returns whether it did.
    fn collapse_next(&mut self) -> (r: bool)
        requires
            old(self).wf_below_frontier(),
        ensures
            final(self).wf_below_frontier(),
            final(self).issued() == old(self).issued(),
            final(self).in_use == old(self).in_use,
            final(self).reserved == old(self).reserved,
            r == (old(self).free_ranges().len() > 0 && old(self).free_ranges().last().1 + 1
                == old(self).next_id),
            r ==> final(self).next_id == old(self).free_ranges().last().0,
            r ==> final(self).free_ranges() == old(self).free_ranges().drop_last(),
            r ==> final(self).next_id < old(self).next_id,
            r ==> final(self).wf(),
            !r ==> final(self).same_model(*old(self)),
            final(self).next_id <= old(self).next_id,
            !r ==> final(self).wf(),
    {
        let ghost pre = *self;
        if let Some(last) = last_range(&self.free_list) {
            proof {
                lemma_last_is_top(pre.free_ranges());
                assert(in_range(last, last.1 as int));
            }
            if last.1 + 1 == self.next_id {
                remove_last(&mut self.free_list);
                self.next_id = last.0;
                proof {
                    let s = pre.free_ranges();
                    assert(ranges_wf(self.free_ranges())) by {
                        assert forall|i: int, j: int| 0 <= i < j < self.free_ranges().len() implies #[trigger] self.free_ranges()[i].1 + 1 < #[trigger] self.free_ranges()[j].0 by {
                            assert(s[i].1 + 1 < s[j].0);
                        }
                        assert forall|i: int| 0 <= i < self.free_ranges().len() implies #[trigger] self.free_ranges()[i].0 <= self.free_ranges()[i].1 && self.free_ranges()[i].1 < usize::MAX by {
                            assert(s[i].0 <= s[i].1);
                        }
                    }
                    lemma_total_len(self.free_ranges());
                    lemma_interval_len(last);
                    vstd::set_lib::lemma_set_disjoint_lens(self.free_positions(), interval(last));
                    assert(self.issued() =~= pre.issued());
                    if self.next_id > 0 {
                        assert(!points(s.drop_last()).contains(self.next_id - 1));
                    }
                }
                return true;
            }
            proof {
                assert(pre.free_positions().contains(last.1 as int));
            }
        }
        false
    }

    /// Fewer indices are free than lie below the frontier when `id`, below
    /// it, is not free.
    proof fn lemma_free_below(self, id: int)
        requires
            self.free_positions().finite(),
            forall|v: int| #[trigger] self.free_positions().contains(v) ==> 0 <= v < self.next_id,
            0 <= id < self.next_id,
            !self.free_positions().contains(id),
        ensures
            self.free_positions().len() < self.next_id,
    {
        vstd::set_lib::lemma_int_range(0, self.next_id as int);
        let below = vstd::set_lib::set_int_range(0, self.next_id as int);
        assert(self.free_positions().subset_of(below.remove(id)));
        vstd::set_lib::lemma_len_subset(self.free_positions(), below.remove(id));
    }

    /// Checks whether `id` is currently free.
    pub fn is_free(&self, id: usize) -> (r: bool)
        requires
            self.wf(),
        ensures
            r == !self.issued().contains(id as int),
    {
        id >= self.next_id || contains_index(&self.free_list, id)
    }

    /// An upper bound on the indices in use: the highest one plus one.
    pub fn maximum(&self) -> (r: usize)
        ensures
            r == self.frontier(),
    {
        self.next_id
    }

    /// The number of indices in use, leaving out those that
    /// `with_initial_index` started with.
    pub fn in_use(&self) -> (r: usize)
        ensures
            r == self.count(),
    {
        self.in_use
    }

    /// Returns every index to the pool and resets the frontier to `0`.
    pub fn clear(&mut self)
        ensures
            final(self).wf(),
            final(self).frontier() == 0,
            final(self).free_ranges().len() == 0,
            final(self).count() == 0,
            final(self).reserved() == 0,
            final(self).issued() == Set::<int>::empty(),
    {
        clear_ranges(&mut self.free_list);
        self.in_use = 0;
        self.next_id = 0;
        proof {
            self.reserved = Ghost(0);
            assert(self.free_positions() =~= Set::<int>::empty());
            assert(self.issued() =~= Set::<int>::empty());
        }
    }

    /// The stored ranges that end at or above `start`, with what the
    /// iterators need of them.
    fn free_ranges_from(&self, start: usize) -> (r: Vec<(usize, usize)>)
        requires
            self.wf(),
        ensures
            ranges_wf(r@),
            forall|v: int| #[trigger] points(r@).contains(v) ==> v < self.next_id,
            forall|i: int| 0 <= i < r@.len() ==> #[trigger] r@[i].1 >= start,
            forall|v: int|
                v >= start ==> (points(r@).contains(v) <==> self.free_positions().contains(v)),
    {
        let r = ranges_from(&self.free_list, start);
        proof {
            let s = self.free_ranges();
            let cut = s.len() - r@.len();
            lemma_suffix(s, cut, start as int);
            assert forall|i: int| 0 <= i < r@.len() implies #[trigger] r@[i].1 >= start by {
                assert(r@[i] == s[i + cut]);
            }
            assert forall|v: int| #[trigger] points(r@).contains(v) implies v < self.next_id by {
                assert(self.free_positions().contains(v));
            }
        }
        r
    }

    /// An iterator over every index in use, in ascending order.
    pub fn all_indices(&self) -> (r: IndexIter)
        requires
            self.wf(),
        ensures
            r.wf(),
            r.remaining() == self.issued(),
    {
        let ranges = self.free_ranges_from(0);
        let r = IndexIter::starting_at(ranges, 0, self.next_id);
        proof {
            assert(r.remaining() =~= self.issued());
        }
        r
    }

    /// An iterator over every index in use that is at least `after`, in
    /// ascending order.
    pub fn all_indices_after(&self, after: usize) -> (r: IndexAfterIter)
        requires
            self.wf(),
        ensures
            r.wf(),
            r.remaining() == self.issued().filter(|v: int| v >= after),
    {
        let ranges = self.free_ranges_from(after);
        let r = IndexAfterIter::starting_at(ranges, after, self.next_id);
        proof {
            assert(r.remaining() =~= self.issued().filter(|v: int| v >= after));
        }
        r
    }
}

impl Default for IndexPool {
    /// Constructs an empty pool. Indices will start at `0`.
    fn default() -> (r: Self)
        ensures
            r.wf(),
            r.frontier() == 0,
            r.free_ranges().len() == 0,
            r.count() == 0,
            r.reserved() == 0,
            r.issued() == Set::<int>::empty(),
    {
        IndexPool::new()
    }
}

/// The indices in use are exactly those below `maximum()` that no stored
/// range covers, and every stored range lies below `maximum()`.
pub proof fn lemma_issued_is_frontier_minus_free(pool: IndexPool)
    requires
        pool.wf(),
    ensures
        pool.issued() == Set::new(|v: int| 0 <= v < pool.frontier()).difference(
            pool.free_positions(),
        ),
        forall|v: int| #[trigger] pool.free_positions().contains(v) ==> 0 <= v < pool.frontier(),
{
    assert(pool.issued() =~= Set::new(|v: int| 0 <= v < pool.frontier()).difference(
        pool.free_positions(),
    ));
}

/// In a pool that started at index `0`, `in_use()` is `maximum()` minus the
/// summed lengths of the stored ranges.
pub proof fn lemma_in_use_counts(pool: IndexPool)
    requires
        pool.wf(),
        pool.reserved() == 0,
    ensures
        pool.count() == pool.frontier() - total_len(pool.free_ranges()),
{
    lemma_total_len(pool.free_ranges());
}

/// `maximum()` is one more than the highest index in use, and `0` exactly
/// when no index is in use.
pub proof fn lemma_frontier_is_top(pool: IndexPool)
    requires
        pool.wf(),
    ensures
        pool.frontier() > 0 ==> pool.issued().contains(pool.frontier() - 1),
        forall|v: int| #[trigger] pool.issued().contains(v) ==> v < pool.frontier(),
        pool.frontier() == 0 <==> pool.issued() == Set::<int>::empty(),
{
    if pool.frontier() > 0 {
        assert(pool.issued().contains(pool.frontier() - 1));
    } else {
        assert(pool.issued() =~= Set::<int>::empty());
    }
}

/// Once every index in use has been returned, the frontier has collapsed to
/// `0` and no range is stored.
pub proof fn lemma_all_returned_collapses(pool: IndexPool)
    requires
        pool.wf(),
        pool.issued() == Set::<int>::empty(),
    ensures
        pool.frontier() == 0,
        pool.free_ranges().len() == 0,
{
    lemma_frontier_is_top(pool);
    if pool.free_ranges().len() > 0 {
        let r = pool.free_ranges()[0];
        assert(in_range(r, r.0 as int));
        assert(pool.free_positions().contains(r.0 as int));
    }
}

/// Two pools with the same indices in use have the same frontier and the
/// same free indices: whatever order of allocations and returns led from
/// one to the other, undoing them all gives the state back.
pub proof fn lemma_state_follows_issued(a: IndexPool, b: IndexPool)
    requires
        a.wf(),
        b.wf(),
        a.issued() == b.issued(),
    ensures
        a.frontier() == b.frontier(),
        a.free_positions() == b.free_positions(),
        a.free_ranges() == b.free_ranges(),
        a.count() + a.reserved() == b.count() + b.reserved(),
{
    lemma_frontier_is_top(a);
    lemma_frontier_is_top(b);
    if a.frontier() < b.frontier() {
        assert(a.issued().contains(b.frontier() - 1));
    } else if b.frontier() < a.frontier() {
        assert(b.issued().contains(a.frontier() - 1));
    }
    assert(a.frontier() == b.frontier());
    lemma_issued_is_frontier_minus_free(a);
    lemma_issued_is_frontier_minus_free(b);
    assert forall|v: int| a.free_positions().contains(v) <==> b.free_positions().contains(v) by {
        if 0 <= v < a.frontier() {
            assert(a.issued().contains(v) <==> !a.free_positions().contains(v));
            assert(b.issued().contains(v) <==> !b.free_positions().contains(v));
            assert(a.issued().contains(v) == b.issued().contains(v));
        } else {
            assert(!a.free_positions().contains(v));
            assert(!b.free_positions().contains(v));
        }
    }
    assert(a.free_positions() =~= b.free_positions());
    lemma_ranges_canonical(a.free_ranges(), b.free_ranges());
}

/// The stored ranges are pairwise disjoint and never adjacent: between any
/// two of them lies at least one index in use.
pub proof fn lemma_ranges_coalesced(pool: IndexPool)
    requires
        pool.wf(),
    ensures
        forall|i: int, j: int|
            0 <= i < j < pool.free_ranges().len() ==> #[trigger] pool.free_ranges()[i].1 + 1
                < #[trigger] pool.free_ranges()[j].0,
        forall|i: int|
            0 <= i < pool.free_ranges().len() ==> #[trigger] pool.free_ranges()[i].0
                <= pool.free_ranges()[i].1,
{
}

/// No stored range ends at `maximum() - 1`.
pub proof fn lemma_no_range_at_top(pool: IndexPool)
    requires
        pool.wf(),
    ensures
        forall|i: int|
            0 <= i < pool.free_ranges().len() ==> #[trigger] pool.free_ranges()[i].1 + 1
                != pool.frontier(),
{
    assert forall|i: int| 0 <= i < pool.free_ranges().len() implies #[trigger] pool.free_ranges()[i].1
        + 1 != pool.frontier() by {
        let r = pool.free_ranges()[i];
        assert(in_range(r, r.1 as int));
        assert(pool.free_positions().contains(r.1 as int));
    }
}

/// After `return_id(v)` succeeds, `v` is no longer in use, so returning it
/// again fails with `AlreadyReturned`.
pub proof fn lemma_second_return_fails(before: IndexPool, after: IndexPool, v: usize)
    requires
        before.wf(),
        after.issued() == before.issued().remove(v as int),
    ensures
        !after.issued().contains(v as int),
{
}

} // verus!
