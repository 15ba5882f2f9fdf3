use free_ranges::{FreeRanges, Range};
use vstd::prelude::*;
use vstd::set_lib::{lemma_int_range, set_int_range};

verus! {

/// A closed interval `[r.0, r.1]` of free indices.
pub open spec fn in_range(r: (usize, usize), v: int) -> bool {
    r.0 <= v && v <= r.1
}

/// The shape every stored list of free ranges keeps: each range is
/// non-empty and lies below `usize::MAX`, and the ranges ascend with a gap
/// of at least one used index between neighbours.
pub open spec fn ranges_wf(s: Seq<(usize, usize)>) -> bool {
    &&& forall|i: int| 0 <= i < s.len() ==> #[trigger] s[i].0 <= s[i].1 && s[i].1 < usize::MAX
    &&& forall|i: int, j: int| 0 <= i < j < s.len() ==> #[trigger] s[i].1 + 1 < #[trigger] s[j].0
}

/// Every index covered by some range of `s`.
pub open spec fn points(s: Seq<(usize, usize)>) -> Set<int> {
    Set::new(|v: int| exists|i: int| 0 <= i < s.len() && #[trigger] in_range(s[i], v))
}

/// The indices of one range.
pub open spec fn interval(r: (usize, usize)) -> Set<int> {
    Set::new(|v: int| in_range(r, v))
}

/// Total number of indices covered by the ranges of `s`.
pub open spec fn total_len(s: Seq<(usize, usize)>) -> int
    decreases s.len(),
{
    if s.len() == 0 {
        0
    } else {
        total_len(s.drop_last()) + (s.last().1 - s.last().0 + 1)
    }
}

/// `i` splits `s` into the ranges that end below `start` and those that do not.
pub open spec fn suffix_cut(s: Seq<(usize, usize)>, i: int, start: int) -> bool {
    &&& forall|j: int| 0 <= j < i ==> #[trigger] s[j].1 < start
    &&& forall|j: int| i <= j < s.len() ==> #[trigger] s[j].1 >= start
}

#[verifier::external_type_specification]
#[verifier::external_body]
pub struct ExFreeRanges(FreeRanges);

/// The ranges that a `FreeRanges` holds, in ascending order.
pub uninterp spec fn ranges_of(f: FreeRanges) -> Seq<(usize, usize)>;

/// Relies on `FreeRanges::new`: the set starts with no range.
#[verifier::external_body]
pub(crate) fn empty_ranges() -> (r: FreeRanges)
    ensures
        ranges_of(r) == Seq::<(usize, usize)>::empty(),
{
    FreeRanges::new()
}

/// Relies on `FreeRanges::set_first_used`: it takes the lowest index of the
/// first range, shrinking that range or removing it when it held one index.
#[verifier::external_body]
pub(crate) fn take_first(f: &mut FreeRanges) -> (r: Option<usize>)
    requires
        ranges_wf(ranges_of(*old(f))),
    ensures
        ranges_of(*old(f)).len() == 0 ==> r is None && ranges_of(*final(f)) == ranges_of(*old(f)),
        ranges_of(*old(f)).len() > 0 ==> {
            &&& r == Some(ranges_of(*old(f))[0].0)
            &&& ranges_wf(ranges_of(*final(f)))
            &&& points(ranges_of(*final(f))) == points(ranges_of(*old(f))).remove(
                ranges_of(*old(f))[0].0 as int,
            )
        },
{
    f.set_first_used()
}

/// Relies on `FreeRanges::set_free`: it reports `false` and changes nothing
/// when `index` is already free, and otherwise adds `index`, merging it with
/// the ranges that end just below or start just above it.
#[verifier::external_body]
pub(crate) fn mark_free(f: &mut FreeRanges, index: usize) -> (r: bool)
    requires
        ranges_wf(ranges_of(*old(f))),
        index < usize::MAX,
    ensures
        r == !points(ranges_of(*old(f))).contains(index as int),
        !r ==> ranges_of(*final(f)) == ranges_of(*old(f)),
        r ==> ranges_wf(ranges_of(*final(f))),
        r ==> points(ranges_of(*final(f))) == points(ranges_of(*old(f))).insert(index as int),
{
    f.set_free(index)
}

/// Relies on `FreeRanges::set_used`: it reports whether `index` was free and,
/// if so, splits the range holding it around `index`.
#[verifier::external_body]
pub(crate) fn mark_used(f: &mut FreeRanges, index: usize) -> (r: bool)
    requires
        ranges_wf(ranges_of(*old(f))),
    ensures
        r == points(ranges_of(*old(f))).contains(index as int),
        !r ==> ranges_of(*final(f)) == ranges_of(*old(f)),
        ranges_wf(ranges_of(*final(f))),
        points(ranges_of(*final(f))) == points(ranges_of(*old(f))).remove(index as int),
{
    f.set_used(index)
}

/// Relies on `FreeRanges::set_range_free` for a range that lies above every
/// stored range with a gap between them: no merge happens, so the range is
/// stored as the new last one.
#[verifier::external_body]
pub(crate) fn append_range(f: &mut FreeRanges, min: usize, max: usize)
    requires
        ranges_wf(ranges_of(*old(f))),
        min <= max < usize::MAX,
        forall|i: int|
            0 <= i < ranges_of(*old(f)).len() ==> #[trigger] ranges_of(*old(f))[i].1 + 1 < min,
    ensures
        ranges_of(*final(f)) == ranges_of(*old(f)).push((min, max)),
{
    f.set_range_free(Range { min, max });
}

/// Relies on `FreeRanges::is_free`: whether some stored range holds `index`.
#[verifier::external_body]
pub(crate) fn contains_index(f: &FreeRanges, index: usize) -> (r: bool)
    requires
        ranges_wf(ranges_of(*f)),
    ensures
        r == points(ranges_of(*f)).contains(index as int),
{
    f.is_free(index)
}

/// Relies on `FreeRanges::free_ranges`, walked from its back end: the
/// highest stored range, as `(min, max)`.
#[verifier::external_body]
pub(crate) fn last_range(f: &FreeRanges) -> (r: Option<(usize, usize)>)
    ensures
        ranges_of(*f).len() == 0 ==> r is None,
        ranges_of(*f).len() > 0 ==> r == Some(ranges_of(*f).last()),
{
    f.free_ranges().next_back().map(|x| (x.min, x.max))
}

/// Relies on `FreeRanges::remove_last_contiguous`: the highest stored range
/// is dropped.
#[verifier::external_body]
pub(crate) fn remove_last(f: &mut FreeRanges)
    requires
        ranges_wf(ranges_of(*old(f))),
    ensures
        ranges_of(*final(f)) == ranges_of(*old(f)).drop_last(),
{
    f.remove_last_contiguous();
}

/// Relies on `FreeRanges::free_ranges_after`: the stored ranges that end at
/// or above `start`, in ascending order, as `(min, max)` pairs.
#[verifier::external_body]
pub(crate) fn ranges_from(f: &FreeRanges, start: usize) -> (r: Vec<(usize, usize)>)
    requires
        ranges_wf(ranges_of(*f)),
    ensures
        r@.len() <= ranges_of(*f).len(),
        r@ == ranges_of(*f).subrange(
            ranges_of(*f).len() - r@.len(),
            ranges_of(*f).len() as int,
        ),
        suffix_cut(ranges_of(*f), ranges_of(*f).len() - r@.len(), start as int),
{
    f.free_ranges_after(start).map(|x| (x.min, x.max)).collect()
}

/// Relies on `FreeRanges::clear`: every range is dropped.
#[verifier::external_body]
pub(crate) fn clear_ranges(f: &mut FreeRanges)
    ensures
        ranges_of(*final(f)) == Seq::<(usize, usize)>::empty(),
{
    f.clear();
}

/// Pushing a range adds exactly its indices.
pub proof fn lemma_points_push(s: Seq<(usize, usize)>, r: (usize, usize))
    ensures
        points(s.push(r)) == points(s).union(interval(r)),
{
    let t = s.push(r);
    assert forall|v: int| points(t).contains(v) <==> points(s).union(interval(r)).contains(v) by {
        if points(t).contains(v) {
            let i = choose|i: int| 0 <= i < t.len() && #[trigger] in_range(t[i], v);
            if i < s.len() {
                assert(in_range(s[i], v));
            }
        }
        if points(s).contains(v) {
            let i = choose|i: int| 0 <= i < s.len() && #[trigger] in_range(s[i], v);
            assert(in_range(t[i], v));
        }
        if interval(r).contains(v) {
            assert(in_range(t[s.len() as int], v));
        }
    }
    assert(points(t) =~= points(s).union(interval(r)));
}

/// A range holds `max - min + 1` indices.
pub proof fn lemma_interval_len(r: (usize, usize))
    requires
        r.0 <= r.1,
    ensures
        interval(r).finite(),
        interval(r).len() == r.1 - r.0 + 1,
{
    lemma_int_range(r.0 as int, r.1 + 1);
    assert(interval(r) =~= set_int_range(r.0 as int, r.1 + 1));
}

/// In a well-formed list, no index lies above the last range's end, and the
/// last range is disjoint from the ones before it.
pub proof fn lemma_last_is_top(s: Seq<(usize, usize)>)
    requires
        ranges_wf(s),
        s.len() > 0,
    ensures
        forall|v: int| points(s).contains(v) ==> v <= s.last().1,
        points(s.drop_last()).disjoint(interval(s.last())),
        forall|v: int| points(s.drop_last()).contains(v) ==> v + 1 < s.last().0,
        points(s) == points(s.drop_last()).union(interval(s.last())),
{
    let n = s.len() - 1;
    assert(s == s.drop_last().push(s.last()));
    lemma_points_push(s.drop_last(), s.last());
    assert forall|v: int| points(s.drop_last()).contains(v) implies v + 1 < s.last().0 by {
        let i = choose|i: int| 0 <= i < s.drop_last().len() && #[trigger] in_range(s.drop_last()[i], v);
        assert(s[i].1 + 1 < s[n].0);
    }
}

/// The indices of a well-formed list number exactly the sum of the lengths
/// of its ranges.
pub proof fn lemma_total_len(s: Seq<(usize, usize)>)
    requires
        ranges_wf(s),
    ensures
        points(s).finite(),
        points(s).len() == total_len(s),
    decreases s.len(),
{
    if s.len() == 0 {
        assert(points(s) =~= Set::<int>::empty());
    } else {
        let d = s.drop_last();
        lemma_drop_last_wf(s);
        lemma_total_len(d);
        lemma_last_is_top(s);
        lemma_interval_len(s.last());
        vstd::set_lib::lemma_set_disjoint_lens(points(d), interval(s.last()));
    }
}

/// The lowest index of a well-formed list is the start of its first range.
pub proof fn lemma_first_is_bottom(s: Seq<(usize, usize)>)
    requires
        ranges_wf(s),
        s.len() > 0,
    ensures
        forall|v: int| points(s).contains(v) ==> s[0].0 <= v,
{
    assert forall|v: int| points(s).contains(v) implies s[0].0 <= v by {
        let i = choose|i: int| 0 <= i < s.len() && #[trigger] in_range(s[i], v);
        if i > 0 {
            assert(s[0].1 + 1 < s[i].0);
        }
    }
}

/// A suffix of a well-formed list is well-formed, and where every range
/// before the cut ends below `start`, the suffix holds the same indices at
/// or above `start`.
pub proof fn lemma_suffix(s: Seq<(usize, usize)>, i: int, start: int)
    requires
        ranges_wf(s),
        0 <= i <= s.len(),
        forall|j: int| 0 <= j < i ==> #[trigger] s[j].1 < start,
    ensures
        ranges_wf(s.subrange(i, s.len() as int)),
        forall|v: int|
            v >= start ==> (points(s.subrange(i, s.len() as int)).contains(v) <==> points(
                s,
            ).contains(v)),
        forall|v: int| points(s.subrange(i, s.len() as int)).contains(v) ==> points(s).contains(v),
{
    let t = s.subrange(i, s.len() as int);
    assert forall|a: int, b: int| 0 <= a < b < t.len() implies t[a].1 + 1 < t[b].0 by {
        assert(s[a + i].1 + 1 < s[b + i].0);
    }
    assert forall|a: int| 0 <= a < t.len() implies #[trigger] t[a].0 <= t[a].1 && t[a].1
        < usize::MAX by {
        assert(s[a + i].0 <= s[a + i].1);
    }
    assert forall|v: int| points(t).contains(v) implies points(s).contains(v) by {
        let a = choose|a: int| 0 <= a < t.len() && #[trigger] in_range(t[a], v);
        assert(in_range(s[a + i], v));
    }
    assert forall|v: int| v >= start && points(s).contains(v) implies points(t).contains(v) by {
        let j = choose|j: int| 0 <= j < s.len() && #[trigger] in_range(s[j], v);
        assert(j >= i);
        assert(in_range(t[j - i], v));
    }
}
/// Dropping the last range keeps a list well-formed.
pub proof fn lemma_drop_last_wf(s: Seq<(usize, usize)>)
    requires
        ranges_wf(s),
        s.len() > 0,
    ensures
        ranges_wf(s.drop_last()),
{
    let d = s.drop_last();
    assert forall|i: int, j: int| 0 <= i < j < d.len() implies d[i].1 + 1 < d[j].0 by {
        assert(s[i].1 + 1 < s[j].0);
    }
}

/// A well-formed list is determined by the indices it covers.
pub proof fn lemma_ranges_canonical(s: Seq<(usize, usize)>, t: Seq<(usize, usize)>)
    requires
        ranges_wf(s),
        ranges_wf(t),
        points(s) == points(t),
    ensures
        s == t,
    decreases s.len(),
{
    if s.len() == 0 || t.len() == 0 {
        if s.len() > 0 {
            assert(in_range(s[0], s[0].0 as int));
            assert(points(s).contains(s[0].0 as int));
        }
        if t.len() > 0 {
            assert(in_range(t[0], t[0].0 as int));
            assert(points(t).contains(t[0].0 as int));
        }
        assert(s =~= t);
    } else {
        let a = s.last();
        let b = t.last();
        lemma_last_is_top(s);
        lemma_last_is_top(t);
        assert(interval(a).contains(a.1 as int));
        assert(interval(b).contains(b.1 as int));
        assert(points(s).contains(a.1 as int));
        assert(points(t).contains(b.1 as int));
        assert(points(t).contains(a.1 as int));
        assert(points(s).contains(b.1 as int));
        assert(a.1 == b.1);
        if a.0 < b.0 {
            assert(interval(a).contains(b.0 - 1));
            assert(points(s).contains(b.0 - 1));
            assert(points(t).contains(b.0 - 1));
            assert(!points(t.drop_last()).contains(b.0 - 1));
            assert(false);
        } else if b.0 < a.0 {
            assert(interval(b).contains(a.0 - 1));
            assert(points(t).contains(a.0 - 1));
            assert(points(s).contains(a.0 - 1));
            assert(!points(s.drop_last()).contains(a.0 - 1));
            assert(false);
        }
        assert(a == b);
        lemma_drop_last_wf(s);
        lemma_drop_last_wf(t);
        assert forall|v: int| points(s.drop_last()).contains(v) <==> points(t.drop_last()).contains(v) by {
            if points(s.drop_last()).contains(v) {
                assert(v + 1 < a.0);
                assert(points(s).contains(v));
                assert(points(t).contains(v));
                assert(!interval(b).contains(v));
            }
            if points(t.drop_last()).contains(v) {
                assert(v + 1 < b.0);
                assert(points(t).contains(v));
                assert(points(s).contains(v));
                assert(!interval(a).contains(v));
            }
        }
        assert(points(s.drop_last()) =~= points(t.drop_last()));
        lemma_ranges_canonical(s.drop_last(), t.drop_last());
        assert(s =~= s.drop_last().push(a));
        assert(t =~= t.drop_last().push(b));
    }
}
} // verus!
