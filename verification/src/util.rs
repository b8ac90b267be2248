//! Filling the gaps of a series.

use vstd::prelude::*;

use crate::ieee::bounds::{is_moderate, law_way_is_finite, law_way_is_near, on_the_way};
use crate::ieee::bounds::{magnitude, value};
use crate::ieee::mirror::{law_same, law_same_product, law_same_quotient, law_same_sum, same_run};
use crate::ieee::nearest::law_way_runs_one_way;
use crate::ieee::scalar::{law_numbers_stay_numbers, lemma_from_count, Single};

verus! {

/// Where the last finite point up to `i` stands; -1 where there is none.
pub open spec fn last_finite(s: Seq<Single>, i: int) -> int
    decreases i + 1,
{
    if i < 0 {
        -1
    } else if s[i].is_finite() {
        i
    } else {
        last_finite(s, i - 1)
    }
}

/// Where the first finite point from `i` on stands; the length where there is none.
pub open spec fn next_finite(s: Seq<Single>, i: int) -> int
    decreases s.len() - i,
{
    if i >= s.len() {
        s.len() as int
    } else if s[i].is_finite() {
        i
    } else {
        next_finite(s, i + 1)
    }
}

/// The point that stands at `i` once the gaps are filled: a finite point stays; inside a gap the
/// points lie on the line between its two sides; before the first finite point and after the last
/// one that point is repeated; a series without any is filled with zeros.
pub open spec fn filled(s: Seq<Single>, i: int) -> Single {
    let l = last_finite(s, i);
    let r = next_finite(s, i);
    if l < 0 && r >= s.len() {
        Single::zero()
    } else if l < 0 {
        s[r]
    } else if r >= s.len() {
        s[l]
    } else if l == r {
        s[i]
    } else {
        let slope = s[r].minus(s[l]).over(Single::from_count((r - l) as usize));
        s[l].plus(slope.times(Single::from_count((i - l) as usize)))
    }
}

/// The series with its gaps filled.
pub open spec fn interpolated(s: Seq<Single>) -> Seq<Single> {
    Seq::new(s.len(), |i: int| filled(s, i))
}

proof fn lemma_next_finite(s: Seq<Single>, i: int, r: int)
    requires
        0 <= i <= r <= s.len(),
        forall|j: int| i <= j < r ==> !(#[trigger] s[j]).is_finite(),
        r < s.len() ==> s[r].is_finite(),
    ensures
        next_finite(s, i) == r,
    decreases r - i,
{
    if i < r {
        assert(!s[i].is_finite());
        lemma_next_finite(s, i + 1, r);
    }
}

proof fn lemma_last_finite(s: Seq<Single>, i: int, l: int)
    requires
        -1 <= l <= i < s.len(),
        forall|j: int| l < j <= i ==> !(#[trigger] s[j]).is_finite(),
        l >= 0 ==> s[l].is_finite(),
    ensures
        last_finite(s, i) == l,
    decreases i - l,
{
    if l < i {
        assert(!s[i].is_finite());
        lemma_last_finite(s, i - 1, l);
    }
}

/// Fills the gaps of a series by linear interpolation.
pub fn linear_interpolation(data: &[Single]) -> (r: Vec<Single>)
    ensures
        r@ == interpolated(data@),
{
    let n = data.len();
    let mut result: Vec<Single> = Vec::new();
    // the last finite point so far
    let mut left: Option<usize> = None;
    let mut pos: usize = 0;
    while pos < n
        invariant
            pos <= n == data@.len(),
            result@.len() == pos,
            forall|i: int| 0 <= i < pos ==> result@[i] == filled(data@, i),
            match left {
                Some(l) => pos == l + 1 && data@[l as int].is_finite(),
                None => pos == 0 || pos == n,
            },
        decreases n - pos,
    {
        let ghost start = pos;
        let mut right: usize = pos;
        while right < n && !data[right].is_finite()
            invariant
                pos <= right <= n == data@.len(),
                forall|j: int| pos <= j < right ==> !(#[trigger] data@[j]).is_finite(),
            decreases n - right,
        {
            right = right + 1;
        }
        let ghost l = match left {
            Some(k) => k as int,
            None => -1,
        };
        let slope = match left {
            Some(k) => if right < n {
                data[right].minus(data[k]).over(Single::from_count(right - k))
            } else {
                Single::zero()
            },
            None => Single::zero(),
        };
        while pos < right
            invariant
                start <= pos <= right <= n == data@.len(),
                start == l + 1,
                result@.len() == pos,
                forall|i: int| 0 <= i < pos ==> result@[i] == filled(data@, i),
                forall|j: int| start <= j < right ==> !(#[trigger] data@[j]).is_finite(),
                right < n ==> data@[right as int].is_finite(),
                match left {
                    Some(k) => k == l && data@[l].is_finite() && (right < n ==> slope
                        == data@[right as int].minus(data@[l]).over(
                        Single::from_count((right - l) as usize),
                    )),
                    None => l == -1,
                },
            decreases right - pos,
        {
            proof {
                lemma_next_finite(data@, pos as int, right as int);
                lemma_last_finite(data@, pos as int, l);
            }
            let value = match left {
                Some(k) => if right < n {
                    data[k].plus(slope.times(Single::from_count(pos - k)))
                } else {
                    data[k]
                },
                None => if right < n {
                    data[right]
                } else {
                    Single::zero()
                },
            };
            result.push(value);
            pos = pos + 1;
        }
        if right < n {
            proof {
                lemma_next_finite(data@, right as int, right as int);
                lemma_last_finite(data@, right as int, right as int);
            }
            result.push(data[right]);
            left = Some(right);
            pos = right + 1;
        } else {
            left = None;
        }
    }
    assert(result@ =~= interpolated(data@));
    result
}

/// Interpolation keeps the length and every finite point.
pub proof fn law_interpolation_keeps_points(s: Seq<Single>)
    ensures
        interpolated(s).len() == s.len(),
        forall|i: int|
            0 <= i < s.len() && (#[trigger] s[i]).is_finite() ==> interpolated(s)[i] == s[i],
{
}

/// A series without gaps stays as it is.
pub proof fn law_interpolation_of_complete_series(s: Seq<Single>)
    requires
        forall|i: int| 0 <= i < s.len() ==> (#[trigger] s[i]).is_finite(),
    ensures
        interpolated(s) == s,
{
    assert(interpolated(s) =~= s);
}

/// A series without any finite point becomes zeros.
pub proof fn law_interpolation_of_empty_series(s: Seq<Single>)
    requires
        forall|i: int| 0 <= i < s.len() ==> !(#[trigger] s[i]).is_finite(),
    ensures
        forall|i: int| 0 <= i < s.len() ==> (#[trigger] interpolated(s)[i]) == Single::zero(),
{
    assert forall|i: int| 0 <= i < s.len() implies (#[trigger] interpolated(s)[i])
        == Single::zero() by {
        lemma_next_finite(s, i, s.len() as int);
        lemma_last_finite(s, i, -1);
    }
}

/// Up to the first finite point that point is repeated, and from the last one on the last.
pub proof fn law_interpolation_pads_ends(s: Seq<Single>, first: int, last: int)
    requires
        0 <= first <= last < s.len(),
        s[first].is_finite(),
        s[last].is_finite(),
        forall|i: int| 0 <= i < first ==> !(#[trigger] s[i]).is_finite(),
        forall|i: int| last < i < s.len() ==> !(#[trigger] s[i]).is_finite(),
    ensures
        forall|i: int| 0 <= i <= first ==> (#[trigger] interpolated(s)[i]) == s[first],
        forall|i: int| last <= i < s.len() ==> (#[trigger] interpolated(s)[i]) == s[last],
{
    assert forall|i: int| 0 <= i <= first implies (#[trigger] interpolated(s)[i]) == s[first] by {
        lemma_next_finite(s, i, first);
        lemma_last_finite(
            s,
            i,
            if i == first {
                first
            } else {
                -1
            },
        );
    }
    assert forall|i: int| last <= i < s.len() implies (#[trigger] interpolated(s)[i])
        == s[last] by {
        lemma_next_finite(
            s,
            i,
            if i == last {
                last
            } else {
                s.len() as int
            },
        );
        lemma_last_finite(s, i, last);
    }
}

proof fn lemma_last_finite_is(s: Seq<Single>, i: int)
    requires
        i < s.len(),
    ensures
        -1 <= last_finite(s, i),
        i >= 0 ==> last_finite(s, i) <= i,
        last_finite(s, i) >= 0 ==> s[last_finite(s, i)].is_finite(),
    decreases i + 1,
{
    if i >= 0 && !s[i].is_finite() {
        lemma_last_finite_is(s, i - 1);
    }
}

proof fn lemma_next_finite_is(s: Seq<Single>, i: int)
    requires
        0 <= i <= s.len(),
    ensures
        i <= next_finite(s, i) <= s.len(),
        next_finite(s, i) < s.len() ==> s[next_finite(s, i)].is_finite(),
    decreases s.len() - i,
{
    if i < s.len() && !s[i].is_finite() {
        lemma_next_finite_is(s, i + 1);
    }
}

/// After interpolation no point is missing.
pub proof fn law_interpolation_leaves_no_gap(s: Seq<Single>)
    requires
        s.len() <= usize::MAX,
    ensures
        forall|i: int| 0 <= i < s.len() ==> !(#[trigger] interpolated(s)[i]).is_nan(),
{
    assert forall|i: int| 0 <= i < s.len() implies !(#[trigger] interpolated(s)[i]).is_nan() by {
        lemma_last_finite_is(s, i);
        lemma_next_finite_is(s, i);
        let l = last_finite(s, i);
        let r = next_finite(s, i);
        if 0 <= l && l != r && r < s.len() {
            if l == i || r == i {
                assert(s[i].is_finite());
            }
            let width = Single::from_count((r - l) as usize);
            let offset = Single::from_count((i - l) as usize);
            lemma_from_count((r - l) as usize);
            lemma_from_count((i - l) as usize);
            let rise = s[r].minus(s[l]);
            law_numbers_stay_numbers(s[r], s[l]);
            law_numbers_stay_numbers(rise, width);
            law_numbers_stay_numbers(rise.over(width), offset);
            law_numbers_stay_numbers(rise.over(width).times(offset), s[l]);
        }
    }
}

proof fn lemma_same_neighbours(s: Seq<Single>, r: Seq<Single>, i: int, turned: bool)
    requires
        same_run(s, r, turned),
        0 <= i < s.len(),
    ensures
        last_finite(s, i) == last_finite(r, i),
        next_finite(s, i) == next_finite(r, i),
{
    lemma_last_finite_is(s, i);
    lemma_next_finite_is(s, i);
    lemma_same_last(s, r, i, turned);
    lemma_same_next(s, r, i, turned);
}

proof fn lemma_same_last(s: Seq<Single>, r: Seq<Single>, i: int, turned: bool)
    requires
        same_run(s, r, turned),
        i < s.len(),
    ensures
        last_finite(s, i) == last_finite(r, i),
    decreases i + 1,
{
    if i >= 0 {
        assert(s[i].same(r[i], turned));
        law_same(s[i], r[i], r[i], turned, turned);
        lemma_same_last(s, r, i - 1, turned);
    }
}

proof fn lemma_same_next(s: Seq<Single>, r: Seq<Single>, i: int, turned: bool)
    requires
        same_run(s, r, turned),
        0 <= i <= s.len(),
    ensures
        next_finite(s, i) == next_finite(r, i),
    decreases s.len() - i,
{
    if i < s.len() {
        assert(s[i].same(r[i], turned));
        law_same(s[i], r[i], r[i], turned, turned);
        lemma_same_next(s, r, i + 1, turned);
    }
}

/// Interpolation goes by the values alone, and turns with the signs of the points.
pub proof fn law_interpolation_of_turned_series(s: Seq<Single>, r: Seq<Single>, turned: bool)
    requires
        same_run(s, r, turned),
    ensures
        same_run(interpolated(s), interpolated(r), turned),
{
    assert forall|i: int| 0 <= i < s.len() implies (#[trigger] interpolated(s)[i]).same(
        interpolated(r)[i],
        turned,
    ) by {
        lemma_same_neighbours(s, r, i, turned);
        lemma_last_finite_is(s, i);
        lemma_next_finite_is(s, i);
        assert(s[i].same(r[i], turned));
        let a = last_finite(s, i);
        let b = next_finite(s, i);
        if 0 <= a {
            assert(s[a].same(r[a], turned));
        }
        if b < s.len() {
            assert(s[b].same(r[b], turned));
        }
        if 0 <= a && b < s.len() {
            let width = Single::from_count((b - a) as usize);
            let offset = Single::from_count((i - a) as usize);
            law_same(width, width, width, false, false);
            law_same(offset, offset, offset, false, false);
            law_same_sum(s[b], s[a], r[b], r[a], turned);
            let (x, y) = (s[b].minus(s[a]), r[b].minus(r[a]));
            law_same_quotient(x, width, y, width, turned, false);
            law_same_product(x.over(width), offset, y.over(width), offset, turned, false);
            law_same_sum(
                s[a],
                x.over(width).times(offset),
                r[a],
                y.over(width).times(offset),
                turned,
            );
        }
    }
}

/// Wherever interpolation leaves finite points only, a second interpolation changes nothing.
pub proof fn law_second_interpolation_changes_nothing(s: Seq<Single>)
    requires
        forall|i: int| 0 <= i < s.len() ==> (#[trigger] interpolated(s)[i]).is_finite(),
    ensures
        interpolated(interpolated(s)) == interpolated(s),
{
    law_interpolation_of_complete_series(interpolated(s));
}

/// Between two finite points, `l` and `r`, stand points that are not, and no others.
pub open spec fn is_gap(s: Seq<Single>, l: int, r: int) -> bool {
    &&& 0 <= l && l + 1 < r < s.len()
    &&& s[l].is_finite()
    &&& s[r].is_finite()
    &&& forall|j: int| l < j < r ==> !(#[trigger] s[j]).is_finite()
}

/// The difference between the sides of each gap is finite, and a gap that is wider than `2^22` steps
/// has moderate sides.
pub open spec fn has_bridgeable_gaps(s: Seq<Single>) -> bool {
    forall|l: int, r: int| #[trigger]
        is_gap(s, l, r) ==> s[r].minus(s[l]).is_finite() && (r - l <= 0x40_0000 || is_moderate(s[l])
            && is_moderate(s[r]))
}

proof fn lemma_gap_around(s: Seq<Single>, i: int)
    requires
        0 <= i < s.len(),
        !s[i].is_finite(),
        last_finite(s, i) >= 0,
        next_finite(s, i) < s.len(),
    ensures
        is_gap(s, last_finite(s, i), next_finite(s, i)),
{
    lemma_last_finite_is(s, i);
    lemma_next_finite_is(s, i);
    lemma_none_since(s, i);
    lemma_none_until(s, i);
    let (l, r) = (last_finite(s, i), next_finite(s, i));
    assert forall|j: int| l < j < r implies !(#[trigger] s[j]).is_finite() by {
        if j < i {
            assert(!s[j].is_finite());
        }
    }
}

proof fn lemma_none_since(s: Seq<Single>, i: int)
    requires
        i < s.len(),
    ensures
        forall|j: int| last_finite(s, i) < j <= i ==> !(#[trigger] s[j]).is_finite(),
    decreases i + 1,
{
    if i >= 0 && !s[i].is_finite() {
        lemma_none_since(s, i - 1);
    }
}

proof fn lemma_none_until(s: Seq<Single>, i: int)
    requires
        0 <= i <= s.len(),
    ensures
        forall|j: int| i <= j < next_finite(s, i) ==> !(#[trigger] s[j]).is_finite(),
    decreases s.len() - i,
{
    if i < s.len() && !s[i].is_finite() {
        lemma_none_until(s, i + 1);
    }
}

/// Interpolation leaves finite points only, so that a second interpolation changes nothing, unless a
/// gap cannot be bridged: its sides may lie too far apart for their difference, or its line may step
/// over the greatest number on the way.
pub proof fn law_interpolation_is_final(s: Seq<Single>)
    requires
        s.len() <= usize::MAX,
        has_bridgeable_gaps(s),
    ensures
        forall|i: int| 0 <= i < s.len() ==> (#[trigger] interpolated(s)[i]).is_finite(),
        interpolated(interpolated(s)) == interpolated(s),
{
    assert forall|i: int| 0 <= i < s.len() implies (#[trigger] interpolated(s)[i]).is_finite() by {
        lemma_last_finite_is(s, i);
        lemma_next_finite_is(s, i);
        let (l, r) = (last_finite(s, i), next_finite(s, i));
        if s[i].is_finite() {
            assert(l == i && r == i);
        } else if 0 <= l && r < s.len() {
            lemma_gap_around(s, i);
            assert(l != i && r != i);
            law_way_is_finite(s[l], s[r], (r - l) as usize, (i - l) as usize);
            assert(interpolated(s)[i] == on_the_way(s[l], s[r], (r - l) as usize, (i - l) as usize));
        }
    }
    law_second_interpolation_changes_nothing(s);
}

/// What stands at each place once the gaps are filled, told by the finite points around it alone: a
/// finite point stays, a point of a gap lies as many steps from the left side as it stands behind it,
/// each step being the difference of the sides over the width of the gap, and beyond the outermost
/// finite points they are repeated.
pub proof fn law_interpolation_by_neighbours(s: Seq<Single>, l: int, i: int, r: int)
    requires
        -1 <= l <= i <= r <= s.len(),
        0 <= i < s.len(),
        l >= 0 ==> s[l].is_finite(),
        r < s.len() ==> s[r].is_finite(),
        forall|j: int| l < j < r ==> !(#[trigger] s[j]).is_finite(),
    ensures
        interpolated(s).len() == s.len(),
        interpolated(s)[i] == if l == i {
            s[l]
        } else if r == i {
            s[r]
        } else if l < 0 && r >= s.len() {
            Single { bits: 0 }
        } else if l < 0 {
            s[r]
        } else if r >= s.len() {
            s[l]
        } else {
            s[l].plus(
                s[r].minus(s[l]).over(Single::from_count((r - l) as usize)).times(
                    Single::from_count((i - l) as usize),
                ),
            )
        },
{
    if s[i].is_finite() {
        assert(i == l || i == r);
    } else {
        lemma_next_finite(s, i, r);
        lemma_last_finite(s, i, l);
    }
}

/// Inside a gap, however wide, the points run from the one side to the other without turning back:
/// where the right side is not below the left one, no point lies below the left side and none below
/// the point before it; where it is below, none lies above.
pub proof fn law_gap_runs_one_way(s: Seq<Single>, l: int, r: int, i: int, j: int)
    requires
        s.len() <= usize::MAX,
        is_gap(s, l, r),
        s[r].minus(s[l]).is_finite(),
        r - l < 0x100_0000,
        l < i < r,
        i <= j < r,
        interpolated(s)[i].is_finite(),
        interpolated(s)[j].is_finite(),
    ensures
        s[l].le(s[r]) ==> s[l].le(interpolated(s)[i]) && interpolated(s)[i].le(interpolated(s)[j]),
        s[r].le(s[l]) ==> interpolated(s)[i].le(s[l]) && interpolated(s)[j].le(interpolated(s)[i]),
{
    law_interpolation_by_neighbours(s, l, i, r);
    law_interpolation_by_neighbours(s, l, j, r);
    law_way_runs_one_way(
        s[l],
        s[r],
        (r - l) as usize,
        (i - l) as usize,
        (j - l) as usize,
    );
}

/// Inside a gap every point lies on the straight line between its sides, up to rounding: with `d` the
/// difference of the sides, `n` the width of the gap and `k` the steps from its left side, the point
/// is the left side and `k / n` of `d`, up to 16 parts in `2^24` of `d`, one part of the left side
/// and, near zero, `n` least steps. So neighbouring points differ by one `n`th of `d`, up to as much.
pub proof fn law_gap_is_a_line(s: Seq<Single>, l: int, r: int, i: int)
    requires
        is_gap(s, l, r),
        s[r].minus(s[l]).is_finite(),
        r - l <= 0x40_0000,
        l < i < r,
    ensures
        ({
            let n = r - l;
            let d = value(s[r]) - value(s[l]);
            magnitude(
                value(interpolated(s)[i]) * n - (value(s[l]) * n + d * (i - l)),
            ) * 0x100_0000 <= n * (magnitude(value(s[l])) + 16 * magnitude(d)) + 0x100_0000 * (n
                * n)
        }),
{
    law_interpolation_by_neighbours(s, l, i, r);
    law_way_is_near(s[l], s[r], (r - l) as usize, (i - l) as usize);
}

} // verus!
