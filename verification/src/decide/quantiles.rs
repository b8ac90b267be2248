//! The tracks of a forecast that decisions look at.

use vstd::prelude::*;

use crate::forecaster::ForecastOutput;
use crate::ieee::scalar::{law_order, Single};
use crate::stats::{
    lemma_extremes,
};
use crate::stats::{
    copy_of, finite_or_zero, highest, highest_from, highest_of, lowest, lowest_of, sum_from, sum_of,
};

verus! {

/// One variate of a forecast: its median, its outermost quantiles, and a summary of them.
#[derive(Debug, Clone)]
pub struct ExtractedQuantiles {
    pub horizon: usize,
    /// The lowest quantile at each step.
    pub p10: Vec<Single>,
    /// The point forecast at each step.
    pub p50: Vec<Single>,
    /// The highest quantile at each step.
    pub p90: Vec<Single>,
    /// How far `p90` lies above `p10` at each step.
    pub volatility: Vec<Single>,
    pub max_p90: Single,
    pub min_p10: Single,
    pub mean_p50: Single,
    pub max_volatility: Single,
    pub mean_volatility: Single,
}

/// The point forecast of a variate; empty where there is no such variate.
pub open spec fn median_track(f: ForecastOutput, variate: int) -> Seq<Single> {
    if 0 <= variate < f.forecast@.len() {
        f.forecast@[variate]@
    } else {
        seq![]
    }
}

/// The quantiles of a variate, step by step; empty where there are none.
pub open spec fn quantile_rows(f: ForecastOutput, variate: int) -> Seq<Vec<Single>> {
    match f.quantiles {
        Some(q) => if 0 <= variate < q@.len() {
            q@[variate]@
        } else {
            seq![]
        },
        None => seq![],
    }
}

/// Whether the quantiles cover the horizon.
pub open spec fn covers(f: ForecastOutput, variate: int) -> bool {
    quantile_rows(f, variate).len() >= median_track(f, variate).len()
}

/// The `h`th number of a track, or zero beyond its end.
pub open spec fn step(track: Seq<Single>, h: int) -> Single {
    if h < track.len() {
        track[h]
    } else {
        Single::zero()
    }
}

/// The first quantile of step `h`, or the point forecast where the step has no quantiles.
pub open spec fn low_edge(f: ForecastOutput, variate: int, h: int) -> Single {
    let row = quantile_rows(f, variate)[h]@;
    if row.len() > 0 {
        row.first()
    } else {
        step(median_track(f, variate), h)
    }
}

/// The last quantile of step `h`, or the point forecast where the step has no quantiles.
pub open spec fn high_edge(f: ForecastOutput, variate: int, h: int) -> Single {
    let row = quantile_rows(f, variate)[h]@;
    if row.len() > 0 {
        row.last()
    } else {
        step(median_track(f, variate), h)
    }
}

/// The lowest quantile at each step, or the point forecast where the quantiles fall short.
pub open spec fn low_track(f: ForecastOutput, variate: int) -> Seq<Single> {
    if covers(f, variate) {
        Seq::new(quantile_rows(f, variate).len(), |h: int| low_edge(f, variate, h))
    } else {
        median_track(f, variate)
    }
}

/// The highest quantile at each step, or the point forecast where the quantiles fall short.
pub open spec fn high_track(f: ForecastOutput, variate: int) -> Seq<Single> {
    if covers(f, variate) {
        Seq::new(quantile_rows(f, variate).len(), |h: int| high_edge(f, variate, h))
    } else {
        median_track(f, variate)
    }
}

/// The width between the two at each step, never below zero.
pub open spec fn spread_track(f: ForecastOutput, variate: int) -> Seq<Single> {
    if covers(f, variate) {
        Seq::new(
            quantile_rows(f, variate).len(),
            |h: int|
                high_edge(f, variate, h).minus(low_edge(f, variate, h)).max(Single::zero()),
        )
    } else {
        Seq::new(median_track(f, variate).len(), |h: int| Single::zero())
    }
}

/// The mean of the first `n` numbers, zero where there are none.
pub open spec fn mean_or_zero(s: Seq<Single>, n: int) -> Single {
    if n > 0 {
        sum_from(Single::zero(), s.take(n)).over(Single::from_count(n as usize))
    } else {
        Single::zero()
    }
}

/// What a variate of a forecast shows.
pub open spec fn is_extract(e: ExtractedQuantiles, f: ForecastOutput, variate: int) -> bool {
    let n = median_track(f, variate).len() as int;
    &&& e.horizon == n
    &&& e.p10@ == low_track(f, variate)
    &&& e.p50@ == median_track(f, variate)
    &&& e.p90@ == high_track(f, variate)
    &&& e.volatility@ == spread_track(f, variate)
    &&& e.max_p90 == finite_or_zero(highest(high_track(f, variate).take(n)))
    &&& e.min_p10 == finite_or_zero(lowest(low_track(f, variate).take(n)))
    &&& e.mean_p50 == mean_or_zero(median_track(f, variate), n)
    &&& e.max_volatility == highest_from(Single::zero(), spread_track(f, variate).take(n))
    &&& e.mean_volatility == mean_or_zero(spread_track(f, variate), n)
}

fn zeros(n: usize) -> (r: Vec<Single>)
    ensures
        r@ == Seq::new(n as nat, |h: int| Single::zero()),
{
    let mut r: Vec<Single> = Vec::new();
    let mut i: usize = 0;
    while i < n
        invariant
            i <= n,
            r@ == Seq::new(i as nat, |h: int| Single::zero()),
        decreases n - i,
    {
        r.push(Single::zero());
        i = i + 1;
        assert(r@ =~= Seq::new(i as nat, |h: int| Single::zero()));
    }
    r
}

/// Reads the tracks of one variate out of a forecast and sums them up.
pub fn extract_quantiles(forecast: &ForecastOutput, variate_idx: usize) -> (r: ExtractedQuantiles)
    ensures
        is_extract(r, *forecast, variate_idx as int),
{
    let ghost f = *forecast;
    let ghost v = variate_idx as int;
    let p50: Vec<Single> = if variate_idx < forecast.forecast.len() {
        copy_of(&forecast.forecast[variate_idx])
    } else {
        Vec::new()
    };
    assert(p50@ =~= median_track(f, v));
    let horizon = p50.len();
    let mut p10: Vec<Single> = Vec::new();
    let mut p90: Vec<Single> = Vec::new();
    let mut volatility: Vec<Single> = Vec::new();
    if let Some(all) = &forecast.quantiles {
        if variate_idx < all.len() {
            let rows = &all[variate_idx];
            let mut h: usize = 0;
            while h < rows.len()
                invariant
                    h <= rows@.len(),
                    rows@ == quantile_rows(f, v),
                    p50@ == median_track(f, v),
                    p10@.len() == h,
                    p90@.len() == h,
                    volatility@.len() == h,
                    forall|i: int| 0 <= i < h ==> p10@[i] == low_edge(f, v, i),
                    forall|i: int| 0 <= i < h ==> p90@[i] == high_edge(f, v, i),
                    forall|i: int|
                        0 <= i < h ==> volatility@[i] == high_edge(f, v, i).minus(
                            low_edge(f, v, i),
                        ).max(Single::zero()),
                decreases rows@.len() - h,
            {
                let row = &rows[h];
                let n = row.len();
                let median = if h < p50.len() {
                    p50[h]
                } else {
                    Single::zero()
                };
                let low = if n > 0 {
                    row[0]
                } else {
                    median
                };
                let high = if n > 0 {
                    row[n - 1]
                } else {
                    median
                };
                p10.push(low);
                p90.push(high);
                volatility.push(high.minus(low).max(Single::zero()));
                h = h + 1;
            }
        }
    }
    assert(p10@.len() == quantile_rows(f, v).len());
    if p10.len() < horizon {
        p10 = copy_of(&p50);
        p90 = copy_of(&p50);
        volatility = zeros(horizon);
    }
    assert(p10@ =~= low_track(f, v));
    assert(p90@ =~= high_track(f, v));
    assert(volatility@ =~= spread_track(f, v));
    let mut max_p90 = highest_of(Single::from_bits(0xff80_0000), &p90, horizon);
    let mut min_p10 = lowest_of(Single::from_bits(0x7f80_0000), &p10, horizon);
    let max_volatility = highest_of(Single::zero(), &volatility, horizon);
    let mean_p50 = if horizon > 0 {
        sum_of(Single::zero(), &p50, horizon).over(Single::from_count(horizon))
    } else {
        Single::zero()
    };
    let mean_volatility = if horizon > 0 {
        sum_of(Single::zero(), &volatility, horizon).over(Single::from_count(horizon))
    } else {
        Single::zero()
    };
    if !max_p90.is_finite() {
        max_p90 = Single::zero();
    }
    if !min_p10.is_finite() {
        min_p10 = Single::zero();
    }
    ExtractedQuantiles {
        horizon,
        p10,
        p50,
        p90,
        volatility,
        max_p90,
        min_p10,
        mean_p50,
        max_volatility,
        mean_volatility,
    }
}

/// The three tracks run side by side, at least as long as the horizon, and the volatility is never
/// below zero.
pub proof fn law_tracks(e: ExtractedQuantiles, f: ForecastOutput, variate: int)
    requires
        is_extract(e, f, variate),
    ensures
        e.p50@.len() == e.horizon,
        e.p10@.len() == e.p90@.len() == e.volatility@.len() >= e.horizon,
        forall|i: int| 0 <= i < e.volatility@.len() ==> !(#[trigger] e.volatility@[i]).lt(Single::zero()),
{
    assert forall|i: int| 0 <= i < e.volatility@.len() implies !(#[trigger] e.volatility@[i]).lt(
        Single::zero(),
    ) by {
        law_order(Single::zero(), Single::zero(), Single::zero());
        law_order(
            high_edge(f, variate, i).minus(low_edge(f, variate, i)),
            Single::zero(),
            Single::zero(),
        );
    }
}

/// The tracks of a variate are read off the forecast step by step: the median track is the point
/// forecast; where there is a row of quantiles for each step, the low track is the first quantile of
/// each row, the high track the last one, and the volatility the high one less the low one, or zero
/// where that is negative or not a number; a row without quantiles stands for the point forecast;
/// where rows are missing, both tracks are the point forecast and the volatility is zero.
pub proof fn law_tracks_follow_the_forecast(
    e: ExtractedQuantiles,
    f: ForecastOutput,
    variate: int,
    h: int,
)
    requires
        is_extract(e, f, variate),
        0 <= variate < f.forecast@.len(),
        0 <= h < f.forecast@[variate]@.len(),
    ensures
        e.horizon == f.forecast@[variate]@.len(),
        e.p50@ == f.forecast@[variate]@,
        ({
            let median = f.forecast@[variate]@[h];
            let covered = f.quantiles is Some && variate < f.quantiles->Some_0@.len()
                && f.quantiles->Some_0@[variate]@.len() >= f.forecast@[variate]@.len();
            let row = f.quantiles->Some_0@[variate]@[h]@;
            let width = row[row.len() - 1].minus(row[0]);
            if covered && row.len() > 0 {
                &&& e.p10@[h] == row[0]
                &&& e.p90@[h] == row[row.len() - 1]
                &&& e.volatility@[h] == if width.is_nan() || width.lt(Single { bits: 0 }) {
                    Single { bits: 0 }
                } else {
                    width
                }
            } else if covered {
                e.p10@[h] == median && e.p90@[h] == median
            } else {
                &&& e.p10@[h] == median
                &&& e.p90@[h] == median
                &&& e.volatility@[h] == Single { bits: 0 }
            }
        }),
        e.p10@.len() == e.p90@.len() == e.volatility@.len(),
        e.p10@.len() == if f.quantiles is Some && variate < f.quantiles->Some_0@.len()
            && f.quantiles->Some_0@[variate]@.len() >= f.forecast@[variate]@.len() {
            f.quantiles->Some_0@[variate]@.len()
        } else {
            f.forecast@[variate]@.len()
        },
{
}

/// The summary of the tracks: the greatest of the high track and the least of the low one over the
/// horizon are among them and bound them all, and so is the greatest volatility, unless it is zero;
/// without any step they are zero.
pub proof fn law_track_extremes(e: ExtractedQuantiles, f: ForecastOutput, variate: int)
    requires
        is_extract(e, f, variate),
        forall|h: int|
            0 <= h < e.horizon ==> (#[trigger] e.p10@[h]).is_finite() && e.p90@[h].is_finite()
                && e.volatility@[h].is_finite(),
    ensures
        e.horizon == 0 ==> e.max_p90 == Single::zero() && e.min_p10 == Single::zero()
            && e.max_volatility == Single::zero() && e.mean_p50 == Single::zero()
            && e.mean_volatility == Single::zero(),
        e.horizon > 0 ==> (exists|h: int| 0 <= h < e.horizon && #[trigger] e.p90@[h] == e.max_p90)
            && (exists|h: int| 0 <= h < e.horizon && #[trigger] e.p10@[h] == e.min_p10),
        forall|h: int|
            0 <= h < e.horizon ==> (#[trigger] e.p90@[h]).le(e.max_p90) && e.min_p10.le(e.p10@[h])
                && e.volatility@[h].le(e.max_volatility),
        e.max_volatility == Single::zero() || exists|h: int|
            0 <= h < e.horizon && #[trigger] e.volatility@[h] == e.max_volatility,
        e.horizon > 0 ==> e.mean_p50 == sum_from(Single::zero(), e.p50@).over(
            Single::from_count(e.horizon),
        ) && e.mean_volatility == sum_from(
            Single::zero(),
            e.volatility@.take(e.horizon as int),
        ).over(Single::from_count(e.horizon)),
{
    let n = e.horizon as int;
    law_tracks(e, f, variate);
    let (a, b, c) = (e.p90@.take(n), e.p10@.take(n), e.volatility@.take(n));
    assert forall|i: int| 0 <= i < n implies (#[trigger] a[i]).is_finite() by {
        assert(e.p10@[i].is_finite());
        assert(a[i] == e.p90@[i]);
    }
    assert forall|i: int| 0 <= i < n implies (#[trigger] b[i]).is_finite() by {
        assert(e.p10@[i].is_finite());
    }
    assert forall|i: int| 0 <= i < n implies (#[trigger] c[i]).is_finite() by {
        assert(e.p10@[i].is_finite());
        assert(c[i] == e.volatility@[i]);
    }
    lemma_extremes(a);
    lemma_extremes(b);
    lemma_highest_from_zero(c);
    assert(e.p50@.take(n) =~= e.p50@);
    if n > 0 {
        let i = choose|i: int| 0 <= i < n && a[i] == highest(a);
        assert(e.p90@[i] == e.max_p90);
        let j = choose|j: int| 0 <= j < n && b[j] == lowest(b);
        assert(e.p10@[j] == e.min_p10);
    } else {
        assert(!Single { bits: 0x7f80_0000 }.is_finite());
        assert(!Single { bits: 0xff80_0000 }.is_finite());
    }
    assert forall|h: int| 0 <= h < n implies (#[trigger] e.p90@[h]).le(e.max_p90) && e.min_p10.le(
        e.p10@[h],
    ) && e.volatility@[h].le(e.max_volatility) by {
        assert(a[h].le(highest(a)));
        assert(lowest(b).le(b[h]));
        assert(c[h].le(highest_from(Single::zero(), c)));
    }
    if e.max_volatility != Single::zero() {
        let i = choose|i: int| 0 <= i < n && c[i] == e.max_volatility;
        assert(e.volatility@[i] == e.max_volatility);
    }
}

/// Of finite numbers, the greatest of them and zero bounds them all.
pub proof fn lemma_highest_from_zero(v: Seq<Single>)
    requires
        forall|i: int| 0 <= i < v.len() ==> (#[trigger] v[i]).is_finite(),
    ensures
        forall|i: int|
            0 <= i < v.len() ==> (#[trigger] v[i]).le(highest_from(Single::zero(), v)),
        highest_from(Single::zero(), v) == Single::zero() || v.contains(
            highest_from(Single::zero(), v),
        ),
        highest_from(Single::zero(), v).is_finite(),
        Single::zero().le(highest_from(Single::zero(), v)),
    decreases v.len(),
{
    reveal(Single::lt_spec);
    if v.len() > 0 {
        let t = v.drop_last();
        let x = v.last();
        assert forall|i: int| 0 <= i < t.len() implies (#[trigger] t[i]).is_finite() by {
            assert(v[i].is_finite());
        }
        lemma_highest_from_zero(t);
        let top = highest_from(Single::zero(), t);
        assert(v[v.len() - 1] == x && x.is_finite());
        assert forall|i: int| 0 <= i < v.len() implies (#[trigger] v[i]).le(
            highest_from(Single::zero(), v),
        ) by {
            if i < t.len() {
                assert(t[i].le(top));
            }
        }
        if top != Single::zero() && !top.lt(x) {
            let i = choose|i: int| 0 <= i < t.len() && t[i] == top;
            assert(v[i] == top);
        }
    }
}

/// The tracks where steps and rows do not match: rows beyond the point forecast are read like the others,
/// a row without quantiles standing for the point forecast, or for zero beyond it; there is nothing to
/// read of a variate that the forecast does not have, but for its rows.
pub proof fn law_tracks_where_rows_do_not_match(
    e: ExtractedQuantiles,
    f: ForecastOutput,
    variate: int,
    h: int,
)
    requires
        is_extract(e, f, variate),
        0 <= variate,
    ensures
        ({
            let medians = if variate < f.forecast@.len() {
                f.forecast@[variate]@
            } else {
                seq![]
            };
            let rows = if f.quantiles is Some && variate < f.quantiles->Some_0@.len() {
                f.quantiles->Some_0@[variate]@
            } else {
                seq![]
            };
            let median = if h < medians.len() {
                medians[h]
            } else {
                Single { bits: 0 }
            };
            let row = rows[h]@;
            let covered = rows.len() >= medians.len();
            let low = if row.len() > 0 {
                row[0]
            } else {
                median
            };
            let high = if row.len() > 0 {
                row[row.len() - 1]
            } else {
                median
            };
            let width = high.minus(low);
            &&& e.horizon == medians.len()
            &&& e.p50@ == medians
            &&& covered ==> e.p10@.len() == rows.len() && e.p90@.len() == rows.len()
                && e.volatility@.len() == rows.len()
            &&& covered && 0 <= h < rows.len() ==> e.p10@[h] == low && e.p90@[h] == high
                && e.volatility@[h] == if width.is_nan() || width.lt(Single { bits: 0 }) {
                Single { bits: 0 }
            } else {
                width
            }
            &&& !covered ==> e.p10@ == medians && e.p90@ == medians && e.volatility@.len()
                == medians.len()
            &&& !covered && 0 <= h < medians.len() ==> e.volatility@[h] == Single { bits: 0 }
        }),
{
}

/// The summary of any tracks: extremes and means over the horizon, zero in place of an extreme that is not
/// finite.
pub proof fn law_summary_of_any_tracks(e: ExtractedQuantiles, f: ForecastOutput, variate: int)
    requires
        is_extract(e, f, variate),
    ensures
        ({
            let n = e.horizon as int;
            let top = highest(e.p90@.take(n));
            let bottom = lowest(e.p10@.take(n));
            &&& top.is_finite() ==> e.max_p90 == top
            &&& !top.is_finite() ==> e.max_p90 == Single { bits: 0 }
            &&& bottom.is_finite() ==> e.min_p10 == bottom
            &&& !bottom.is_finite() ==> e.min_p10 == Single { bits: 0 }
            &&& e.max_volatility == highest_from(Single { bits: 0 }, e.volatility@.take(n))
            &&& n > 0 ==> e.mean_p50 == sum_from(Single { bits: 0 }, e.p50@).over(
                Single::from_count(e.horizon),
            )
            &&& n > 0 ==> e.mean_volatility == sum_from(
                Single { bits: 0 },
                e.volatility@.take(n),
            ).over(Single::from_count(e.horizon))
            &&& n == 0 ==> e.mean_p50 == Single { bits: 0 } && e.mean_volatility == Single {
                bits: 0,
            }
        }),
{
    assert(e.p50@.take(e.horizon as int) =~= e.p50@);
}

} // verus!
