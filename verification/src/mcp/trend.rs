//! The linear trend of a series.

use vstd::prelude::*;
use vstd::string::*;

use crate::ieee::mirror::{
    law_same, law_same_order, law_same_product, law_same_quotient, law_same_root, law_same_sum,
    same_run,
};
use crate::ieee::scalar::Single;
use crate::stats::{lemma_same_mean, lemma_same_sum, lemma_turned_extremes};
use crate::stats::{
    highest, highest_of, lowest, lowest_of, mean, mean_of, squared_distances, squared_distances_of,
    sum, sum_from, sum_of, total_of,
};
use crate::text::same_text;

verus! {

/// A straight line through a series, and how well it fits.
#[derive(Debug, Clone)]
pub struct TrendEvaluationResult {
    pub count: usize,
    pub mean: Single,
    pub std_dev: Single,
    pub min: Single,
    pub max: Single,
    pub slope: Single,
    pub intercept: Single,
    pub direction: String,
    pub r_squared: Single,
    pub has_strong_trend: bool,
}

/// The sum of the squared distances from the mean.
pub open spec fn total_variation(s: Seq<Single>) -> Single {
    sum(squared_distances(s, mean(s)))
}

/// A single point, or hardly any variation: there is no line to fit. The bound is 1e-12.
pub open spec fn is_level(s: Seq<Single>) -> bool {
    s.len() == 1 || total_variation(s).lt(Single { bits: 0x2b8c_bccc })
}

/// The middle of the steps 0, 1, 2, ... of the series.
pub open spec fn middle(s: Seq<Single>) -> Single {
    Single::from_count((s.len() - 1) as usize).over(Single { bits: 0x4000_0000 })
}

/// How far step `i` lies from the middle.
pub open spec fn offset(s: Seq<Single>, i: int) -> Single {
    Single::from_count(i as usize).minus(middle(s))
}

/// The offsets of the steps times the distances of the points from the mean.
pub open spec fn moments(s: Seq<Single>) -> Seq<Single> {
    Seq::new(s.len(), |i: int| offset(s, i).times(s[i].minus(mean(s))))
}

/// The squared offsets of the steps.
pub open spec fn squared_offsets(s: Seq<Single>) -> Seq<Single> {
    Seq::new(s.len(), |i: int| offset(s, i).times(offset(s, i)))
}

/// The slope of the least-squares line.
pub open spec fn slope(s: Seq<Single>) -> Single {
    let width = sum_from(Single::zero(), squared_offsets(s));
    if (Single { bits: 0x2b8c_bccc }).lt(width.abs()) {
        sum_from(Single::zero(), moments(s)).over(width)
    } else {
        Single::zero()
    }
}

/// Where the least-squares line stands at step 0.
pub open spec fn intercept(s: Seq<Single>) -> Single {
    mean(s).minus(slope(s).times(middle(s)))
}

/// The line at step `i`.
pub open spec fn fitted(s: Seq<Single>, i: int) -> Single {
    slope(s).times(Single::from_count(i as usize)).plus(intercept(s))
}

/// The squared distances of the points from the line.
pub open spec fn residuals(s: Seq<Single>) -> Seq<Single> {
    Seq::new(s.len(), |i: int| s[i].minus(fitted(s, i)).times(s[i].minus(fitted(s, i))))
}

/// A number kept between zero and one.
pub open spec fn unit_clamped(x: Single) -> Single {
    let one = Single { bits: 0x3f80_0000 };
    if x.lt(Single::zero()) {
        Single::zero()
    } else if one.lt(x) {
        one
    } else {
        x
    }
}

/// The share of the variation that the line accounts for.
pub open spec fn r_squared(s: Seq<Single>) -> Single {
    if (Single { bits: 0x2b8c_bccc }).lt(total_variation(s)) {
        unit_clamped(
            Single { bits: 0x3f80_0000 }.minus(sum(residuals(s)).over(total_variation(s))),
        )
    } else {
        Single::zero()
    }
}

/// Up or down where the slope is beyond 1e-5 either way.
pub open spec fn direction(slope: Single) -> Seq<char> {
    if (Single { bits: 0x3727_c5ac }).lt(slope) {
        "upward"@
    } else if slope.lt(Single { bits: 0xb727_c5ac }) {
        "downward"@
    } else {
        "flat"@
    }
}

/// What the trend of a series is.
pub open spec fn is_trend(t: TrendEvaluationResult, s: Seq<Single>) -> bool {
    &&& t.count == s.len()
    &&& t.mean == mean(s)
    &&& t.min == lowest(s)
    &&& t.max == highest(s)
    &&& if is_level(s) {
        &&& t.std_dev == Single::zero()
        &&& t.slope == Single::zero()
        &&& t.intercept == mean(s)
        &&& t.direction@ == "flat"@
        &&& t.r_squared == Single::zero()
        &&& !t.has_strong_trend
    } else {
        &&& t.std_dev == total_variation(s).over(Single::from_count(s.len() as usize)).root()
        &&& t.slope == slope(s)
        &&& t.intercept == intercept(s)
        &&& t.direction@ == direction(slope(s))
        &&& t.r_squared == r_squared(s)
        &&& t.has_strong_trend == ((Single { bits: 0x3f00_0000 }).le(r_squared(s)) && direction(
            slope(s),
        ) != "flat"@)
    }
}

/// Fits a straight line to a series.
pub fn evaluate_trend(series: &[Single]) -> (r: Result<TrendEvaluationResult, String>)
    ensures
        match r {
            Ok(t) => series@.len() > 0 && is_trend(t, series@),
            Err(m) => series@.len() == 0 && m@ == "Series cannot be empty"@,
        },
{
    let count = series.len();
    if count == 0 {
        return Err("Series cannot be empty".to_owned());
    }
    let mean = mean_of(series);
    assert(series@.take(count as int) =~= series@);
    let min = lowest_of(Single::from_bits(0x7f80_0000), series, count);
    let max = highest_of(Single::from_bits(0xff80_0000), series, count);
    let tiny = Single::from_bits(0x2b8c_bccc);
    let ss_tot = total_of(&squared_distances_of(series, mean));
    let variance = ss_tot.over(Single::from_count(count));
    let std_dev = variance.root();
    if count == 1 || ss_tot.lt(tiny) {
        return Ok(
            TrendEvaluationResult {
                count,
                mean,
                std_dev: Single::zero(),
                min,
                max,
                slope: Single::zero(),
                intercept: mean,
                direction: "flat".to_owned(),
                r_squared: Single::zero(),
                has_strong_trend: false,
            },
        );
    }
    let t_mean = Single::from_count(count - 1).over(Single::from_bits(0x4000_0000));
    let mut products: Vec<Single> = Vec::new();
    let mut squares: Vec<Single> = Vec::new();
    let mut i: usize = 0;
    while i < count
        invariant
            i <= count == series@.len(),
            mean == crate::stats::mean(series@),
            t_mean == middle(series@),
            products@.len() == i,
            squares@.len() == i,
            forall|k: int| 0 <= k < i ==> products@[k] == moments(series@)[k],
            forall|k: int| 0 <= k < i ==> squares@[k] == squared_offsets(series@)[k],
        decreases count - i,
    {
        let t_diff = Single::from_count(i).minus(t_mean);
        products.push(t_diff.times(series[i].minus(mean)));
        squares.push(t_diff.times(t_diff));
        i = i + 1;
    }
    assert(products@.take(count as int) =~= moments(series@));
    assert(squares@.take(count as int) =~= squared_offsets(series@));
    let cov_t_y = sum_of(Single::zero(), &products, count);
    let var_t = sum_of(Single::zero(), &squares, count);
    let slope = if tiny.lt(var_t.abs()) {
        cov_t_y.over(var_t)
    } else {
        Single::zero()
    };
    let intercept = mean.minus(slope.times(t_mean));
    let mut distances: Vec<Single> = Vec::new();
    let mut j: usize = 0;
    while j < count
        invariant
            j <= count == series@.len(),
            slope == self::slope(series@),
            intercept == self::intercept(series@),
            distances@.len() == j,
            forall|k: int| 0 <= k < j ==> distances@[k] == residuals(series@)[k],
        decreases count - j,
    {
        let d = series[j].minus(slope.times(Single::from_count(j)).plus(intercept));
        distances.push(d.times(d));
        j = j + 1;
    }
    assert(distances@ =~= residuals(series@));
    let ss_res = total_of(&distances);
    let one = Single::from_bits(0x3f80_0000);
    let r_squared = if tiny.lt(ss_tot) {
        let x = one.minus(ss_res.over(ss_tot));
        if x.lt(Single::zero()) {
            Single::zero()
        } else if one.lt(x) {
            one
        } else {
            x
        }
    } else {
        Single::zero()
    };
    let direction = if Single::from_bits(0x3727_c5ac).lt(slope) {
        "upward"
    } else if slope.lt(Single::from_bits(0xb727_c5ac)) {
        "downward"
    } else {
        "flat"
    };
    let has_strong_trend = Single::from_bits(0x3f00_0000).le(r_squared) && !same_text(
        direction,
        "flat",
    );
    Ok(
        TrendEvaluationResult {
            count,
            mean,
            std_dev,
            min,
            max,
            slope,
            intercept,
            direction: direction.to_owned(),
            r_squared,
            has_strong_trend,
        },
    )
}

/// The share that the line accounts for lies between zero and one, unless it is not a number, and a
/// strong trend always has a direction.
pub proof fn law_trend_bounds(t: TrendEvaluationResult, s: Seq<Single>)
    requires
        is_trend(t, s),
    ensures
        !t.r_squared.lt(Single::zero()),
        !Single::from_bits(0x3f80_0000).lt(t.r_squared),
        t.has_strong_trend ==> t.direction@ == "upward"@ || t.direction@ == "downward"@,
        t.direction@ == "upward"@ || t.direction@ == "downward"@ || t.direction@ == "flat"@,
{
    reveal(Single::lt_spec);
}

/// The direction the other way.
pub open spec fn turned_direction(d: Seq<char>) -> Seq<char> {
    if d == "upward"@ {
        "downward"@
    } else if d == "downward"@ {
        "upward"@
    } else {
        d
    }
}

/// The line through a series with every sign turned is the line turned.
proof fn lemma_turned_line(s: Seq<Single>, r: Seq<Single>)
    requires
        s.len() > 0,
        same_run(s, r, true),
    ensures
        slope(s).same(slope(r), true),
        intercept(s).same(intercept(r), true),
        same_run(residuals(s), residuals(r), false),
{
    lemma_same_mean(s, r, true);
    assert(squared_offsets(s) =~= squared_offsets(r));
    let width = sum_from(Single::zero(), squared_offsets(s));
    let (a, b) = (moments(s), moments(r));
    assert forall|i: int| 0 <= i < a.len() implies (#[trigger] a[i]).same(b[i], true) by {
        assert(s[i].same(r[i], true));
        law_same_sum(s[i], mean(s), r[i], mean(r), true);
        let o = offset(s, i);
        law_same_product(o, s[i].minus(mean(s)), o, r[i].minus(mean(r)), false, true);
    }
    lemma_same_sum(Single::zero(), a, b, true);
    law_same_quotient(
        sum_from(Single::zero(), a),
        width,
        sum_from(Single::zero(), b),
        width,
        true,
        false,
    );
    let m = middle(s);
    law_same_product(slope(s), m, slope(r), m, true, false);
    law_same_sum(mean(s), slope(s).times(m), mean(r), slope(r).times(m), true);
    let (c, d) = (residuals(s), residuals(r));
    assert forall|i: int| 0 <= i < c.len() implies (#[trigger] c[i]).same(d[i], false) by {
        assert(s[i].same(r[i], true));
        let n = Single::from_count(i as usize);
        law_same_product(slope(s), n, slope(r), n, true, false);
        law_same_sum(slope(s).times(n), intercept(s), slope(r).times(n), intercept(r), true);
        law_same_sum(s[i], fitted(s, i), r[i], fitted(r, i), true);
        let (x, y) = (s[i].minus(fitted(s, i)), r[i].minus(fitted(r, i)));
        law_same_product(x, x, y, y, true, true);
    }
}

/// The trend of a series with every sign turned is the trend of the series turned: the mean, the
/// slope and the intercept are opposite, the least and the greatest point change places and turn,
/// the deviation, the fit and the strength are the same, and up is down.
pub proof fn law_turned_series_turns_trend(
    t: TrendEvaluationResult,
    u: TrendEvaluationResult,
    s: Seq<Single>,
)
    requires
        s.len() > 0,
        is_trend(t, s),
        is_trend(u, s.map_values(|x: Single| x.negated())),
    ensures
        u.count == t.count,
        u.mean.same(t.mean, true),
        u.slope.same(t.slope, true),
        u.intercept.same(t.intercept, true),
        u.min.same(t.max, true),
        u.max.same(t.min, true),
        u.std_dev.same(t.std_dev, false),
        u.r_squared.same(t.r_squared, false),
        u.direction@ == turned_direction(t.direction@),
        u.has_strong_trend == t.has_strong_trend,
{
    let r = s.map_values(|x: Single| x.negated());
    assert forall|i: int| 0 <= i < r.len() implies (#[trigger] r[i]).same(s[i], true) by {
        law_same(s[i], s[i], s[i], true, true);
        law_same(s[i], r[i], s[i], true, true);
    }
    lemma_same_mean(r, s, true);
    lemma_turned_extremes(r, s);
    lemma_turned_line(r, s);
    lemma_turned_variation(r, s);
    lemma_turned_fit(r, s);
    lemma_turned_direction(slope(r), slope(s));
    let half = Single { bits: 0x3f00_0000 };
    law_same(half, half, half, false, false);
    law_same_order(half, r_squared(r), half, r_squared(s), false);
    lemma_directions_differ();
}

proof fn lemma_directions_differ()
    ensures
        "upward"@ != "downward"@,
        "upward"@ != "flat"@,
        "downward"@ != "flat"@,
{
    reveal_strlit("upward");
    reveal_strlit("downward");
    reveal_strlit("flat");
    assert("upward"@.len() != "downward"@.len());
    assert("upward"@.len() != "flat"@.len());
    assert("flat"@.len() != "downward"@.len());
}

proof fn lemma_turned_variation(r: Seq<Single>, s: Seq<Single>)
    requires
        same_run(r, s, true),
    ensures
        total_variation(r).same(total_variation(s), false),
        is_level(r) == is_level(s),
        total_variation(r).over(Single::from_count(s.len() as usize)).root().same(
            total_variation(s).over(Single::from_count(s.len() as usize)).root(),
            false,
        ),
{
    lemma_same_mean(r, s, true);
    let (p, q) = (squared_distances(r, mean(r)), squared_distances(s, mean(s)));
    lemma_same_sum(Single { bits: 0x8000_0000 }, p, q, false);
    let (v, w) = (total_variation(r), total_variation(s));
    let tiny = Single { bits: 0x2b8c_bccc };
    law_same(tiny, tiny, tiny, false, false);
    law_same_order(v, tiny, w, tiny, false);
    let n = Single::from_count(s.len() as usize);
    law_same(n, n, n, false, false);
    law_same_quotient(v, n, w, n, false, false);
    law_same_root(v.over(n), w.over(n));
}

proof fn lemma_turned_fit(r: Seq<Single>, s: Seq<Single>)
    requires
        s.len() > 0,
        same_run(r, s, true),
    ensures
        r_squared(r).same(r_squared(s), false),
{
    lemma_turned_line(r, s);
    lemma_turned_variation(r, s);
    let (v, w) = (total_variation(r), total_variation(s));
    let tiny = Single { bits: 0x2b8c_bccc };
    law_same(tiny, tiny, tiny, false, false);
    law_same_order(tiny, v, tiny, w, false);
    if tiny.lt(v) {
        let one = Single { bits: 0x3f80_0000 };
        let (c, d) = (residuals(r), residuals(s));
        lemma_same_sum(Single { bits: 0x8000_0000 }, c, d, false);
        lemma_not_zero(v);
        law_same_quotient(sum(c), v, sum(d), w, false, false);
        law_same(one, one, one, false, false);
        law_same_sum(one, sum(c).over(v), one, sum(d).over(w), false);
        lemma_same_clamped(one.minus(sum(c).over(v)), one.minus(sum(d).over(w)));
    }
}

proof fn lemma_same_clamped(x: Single, y: Single)
    requires
        x.same(y, false),
    ensures
        unit_clamped(x).same(unit_clamped(y), false),
{
    let zero = Single::zero();
    let one = Single { bits: 0x3f80_0000 };
    law_same_order(x, zero, y, zero, false);
    law_same_order(one, x, one, y, false);
}

proof fn lemma_turned_direction(x: Single, y: Single)
    requires
        x.same(y, true),
    ensures
        direction(x) == turned_direction(direction(y)),
{
    let up = Single { bits: 0x3727_c5ac };
    let down = Single { bits: 0xb727_c5ac };
    law_same(x, y, x, true, true);
    law_same_order(up, x, down, y, true);
    law_same_order(x, down, y, up, true);
    lemma_one_direction(x);
    lemma_one_direction(y);
    lemma_directions_differ();
}

proof fn lemma_not_zero(v: Single)
    requires
        (Single { bits: 0x2b8c_bccc }).lt(v),
    ensures
        v.number().magnitude > 0,
{
    reveal(Single::lt_spec);
}

proof fn lemma_one_direction(x: Single)
    ensures
        !((Single { bits: 0x3727_c5ac }).lt(x) && x.lt(Single { bits: 0xb727_c5ac })),
{
    reveal(Single::lt_spec);
}

/// The trend of a series in formulas: steps are counted from zero and their middle is half of the last;
/// the slope is the sum of the products of each step's and each point's way from the middle, over the
/// sum of the squared ways of the steps; the line goes through the middle step at the mean; the
/// deviation is the root of the mean squared way from the mean; the fit is one less the squared
/// distances from the line over those from the mean, kept between zero and one. A series of one point,
/// or with next to no variation, is flat.
pub proof fn law_trend_in_formulas(t: TrendEvaluationResult, s: Seq<Single>)
    requires
        is_trend(t, s),
        s.len() > 0,
    ensures
        ({
            let n = s.len();
            let zero = Single { bits: 0 };
            let unit = Single { bits: 0x3f80_0000 };
            let tiny = Single { bits: 0x2b8c_bccc };
            let count = Single::from_count(n as usize);
            let mid = Single::from_count((n - 1) as usize).over(Single { bits: 0x4000_0000 });
            let step = |i: int| Single::from_count(i as usize);
            let way = |i: int| s[i].minus(t.mean);
            let off = |i: int| step(i).minus(mid);
            let variation = sum(Seq::new(n, |i: int| way(i).times(way(i))));
            let across = sum_from(zero, Seq::new(n, |i: int| off(i).times(way(i))));
            let along = sum_from(zero, Seq::new(n, |i: int| off(i).times(off(i))));
            let rest = sum(
                Seq::new(
                    n,
                    |i: int|
                        {
                            let d = s[i].minus(t.slope.times(step(i)).plus(t.intercept));
                            d.times(d)
                        },
                ),
            );
            let fit = unit.minus(rest.over(variation));
            let level = n == 1 || variation.lt(tiny);
            &&& t.count == n
            &&& t.mean == sum(s).over(count)
            &&& level ==> t.std_dev == zero && t.slope == zero && t.intercept == t.mean
                && t.r_squared == zero && !t.has_strong_trend && t.direction@ == "flat"@
            &&& !level ==> t.std_dev == variation.over(count).root()
            &&& !level && tiny.lt(along.abs()) ==> t.slope == across.over(along)
            &&& !level && !tiny.lt(along.abs()) ==> t.slope == zero
            &&& !level ==> t.intercept == t.mean.minus(t.slope.times(mid))
            &&& !level && tiny.lt(variation) ==> t.r_squared == if fit.lt(zero) {
                zero
            } else if unit.lt(fit) {
                unit
            } else {
                fit
            }
            &&& !level && !tiny.lt(variation) ==> t.r_squared == zero
            &&& !level ==> (t.direction@ == "upward"@ <==> Single { bits: 0x3727_c5ac }.lt(t.slope))
            &&& !level ==> (t.direction@ == "downward"@ <==> !Single { bits: 0x3727_c5ac }.lt(
                t.slope,
            ) && t.slope.lt(Single { bits: 0x3727_c5ac }.negated()))
            &&& !level ==> (t.has_strong_trend <==> Single { bits: 0x3f00_0000 }.le(t.r_squared)
                && t.direction@ != "flat"@)
        }),
{
    let n = s.len();
    lemma_directions_differ();
    assert(Single { bits: 0x3727_c5ac }.negated() == Single { bits: 0xb727_c5ac });
    let mid = Single::from_count((n - 1) as usize).over(Single { bits: 0x4000_0000 });
    let step = |i: int| Single::from_count(i as usize);
    let way = |i: int| s[i].minus(t.mean);
    let off = |i: int| step(i).minus(mid);
    assert(squared_distances(s, t.mean) =~= Seq::new(n, |i: int| way(i).times(way(i))));
    assert(moments(s) =~= Seq::new(n, |i: int| off(i).times(way(i))));
    assert(squared_offsets(s) =~= Seq::new(n, |i: int| off(i).times(off(i))));
    if !is_level(s) {
        assert(residuals(s) =~= Seq::new(
            n,
            |i: int|
                {
                    let d = s[i].minus(t.slope.times(step(i)).plus(t.intercept));
                    d.times(d)
                },
        ));
    }
}

/// The least and the greatest point of a series of finite numbers are among its points and bound them
/// all.
pub proof fn law_trend_extremes(t: TrendEvaluationResult, s: Seq<Single>)
    requires
        is_trend(t, s),
        s.len() > 0,
        forall|i: int| 0 <= i < s.len() ==> (#[trigger] s[i]).is_finite(),
    ensures
        s.contains(t.min) && s.contains(t.max),
        forall|i: int| 0 <= i < s.len() ==> t.min.le(#[trigger] s[i]) && s[i].le(t.max),
{
    crate::stats::lemma_extremes(s);
}

/// The extremes of any series are its least and its greatest number, what is no number left aside.
pub proof fn law_trend_extremes_of_anything(t: TrendEvaluationResult, s: Seq<Single>)
    requires
        is_trend(t, s),
    ensures
        t.min == lowest(s),
        t.max == highest(s),
{
}

} // verus!
