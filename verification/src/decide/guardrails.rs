//! Sanity checks on a series before it is forecast.

use vstd::prelude::*;
use vstd::string::*;

use crate::decimal::{digits, push_count};
use crate::error::TimesfmError;
use crate::ieee::scalar::{law_less_itself, Double, Single};
use crate::stats::{finite_or_zero, highest, lemma_extremes, lowest};
use crate::text::optional;

verus! {

/// The code that stands for "not enough to decide on".
pub const UNKNOWN: &'static str = "__insufficient__";

/// What a series has to meet.
#[derive(Debug, Clone)]
pub struct GuardrailConfig {
    /// How many finite points are needed.
    pub min_length: usize,
    /// The greatest share of points that may be missing or infinite.
    pub max_nan_ratio: Single,
    /// A series whose variance is not above this is flat.
    pub min_variance: Single,
}

impl GuardrailConfig {
    /// Three points, at most 0.3 missing, a variance above 1e-8.
    pub open spec fn standard() -> GuardrailConfig {
        GuardrailConfig {
            min_length: 3,
            max_nan_ratio: Single { bits: 0x3e99_999a },
            min_variance: Single { bits: 0x322b_cc77 },
        }
    }
}

impl Default for GuardrailConfig {
    fn default() -> (r: GuardrailConfig)
        ensures
            r == GuardrailConfig::standard(),
    {
        GuardrailConfig {
            min_length: 3,
            max_nan_ratio: Single::from_bits(0x3e99_999a),
            min_variance: Single::from_bits(0x322b_cc77),
        }
    }
}

/// What the checks found.
#[derive(Debug, Clone)]
pub struct GuardrailResult {
    /// The series may be forecast.
    pub passed: bool,
    /// No prediction should be made.
    pub should_abstain: bool,
    /// `UNKNOWN` where no prediction should be made.
    pub abstention_code: Option<String>,
    /// Why a check failed.
    pub reason: Option<String>,
    pub total_points: usize,
    /// How many points are finite.
    pub valid_points: usize,
    /// How many points are not finite.
    pub nan_count: usize,
    /// `nan_count / total_points`.
    pub nan_ratio: Single,
    /// The variance of the finite points.
    pub variance: Single,
    /// The least finite point.
    pub min_val: Single,
    /// The greatest finite point.
    pub max_val: Single,
    /// The mean of the finite points.
    pub mean_val: Single,
    /// The finite points are all the same, or nearly; there may be none.
    pub is_flatline: bool,
}

impl GuardrailResult {
    /// Whether the series passed.
    pub fn is_ok(&self) -> (r: bool)
        ensures
            r == self.passed,
    {
        self.passed
    }
}

/// The finite points of a series, in order.
pub open spec fn readings(s: Seq<Single>) -> Seq<Single>
    decreases s.len(),
{
    if s.len() == 0 {
        seq![]
    } else if s.last().is_finite() {
        readings(s.drop_last()).push(s.last())
    } else {
        readings(s.drop_last())
    }
}

/// The running sum of the points, from the first to the last.
pub open spec fn total(s: Seq<Single>) -> Double
    decreases s.len(),
{
    if s.len() == 0 {
        Double::zero()
    } else {
        total(s.drop_last()).plus(s.last().widened())
    }
}

/// The running sum of the squares of the points.
pub open spec fn total_squares(s: Seq<Single>) -> Double
    decreases s.len(),
{
    if s.len() == 0 {
        Double::zero()
    } else {
        total_squares(s.drop_last()).plus(s.last().widened().times(s.last().widened()))
    }
}

pub open spec fn mean(s: Seq<Single>) -> Double {
    total(s).over(Double::from_count(s.len() as usize))
}

/// The mean of the squares less the square of the mean, and never below zero.
pub open spec fn variance(s: Seq<Single>) -> Single {
    total_squares(s).over(Double::from_count(s.len() as usize)).minus(
        mean(s).times(mean(s)),
    ).max(Double::zero()).narrowed()
}

/// The share of points that are not finite.
pub open spec fn gap_ratio(s: Seq<Single>) -> Single {
    Single::from_count((s.len() - readings(s).len()) as usize).over(
        Single::from_count(s.len() as usize),
    )
}

/// Too few finite points.
pub open spec fn is_short(s: Seq<Single>, config: GuardrailConfig) -> bool {
    readings(s).len() < config.min_length
}

/// Too many points that are not finite.
pub open spec fn is_sparse(s: Seq<Single>, config: GuardrailConfig) -> bool {
    config.max_nan_ratio.lt(gap_ratio(s))
}

/// Constant, or nearly.
pub open spec fn is_flat(s: Seq<Single>, config: GuardrailConfig) -> bool {
    let v = readings(s);
    variance(v).le(config.min_variance) || highest(v).minus(lowest(v)).le(
        Single { bits: 0x33d6_bf95 },
    )
}

/// A number times one hundred, with one place.
pub open spec fn percent(x: Single) -> Seq<char> {
    x.times(Single { bits: 0x42c8_0000 }).fixed(1)
}

/// Why a series is not to be forecast, or nothing where it may be.
pub open spec fn objection(s: Seq<Single>, config: GuardrailConfig) -> Option<Seq<char>> {
    if s.len() == 0 {
        Some("Empty series: no data points provided"@)
    } else if is_short(s, config) {
        Some(
            "Insufficient valid data points ("@ + digits(readings(s).len()) + " < required "@ + digits(
                config.min_length as nat,
            ) + ")"@,
        )
    } else if is_sparse(s, config) {
        Some(
            "High NaN ratio: "@ + percent(gap_ratio(s)) + "% exceeds allowed "@ + percent(
                config.max_nan_ratio,
            ) + "%"@,
        )
    } else if is_flat(s, config) {
        Some("Degenerate flatline series: zero or near-zero variance"@)
    } else {
        None
    }
}

/// What the checks find in a series.
pub open spec fn is_report(g: GuardrailResult, s: Seq<Single>, config: GuardrailConfig) -> bool {
    let v = readings(s);
    let bare = s.len() == 0 || is_short(s, config);
    &&& g.passed == (objection(s, config) is None)
    &&& g.should_abstain == !g.passed
    &&& optional(g.abstention_code) == if g.passed {
        None
    } else {
        Some(UNKNOWN@)
    }
    &&& optional(g.reason) == objection(s, config)
    &&& g.total_points == s.len()
    &&& g.valid_points == v.len()
    &&& g.nan_count == s.len() - v.len()
    &&& g.nan_ratio == if s.len() == 0 {
        Single { bits: 0x3f80_0000 }
    } else {
        gap_ratio(s)
    }
    &&& g.variance == if v.len() == 0 {
        Single::zero()
    } else {
        variance(v)
    }
    &&& g.min_val == if bare {
        finite_or_zero(lowest(v))
    } else {
        lowest(v)
    }
    &&& g.max_val == if bare {
        finite_or_zero(highest(v))
    } else {
        highest(v)
    }
    &&& g.mean_val == if bare && v.len() == 0 {
        Single::zero()
    } else {
        mean(v).narrowed()
    }
    &&& g.is_flatline == (v.len() == 0 || is_flat(s, config))
}

/// Checks a series against the default demands.
pub fn check_series_guardrails(series: &[Single]) -> (r: Result<GuardrailResult, TimesfmError>)
    ensures
        r matches Ok(g) && is_report(g, series@, GuardrailConfig::standard()),
{
    check_series_guardrails_with_config(series, &GuardrailConfig::default())
}

/// Checks a series against the given demands. There is always an answer.
pub fn check_series_guardrails_with_config(
    series: &[Single],
    config: &GuardrailConfig,
) -> (r: Result<GuardrailResult, TimesfmError>)
    ensures
        r matches Ok(g) && is_report(g, series@, *config),
{
    let total_points = series.len();
    if total_points == 0 {
        assert(!Single { bits: 0x7f80_0000 }.is_finite());
        assert(!Single { bits: 0xff80_0000 }.is_finite());
        return Ok(
            GuardrailResult {
                passed: false,
                should_abstain: true,
                abstention_code: Some(UNKNOWN.to_owned()),
                reason: Some("Empty series: no data points provided".to_owned()),
                total_points: 0,
                valid_points: 0,
                nan_count: 0,
                nan_ratio: Single::from_bits(0x3f80_0000),
                variance: Single::zero(),
                min_val: Single::zero(),
                max_val: Single::zero(),
                mean_val: Single::zero(),
                is_flatline: true,
            },
        );
    }
    let mut valid_points: usize = 0;
    let mut nan_count: usize = 0;
    let mut min_val = Single::from_bits(0x7f80_0000);
    let mut max_val = Single::from_bits(0xff80_0000);
    let mut sum = Double::zero();
    let mut sum_sq = Double::zero();
    let mut i: usize = 0;
    while i < total_points
        invariant
            i <= total_points == series@.len(),
            valid_points == readings(series@.take(i as int)).len(),
            valid_points + nan_count == i,
            min_val == lowest(readings(series@.take(i as int))),
            max_val == highest(readings(series@.take(i as int))),
            sum == total(readings(series@.take(i as int))),
            sum_sq == total_squares(readings(series@.take(i as int))),
        decreases total_points - i,
    {
        let val = series[i];
        let ghost before = series@.take(i as int);
        let ghost after = series@.take(i + 1);
        assert(after.drop_last() =~= before);
        assert(after.last() == val);
        if val.is_finite() {
            assert(readings(after).drop_last() =~= readings(before));
            valid_points = valid_points + 1;
            if val.lt(min_val) {
                min_val = val;
            }
            if max_val.lt(val) {
                max_val = val;
            }
            let v = val.widened();
            sum = sum.plus(v);
            sum_sq = sum_sq.plus(v.times(v));
        } else {
            nan_count = nan_count + 1;
        }
        i = i + 1;
    }
    assert(series@.take(i as int) =~= series@);
    let nan_ratio = Single::from_count(nan_count).over(Single::from_count(total_points));
    let mean = sum.over(Double::from_count(valid_points));
    let spread = sum_sq.over(Double::from_count(valid_points)).minus(mean.times(mean)).max(
        Double::zero(),
    ).narrowed();
    let range = max_val.minus(min_val);
    let flat = spread.le(config.min_variance) || range.le(Single::from_bits(0x33d6_bf95));
    let variance = if valid_points == 0 {
        Single::zero()
    } else {
        spread
    };
    let is_flatline = valid_points == 0 || flat;
    if valid_points < config.min_length {
        let mut reason = "Insufficient valid data points (".to_owned();
        push_count(&mut reason, valid_points);
        reason.append(" < required ");
        push_count(&mut reason, config.min_length);
        reason.append(")");
        return Ok(
            GuardrailResult {
                passed: false,
                should_abstain: true,
                abstention_code: Some(UNKNOWN.to_owned()),
                reason: Some(reason),
                total_points,
                valid_points,
                nan_count,
                nan_ratio,
                variance,
                min_val: if min_val.is_finite() {
                    min_val
                } else {
                    Single::zero()
                },
                max_val: if max_val.is_finite() {
                    max_val
                } else {
                    Single::zero()
                },
                mean_val: if valid_points > 0 {
                    mean.narrowed()
                } else {
                    Single::zero()
                },
                is_flatline,
            },
        );
    }
    if config.max_nan_ratio.lt(nan_ratio) {
        let hundred = Single::from_bits(0x42c8_0000);
        let mut reason = "High NaN ratio: ".to_owned();
        nan_ratio.times(hundred).push_fixed(&mut reason, 1);
        reason.append("% exceeds allowed ");
        config.max_nan_ratio.times(hundred).push_fixed(&mut reason, 1);
        reason.append("%");
        return Ok(
            GuardrailResult {
                passed: false,
                should_abstain: true,
                abstention_code: Some(UNKNOWN.to_owned()),
                reason: Some(reason),
                total_points,
                valid_points,
                nan_count,
                nan_ratio,
                variance,
                min_val,
                max_val,
                mean_val: mean.narrowed(),
                is_flatline,
            },
        );
    }
    if flat {
        return Ok(
            GuardrailResult {
                passed: false,
                should_abstain: true,
                abstention_code: Some(UNKNOWN.to_owned()),
                reason: Some("Degenerate flatline series: zero or near-zero variance".to_owned()),
                total_points,
                valid_points,
                nan_count,
                nan_ratio,
                variance,
                min_val,
                max_val,
                mean_val: mean.narrowed(),
                is_flatline: true,
            },
        );
    }
    Ok(
        GuardrailResult {
            passed: true,
            should_abstain: false,
            abstention_code: None,
            reason: None,
            total_points,
            valid_points,
            nan_count,
            nan_ratio,
            variance,
            min_val,
            max_val,
            mean_val: mean.narrowed(),
            is_flatline,
        },
    )
}

/// A series passes, is not abstained from, has no code and has no reason against it all at once or
/// not at all; the code of an abstention is always the same; every point is counted once.
pub proof fn law_report(g: GuardrailResult, s: Seq<Single>, config: GuardrailConfig)
    requires
        is_report(g, s, config),
    ensures
        g.passed <==> !g.should_abstain,
        g.passed <==> g.abstention_code is None,
        g.passed <==> g.reason is None,
        g.abstention_code matches Some(code) ==> code@ == UNKNOWN@,
        g.valid_points + g.nan_count == g.total_points,
        g.passed ==> g.valid_points >= config.min_length && !g.is_flatline,
{
    if readings(s).len() == 0 {
        lemma_nothing_is_flat(s, config);
    }
}

/// A series without finite points is flat.
proof fn lemma_nothing_is_flat(s: Seq<Single>, config: GuardrailConfig)
    requires
        readings(s).len() == 0,
    ensures
        is_flat(s, config),
{
    reveal(Single::plus_spec);
    reveal(Single::lt_spec);
}

/// An empty series never passes.
pub proof fn law_empty_fails(g: GuardrailResult, config: GuardrailConfig)
    requires
        is_report(g, seq![], config),
    ensures
        !g.passed,
        g.is_flatline,
{
}

/// The least and the greatest of the finite points are among them and bound them all.
pub proof fn law_extremes(s: Seq<Single>)
    ensures
        forall|i: int|
            0 <= i < readings(s).len() ==> lowest(readings(s)).le(#[trigger] readings(s)[i])
                && readings(s)[i].le(highest(readings(s))),
        readings(s).len() > 0 ==> readings(s).contains(lowest(readings(s))) && readings(s).contains(
            highest(readings(s)),
        ),
{
    lemma_readings(s);
    lemma_extremes(readings(s));
}

/// A series whose finite points are all the same number never passes, however many there are.
pub proof fn law_constant_series_fails(
    g: GuardrailResult,
    s: Seq<Single>,
    config: GuardrailConfig,
    c: Single,
)
    requires
        is_report(g, s, config),
        forall|i: int| 0 <= i < s.len() && (#[trigger] s[i]).is_finite() ==> s[i] == c,
        readings(s).len() > 0,
    ensures
        !g.passed,
        g.reason is Some,
{
    let v = readings(s);
    lemma_readings(s);
    lemma_extremes(v);
    assert(v.contains(lowest(v)) && v.contains(highest(v)));
    assert(s.contains(lowest(v)) && s.contains(highest(v)));
    let i = choose|i: int| 0 <= i < s.len() && s[i] == lowest(v);
    let j = choose|j: int| 0 <= j < s.len() && s[j] == highest(v);
    assert(s[i] == c && s[j] == c);
    law_less_itself(c);
    lemma_zero_is_small();
}

proof fn lemma_zero_is_small()
    ensures
        forall|z: Single|
            #[trigger] z.number().magnitude == 0 ==> z.le(Single { bits: 0x33d6_bf95 }),
{
    reveal(Single::lt_spec);
}

/// The readings are the points of the series that are finite.
pub proof fn lemma_readings(s: Seq<Single>)
    ensures
        readings(s).len() <= s.len(),
        forall|i: int| 0 <= i < readings(s).len() ==> (#[trigger] readings(s)[i]).is_finite(),
        forall|x: Single| #[trigger] readings(s).contains(x) <==> s.contains(x) && x.is_finite(),
    decreases s.len(),
{
    if s.len() > 0 {
        let t = s.drop_last();
        lemma_readings(t);
        assert forall|x: Single| #[trigger]
            readings(s).contains(x) <==> s.contains(x) && x.is_finite() by {
            assert(s.contains(x) <==> t.contains(x) || x == s.last()) by {
                if s.contains(x) {
                    let i = choose|i: int| 0 <= i < s.len() && s[i] == x;
                    assert(i < t.len() ==> t[i] == x);
                }
                if t.contains(x) {
                    let i = choose|i: int| 0 <= i < t.len() && t[i] == x;
                    assert(s[i] == x);
                }
                assert(s[s.len() - 1] == s.last());
            }
            if s.last().is_finite() {
                let p = readings(t);
                assert(p.push(s.last()).contains(x) <==> p.contains(x) || x == s.last()) by {
                    let q = p.push(s.last());
                    if q.contains(x) {
                        let i = choose|i: int| 0 <= i < q.len() && q[i] == x;
                        assert(i < p.len() ==> p[i] == x);
                    }
                    if p.contains(x) {
                        let i = choose|i: int| 0 <= i < p.len() && p[i] == x;
                        assert(q[i] == x);
                    }
                    assert(q[p.len() as int] == s.last());
                }
            }
        }
    }
}

/// How often a finite number stands among the points is how often it stands among the readings.
proof fn lemma_readings_count(s: Seq<Single>, x: Single)
    ensures
        readings(s).to_multiset().count(x) == if x.is_finite() {
            s.to_multiset().count(x)
        } else {
            0
        },
    decreases s.len(),
{
    broadcast use vstd::seq_lib::group_to_multiset_ensures;
    if s.len() > 0 {
        let t = s.drop_last();
        lemma_readings_count(t, x);
        assert(s =~= t.push(s.last()));
    }
}

/// The order of the points, and what stands where a point is not finite, do not matter: a series
/// with the same finite points, in any order, and as many points in all has the same counts, the
/// same share of gaps and the same extremes.
pub proof fn law_order_does_not_matter(
    g: GuardrailResult,
    h: GuardrailResult,
    s: Seq<Single>,
    r: Seq<Single>,
    config: GuardrailConfig,
)
    requires
        is_report(g, s, config),
        is_report(h, r, config),
        s.len() == r.len(),
        forall|x: Single| #[trigger]
            x.is_finite() ==> s.to_multiset().count(x) == r.to_multiset().count(x),
    ensures
        g.total_points == h.total_points,
        g.valid_points == h.valid_points,
        g.nan_count == h.nan_count,
        g.nan_ratio == h.nan_ratio,
        g.min_val.same(h.min_val, false),
        g.max_val.same(h.max_val, false),
{
    broadcast use vstd::seq_lib::group_to_multiset_ensures;
    let v = readings(s);
    let w = readings(r);
    assert forall|x: Single| v.to_multiset().count(x) == w.to_multiset().count(x) by {
        lemma_readings_count(s, x);
        lemma_readings_count(r, x);
        assert(x.is_finite() || !x.is_finite());
    }
    assert(v.to_multiset() =~= w.to_multiset());
    assert(v.to_multiset().len() == v.len());
    assert(w.to_multiset().len() == w.len());
    lemma_readings(s);
    lemma_readings(r);
    lemma_extremes(v);
    lemma_extremes(w);
    if v.len() > 0 {
        assert forall|x: Single| v.contains(x) implies w.contains(x) by {
            assert(v.to_multiset().count(x) > 0);
        }
        assert forall|x: Single| w.contains(x) implies v.contains(x) by {
            assert(w.to_multiset().count(x) > 0);
        }
        assert(w.contains(lowest(v)) && w.contains(highest(v)));
        assert(v.contains(lowest(w)) && v.contains(highest(w)));
        lemma_bounded_both_ways(lowest(v), lowest(w));
        lemma_bounded_both_ways(highest(v), highest(w));
    }
}

proof fn lemma_bounded_both_ways(a: Single, b: Single)
    requires
        a.le(b),
        b.le(a),
    ensures
        a.same(b, false),
{
    reveal(Single::lt_spec);
}

/// One more point: a finite one joins the readings, the sum and the sum of squares at the end; one
/// that is not changes none of them.
pub proof fn law_one_more_point(s: Seq<Single>, x: Single)
    ensures
        readings(seq![]).len() == 0,
        x.is_finite() ==> readings(s.push(x)) == readings(s).push(x),
        !x.is_finite() ==> readings(s.push(x)) == readings(s),
        total(seq![]) == (Double { bits: 0 }),
        total(s.push(x)) == total(s).plus(x.widened()),
        total_squares(seq![]) == (Double { bits: 0 }),
        total_squares(s.push(x)) == total_squares(s).plus(x.widened().times(x.widened())),
{
    assert(s.push(x).drop_last() =~= s);
}

/// The numbers of a report, told by the finite points: the mean is their sum over their count, the
/// variance the mean of their squares less the square of the mean, zero where that is negative, and
/// the least and the greatest of them are among them and bound them all; without any all are zero.
pub proof fn law_report_numbers(g: GuardrailResult, s: Seq<Single>, config: GuardrailConfig)
    requires
        is_report(g, s, config),
        s.len() <= usize::MAX,
    ensures
        ({
            let v = readings(s);
            let n = Double::from_count(v.len() as usize);
            let m = total(v).over(n);
            let spread = total_squares(v).over(n).minus(m.times(m));
            &&& g.total_points == s.len()
            &&& g.valid_points == v.len()
            &&& g.nan_count == s.len() - v.len()
            &&& s.len() > 0 ==> g.nan_ratio == Single::from_count(g.nan_count).over(
                Single::from_count(g.total_points),
            )
            &&& s.len() == 0 ==> g.nan_ratio == Single { bits: 0x3f80_0000 }
            &&& v.len() > 0 ==> g.mean_val == m.narrowed()
            &&& v.len() > 0 ==> g.variance == if spread.is_nan() || spread.lt(Double { bits: 0 }) {
                Double { bits: 0 }.narrowed()
            } else {
                spread.narrowed()
            }
            &&& v.len() > 0 ==> v.contains(g.min_val) && v.contains(g.max_val)
            &&& forall|i: int|
                0 <= i < v.len() ==> g.min_val.le(#[trigger] v[i]) && v[i].le(g.max_val)
            &&& s.len() == 0 || v.len() == 0 && config.min_length > 0 ==> g.variance
                == Single::zero() && g.min_val == Single::zero() && g.max_val == Single::zero()
                && g.mean_val == Single::zero() && g.is_flatline
        }),
{
    let v = readings(s);
    lemma_readings(s);
    lemma_extremes(v);
    assert(!Single { bits: 0x7f80_0000 }.is_finite());
    assert(!Single { bits: 0xff80_0000 }.is_finite());
}

/// A series passes exactly where it has a point, enough finite ones, not too large a share of others,
/// a variance above the least one and a range above 1e-7; what fails first is the reason. A series is
/// a flatline where its variance or its range is not above, or it has no finite point.
pub proof fn law_when_a_series_passes(g: GuardrailResult, s: Seq<Single>, config: GuardrailConfig)
    requires
        is_report(g, s, config),
        s.len() <= usize::MAX,
    ensures
        ({
            let enough = g.valid_points >= config.min_length;
            let dense = !config.max_nan_ratio.lt(g.nan_ratio);
            let lively = g.valid_points > 0 && !g.variance.le(config.min_variance)
                && !g.max_val.minus(g.min_val).le(Single { bits: 0x33d6_bf95 });
            &&& g.passed <==> s.len() > 0 && enough && dense && lively
            &&& g.should_abstain <==> !g.passed
            &&& s.len() == 0 ==> optional(g.reason) == Some(
                "Empty series: no data points provided"@,
            )
            &&& s.len() > 0 && !enough ==> optional(g.reason) == Some(
                "Insufficient valid data points ("@ + digits(g.valid_points as nat)
                    + " < required "@ + digits(config.min_length as nat) + ")"@,
            )
            &&& s.len() > 0 && enough && !dense ==> optional(g.reason) == Some(
                "High NaN ratio: "@ + g.nan_ratio.times(Single { bits: 0x42c8_0000 }).fixed(1)
                    + "% exceeds allowed "@ + config.max_nan_ratio.times(
                    Single { bits: 0x42c8_0000 },
                ).fixed(1) + "%"@,
            )
            &&& s.len() > 0 && enough && dense && !lively ==> optional(g.reason) == Some(
                "Degenerate flatline series: zero or near-zero variance"@,
            )
            &&& g.passed ==> g.reason is None && g.abstention_code is None
            &&& !g.passed ==> optional(g.abstention_code) == Some("__insufficient__"@)
            &&& g.valid_points > 0 ==> (g.is_flatline <==> !lively)
            &&& g.valid_points == 0 ==> g.is_flatline
        }),
{
    let v = readings(s);
    lemma_readings(s);
    lemma_extremes(v);
    if v.len() == 0 {
        lemma_nothing_is_flat(s, config);
    }
}

/// A series without a finite point that is asked for none still has no extremes: they stay at the
/// infinities that they started from.
pub proof fn law_nothing_to_report(g: GuardrailResult, s: Seq<Single>, config: GuardrailConfig)
    requires
        is_report(g, s, config),
        s.len() > 0,
        readings(s).len() == 0,
        config.min_length == 0,
    ensures
        g.min_val == Single::from_bits(0x7f80_0000),
        g.max_val == Single::from_bits(0xff80_0000),
        g.is_flatline,
        !g.passed,
        g.variance == Single::zero(),
{
    lemma_nothing_is_flat(s, config);
}

/// Unless they are told otherwise, the checks ask for three finite points, for at most 0.3 of the points
/// not to be finite, and for a variance above 1e-8.
pub proof fn law_standard_demands()
    ensures
        ({
            let c = GuardrailConfig::standard();
            &&& c.min_length == 3
            &&& c.max_nan_ratio == Single { bits: 0x3e99_999a }
            &&& c.min_variance == Single { bits: 0x322b_cc77 }
            &&& UNKNOWN@ == "__insufficient__"@
        }),
{
}

} // verus!
