//! Taking a straight line out of a context, and putting it back onto a forecast.

use vstd::prelude::*;

use super::running::{present, presence, safe_divisor};
use crate::ieee::scalar::{Double, Single};
use crate::rows::{is_zero, larger, one};
use crate::stats::{copy_of, sum_from, sum_of};

verus! {

/// The time of point `i` of the context, which ends at zero; its length is the unit.
pub open spec fn past_time(i: int, context: int) -> Single {
    Single::from_count((context - 1 - i) as usize).negated().over(
        Single::from_count(context as usize),
    )
}

/// The time of step `i` of the horizon.
pub open spec fn future_time_spec(i: int, context: int) -> Single {
    Single::from_count((i + 1) as usize).over(Single::from_count(context as usize))
}

/// The time of step `i` of the horizon.
pub fn future_time(i: usize, context: usize) -> (r: Single)
    requires
        i < usize::MAX,
    ensures
        r == future_time_spec(i as int, context as int),
{
    Single::from_count(i + 1).over(Single::from_count(context))
}

pub open spec fn past_times(context: int) -> Seq<Single> {
    Seq::new(context as nat, |i: int| past_time(i, context))
}

/// The products of two rows, point by point.
pub open spec fn products(a: Seq<Single>, b: Seq<Single>) -> Seq<Single> {
    Seq::new(a.len(), |i: int| a[i].times(b[i]))
}

/// A straight line: its slope and where it stands at time zero.
#[derive(Debug, Clone, Copy)]
pub struct Line {
    pub slope: Single,
    pub level: Single,
}

impl Line {
    pub open spec fn at_spec(self, t: Single) -> Single {
        self.slope.times(t).plus(self.level)
    }

    /// Where the line stands at a time.
    #[verifier::when_used_as_spec(at_spec)]
    pub fn at(self, t: Single) -> (r: Single)
        ensures
            r == self.at_spec(t),
    {
        self.slope.times(t).plus(self.level)
    }
}

/// The sum of the points that are not masked.
pub open spec fn present_sum(x: Seq<Single>, mask: Seq<Single>) -> Single {
    sum_from(Single::zero(), present(x, mask))
}

/// The least-squares line through the points that are not masked.
pub open spec fn fitted_line(y: Seq<Single>, mask: Seq<Single>) -> Line {
    let t = past_times(y.len() as int);
    let n = sum_from(Single::zero(), presence(mask));
    let sum_t = present_sum(t, mask);
    let sum_t2 = present_sum(products(t, t), mask);
    let sum_y = present_sum(y, mask);
    let sum_ty = present_sum(products(t, y), mask);
    let det = n.times(sum_t2).minus(sum_t.times(sum_t));
    let slope = if is_zero(det) {
        Single::zero()
    } else {
        n.times(sum_ty).minus(sum_t.times(sum_y)).over(safe_divisor(det))
    };
    Line { slope, level: sum_y.minus(slope.times(sum_t)).over(safe_divisor(n)) }
}

/// The deviation of the points that are not masked.
pub open spec fn deviation(y: Seq<Single>, mask: Seq<Single>) -> Single {
    let n = safe_divisor(sum_from(Single::zero(), presence(mask)));
    let mean = present_sum(y, mask).over(n);
    let variance = present_sum(products(y, y), mask).over(n).minus(mean.times(mean));
    larger(variance, Single::zero()).root()
}

/// The row without the line.
pub open spec fn without_line(y: Seq<Single>, line: Line) -> Seq<Single> {
    Seq::new(y.len(), |i: int| y[i].minus(line.at(past_time(i, y.len() as int))))
}

/// Whether taking the line out lowers the deviation below a share of what it was.
pub open spec fn is_trending(y: Seq<Single>, mask: Seq<Single>, threshold: Double) -> bool {
    deviation(without_line(y, fitted_line(y, mask)), mask).lt(
        deviation(y, mask).times(threshold.narrowed()),
    )
}

/// A context, the line through it, and whether the line was taken out.
#[derive(Debug, Clone)]
pub struct Detrended {
    pub values: Vec<Single>,
    pub line: Line,
    pub applied: bool,
}

fn list_present(x: &Vec<Single>, mask: &Vec<Single>) -> (r: Single)
    requires
        x@.len() == mask@.len(),
    ensures
        r == present_sum(x@, mask@),
{
    let mut points: Vec<Single> = Vec::new();
    let mut i: usize = 0;
    while i < x.len()
        invariant
            i <= x@.len() == mask@.len(),
            points@.len() == i,
            forall|k: int| 0 <= k < i ==> points@[k] == present(x@, mask@)[k],
        decreases x@.len() - i,
    {
        points.push(
            if is_zero(mask[i]) {
                x[i]
            } else {
                Single::zero()
            },
        );
        i = i + 1;
    }
    assert(points@.take(i as int) =~= present(x@, mask@));
    sum_of(Single::zero(), &points, i)
}

fn count_present(mask: &Vec<Single>) -> (r: Single)
    ensures
        r == sum_from(Single::zero(), presence(mask@)),
{
    let mut flags: Vec<Single> = Vec::new();
    let mut i: usize = 0;
    while i < mask.len()
        invariant
            i <= mask@.len(),
            flags@.len() == i,
            forall|k: int| 0 <= k < i ==> flags@[k] == presence(mask@)[k],
        decreases mask@.len() - i,
    {
        flags.push(
            if is_zero(mask[i]) {
                one()
            } else {
                Single::zero()
            },
        );
        i = i + 1;
    }
    assert(flags@.take(i as int) =~= presence(mask@));
    sum_of(Single::zero(), &flags, i)
}

fn multiply(a: &Vec<Single>, b: &Vec<Single>) -> (r: Vec<Single>)
    requires
        a@.len() == b@.len(),
    ensures
        r@ == products(a@, b@),
{
    let mut r: Vec<Single> = Vec::new();
    let mut i: usize = 0;
    while i < a.len()
        invariant
            i <= a@.len() == b@.len(),
            r@.len() == i,
            forall|k: int| 0 <= k < i ==> r@[k] == products(a@, b@)[k],
        decreases a@.len() - i,
    {
        r.push(a[i].times(b[i]));
        i = i + 1;
    }
    assert(r@ =~= products(a@, b@));
    r
}

fn list_times(context: usize) -> (r: Vec<Single>)
    ensures
        r@ == past_times(context as int),
{
    let length = Single::from_count(context);
    let mut r: Vec<Single> = Vec::new();
    let mut i: usize = 0;
    while i < context
        invariant
            i <= context,
            length == Single::from_count(context),
            r@.len() == i,
            forall|k: int| 0 <= k < i ==> r@[k] == past_time(k, context as int),
        decreases context - i,
    {
        r.push(Single::from_count(context - 1 - i).negated().over(length));
        i = i + 1;
    }
    assert(r@ =~= past_times(context as int));
    r
}

fn fit_line(y: &Vec<Single>, mask: &Vec<Single>, t: &Vec<Single>) -> (r: Line)
    requires
        y@.len() == mask@.len(),
        t@ == past_times(y@.len() as int),
    ensures
        r == fitted_line(y@, mask@),
{
    let n = count_present(mask);
    let sum_t = list_present(t, mask);
    let sum_t2 = list_present(&multiply(t, t), mask);
    let sum_y = list_present(y, mask);
    let sum_ty = list_present(&multiply(t, y), mask);
    let det = n.times(sum_t2).minus(sum_t.times(sum_t));
    let slope = if is_zero(det) {
        Single::zero()
    } else {
        n.times(sum_ty).minus(sum_t.times(sum_y)).over(safe_divisor(det))
    };
    Line { slope, level: sum_y.minus(slope.times(sum_t)).over(safe_divisor(n)) }
}

fn find_deviation(y: &Vec<Single>, mask: &Vec<Single>) -> (r: Single)
    requires
        y@.len() == mask@.len(),
    ensures
        r == deviation(y@, mask@),
{
    let n = safe_divisor(count_present(mask));
    let mean = list_present(y, mask).over(n);
    let variance = list_present(&multiply(y, y), mask).over(n).minus(mean.times(mean));
    larger(variance, Single::zero()).root()
}

/// Takes the least-squares line out of a context, if that lowers its deviation below `threshold`
/// times what it was. A point is left out of the fit where its mask is not zero.
pub fn apply_linear_detrending(ctx_vals: &Vec<Single>, ctx_masks: &Vec<Single>, threshold: Double) -> (r:
    Detrended)
    requires
        ctx_vals@.len() == ctx_masks@.len(),
    ensures
        r.line == fitted_line(ctx_vals@, ctx_masks@),
        r.applied == is_trending(ctx_vals@, ctx_masks@, threshold),
        r.values@ == if r.applied {
            without_line(ctx_vals@, r.line)
        } else {
            ctx_vals@
        },
{
    let t = list_times(ctx_vals.len());
    let line = fit_line(ctx_vals, ctx_masks, &t);
    let mut rest: Vec<Single> = Vec::new();
    let mut i: usize = 0;
    while i < ctx_vals.len()
        invariant
            i <= ctx_vals@.len(),
            t@ == past_times(ctx_vals@.len() as int),
            rest@.len() == i,
            forall|k: int| 0 <= k < i ==> rest@[k] == without_line(ctx_vals@, line)[k],
        decreases ctx_vals@.len() - i,
    {
        rest.push(ctx_vals[i].minus(line.at(t[i])));
        i = i + 1;
    }
    assert(rest@ =~= without_line(ctx_vals@, line));
    let before = find_deviation(ctx_vals, ctx_masks);
    let after = find_deviation(&rest, ctx_masks);
    let applied = after.lt(before.times(threshold.narrowed()));
    Detrended {
        values: if applied {
            rest
        } else {
            copy_of(ctx_vals)
        },
        line,
        applied,
    }
}

/// The least-squares line through the points that are not masked, over times that run in even steps
/// up to zero at the last point, the whole context being one unit: the slope is `n` times the sum of
/// the products less the product of the sums, over `n` times the sum of the squared times less the
/// square of their sum; the level is the mean of the points less the slope times the mean time. Where
/// the divisor of the slope is zero the line is level.
pub proof fn law_least_squares_line(y: Seq<Single>, mask: Seq<Single>)
    requires
        y.len() == mask.len(),
    ensures
        ({
            let zero = Single { bits: 0 };
            let unit = Single { bits: 0x3f80_0000 };
            let size = Single::from_count(y.len() as usize);
            let time = |i: int| Single::from_count((y.len() - 1 - i) as usize).negated().over(size);
            let added = |g: spec_fn(int) -> Single|
                sum_from(
                    zero,
                    Seq::new(
                        y.len(),
                        |i: int|
                            if mask[i].number().magnitude == 0 {
                                g(i)
                            } else {
                                zero
                            },
                    ),
                );
            let n = added(|i: int| unit);
            let t = added(|i: int| time(i));
            let tt = added(|i: int| time(i).times(time(i)));
            let ys = added(|i: int| y[i]);
            let ty = added(|i: int| time(i).times(y[i]));
            let det = n.times(tt).minus(t.times(t));
            let safe = |x: Single|
                if x.lt(Single { bits: 0x3586_37bd }) {
                    unit
                } else {
                    x
                };
            let line = fitted_line(y, mask);
            &&& det.number().magnitude == 0 ==> line.slope == zero
            &&& det.number().magnitude != 0 ==> line.slope == n.times(ty).minus(t.times(ys)).over(
                safe(det),
            )
            &&& line.level == ys.minus(line.slope.times(t)).over(safe(n))
        }),
{
    let zero = Single { bits: 0 };
    let unit = Single { bits: 0x3f80_0000 };
    let size = Single::from_count(y.len() as usize);
    let time = |i: int| Single::from_count((y.len() - 1 - i) as usize).negated().over(size);
    let parts = |g: spec_fn(int) -> Single|
        Seq::new(
            y.len(),
            |i: int|
                if mask[i].number().magnitude == 0 {
                    g(i)
                } else {
                    zero
                },
        );
    let t = past_times(y.len() as int);
    assert(presence(mask) =~= parts(|i: int| unit));
    assert(present(t, mask) =~= parts(|i: int| time(i)));
    assert(present(products(t, t), mask) =~= parts(|i: int| time(i).times(time(i))));
    assert(present(y, mask) =~= parts(|i: int| y[i]));
    assert(present(products(t, y), mask) =~= parts(|i: int| time(i).times(y[i])));
}

/// Taking a line out of a context takes off each point where the line stands at its time; the line
/// goes on ahead, one step of the context further for each step.
pub proof fn law_line_taken_out(y: Seq<Single>, line: Line, i: int)
    requires
        0 <= i < y.len(),
    ensures
        without_line(y, line).len() == y.len(),
        without_line(y, line)[i] == y[i].minus(
            line.slope.times(
                Single::from_count((y.len() - 1 - i) as usize).negated().over(
                    Single::from_count(y.len() as usize),
                ),
            ).plus(line.level),
        ),
        line.at(future_time_spec(i, y.len() as int)) == line.slope.times(
            Single::from_count((i + 1) as usize).over(Single::from_count(y.len() as usize)),
        ).plus(line.level),
{
}

/// The deviation of the points that are not masked: the root of the mean of their squares less the
/// square of their mean, or of zero where that is negative.
pub proof fn law_deviation_of_points(y: Seq<Single>, mask: Seq<Single>)
    requires
        y.len() == mask.len(),
    ensures
        ({
            let zero = Single { bits: 0 };
            let unit = Single { bits: 0x3f80_0000 };
            let added = |g: spec_fn(int) -> Single|
                sum_from(
                    zero,
                    Seq::new(
                        y.len(),
                        |i: int|
                            if mask[i].number().magnitude == 0 {
                                g(i)
                            } else {
                                zero
                            },
                    ),
                );
            let count = added(|i: int| unit);
            let n = if count.lt(Single { bits: 0x3586_37bd }) {
                unit
            } else {
                count
            };
            let mean = added(|i: int| y[i]).over(n);
            let v = added(|i: int| y[i].times(y[i])).over(n).minus(mean.times(mean));
            deviation(y, mask) == if v.lt(zero) {
                zero.root()
            } else {
                v.root()
            }
        }),
{
    let zero = Single { bits: 0 };
    let unit = Single { bits: 0x3f80_0000 };
    let parts = |g: spec_fn(int) -> Single|
        Seq::new(
            y.len(),
            |i: int|
                if mask[i].number().magnitude == 0 {
                    g(i)
                } else {
                    zero
                },
        );
    assert(presence(mask) =~= parts(|i: int| unit));
    assert(present(y, mask) =~= parts(|i: int| y[i]));
    assert(present(products(y, y), mask) =~= parts(|i: int| y[i].times(y[i])));
}

/// The line is taken out exactly where that brings the deviation below the given share of what it was,
/// and points that are masked do not matter to any of it.
pub proof fn law_when_a_line_is_taken_out(
    y: Seq<Single>,
    z: Seq<Single>,
    mask: Seq<Single>,
    threshold: Double,
)
    requires
        y.len() == z.len() == mask.len(),
        forall|i: int|
            0 <= i < y.len() && (#[trigger] mask[i]).number().magnitude == 0 ==> y[i] == z[i],
    ensures
        is_trending(y, mask, threshold) <==> deviation(
            Seq::new(
                y.len(),
                |i: int|
                    y[i].minus(
                        fitted_line(y, mask).slope.times(
                            Single::from_count((y.len() - 1 - i) as usize).negated().over(
                                Single::from_count(y.len() as usize),
                            ),
                        ).plus(fitted_line(y, mask).level),
                    ),
            ),
            mask,
        ).lt(deviation(y, mask).times(threshold.narrowed())),
        fitted_line(y, mask) == fitted_line(z, mask),
        deviation(y, mask) == deviation(z, mask),
        is_trending(y, mask, threshold) == is_trending(z, mask, threshold),
{
    let line = fitted_line(y, mask);
    assert(without_line(y, line) =~= Seq::new(
        y.len(),
        |i: int|
            y[i].minus(
                line.slope.times(
                    Single::from_count((y.len() - 1 - i) as usize).negated().over(
                        Single::from_count(y.len() as usize),
                    ),
                ).plus(line.level),
            ),
    ));
    lemma_masked_out(y, z, mask);
    let (a, b) = (without_line(y, line), without_line(z, line));
    assert forall|i: int|
        0 <= i < a.len() && (#[trigger] mask[i]).number().magnitude == 0 implies a[i] == b[i] by {
        assert(y[i] == z[i]);
    }
    lemma_masked_out(a, b, mask);
}

proof fn lemma_masked_out(y: Seq<Single>, z: Seq<Single>, mask: Seq<Single>)
    requires
        y.len() == z.len() == mask.len(),
        forall|i: int|
            0 <= i < y.len() && (#[trigger] mask[i]).number().magnitude == 0 ==> y[i] == z[i],
    ensures
        fitted_line(y, mask) == fitted_line(z, mask),
        deviation(y, mask) == deviation(z, mask),
{
    let t = past_times(y.len() as int);
    assert forall|i: int| 0 <= i < y.len() implies present(y, mask)[i] == present(z, mask)[i]
        && present(products(t, y), mask)[i] == present(products(t, z), mask)[i] && present(
        products(y, y),
        mask,
    )[i] == present(products(z, z), mask)[i] by {
        assert(mask[i].number().magnitude == 0 ==> y[i] == z[i]);
    }
    assert(present(y, mask) =~= present(z, mask));
    assert(present(products(t, y), mask) =~= present(products(t, z), mask));
    assert(present(products(y, y), mask) =~= present(products(z, z), mask));
}

} // verus!
