//! Statistics that run along the patches of a series, and normalization by them.

use vstd::prelude::*;

use crate::ieee::bounds::{is_near, law_scaling_undone};
use crate::ieee::scalar::Single;
use crate::rows::{is_zero, one};
use crate::stats::{sum_from, sum_of};

verus! {

/// What is too small to divide by: anything below 1e-6 counts as one.
pub open spec fn safe_divisor_spec(x: Single) -> Single {
    if x.lt(Single { bits: 0x3586_37bd }) {
        one()
    } else {
        x
    }
}

/// The number, or one where it is too small to divide by.
#[verifier::when_used_as_spec(safe_divisor_spec)]
pub fn safe_divisor(x: Single) -> (r: Single)
    ensures
        r == safe_divisor_spec(x),
{
    if x.lt(Single::from_bits(0x3586_37bd)) {
        one()
    } else {
        x
    }
}

/// Makes the numbers of a row safe to divide by.
pub fn make_safe_for_division(values: &Vec<Single>) -> (r: Vec<Single>)
    ensures
        r@ == values@.map_values(|x: Single| safe_divisor(x)),
{
    let mut r: Vec<Single> = Vec::new();
    let mut i: usize = 0;
    while i < values.len()
        invariant
            i <= values@.len(),
            r@.len() == i,
            forall|k: int| 0 <= k < i ==> r@[k] == safe_divisor(values@[k]),
        decreases values@.len() - i,
    {
        r.push(safe_divisor(values[i]));
        i = i + 1;
    }
    assert(r@ =~= values@.map_values(|x: Single| safe_divisor(x)));
    r
}

/// How many points there were, their mean and their deviation.
#[derive(Debug, Clone, Copy)]
pub struct RunningStats {
    pub n: Single,
    pub mu: Single,
    pub sigma: Single,
}

/// No points yet.
pub open spec fn no_stats() -> RunningStats {
    RunningStats { n: Single::zero(), mu: Single::zero(), sigma: Single::zero() }
}

/// One for each point that is not masked.
pub open spec fn presence(mask: Seq<Single>) -> Seq<Single> {
    mask.map_values(
        |m: Single|
            if is_zero(m) {
                one()
            } else {
                Single::zero()
            },
    )
}

/// The points that are not masked, zero in place of the others.
pub open spec fn present(x: Seq<Single>, mask: Seq<Single>) -> Seq<Single> {
    Seq::new(
        x.len(),
        |i: int|
            if is_zero(mask[i]) {
                x[i]
            } else {
                Single::zero()
            },
    )
}

/// The squared distances from `center` of the points that are not masked, zero for the others.
pub open spec fn present_squares(x: Seq<Single>, mask: Seq<Single>, center: Single) -> Seq<Single> {
    Seq::new(
        x.len(),
        |i: int|
            if is_zero(mask[i]) {
                x[i].minus(center).times(x[i].minus(center))
            } else {
                Single::zero()
            },
    )
}

/// A share of a count, zero where the count is zero.
pub open spec fn share_spec(total: Single, count: Single) -> Single {
    if is_zero(count) {
        Single::zero()
    } else {
        total.over(safe_divisor(count))
    }
}

#[verifier::when_used_as_spec(share_spec)]
fn share(total: Single, count: Single) -> (r: Single)
    ensures
        r == share_spec(total, count),
{
    if is_zero(count) {
        Single::zero()
    } else {
        total.over(safe_divisor(count))
    }
}

/// The statistics of one patch alone.
pub open spec fn patch_stats(x: Seq<Single>, mask: Seq<Single>) -> RunningStats {
    let n = sum_from(Single::zero(), presence(mask));
    let mu = share_spec(sum_from(Single::zero(), present(x, mask)), n);
    let variance = share_spec(sum_from(Single::zero(), present_squares(x, mask, mu)), n);
    RunningStats { n, mu, sigma: variance.root() }
}

/// The statistics of two groups of points taken together.
pub open spec fn merged(a: RunningStats, b: RunningStats) -> RunningStats {
    let n = a.n.plus(b.n);
    let mu = share_spec(a.n.times(a.mu).plus(b.n.times(b.mu)), n);
    let spread = a.n.times(a.sigma.times(a.sigma)).plus(b.n.times(b.sigma.times(b.sigma)));
    let shift_a = a.n.times(a.mu.minus(mu).times(a.mu.minus(mu)));
    let shift_b = b.n.times(b.mu.minus(mu).times(b.mu.minus(mu)));
    RunningStats { n, mu, sigma: share_spec(spread.plus(shift_a).plus(shift_b), n).root() }
}

/// The statistics after one more patch.
pub open spec fn updated(stats: RunningStats, x: Seq<Single>, mask: Seq<Single>) -> RunningStats {
    merged(stats, patch_stats(x, mask))
}

fn merge(a: RunningStats, b: RunningStats) -> (r: RunningStats)
    ensures
        r == merged(a, b),
{
    let n = a.n.plus(b.n);
    let mu = share(a.n.times(a.mu).plus(b.n.times(b.mu)), n);
    let spread = a.n.times(a.sigma.times(a.sigma)).plus(b.n.times(b.sigma.times(b.sigma)));
    let d_a = a.mu.minus(mu);
    let d_b = b.mu.minus(mu);
    let total = spread.plus(a.n.times(d_a.times(d_a))).plus(b.n.times(d_b.times(d_b)));
    RunningStats { n, mu, sigma: share(total, n).root() }
}

/// Takes one more patch into the statistics. A point is left out where its mask is not zero.
pub fn update_running_stats(stats: RunningStats, x: &Vec<Single>, mask: &Vec<Single>) -> (r:
    RunningStats)
    requires
        x@.len() == mask@.len(),
    ensures
        r == updated(stats, x@, mask@),
{
    let count = x.len();
    let mut flags: Vec<Single> = Vec::new();
    let mut points: Vec<Single> = Vec::new();
    let mut i: usize = 0;
    while i < count
        invariant
            i <= count == x@.len() == mask@.len(),
            flags@.len() == i,
            points@.len() == i,
            forall|k: int| 0 <= k < i ==> flags@[k] == presence(mask@)[k],
            forall|k: int| 0 <= k < i ==> points@[k] == present(x@, mask@)[k],
        decreases count - i,
    {
        if is_zero(mask[i]) {
            flags.push(one());
            points.push(x[i]);
        } else {
            flags.push(Single::zero());
            points.push(Single::zero());
        }
        i = i + 1;
    }
    assert(flags@.take(count as int) =~= presence(mask@));
    assert(points@.take(count as int) =~= present(x@, mask@));
    let n = sum_of(Single::zero(), &flags, count);
    let mu = share(sum_of(Single::zero(), &points, count), n);
    let mut squares: Vec<Single> = Vec::new();
    let mut j: usize = 0;
    while j < count
        invariant
            j <= count == x@.len() == mask@.len(),
            squares@.len() == j,
            forall|k: int| 0 <= k < j ==> squares@[k] == present_squares(x@, mask@, mu)[k],
        decreases count - j,
    {
        if is_zero(mask[j]) {
            let d = x[j].minus(mu);
            squares.push(d.times(d));
        } else {
            squares.push(Single::zero());
        }
        j = j + 1;
    }
    assert(squares@.take(count as int) =~= present_squares(x@, mask@, mu));
    let variance = share(sum_of(Single::zero(), &squares, count), n);
    merge(stats, RunningStats { n, mu, sigma: variance.root() })
}

/// The statistics after the first `n` patches.
pub open spec fn stats_after(values: Seq<Seq<Single>>, masks: Seq<Seq<Single>>, n: int) -> RunningStats
    decreases n,
{
    if n <= 0 {
        no_stats()
    } else {
        updated(stats_after(values, masks, n - 1), values[n - 1], masks[n - 1])
    }
}

/// Patches of values and of masks that belong together.
pub open spec fn same_shape(values: Seq<Vec<Single>>, masks: Seq<Vec<Single>>) -> bool {
    values.len() == masks.len() && forall|i: int|
        0 <= i < values.len() ==> (#[trigger] values[i])@.len() == masks[i]@.len()
}

/// The statistics after each patch.
pub fn get_running_stats(values: &Vec<Vec<Single>>, masks: &Vec<Vec<Single>>) -> (r: Vec<
    RunningStats,
>)
    requires
        same_shape(values@, masks@),
    ensures
        r@ == Seq::new(
            values@.len(),
            |i: int|
                stats_after(
                    crate::rows::rows_view(values@),
                    crate::rows::rows_view(masks@),
                    i + 1,
                ),
        ),
{
    let ghost vs = crate::rows::rows_view(values@);
    let ghost ms = crate::rows::rows_view(masks@);
    let mut current = RunningStats {
        n: Single::zero(),
        mu: Single::zero(),
        sigma: Single::zero(),
    };
    let mut r: Vec<RunningStats> = Vec::new();
    let mut i: usize = 0;
    while i < values.len()
        invariant
            i <= values@.len(),
            same_shape(values@, masks@),
            vs == crate::rows::rows_view(values@),
            ms == crate::rows::rows_view(masks@),
            current == stats_after(vs, ms, i as int),
            r@.len() == i,
            forall|k: int| 0 <= k < i ==> r@[k] == stats_after(vs, ms, k + 1),
        decreases values@.len() - i,
    {
        assert(values@[i as int]@.len() == masks@[i as int]@.len());
        current = update_running_stats(current, &values[i], &masks[i]);
        r.push(current);
        i = i + 1;
    }
    assert(r@ =~= Seq::new(values@.len(), |i: int| stats_after(vs, ms, i + 1)));
    r
}

/// A point brought to scale, or, in reverse, taken back.
pub open spec fn normalized_spec(x: Single, mu: Single, sigma: Single, reverse: bool) -> Single {
    if reverse {
        x.times(sigma).plus(mu)
    } else {
        x.minus(mu).over(safe_divisor(sigma))
    }
}

/// A row brought to scale, or, in reverse, taken back.
pub open spec fn normalized_row(x: Seq<Single>, mu: Single, sigma: Single, reverse: bool) -> Seq<
    Single,
> {
    x.map_values(|v: Single| normalized_spec(v, mu, sigma, reverse))
}

/// Brings a row to scale: takes off the mean and divides by the deviation, or, in reverse,
/// multiplies by it and puts the mean back on.
pub fn revin(x: &Vec<Single>, mu: Single, sigma: Single, reverse: bool) -> (r: Vec<Single>)
    ensures
        r@ == normalized_row(x@, mu, sigma, reverse),
{
    let divisor = safe_divisor(sigma);
    let mut r: Vec<Single> = Vec::new();
    let mut i: usize = 0;
    while i < x.len()
        invariant
            i <= x@.len(),
            divisor == safe_divisor(sigma),
            r@.len() == i,
            forall|k: int| 0 <= k < i ==> r@[k] == normalized_spec(x@[k], mu, sigma, reverse),
        decreases x@.len() - i,
    {
        let v = if reverse {
            x[i].times(sigma).plus(mu)
        } else {
            x[i].minus(mu).over(divisor)
        };
        r.push(v);
        i = i + 1;
    }
    assert(r@ =~= normalized_row(x@, mu, sigma, reverse));
    r
}

/// Bringing a row to scale and taking it back gives the row back nearly, point by point: the point
/// that comes back is off by one part in `2^21` of the magnitudes of the point and the mean at most,
/// and near zero by the least steps. It holds of a deviation of at least 1e-6, which is not replaced,
/// and of the points that come back finite.
pub proof fn law_scale_taken_back(x: Seq<Single>, mu: Single, sigma: Single, i: int)
    requires
        0 <= i < x.len(),
        x[i].is_finite(),
        mu.is_finite(),
        sigma.is_finite(),
        Single::from_bits(0x3586_37bd).le(sigma),
        normalized_row(normalized_row(x, mu, sigma, false), mu, sigma, true)[i].is_finite(),
    ensures
        is_near(
            normalized_row(normalized_row(x, mu, sigma, false), mu, sigma, true)[i],
            x[i],
            mu,
            sigma,
        ),
{
    assert(Single::zero().lt(sigma)) by {
        reveal(Single::lt_spec);
    }
    law_scaling_undone(x[i], mu, sigma);
}

/// Points that are masked leave no trace: patches that agree wherever the mask is zero have the same
/// statistics, and change running statistics alike.
pub proof fn law_masked_points_leave_no_trace(
    stats: RunningStats,
    x: Seq<Single>,
    y: Seq<Single>,
    mask: Seq<Single>,
)
    requires
        x.len() == y.len(),
        forall|i: int| 0 <= i < x.len() && (#[trigger] mask[i]).number().magnitude == 0 ==> x[i] == y[i],
    ensures
        patch_stats(x, mask) == patch_stats(y, mask),
        updated(stats, x, mask) == updated(stats, y, mask),
{
    assert forall|i: int| 0 <= i < x.len() implies present(x, mask)[i] == present(y, mask)[i] by {
        assert(mask[i].number().magnitude == 0 ==> x[i] == y[i]);
    }
    assert(present(x, mask) =~= present(y, mask));
    let mu = patch_stats(x, mask).mu;
    assert forall|i: int| 0 <= i < x.len() implies present_squares(x, mask, mu)[i]
        == present_squares(y, mask, mu)[i] by {
        assert(mask[i].number().magnitude == 0 ==> x[i] == y[i]);
    }
    assert(present_squares(x, mask, mu) =~= present_squares(y, mask, mu));
}

/// The statistics of a patch: how many points are not masked, the sum of those points over their
/// count, and the root of the sum of their squared distances from that mean over their count; all zero
/// where every point is masked.
pub proof fn law_statistics_of_a_patch(x: Seq<Single>, mask: Seq<Single>)
    requires
        x.len() == mask.len(),
    ensures
        ({
            let s = patch_stats(x, mask);
            let zero = Single { bits: 0 };
            let seen = |i: int| mask[i].number().magnitude == 0;
            let count = sum_from(
                zero,
                Seq::new(
                    x.len(),
                    |i: int|
                        if seen(i) {
                            Single { bits: 0x3f80_0000 }
                        } else {
                            zero
                        },
                ),
            );
            let points = sum_from(
                zero,
                Seq::new(
                    x.len(),
                    |i: int|
                        if seen(i) {
                            x[i]
                        } else {
                            zero
                        },
                ),
            );
            let squares = sum_from(
                zero,
                Seq::new(
                    x.len(),
                    |i: int|
                        if seen(i) {
                            x[i].minus(s.mu).times(x[i].minus(s.mu))
                        } else {
                            zero
                        },
                ),
            );
            let by = if count.lt(Single { bits: 0x3586_37bd }) {
                Single { bits: 0x3f80_0000 }
            } else {
                count
            };
            &&& s.n == count
            &&& count.number().magnitude == 0 ==> s.mu == zero && s.sigma == zero.root()
            &&& count.number().magnitude != 0 ==> s.mu == points.over(by) && s.sigma
                == squares.over(by).root()
        }),
{
    let s = patch_stats(x, mask);
    let zero = Single { bits: 0 };
    let seen = |i: int| mask[i].number().magnitude == 0;
    assert(presence(mask) =~= Seq::new(
        x.len(),
        |i: int|
            if seen(i) {
                Single { bits: 0x3f80_0000 }
            } else {
                zero
            },
    ));
    assert(present(x, mask) =~= Seq::new(
        x.len(),
        |i: int|
            if seen(i) {
                x[i]
            } else {
                zero
            },
    ));
    assert(present_squares(x, mask, s.mu) =~= Seq::new(
        x.len(),
        |i: int|
            if seen(i) {
                x[i].minus(s.mu).times(x[i].minus(s.mu))
            } else {
                zero
            },
    ));
}

/// Two groups of points taken together: the counts add up, the mean is the mean of the means weighted
/// by the counts, and the spread is the spread within both and the way of each mean from the new one.
/// A patch is taken into running statistics as such a group.
pub proof fn law_groups_taken_together(a: RunningStats, x: Seq<Single>, mask: Seq<Single>)
    ensures
        ({
            let b = patch_stats(x, mask);
            let r = updated(a, x, mask);
            let zero = Single { bits: 0 };
            let n = a.n.plus(b.n);
            let by = if n.lt(Single { bits: 0x3586_37bd }) {
                Single { bits: 0x3f80_0000 }
            } else {
                n
            };
            let weighted = a.n.times(a.mu).plus(b.n.times(b.mu));
            let within = a.n.times(a.sigma.times(a.sigma)).plus(b.n.times(b.sigma.times(b.sigma)));
            let (c, d) = (a.mu.minus(r.mu), b.mu.minus(r.mu));
            let spread = within.plus(a.n.times(c.times(c))).plus(b.n.times(d.times(d)));
            &&& r.n == n
            &&& n.number().magnitude == 0 ==> r.mu == zero && r.sigma == zero.root()
            &&& n.number().magnitude != 0 ==> r.mu == weighted.over(by) && r.sigma == spread.over(
                by,
            ).root()
        }),
{
}

/// The running statistics after one more patch are those before it with the patch taken in; before the
/// first patch they are zero.
pub proof fn law_one_more_patch(
    values: Seq<Seq<Single>>,
    masks: Seq<Seq<Single>>,
    n: int,
)
    requires
        n >= 0,
    ensures
        stats_after(values, masks, n + 1) == updated(
            stats_after(values, masks, n),
            values[n],
            masks[n],
        ),
        stats_after(values, masks, 0).n == Single::zero(),
        stats_after(values, masks, 0).mu == Single::zero(),
        stats_after(values, masks, 0).sigma == Single::zero(),
{
}

/// Each point of a row has the mean taken off and is divided by the deviation, or by one where the
/// deviation is below 1e-6; in reverse it is multiplied by the deviation and has the mean put on.
pub proof fn law_normalized_points(x: Seq<Single>, mu: Single, sigma: Single, i: int)
    requires
        0 <= i < x.len(),
    ensures
        normalized_row(x, mu, sigma, false).len() == x.len(),
        normalized_row(x, mu, sigma, true).len() == x.len(),
        sigma.lt(Single::from_bits(0x3586_37bd)) ==> normalized_row(x, mu, sigma, false)[i]
            == x[i].minus(mu).over(Single::from_bits(0x3f80_0000)),
        !sigma.lt(Single::from_bits(0x3586_37bd)) ==> normalized_row(x, mu, sigma, false)[i]
            == x[i].minus(mu).over(sigma),
        normalized_row(x, mu, sigma, true)[i] == x[i].times(sigma).plus(mu),
{
}

} // verus!
