//! Series that are equal in value are the same to a forecast, as far as they are to the layers: what
//! the layers are given, and what is made of what they give back, goes by the values of the points.

use vstd::arithmetic::div_mod::*;
use vstd::arithmetic::mul::*;
use vstd::prelude::*;

use super::answer::{answer_at, lemma_level_index, level_row, plain_answer, sources, trend_at};
use super::cpm::{carry_after, law_offset_in_range, prediction, Carry};
use super::decode::{
    lane_for, lemma_cut_rows, needed_length, refined_patches, restored_logits, threshold_spec,
    trend_for, window_masks, window_values, Decoding, Role,
};
use super::detrend::{
    deviation, fitted_line, future_time_spec, is_trending, past_time, past_times, present_sum,
    products, without_line, Line,
};
use super::patches::{
    behind, is_even, law_stitched_length, mixed, stitched, stitched_head, transition, weight_spec,
};
use super::plan::{law_answer_is_covered, law_padding, source_patch, DecodePlan};
use super::running::{
    merged, normalized_row, normalized_spec, patch_stats, presence, present, present_squares,
    safe_divisor, share_spec, stats_after, updated, RunningStats,
};
use super::tokens::{lemma_block_index, median_block, median_blocks, output_stats, Lane};
use super::window::{
    context_mask, context_values, cut, future_mask, future_values, is_long_enough, seen_context,
    unknown_horizon, Series,
};
use crate::config::TimesFM3Config;
use crate::ieee::mirror::{
    law_same, law_same_order, law_same_product, law_same_quotient, law_same_root, law_same_sum,
    same_run,
};
use crate::ieee::scalar::{Double, Single};
use crate::rows::{clipped, clipped_row, constant, larger, one, silenced};
use crate::stats::{lemma_same_sum, sum_from};

verus! {

/// Rows that are equal in value, point by point.
pub open spec fn same_rows(a: Seq<Seq<Single>>, b: Seq<Seq<Single>>) -> bool {
    a.len() == b.len() && forall|i: int|
        0 <= i < a.len() ==> same_run(#[trigger] a[i], b[i], false)
}

/// Blocks of rows that are equal in value, point by point.
pub open spec fn same_blocks(a: Seq<Seq<Seq<Single>>>, b: Seq<Seq<Seq<Single>>>) -> bool {
    a.len() == b.len() && forall|i: int| 0 <= i < a.len() ==> same_rows(#[trigger] a[i], b[i])
}

/// Lines that are equal in value.
pub open spec fn same_line(a: Line, b: Line) -> bool {
    a.slope.same(b.slope, false) && a.level.same(b.level, false)
}

/// Statistics of as many points, equal in value.
pub open spec fn same_stats(a: RunningStats, b: RunningStats) -> bool {
    a.n == b.n && a.mu.same(b.mu, false) && a.sigma.same(b.sigma, false)
}

proof fn lemma_self(x: Single)
    ensures
        x.same(x, false),
{
    law_same(x, x, x, false, false);
}

/// A run is equal in value to itself.
pub proof fn lemma_same_self(s: Seq<Single>)
    ensures
        same_run(s, s, false),
{
    assert forall|i: int| 0 <= i < s.len() implies (#[trigger] s[i]).same(s[i], false) by {
        lemma_self(s[i]);
    }
}

proof fn lemma_same_larger(a: Single, b: Single, c: Single, d: Single)
    requires
        a.same(c, false),
        b.same(d, false),
    ensures
        larger(a, b).same(larger(c, d), false),
{
    law_same_order(a, b, c, d, false);
}

proof fn lemma_same_joined(a: Seq<Single>, b: Seq<Single>, c: Seq<Single>, d: Seq<Single>)
    requires
        same_run(a, c, false),
        same_run(b, d, false),
    ensures
        same_run(a + b, c + d, false),
{
    assert forall|i: int| 0 <= i < (a + b).len() implies (#[trigger] (a + b)[i]).same(
        (c + d)[i],
        false,
    ) by {
        if i < a.len() {
            assert(a[i].same(c[i], false));
        } else {
            assert(b[i - a.len()].same(d[i - a.len()], false));
        }
    }
}

proof fn lemma_same_silenced(a: Seq<Single>, b: Seq<Single>, mask: Seq<Single>)
    requires
        same_run(a, b, false),
    ensures
        same_run(silenced(a, mask), silenced(b, mask), false),
{
    let (x, y) = (silenced(a, mask), silenced(b, mask));
    assert forall|i: int| 0 <= i < x.len() implies (#[trigger] x[i]).same(y[i], false) by {
        assert(a[i].same(b[i], false));
    }
}

proof fn lemma_same_clipped(a: Seq<Single>, b: Seq<Single>, bound: Single)
    requires
        same_run(a, b, false),
    ensures
        same_run(clipped_row(a, bound), clipped_row(b, bound), false),
{
    let (x, y) = (clipped_row(a, bound), clipped_row(b, bound));
    let low = bound.negated();
    lemma_self(bound);
    lemma_self(low);
    assert forall|i: int| 0 <= i < x.len() implies (#[trigger] x[i]).same(y[i], false) by {
        assert(a[i].same(b[i], false));
        lemma_same_larger(a[i], low, b[i], low);
        law_same_order(bound, larger(a[i], low), bound, larger(b[i], low), false);
        assert(x[i] == clipped(a[i], bound) && y[i] == clipped(b[i], bound));
    }
}

proof fn lemma_same_present(a: Seq<Single>, b: Seq<Single>, mask: Seq<Single>)
    requires
        same_run(a, b, false),
    ensures
        same_run(present(a, mask), present(b, mask), false),
        present_sum(a, mask).same(present_sum(b, mask), false),
{
    let (x, y) = (present(a, mask), present(b, mask));
    assert forall|i: int| 0 <= i < x.len() implies (#[trigger] x[i]).same(y[i], false) by {
        assert(a[i].same(b[i], false));
    }
    lemma_same_sum(Single::zero(), x, y, false);
}

proof fn lemma_same_products(a: Seq<Single>, b: Seq<Single>, c: Seq<Single>, d: Seq<Single>)
    requires
        same_run(a, c, false),
        same_run(b, d, false),
        a.len() == b.len(),
    ensures
        same_run(products(a, b), products(c, d), false),
{
    let (x, y) = (products(a, b), products(c, d));
    assert forall|i: int| 0 <= i < x.len() implies (#[trigger] x[i]).same(y[i], false) by {
        assert(a[i].same(c[i], false));
        assert(b[i].same(d[i], false));
        law_same_product(a[i], b[i], c[i], d[i], false, false);
    }
}

/// The line through a context, what is left of the context without it, and whether it is taken out.
proof fn lemma_same_fit(a: Seq<Single>, b: Seq<Single>, mask: Seq<Single>)
    requires
        same_run(a, b, false),
    ensures
        same_line(fitted_line(a, mask), fitted_line(b, mask)),
{
    let t = past_times(a.len() as int);
    let n = sum_from(Single::zero(), presence(mask));
    let sum_t = present_sum(t, mask);
    let sum_t2 = present_sum(products(t, t), mask);
    let det = n.times(sum_t2).minus(sum_t.times(sum_t));
    lemma_same_self(t);
    lemma_same_present(a, b, mask);
    lemma_same_products(t, a, t, b);
    lemma_same_present(products(t, a), products(t, b), mask);
    lemma_self(n);
    lemma_self(sum_t);
    let (y, z) = (present_sum(a, mask), present_sum(b, mask));
    let (ty, tz) = (present_sum(products(t, a), mask), present_sum(products(t, b), mask));
    law_same_product(n, ty, n, tz, false, false);
    law_same_product(sum_t, y, sum_t, z, false, false);
    law_same_sum(n.times(ty), sum_t.times(y), n.times(tz), sum_t.times(z), false);
    let (u, v) = (n.times(ty).minus(sum_t.times(y)), n.times(tz).minus(sum_t.times(z)));
    let by = safe_divisor(det);
    lemma_self(by);
    law_same_quotient(u, by, v, by, false, false);
    let (l, m) = (fitted_line(a, mask), fitted_line(b, mask));
    assert(l.slope.same(m.slope, false));
    law_same_product(l.slope, sum_t, m.slope, sum_t, false, false);
    law_same_sum(y, l.slope.times(sum_t), z, m.slope.times(sum_t), false);
    let count = safe_divisor(n);
    lemma_self(count);
    law_same_quotient(
        y.minus(l.slope.times(sum_t)),
        count,
        z.minus(m.slope.times(sum_t)),
        count,
        false,
        false,
    );
}

/// Where a line stands.
proof fn lemma_same_at(l: Line, m: Line, t: Single)
    requires
        same_line(l, m),
    ensures
        l.at(t).same(m.at(t), false),
{
    lemma_self(t);
    law_same_product(l.slope, t, m.slope, t, false, false);
    law_same_sum(l.slope.times(t), l.level, m.slope.times(t), m.level, false);
}

proof fn lemma_same_without(a: Seq<Single>, b: Seq<Single>, l: Line, m: Line)
    requires
        same_run(a, b, false),
        same_line(l, m),
    ensures
        same_run(without_line(a, l), without_line(b, m), false),
{
    let (x, y) = (without_line(a, l), without_line(b, m));
    assert forall|i: int| 0 <= i < x.len() implies (#[trigger] x[i]).same(y[i], false) by {
        assert(a[i].same(b[i], false));
        let t = past_time(i, a.len() as int);
        lemma_same_at(l, m, t);
        law_same_sum(a[i], l.at(t), b[i], m.at(t), false);
    }
}

proof fn lemma_same_deviation(a: Seq<Single>, b: Seq<Single>, mask: Seq<Single>)
    requires
        same_run(a, b, false),
    ensures
        deviation(a, mask).same(deviation(b, mask), false),
{
    let n = safe_divisor(sum_from(Single::zero(), presence(mask)));
    lemma_self(n);
    lemma_same_present(a, b, mask);
    lemma_same_products(a, a, b, b);
    lemma_same_present(products(a, a), products(b, b), mask);
    law_same_quotient(present_sum(a, mask), n, present_sum(b, mask), n, false, false);
    let (x, y) = (present_sum(a, mask).over(n), present_sum(b, mask).over(n));
    law_same_product(x, x, y, y, false, false);
    let (s, t) = (present_sum(products(a, a), mask), present_sum(products(b, b), mask));
    law_same_quotient(s, n, t, n, false, false);
    law_same_sum(s.over(n), x.times(x), t.over(n), y.times(y), false);
    let (v, w) = (s.over(n).minus(x.times(x)), t.over(n).minus(y.times(y)));
    lemma_self(Single::zero());
    lemma_same_larger(v, Single::zero(), w, Single::zero());
    law_same_root(larger(v, Single::zero()), larger(w, Single::zero()));
}

proof fn lemma_same_trending(a: Seq<Single>, b: Seq<Single>, mask: Seq<Single>, threshold: Double)
    requires
        same_run(a, b, false),
    ensures
        is_trending(a, mask, threshold) == is_trending(b, mask, threshold),
{
    let (l, m) = (fitted_line(a, mask), fitted_line(b, mask));
    lemma_same_fit(a, b, mask);
    lemma_same_without(a, b, l, m);
    lemma_same_deviation(without_line(a, l), without_line(b, m), mask);
    lemma_same_deviation(a, b, mask);
    let share = threshold.narrowed();
    lemma_self(share);
    law_same_product(deviation(a, mask), share, deviation(b, mask), share, false, false);
    law_same_order(
        deviation(without_line(a, l), mask),
        deviation(a, mask).times(share),
        deviation(without_line(b, m), mask),
        deviation(b, mask).times(share),
        false,
    );
}

proof fn lemma_same_share(a: Single, b: Single, n: Single)
    requires
        a.same(b, false),
    ensures
        share_spec(a, n).same(share_spec(b, n), false),
{
    let by = safe_divisor(n);
    lemma_self(by);
    law_same_quotient(a, by, b, by, false, false);
}

proof fn lemma_same_patch(a: Seq<Single>, b: Seq<Single>, mask: Seq<Single>)
    requires
        same_run(a, b, false),
    ensures
        same_stats(patch_stats(a, mask), patch_stats(b, mask)),
{
    let n = sum_from(Single::zero(), presence(mask));
    lemma_same_present(a, b, mask);
    lemma_same_share(present_sum(a, mask), present_sum(b, mask), n);
    let (mu, nu) = (patch_stats(a, mask).mu, patch_stats(b, mask).mu);
    let (x, y) = (present_squares(a, mask, mu), present_squares(b, mask, nu));
    assert forall|i: int| 0 <= i < x.len() implies (#[trigger] x[i]).same(y[i], false) by {
        assert(a[i].same(b[i], false));
        law_same_sum(a[i], mu, b[i], nu, false);
        let (c, d) = (a[i].minus(mu), b[i].minus(nu));
        law_same_product(c, c, d, d, false, false);
    }
    lemma_same_sum(Single::zero(), x, y, false);
    lemma_same_share(sum_from(Single::zero(), x), sum_from(Single::zero(), y), n);
    law_same_root(
        share_spec(sum_from(Single::zero(), x), n),
        share_spec(sum_from(Single::zero(), y), n),
    );
}

/// A count times a square.
proof fn lemma_same_weighted(n: Single, x: Single, y: Single)
    requires
        x.same(y, false),
    ensures
        n.times(x.times(x)).same(n.times(y.times(y)), false),
        n.times(x).same(n.times(y), false),
{
    lemma_self(n);
    law_same_product(x, x, y, y, false, false);
    law_same_product(n, x, n, y, false, false);
    law_same_product(n, x.times(x), n, y.times(y), false, false);
}

proof fn lemma_same_merged(a: RunningStats, b: RunningStats, c: RunningStats, d: RunningStats)
    requires
        same_stats(a, c),
        same_stats(b, d),
    ensures
        same_stats(merged(a, b), merged(c, d)),
{
    let n = a.n.plus(b.n);
    lemma_same_weighted(a.n, a.mu, c.mu);
    lemma_same_weighted(b.n, b.mu, d.mu);
    law_same_sum(a.n.times(a.mu), b.n.times(b.mu), c.n.times(c.mu), d.n.times(d.mu), false);
    lemma_same_share(
        a.n.times(a.mu).plus(b.n.times(b.mu)),
        c.n.times(c.mu).plus(d.n.times(d.mu)),
        n,
    );
    let (mu, nu) = (merged(a, b).mu, merged(c, d).mu);
    lemma_same_weighted(a.n, a.sigma, c.sigma);
    lemma_same_weighted(b.n, b.sigma, d.sigma);
    let (s1, s2) = (a.n.times(a.sigma.times(a.sigma)), b.n.times(b.sigma.times(b.sigma)));
    let (t1, t2) = (c.n.times(c.sigma.times(c.sigma)), d.n.times(d.sigma.times(d.sigma)));
    law_same_sum(s1, s2, t1, t2, false);
    law_same_sum(a.mu, mu, c.mu, nu, false);
    law_same_sum(b.mu, mu, d.mu, nu, false);
    lemma_same_weighted(a.n, a.mu.minus(mu), c.mu.minus(nu));
    lemma_same_weighted(b.n, b.mu.minus(mu), d.mu.minus(nu));
    let (p1, p2) = (
        a.n.times(a.mu.minus(mu).times(a.mu.minus(mu))),
        b.n.times(b.mu.minus(mu).times(b.mu.minus(mu))),
    );
    let (q1, q2) = (
        c.n.times(c.mu.minus(nu).times(c.mu.minus(nu))),
        d.n.times(d.mu.minus(nu).times(d.mu.minus(nu))),
    );
    law_same_sum(s1.plus(s2), p1, t1.plus(t2), q1, false);
    law_same_sum(s1.plus(s2).plus(p1), p2, t1.plus(t2).plus(q1), q2, false);
    lemma_same_share(s1.plus(s2).plus(p1).plus(p2), t1.plus(t2).plus(q1).plus(q2), n);
    law_same_root(
        share_spec(s1.plus(s2).plus(p1).plus(p2), n),
        share_spec(t1.plus(t2).plus(q1).plus(q2), n),
    );
}

proof fn lemma_same_updated(
    a: RunningStats,
    b: RunningStats,
    x: Seq<Single>,
    y: Seq<Single>,
    mask: Seq<Single>,
)
    requires
        same_stats(a, b),
        same_run(x, y, false),
    ensures
        same_stats(updated(a, x, mask), updated(b, y, mask)),
{
    lemma_same_patch(x, y, mask);
    lemma_same_merged(a, patch_stats(x, mask), b, patch_stats(y, mask));
}

/// Running statistics go by the values of the points.
pub proof fn law_same_running_stats(
    a: Seq<Seq<Single>>,
    b: Seq<Seq<Single>>,
    masks: Seq<Seq<Single>>,
    n: int,
)
    requires
        same_rows(a, b),
        n <= a.len(),
    ensures
        same_stats(stats_after(a, masks, n), stats_after(b, masks, n)),
    decreases n,
{
    if n > 0 {
        law_same_running_stats(a, b, masks, n - 1);
        assert(same_run(a[n - 1], b[n - 1], false));
        lemma_same_updated(
            stats_after(a, masks, n - 1),
            stats_after(b, masks, n - 1),
            a[n - 1],
            b[n - 1],
            masks[n - 1],
        );
    } else {
        lemma_self(Single::zero());
    }
}

/// Bringing a row to scale, and taking it back, goes by values.
proof fn lemma_same_normalized(
    a: Seq<Single>,
    b: Seq<Single>,
    s: RunningStats,
    t: RunningStats,
    reverse: bool,
)
    requires
        same_run(a, b, false),
        same_stats(s, t),
    ensures
        same_run(
            normalized_row(a, s.mu, s.sigma, reverse),
            normalized_row(b, t.mu, t.sigma, reverse),
            false,
        ),
{
    let (x, y) = (
        normalized_row(a, s.mu, s.sigma, reverse),
        normalized_row(b, t.mu, t.sigma, reverse),
    );
    lemma_same_divisor(s.sigma, t.sigma);
    let (d, e) = (safe_divisor(s.sigma), safe_divisor(t.sigma));
    assert forall|i: int| 0 <= i < x.len() implies (#[trigger] x[i]).same(y[i], false) by {
        assert(a[i].same(b[i], false));
        assert(x[i] == normalized_spec(a[i], s.mu, s.sigma, reverse));
        assert(y[i] == normalized_spec(b[i], t.mu, t.sigma, reverse));
        if reverse {
            law_same_product(a[i], s.sigma, b[i], t.sigma, false, false);
            law_same_sum(a[i].times(s.sigma), s.mu, b[i].times(t.sigma), t.mu, false);
        } else {
            law_same_sum(a[i], s.mu, b[i], t.mu, false);
            law_same_quotient(a[i].minus(s.mu), d, b[i].minus(t.mu), e, false, false);
        }
    }
}

proof fn lemma_same_divisor(a: Single, b: Single)
    requires
        a.same(b, false),
    ensures
        safe_divisor(a).same(safe_divisor(b), false),
        safe_divisor(a).number().magnitude > 0,
{
    reveal(Single::lt_spec);
}

/// Masks with the same marks.
pub open spec fn same_mask(a: Option<Vec<Single>>, b: Option<Vec<Single>>) -> bool {
    match (a, b) {
        (Some(x), Some(y)) => x@ == y@,
        (None, None) => true,
        _ => false,
    }
}

/// Series that are equal in value, with the same mask.
pub open spec fn same_series(a: Series, b: Series) -> bool {
    same_run(a.values@, b.values@, false) && same_mask(a.mask, b.mask)
}

/// What the layers see of two series is equal in value.
pub open spec fn same_lane(a: Lane, b: Lane) -> bool {
    &&& same_rows(a.values, b.values)
    &&& a.masks == b.masks
    &&& a.targets == b.targets
    &&& a.hidden == b.hidden
    &&& a.freeze_after == b.freeze_after
    &&& a.rolls == b.rolls
    &&& a.p == b.p
}

/// Parts of runs that are equal in value.
pub proof fn lemma_same_part(a: Seq<Single>, b: Seq<Single>, from: int, to: int)
    requires
        same_run(a, b, false),
        0 <= from <= to <= a.len(),
    ensures
        same_run(a.subrange(from, to), b.subrange(from, to), false),
{
    let (x, y) = (a.subrange(from, to), b.subrange(from, to));
    assert forall|i: int| 0 <= i < x.len() implies (#[trigger] x[i]).same(y[i], false) by {
        assert(a[from + i].same(b[from + i], false));
    }
}

proof fn lemma_same_cut(a: Seq<Single>, b: Seq<Single>, p: int)
    requires
        same_run(a, b, false),
        p > 0,
    ensures
        same_rows(cut(a, p), cut(b, p)),
{
    let n = a.len() as int / p;
    lemma_fundamental_div_mod(a.len() as int, p);
    lemma_mod_bound(a.len() as int, p);
    assert forall|i: int| 0 <= i < n implies same_run(#[trigger] cut(a, p)[i], cut(b, p)[i], false) by {
        assert(0 <= i * p && i * p + p <= p * n) by (nonlinear_arith)
            requires
                0 <= i < n,
                p > 0,
        ;
        lemma_same_part(a, b, i * p, i * p + p);
    }
}

proof fn lemma_same_masks(
    a: Series,
    b: Series,
    c: Option<Vec<Single>>,
    d: Option<Vec<Single>>,
    plan: DecodePlan,
)
    requires
        same_series(a, b),
        same_mask(c, d),
    ensures
        context_mask(a, c, plan) == context_mask(b, d, plan),
        future_mask(a, plan) == future_mask(b, plan),
{
}

/// The trend of a series, and what can be seen of the series, go by its values.
proof fn lemma_same_window(
    a: Series,
    b: Series,
    c: Option<Vec<Single>>,
    d: Option<Vec<Single>>,
    role: Role,
    plan: DecodePlan,
    config: TimesFM3Config,
)
    requires
        same_series(a, b),
        same_mask(c, d),
        is_long_enough(a, c, plan, needed_length(role, plan)),
    ensures
        same_line(trend_for(a, c, plan, config).0, trend_for(b, d, plan, config).0),
        trend_for(a, c, plan, config).1 == trend_for(b, d, plan, config).1,
        same_run(
            window_values(a, c, role, plan, config),
            window_values(b, d, role, plan, config),
            false,
        ),
        window_masks(a, c, role, plan) == window_masks(b, d, role, plan),
{
    lemma_same_masks(a, b, c, d, plan);
    let n = plan.context - plan.ctx_padding;
    let mask = context_mask(a, c, plan);
    let (x, y) = (context_values(a, plan), context_values(b, plan));
    let zeros = constant(plan.ctx_padding as int, Single::zero());
    lemma_same_self(zeros);
    lemma_same_part(a.values@, b.values@, 0, n);
    assert(a.values@.take(n) =~= a.values@.subrange(0, n));
    assert(b.values@.take(n) =~= b.values@.subrange(0, n));
    lemma_same_joined(zeros, a.values@.take(n), zeros, b.values@.take(n));
    lemma_self(Single::zero());
    lemma_same_fit(x, y, mask);
    if let Some(t) = threshold_spec(config) {
        lemma_same_trending(x, y, mask, t);
    }
    let (l, applied) = trend_for(a, c, plan, config);
    let (m, also) = trend_for(b, d, plan, config);
    lemma_same_without(x, y, l, m);
    lemma_same_silenced(
        if applied {
            without_line(x, l)
        } else {
            x
        },
        if applied {
            without_line(y, m)
        } else {
            y
        },
        mask,
    );
    let (u, v) = (seen_context(a, c, plan, l, applied), seen_context(b, d, plan, m, applied));
    if role == Role::PastFuture {
        let (f, g) = (future_values(a, plan, l, applied), future_values(b, plan, m, applied));
        assert forall|i: int| 0 <= i < f.len() implies (#[trigger] f[i]).same(g[i], false) by {
            assert(a.values@[n + i].same(b.values@[n + i], false));
            let t = future_time_spec(i, plan.context as int);
            lemma_same_at(l, m, t);
            law_same_sum(a.values@[n + i], l.at(t), b.values@[n + i], m.at(t), false);
        }
        let far = future_mask(a, plan);
        lemma_same_silenced(f, g, far);
        lemma_same_joined(u, silenced(f, far), v, silenced(g, far));
        let pad = constant(plan.hor_padding as int, Single::zero());
        lemma_same_self(pad);
        lemma_same_joined(u + silenced(f, far), pad, v + silenced(g, far), pad);
    } else {
        let pad = unknown_horizon(plan, Single::zero());
        lemma_same_self(pad);
        lemma_same_joined(u, pad, v, pad);
    }
}

/// What the layers see of a series goes by its values.
pub proof fn law_same_lane(
    a: Series,
    b: Series,
    c: Option<Vec<Single>>,
    d: Option<Vec<Single>>,
    role: Role,
    plan: DecodePlan,
    config: TimesFM3Config,
)
    requires
        same_series(a, b),
        same_mask(c, d),
        is_long_enough(a, c, plan, needed_length(role, plan)),
        config.input_patch_len > 0,
    ensures
        same_lane(lane_for(a, c, role, plan, config), lane_for(b, d, role, plan, config)),
        same_line(trend_for(a, c, plan, config).0, trend_for(b, d, plan, config).0),
        trend_for(a, c, plan, config).1 == trend_for(b, d, plan, config).1,
{
    lemma_same_window(a, b, c, d, role, plan, config);
    let bound = config.value_clip.narrowed();
    let (x, y) = (
        window_values(a, c, role, plan, config),
        window_values(b, d, role, plan, config),
    );
    lemma_same_clipped(x, y, bound);
    lemma_same_cut(clipped_row(x, bound), clipped_row(y, bound), config.input_patch_len as int);
}

proof fn lemma_same_behind(a: Seq<Seq<Single>>, b: Seq<Seq<Single>>, i: int, rolls: int)
    requires
        same_rows(a, b),
        a.len() > 0,
        i >= 0,
    ensures
        same_run(behind(a, i, rolls), behind(b, i, rolls), false),
    decreases rolls,
{
    if rolls > 0 {
        lemma_same_behind(a, b, i, rolls - 1);
        let k = (i + rolls) % (a.len() as int);
        lemma_mod_bound(i + rolls, a.len() as int);
        assert(same_run(a[k], b[k], false));
        lemma_same_joined(behind(a, i, rolls - 1), a[k], behind(b, i, rolls - 1), b[k]);
    }
}

/// The statistics that a patch is normalized by go by values.
proof fn lemma_same_lane_stats(a: Lane, b: Lane, i: int)
    requires
        same_lane(a, b),
        0 <= i < a.values.len(),
    ensures
        same_stats(a.stats(i), b.stats(i)),
{
    law_same_running_stats(a.values, b.values, a.masks, i + 1);
    assert(a.running()[i] == stats_after(a.values, a.masks, i + 1));
    assert(b.running()[i] == stats_after(b.values, a.masks, i + 1));
    if let Some(last) = a.freeze_after {
        if last < a.values.len() - 1 && i > last {
            law_same_running_stats(a.values, b.values, a.masks, last + 1);
            assert(a.running()[last as int] == stats_after(a.values, a.masks, last + 1));
            assert(b.running()[last as int] == stats_after(b.values, a.masks, last + 1));
        }
    }
}

/// The tokens of series that are equal in value are equal in value, nothing can be seen of the same
/// patches, and the statistics are equal in value.
pub proof fn law_same_tokens(a: Lane, b: Lane, i: int)
    requires
        same_lane(a, b),
        0 <= i < a.values.len(),
    ensures
        same_run(a.token(i), b.token(i), false),
        a.is_blank_up_to(i) == b.is_blank_up_to(i),
        same_stats(a.stats(i), b.stats(i)),
{
    lemma_same_lane_stats(a, b, i);
    assert(a.all_masks() == b.all_masks());
    assert(same_run(a.values[i], b.values[i], false));
    let (s, t) = (a.stats(i), b.stats(i));
    lemma_same_normalized(a.values[i], b.values[i], s, t, false);
    lemma_same_silenced(
        normalized_row(a.values[i], s.mu, s.sigma, false),
        normalized_row(b.values[i], t.mu, t.sigma, false),
        a.all_masks()[i],
    );
    lemma_same_behind(a.values, b.values, i, a.rolls);
    let (x, y) = (behind(a.values, i, a.rolls), behind(b.values, i, a.rolls));
    lemma_same_normalized(x, y, s, t, false);
    assert(a.masks_behind(i) == b.masks_behind(i));
    lemma_same_silenced(
        normalized_row(x, s.mu, s.sigma, false),
        normalized_row(y, t.mu, t.sigma, false),
        a.masks_behind(i),
    );
    let (m, n) = (a.all_masks()[i], a.masks_behind(i));
    lemma_same_self(m);
    lemma_same_self(n);
    lemma_same_joined(a.own_points(i), a.points_behind(i), b.own_points(i), b.points_behind(i));
    lemma_same_joined(
        a.own_points(i) + a.points_behind(i),
        m,
        b.own_points(i) + b.points_behind(i),
        m,
    );
    lemma_same_joined(
        a.own_points(i) + a.points_behind(i) + m,
        n,
        b.own_points(i) + b.points_behind(i) + m,
        n,
    );
    assert forall|j: int| 0 <= j <= i implies a.is_blank(j) == b.is_blank(j) by {
        assert(a.masks_behind(j) == b.masks_behind(j));
    }
}

/// Carries that are equal in value.
spec fn same_carry(a: Carry, b: Carry) -> bool {
    same_stats(a.stats, b.stats) && same_rows(a.anchor, b.anchor) && a.offset == b.offset
}

proof fn lemma_same_prediction(
    a: Seq<Seq<Single>>,
    b: Seq<Seq<Single>>,
    s: RunningStats,
    t: RunningStats,
    bound: Single,
)
    requires
        same_rows(a, b),
        same_stats(s, t),
    ensures
        same_rows(prediction(a, s, bound), prediction(b, t, bound)),
{
    let (x, y) = (prediction(a, s, bound), prediction(b, t, bound));
    assert forall|i: int| 0 <= i < x.len() implies same_run(#[trigger] x[i], y[i], false) by {
        assert(same_run(a[i], b[i], false));
        lemma_same_normalized(a[i], b[i], s, t, true);
        lemma_same_clipped(
            normalized_row(a[i], s.mu, s.sigma, true),
            normalized_row(b[i], t.mu, t.sigma, true),
            bound,
        );
    }
}

/// The refinement of hidden patches goes by values.
proof fn lemma_same_carry(
    m: Seq<Seq<Seq<Single>>>,
    k: Seq<Seq<Seq<Single>>>,
    a: Seq<RunningStats>,
    b: Seq<RunningStats>,
    hidden: Seq<bool>,
    rolls: int,
    p: int,
    bound: Single,
    n: int,
)
    requires
        rolls > 0,
        n <= m.len(),
        n <= a.len(),
        same_blocks(m, k),
        forall|i: int| 0 <= i < m.len() ==> (#[trigger] m[i]).len() == rolls,
        forall|i: int| 0 <= i < n ==> same_stats(#[trigger] a[i], b[i]),
    ensures
        same_carry(
            carry_after(m, a, hidden, rolls, p, bound, n),
            carry_after(k, b, hidden, rolls, p, bound, n),
        ),
        carry_after(m, a, hidden, rolls, p, bound, n).anchor.len() == rolls,
    decreases n,
{
    let (x, y) = (
        carry_after(m, a, hidden, rolls, p, bound, n),
        carry_after(k, b, hidden, rolls, p, bound, n),
    );
    if n <= 0 {
        lemma_self(Single::zero());
        assert forall|i: int| 0 <= i < rolls implies same_run(
            #[trigger] x.anchor[i],
            y.anchor[i],
            false,
        ) by {
            lemma_same_self(x.anchor[i]);
        }
    } else {
        lemma_same_carry(m, k, a, b, hidden, rolls, p, bound, n - 1);
        law_offset_in_range(m, a, hidden, rolls, p, bound, n - 1);
        let (u, v) = (
            carry_after(m, a, hidden, rolls, p, bound, n - 1),
            carry_after(k, b, hidden, rolls, p, bound, n - 1),
        );
        assert(same_run(u.anchor[u.offset], v.anchor[u.offset], false));
        lemma_same_updated(
            u.stats,
            v.stats,
            u.anchor[u.offset],
            v.anchor[u.offset],
            constant(p, Single::zero()),
        );
        assert(same_stats(a[n - 1], b[n - 1]));
        assert(same_stats(x.stats, y.stats));
        assert(same_rows(m[n - 1], k[n - 1]));
        assert(m[n - 1].len() == rolls);
        lemma_same_prediction(m[n - 1], k[n - 1], x.stats, y.stats, bound);
    }
}

proof fn lemma_same_medians(a: Seq<Seq<Single>>, b: Seq<Seq<Single>>, rolls: int, p: int, q: int)
    requires
        same_rows(a, b),
        is_even(a, rolls * p * q),
        q > 0,
        rolls > 0,
        p >= 0,
    ensures
        same_blocks(median_blocks(a, rolls, p, q), median_blocks(b, rolls, p, q)),
        forall|i: int|
            0 <= i < a.len() ==> (#[trigger] median_blocks(a, rolls, p, q)[i]).len() == rolls,
{
    let (x, y) = (median_blocks(a, rolls, p, q), median_blocks(b, rolls, p, q));
    assert forall|i: int| 0 <= i < x.len() implies same_rows(#[trigger] x[i], y[i]) by {
        assert(same_run(a[i], b[i], false));
        assert(a[i].len() == rolls * p * q);
        let (c, d) = (median_block(a[i], rolls, p, q), median_block(b[i], rolls, p, q));
        assert forall|r: int| 0 <= r < rolls implies same_run(#[trigger] c[r], d[r], false) by {
            assert forall|k: int| 0 <= k < c[r].len() implies (#[trigger] c[r][k]).same(
                d[r][k],
                false,
            ) by {
                lemma_block_index(r, k, rolls, p, q);
                let at = (r * p + k) * q + q / 2;
                assert(a[i][at].same(b[i][at], false));
            }
        }
    }
}

/// What the layers say, taken back to scale, goes by values.
pub proof fn law_same_restored(
    a: Seq<Seq<Single>>,
    b: Seq<Seq<Single>>,
    s: Seq<RunningStats>,
    t: Seq<RunningStats>,
    plan: DecodePlan,
    config: TimesFM3Config,
)
    requires
        same_rows(a, b),
        plan.rolls > 0,
        config.quantiles@.len() > 0,
        is_even(a, plan.rolls * config.input_patch_len * config.quantiles@.len()),
        s.len() == a.len(),
        t.len() == a.len(),
        forall|i: int| 0 <= i < s.len() ==> same_stats(#[trigger] s[i], t[i]),
    ensures
        same_rows(restored_logits(a, s, plan, config), restored_logits(b, t, plan, config)),
{
    let (x, y) = (restored_logits(a, s, plan, config), restored_logits(b, t, plan, config));
    let (rolls, p, q) = (
        plan.rolls as int,
        config.input_patch_len as int,
        config.quantiles@.len() as int,
    );
    let bound = config.value_clip.narrowed();
    let hidden = refined_patches(plan, config);
    lemma_same_medians(a, b, rolls, p, q);
    assert forall|i: int| 0 <= i < x.len() implies same_run(#[trigger] x[i], y[i], false) by {
        let (u, v) = (
            output_stats(a, s, hidden, rolls, p, q, bound, i),
            output_stats(b, t, hidden, rolls, p, q, bound, i),
        );
        assert(same_stats(s[i], t[i]));
        if let Some(h) = hidden {
            lemma_same_carry(
                median_blocks(a, rolls, p, q),
                median_blocks(b, rolls, p, q),
                s,
                t,
                h,
                rolls,
                p,
                bound,
                i + 1,
            );
        }
        assert(same_stats(u, v));
        assert(same_run(a[i], b[i], false));
        lemma_same_normalized(a[i], b[i], u, v, true);
        lemma_same_clipped(
            normalized_row(a[i], u.mu, u.sigma, true),
            normalized_row(b[i], v.mu, v.sigma, true),
            bound,
        );
    }
}

proof fn lemma_same_head(
    a: Seq<Seq<Single>>,
    b: Seq<Seq<Single>>,
    patch_len: int,
    overlap: int,
    n: int,
)
    requires
        same_rows(a, b),
        is_even(a, patch_len + overlap),
        0 <= n < a.len(),
        patch_len >= 0,
        overlap >= 0,
        n > 0 ==> overlap <= patch_len,
    ensures
        same_run(
            stitched_head(a, patch_len, overlap, n),
            stitched_head(b, patch_len, overlap, n),
            false,
        ),
    decreases n,
{
    assert(same_run(a[n], b[n], false));
    assert(a[n].len() == patch_len + overlap);
    if n == 0 {
        lemma_same_part(a[0], b[0], 0, patch_len);
        assert(a[0].take(patch_len) =~= a[0].subrange(0, patch_len));
        assert(b[0].take(patch_len) =~= b[0].subrange(0, patch_len));
    } else {
        lemma_same_head(a, b, patch_len, overlap, n - 1);
        assert(same_run(a[n - 1], b[n - 1], false));
        assert(a[n - 1].len() == patch_len + overlap);
        let (x, y) = (
            transition(a, n, patch_len, overlap),
            transition(b, n, patch_len, overlap),
        );
        assert forall|j: int| 0 <= j < x.len() implies (#[trigger] x[j]).same(y[j], false) by {
            assert(a[n][j].same(b[n][j], false));
            if j < overlap {
                let w = weight_spec(j, overlap);
                let rest = one().minus(w);
                let (c, d) = (a[n - 1][patch_len + j], b[n - 1][patch_len + j]);
                assert(c.same(d, false));
                lemma_self(w);
                lemma_self(rest);
                law_same_product(c, w, d, w, false, false);
                law_same_product(a[n][j], rest, b[n][j], rest, false, false);
                law_same_sum(c.times(w), a[n][j].times(rest), d.times(w), b[n][j].times(rest), false);
                assert(x[j] == mixed(c, a[n][j], w) && y[j] == mixed(d, b[n][j], w));
            }
        }
        lemma_same_joined(
            stitched_head(a, patch_len, overlap, n - 1),
            x,
            stitched_head(b, patch_len, overlap, n - 1),
            y,
        );
    }
}

/// Stitching goes by values.
pub proof fn law_same_stitched(a: Seq<Seq<Single>>, b: Seq<Seq<Single>>, patch_len: int)
    requires
        same_rows(a, b),
        a.len() > 0,
        is_even(a, a[0].len() as int),
        0 <= patch_len <= a[0].len(),
        a.len() > 1 ==> a[0].len() <= 2 * patch_len,
    ensures
        same_run(stitched(a, patch_len), stitched(b, patch_len), false),
{
    let n = a.len() - 1;
    assert(same_run(a[0], b[0], false));
    assert(same_run(a[n], b[n], false));
    assert(a[n].len() == a[0].len());
    let overlap = a[0].len() - patch_len;
    lemma_same_head(a, b, patch_len, overlap, n);
    let len = a[n].len() as int;
    lemma_same_part(a[n], b[n], patch_len, len);
    assert(a[n].skip(patch_len) =~= a[n].subrange(patch_len, len));
    assert(b[n].skip(patch_len) =~= b[n].subrange(patch_len, len));
    lemma_same_joined(
        stitched_head(a, patch_len, overlap, n),
        a[n].skip(patch_len),
        stitched_head(b, patch_len, overlap, n),
        b[n].skip(patch_len),
    );
}

proof fn lemma_same_sources(
    a: Seq<Seq<Single>>,
    b: Seq<Seq<Single>>,
    plan: DecodePlan,
    p: int,
    o: int,
    q: int,
    level: int,
)
    requires
        same_rows(a, b),
        plan.is_for(p, o),
        a.len() == plan.total_patches,
        is_even(a, o * q),
        0 <= level < q,
    ensures
        same_rows(sources(a, plan, q, level), sources(b, plan, q, level)),
        is_even(sources(a, plan, q, level), plan.extract_len as int),
{
    law_answer_is_covered(plan, p, o);
    let (x, y) = (sources(a, plan, q, level), sources(b, plan, q, level));
    let e = plan.extract_len as int;
    assert(e * q <= o * q) by (nonlinear_arith)
        requires
            e <= o,
            q >= 0,
    ;
    assert forall|i: int| 0 <= i < x.len() implies same_run(#[trigger] x[i], y[i], false) by {
        let k = source_patch(plan, i);
        assert(same_run(a[k], b[k], false));
        assert(a[k].len() == o * q);
        let (c, d) = (level_row(a[k], q, level, e), level_row(b[k], q, level, e));
        assert forall|j: int| 0 <= j < c.len() implies (#[trigger] c[j]).same(d[j], false) by {
            lemma_level_index(j, q, level, e);
            assert(a[k][j * q + level].same(b[k][j * q + level], false));
        }
    }
}

/// Reading the forecast out of what the layers say goes by values.
pub proof fn law_same_answer_at(
    a: Seq<Seq<Single>>,
    b: Seq<Seq<Single>>,
    plan: DecodePlan,
    p: int,
    o: int,
    q: int,
    level: int,
    h: int,
    s: Option<(Line, bool)>,
    t: Option<(Line, bool)>,
)
    requires
        same_rows(a, b),
        plan.is_for(p, o),
        a.len() == plan.total_patches,
        is_even(a, o * q),
        0 <= level < q,
        0 <= h < plan.horizon,
        match (s, t) {
            (Some(x), Some(y)) => same_line(x.0, y.0) && x.1 == y.1,
            (None, None) => true,
            _ => false,
        },
    ensures
        answer_at(a, plan, p, q, level, h, s).same(answer_at(b, plan, p, q, level, h, t), false),
{
    lemma_same_sources(a, b, plan, p, o, q, level);
    law_answer_is_covered(plan, p, o);
    let (x, y) = (sources(a, plan, q, level), sources(b, plan, q, level));
    let e = plan.extract_len as int;
    assert(x[0].len() == e);
    if plan.use_stitching {
        law_same_stitched(x, y, p);
        law_stitched_length(x, p);
        assert(stitched(x, p)[h].same(stitched(y, p)[h], false));
    } else {
        let n = plan.num_forecast_patches as int;
        lemma_fundamental_div_mod(h, e);
        lemma_mod_bound(h, e);
        let k = h / e;
        assert(0 <= k < n) by (nonlinear_arith)
            requires
                h == e * k + h % e,
                0 <= h % e < e,
                0 <= h < n * e,
        ;
        assert(same_run(x[k], y[k], false));
        assert(x[k].len() == e);
        assert(x[k][h % e].same(y[k][h % e], false));
    }
    let (u, v) = (plain_answer(a, plan, p, q, level, h), plain_answer(b, plan, p, q, level, h));
    assert(u.same(v, false));
    if let Some((l, applied)) = s {
        let (m, _) = t->Some_0;
        let time = future_time_spec(h, plan.context as int);
        lemma_same_at(l, m, time);
        lemma_self(Single::zero());
        law_same_sum(
            u,
            trend_at(l, applied, h, plan.context as int),
            v,
            trend_at(m, applied, h, plan.context as int),
            false,
        );
    }
}

/// What the layers say goes by the values of what they are given.
pub open spec fn layers_go_by_value(
    layers: spec_fn(Seq<Seq<Seq<Single>>>, Seq<Seq<bool>>) -> Seq<Seq<Seq<Single>>>,
) -> bool {
    forall|a: Seq<Seq<Seq<Single>>>, b: Seq<Seq<Seq<Single>>>, blanks: Seq<Seq<bool>>|
        same_blocks(a, b) ==> same_blocks(#[trigger] layers(a, blanks), #[trigger] layers(b, blanks))
}

impl Decoding {
    /// The series are as long as their roles ask for, and the layers say something of each patch of
    /// each target: a number for each point of an output patch and each quantile level.
    pub open spec fn is_complete(
        self,
        plan: DecodePlan,
        layers: spec_fn(Seq<Seq<Seq<Single>>>, Seq<Seq<bool>>) -> Seq<Seq<Seq<Single>>>,
    ) -> bool {
        let raw = layers(self.tokens(plan), self.blanks(plan));
        &&& plan.is_for(
            self.config.input_patch_len as int,
            self.config.output_patch_len as int,
        )
        &&& self.config.quantiles@.len() > 0
        &&& are_long_enough(self.targets, self.common, Role::Target, plan)
        &&& are_long_enough(self.past_only, self.common, Role::PastOnly, plan)
        &&& are_long_enough(self.past_future, self.common, Role::PastFuture, plan)
        &&& raw.len() >= self.targets.len()
        &&& forall|v: int|
            0 <= v < self.targets.len() ==> (#[trigger] raw[v]).len() == plan.total_patches
                && is_even(raw[v], self.config.output_patch_len * self.config.quantiles@.len())
    }
}

/// The series are as long as a role asks for.
pub open spec fn are_long_enough(
    series: Seq<Series>,
    common: Option<Vec<Single>>,
    role: Role,
    plan: DecodePlan,
) -> bool {
    forall|i: int|
        0 <= i < series.len() ==> is_long_enough(
            #[trigger] series[i],
            common,
            plan,
            needed_length(role, plan),
        )
}

/// As many series, one by one equal in value and with the same masks.
pub open spec fn are_same_series(a: Seq<Series>, b: Seq<Series>) -> bool {
    a.len() == b.len() && forall|i: int|
        0 <= i < a.len() ==> same_series(#[trigger] a[i], b[i])
}

/// Forecasts to be made of series that are equal in value.
pub open spec fn same_decoding(d: Decoding, e: Decoding) -> bool {
    &&& d.config == e.config
    &&& same_mask(d.common, e.common)
    &&& are_same_series(d.targets, e.targets)
    &&& are_same_series(d.past_only, e.past_only)
    &&& are_same_series(d.past_future, e.past_future)
}

proof fn lemma_same_lanes(d: Decoding, e: Decoding, plan: DecodePlan, i: int)
    requires
        same_decoding(d, e),
        d.config.input_patch_len > 0,
        are_long_enough(d.targets, d.common, Role::Target, plan),
        are_long_enough(d.past_only, d.common, Role::PastOnly, plan),
        are_long_enough(d.past_future, d.common, Role::PastFuture, plan),
        0 <= i < d.lanes(plan).len(),
    ensures
        d.lanes(plan).len() == e.lanes(plan).len(),
        same_lane(d.lanes(plan)[i], e.lanes(plan)[i]),
{
    let (n, m) = (d.targets.len() as int, d.past_only.len() as int);
    let (role, a, b) = if i < n {
        (Role::Target, d.targets[i], e.targets[i])
    } else if i < n + m {
        (Role::PastOnly, d.past_only[i - n], e.past_only[i - n])
    } else {
        (Role::PastFuture, d.past_future[i - n - m], e.past_future[i - n - m])
    };
    assert(same_series(a, b));
    assert(is_long_enough(a, d.common, plan, needed_length(role, plan)));
    law_same_lane(a, b, d.common, e.common, role, plan, d.config);
    assert(d.lanes(plan)[i] == lane_for(a, d.common, role, plan, d.config));
    assert(e.lanes(plan)[i] == lane_for(b, e.common, role, plan, d.config));
}

proof fn lemma_same_inputs(d: Decoding, e: Decoding, plan: DecodePlan)
    requires
        same_decoding(d, e),
        d.config.input_patch_len > 0,
        are_long_enough(d.targets, d.common, Role::Target, plan),
        are_long_enough(d.past_only, d.common, Role::PastOnly, plan),
        are_long_enough(d.past_future, d.common, Role::PastFuture, plan),
    ensures
        same_blocks(d.tokens(plan), e.tokens(plan)),
        d.blanks(plan) == e.blanks(plan),
{
    let (x, y) = (d.tokens(plan), e.tokens(plan));
    assert(d.lanes(plan).len() == e.lanes(plan).len());
    assert forall|i: int| 0 <= i < x.len() implies same_rows(#[trigger] x[i], y[i]) by {
        lemma_same_lanes(d, e, plan, i);
        let (a, b) = (d.lanes(plan)[i], e.lanes(plan)[i]);
        assert forall|k: int| 0 <= k < x[i].len() implies same_run(
            #[trigger] x[i][k],
            y[i][k],
            false,
        ) by {
            law_same_tokens(a, b, k);
        }
    }
    assert forall|i: int| 0 <= i < x.len() implies #[trigger] d.blanks(plan)[i] == e.blanks(
        plan,
    )[i] by {
        lemma_same_lanes(d, e, plan, i);
        let (a, b) = (d.lanes(plan)[i], e.lanes(plan)[i]);
        assert forall|k: int| 0 <= k < a.values.len() implies a.is_blank_up_to(k)
            == b.is_blank_up_to(k) by {
            law_same_tokens(a, b, k);
        }
        assert(d.blanks(plan)[i] =~= e.blanks(plan)[i]);
    }
    assert(d.blanks(plan) =~= e.blanks(plan));
}

proof fn lemma_lane_length(
    s: Series,
    common: Option<Vec<Single>>,
    plan: DecodePlan,
    config: TimesFM3Config,
)
    requires
        plan.is_for(config.input_patch_len as int, config.output_patch_len as int),
        is_long_enough(s, common, plan, needed_length(Role::Target, plan)),
    ensures
        lane_for(s, common, Role::Target, plan, config).values.len() == plan.total_patches,
{
    let p = config.input_patch_len as int;
    law_padding(plan, p, config.output_patch_len as int);
    let row = clipped_row(
        window_values(s, common, Role::Target, plan, config),
        config.value_clip.narrowed(),
    );
    assert(row.len() == plan.context + plan.padded_horizon);
    lemma_cut_rows(row, p, plan.total_patches as int);
}

/// A forecast goes by the values of the points as far as the layers do: of series that are equal in
/// value, with the same masks, the forecasts are equal in value.
pub proof fn law_same_forecast(
    d: Decoding,
    e: Decoding,
    plan: DecodePlan,
    layers: spec_fn(Seq<Seq<Seq<Single>>>, Seq<Seq<bool>>) -> Seq<Seq<Seq<Single>>>,
    v: int,
    h: int,
    level: int,
)
    requires
        same_decoding(d, e),
        layers_go_by_value(layers),
        d.is_complete(plan, layers),
        0 <= v < d.targets.len(),
        0 <= h < plan.horizon,
        0 <= level < d.config.quantiles@.len(),
    ensures
        d.answer(plan, layers, v, h, level).same(e.answer(plan, layers, v, h, level), false),
{
    let (p, o, q) = (
        d.config.input_patch_len as int,
        d.config.output_patch_len as int,
        d.config.quantiles@.len() as int,
    );
    lemma_same_inputs(d, e, plan);
    lemma_same_lanes(d, e, plan, v);
    let (a, b) = (d.lanes(plan)[v], e.lanes(plan)[v]);
    let (x, y) = (
        layers(d.tokens(plan), d.blanks(plan)),
        layers(e.tokens(plan), e.blanks(plan)),
    );
    assert(same_blocks(x, y));
    assert(same_rows(x[v], y[v]));
    assert(x[v].len() == plan.total_patches);
    let s = Seq::new(a.values.len(), |i: int| a.stats(i));
    let t = Seq::new(b.values.len(), |i: int| b.stats(i));
    assert forall|i: int| 0 <= i < s.len() implies same_stats(#[trigger] s[i], t[i]) by {
        law_same_tokens(a, b, i);
    }
    assert(same_series(d.targets[v], e.targets[v]));
    assert(is_long_enough(d.targets[v], d.common, plan, needed_length(Role::Target, plan)));
    lemma_lane_length(d.targets[v], d.common, plan, d.config);
    assert(a == lane_for(d.targets[v], d.common, Role::Target, plan, d.config));
    lemma_fundamental_div_mod(o, p);
    lemma_mul_is_commutative(plan.rolls as int, p);
    assert(plan.rolls * p == o);
    assert(plan.rolls >= 1) by (nonlinear_arith)
        requires
            plan.rolls * p == o,
            o >= p,
            p > 0,
    ;
    law_same_restored(x[v], y[v], s, t, plan, d.config);
    law_same_lane(
        d.targets[v],
        e.targets[v],
        d.common,
        e.common,
        Role::Target,
        plan,
        d.config,
    );
    let (f, g) = (
        restored_logits(x[v], s, plan, d.config),
        restored_logits(y[v], t, plan, d.config),
    );
    assert forall|i: int| 0 <= i < f.len() implies (#[trigger] f[i]).len() == o * q by {
        assert(x[v][i].len() == o * q);
    }
    let (m, n) = if d.config.use_linear_detrending {
        (
            Some(trend_for(d.targets[v], d.common, plan, d.config)),
            Some(trend_for(e.targets[v], e.common, plan, d.config)),
        )
    } else {
        (None, None)
    };
    law_same_answer_at(f, g, plan, p, o, q, level, h, m, n);
}

} // verus!
