//! How much of a forecast is padded, and which patches its answer is read from.

use vstd::arithmetic::div_mod::*;
use vstd::arithmetic::mul::*;
use vstd::prelude::*;
use vstd::string::*;

use crate::config::TimesFM3Config;
use crate::error::TimesfmError;
use crate::ieee::scalar::Single;
use crate::rows::one;

verus! {

/// The layout of one forecast. Lengths are in points unless they are said to be in patches.
#[derive(Debug, Clone)]
pub struct DecodePlan {
    /// The context with its padding.
    pub context: usize,
    /// The points put before the context to fill its first patch.
    pub ctx_padding: usize,
    pub horizon: usize,
    pub padded_horizon: usize,
    /// The points put behind the horizon.
    pub hor_padding: usize,
    /// How many input patches make an output patch.
    pub rolls: usize,
    /// How many points of an output patch are used.
    pub extract_len: usize,
    /// How many output patches the forecast is put together from.
    pub num_forecast_patches: usize,
    pub num_context_patches: usize,
    pub num_horizon_patches: usize,
    pub total_patches: usize,
    /// The patch whose statistics stand for all later ones.
    pub freeze_after: Option<usize>,
    pub use_stitching: bool,
}

/// The points that are missing to a multiple of `p`.
pub open spec fn shortfall(n: int, p: int) -> int {
    (p - n % p) % p
}

/// `n / d`, rounded up.
pub open spec fn ceiling(n: int, d: int) -> int {
    (n + d - 1) / d
}

/// How many points of an output patch are used: two input patches, if it is as long.
pub open spec fn extract_length(p: int, o: int, stitch: bool) -> int {
    if stitch && 2 * p < o {
        2 * p
    } else {
        o
    }
}

/// How many output patches it takes to cover the horizon when each goes on one input patch behind
/// the one before: the last one also covers what it overlaps.
pub open spec fn stitched_patches(horizon: int, p: int, o: int) -> int {
    let overlap = extract_length(p, o, true) - p;
    if horizon <= overlap {
        1
    } else {
        ceiling(horizon - overlap, p)
    }
}

/// The horizon with its padding.
pub open spec fn padded_length(horizon: int, p: int, o: int, stitch: bool) -> int {
    if stitch {
        (stitched_patches(horizon, p, o) + o / p - 1) * p
    } else {
        horizon + shortfall(horizon, o)
    }
}

/// The layout of a forecast of `horizon` points from `context` points.
pub open spec fn is_plan(
    plan: DecodePlan,
    p: int,
    o: int,
    stitch: bool,
    freeze: bool,
    context: int,
    horizon: int,
) -> bool {
    &&& plan.ctx_padding == shortfall(context, p)
    &&& plan.context == context + shortfall(context, p)
    &&& plan.horizon == horizon
    &&& plan.padded_horizon == padded_length(horizon, p, o, stitch)
    &&& plan.hor_padding == padded_length(horizon, p, o, stitch) - horizon
    &&& plan.rolls == o / p
    &&& plan.extract_len == extract_length(p, o, stitch)
    &&& plan.num_forecast_patches == if stitch {
        stitched_patches(horizon, p, o)
    } else {
        padded_length(horizon, p, o, false) / o
    }
    &&& plan.num_context_patches == plan.context as int / p
    &&& plan.num_horizon_patches == plan.padded_horizon as int / p
    &&& plan.total_patches == plan.num_context_patches + plan.num_horizon_patches
    &&& plan.freeze_after == if freeze {
        Some((plan.num_context_patches - 1) as usize)
    } else {
        None
    }
    &&& plan.use_stitching == stitch
}

/// The padded horizon is at least as long as the horizon.
pub open spec fn fits(horizon: int, p: int, o: int, stitch: bool) -> bool {
    stitch && horizon > 0 ==> horizon <= padded_length(horizon, p, o, true)
}

/// The patch whose output makes part `i` of the answer: the last patch of the context, then each
/// one behind it, or, without stitching, each one an output patch further on.
pub open spec fn source_patch(plan: DecodePlan, i: int) -> int {
    if plan.use_stitching {
        plan.num_context_patches - 1 + i
    } else {
        plan.num_context_patches - 1 + i * plan.rolls
    }
}

impl DecodePlan {
    /// The plan is one for input patches of `p` points and output patches of `o` points, a whole
    /// number of input patches.
    pub open spec fn is_for(self, p: int, o: int) -> bool {
        let context = self.context - self.ctx_padding;
        &&& p > 0
        &&& o >= p
        &&& o % p == 0
        &&& context > 0
        &&& self.horizon > 0
        &&& is_plan(
            self,
            p,
            o,
            self.use_stitching,
            self.freeze_after is Some,
            context,
            self.horizon as int,
        )
    }
}

/// How long the horizon is: as long as the covariates that are known ahead reach beyond the
/// context, where there are any.
pub open spec fn effective_horizon(context: int, horizon: int, future_len: Option<usize>) -> int {
    match future_len {
        Some(n) => n - context,
        None => horizon,
    }
}

/// Two whole numbers of patches, and what lies between them.
proof fn lemma_shortfall(n: int, p: int)
    requires
        n >= 0,
        p > 0,
    ensures
        0 <= shortfall(n, p) < p,
        (n + shortfall(n, p)) % p == 0,
        n % p == 0 ==> shortfall(n, p) == 0,
        0 <= n % p < p,
{
    lemma_mod_bound(n, p);
    if n % p == 0 {
        lemma_mod_self_0(p);
    } else {
        lemma_small_mod((p - n % p) as nat, p as nat);
        lemma_fundamental_div_mod(n, p);
        let q = n / p;
        assert(n + (p - n % p) == (q + 1) * p) by (nonlinear_arith)
            requires
                n == p * q + n % p,
        ;
        lemma_mod_multiples_basic(q + 1, p);
    }
}

/// A length that was brought up to a multiple needs no more.
pub proof fn lemma_padded(n: int, p: int)
    requires
        n >= 0,
        p > 0,
    ensures
        shortfall(n + shortfall(n, p), p) == 0,
        0 <= shortfall(n, p) < p,
{
    lemma_shortfall(n, p);
    lemma_shortfall(n + shortfall(n, p), p);
}

proof fn lemma_ceiling(n: int, d: int)
    requires
        n > 0,
        d > 0,
    ensures
        ceiling(n, d) >= 1,
        ceiling(n, d) * d >= n,
        ceiling(n, d) * d < n + d,
        ceiling(n, d) <= n,
{
    lemma_fundamental_div_mod(n + d - 1, d);
    lemma_mod_bound(n + d - 1, d);
    let q = ceiling(n, d);
    lemma_mul_is_commutative(q, d);
    assert(q >= 1) by (nonlinear_arith)
        requires
            d * q > n - 1,
            n > 0,
            d > 0,
    ;
    assert(q <= n) by (nonlinear_arith)
        requires
            d * q < n + d,
            n > 0,
            d > 0,
    ;
}

/// What the lengths come to.
proof fn lemma_lengths(horizon: int, p: int, o: int, stitch: bool)
    requires
        horizon > 0,
        p > 0,
        o >= p,
    ensures
        o / p >= 1,
        (o / p) * p <= o,
        stitch ==> 1 <= stitched_patches(horizon, p, o) <= horizon,
        stitch ==> stitched_patches(horizon, p, o) * p + extract_length(p, o, true) - p >= horizon,
        stitch ==> padded_length(horizon, p, o, true) < horizon + o + p,
        stitch ==> padded_length(horizon, p, o, true) % p == 0,
        !stitch ==> horizon <= padded_length(horizon, p, o, false) < horizon + o,
        !stitch ==> padded_length(horizon, p, o, false) % o == 0,
{
    lemma_fundamental_div_mod(o, p);
    lemma_mod_bound(o, p);
    let rolls = o / p;
    lemma_mul_is_commutative(rolls, p);
    assert(rolls >= 1) by (nonlinear_arith)
        requires
            p * rolls > o - p,
            o >= p,
            p > 0,
    ;
    lemma_shortfall(horizon, o);
    if stitch {
        let overlap = extract_length(p, o, true) - p;
        let nfp = stitched_patches(horizon, p, o);
        if horizon > overlap {
            lemma_ceiling(horizon - overlap, p);
        } else {
            lemma_mul_basics(p);
        }
        lemma_mod_multiples_basic(nfp + rolls - 1, p);
        assert((nfp + rolls - 1) * p == nfp * p + rolls * p - p) by (nonlinear_arith);
    }
}

/// How many output patches are stitched together, and the padded horizon.
fn lay_stitches(horizon: usize, p: usize, o: usize) -> (r: (usize, usize))
    requires
        horizon > 0,
        p > 0,
        o >= p,
        horizon + 2 * o + p <= usize::MAX,
    ensures
        r.0 == stitched_patches(horizon as int, p as int, o as int),
        r.1 == padded_length(horizon as int, p as int, o as int, true),
{
    proof {
        lemma_lengths(horizon as int, p as int, o as int, true);
    }
    let extract_len = if p < o - p {
        2 * p
    } else {
        o
    };
    let overlap = extract_len - p;
    let nfp = if horizon <= overlap {
        1
    } else {
        (horizon - overlap + p - 1) / p
    };
    proof {
        let n = nfp + o as int / p as int - 1;
        assert(n <= n * p) by (nonlinear_arith)
            requires
                n >= 0,
                p >= 1,
        ;
    }
    (nfp, (nfp + o / p - 1) * p)
}

/// Whole patches in a padded context.
proof fn lemma_patch_counts(context: int, padded_horizon: int, p: int, o: int)
    requires
        context > 0,
        padded_horizon >= 0,
        p > 0,
        o >= p,
        context % p == 0,
    ensures
        1 <= context / p <= context,
        0 <= padded_horizon / p <= padded_horizon,
        0 <= o / p <= o,
{
    lemma_fundamental_div_mod(context, p);
    assert(context / p >= 1) by (nonlinear_arith)
        requires
            context == p * (context / p),
            context > 0,
            p > 0,
    ;
    lemma_div_is_ordered_by_denominator(context, 1, p);
    lemma_div_is_ordered_by_denominator(padded_horizon, 1, p);
    lemma_div_is_ordered_by_denominator(o, 1, p);
    lemma_div_basics(context);
    lemma_div_basics(padded_horizon);
    lemma_div_basics(o);
    lemma_div_pos_is_pos(padded_horizon, p);
    lemma_div_pos_is_pos(o, p);
}

/// Lays out a forecast. `future_len` is the length of the covariates that are known ahead.
pub fn plan_decode(
    config: &TimesFM3Config,
    context: usize,
    horizon: usize,
    future_len: Option<usize>,
) -> (r: Result<DecodePlan, TimesfmError>)
    requires
        context > 0,
        future_len matches Some(n) ==> n >= context,
        config.input_patch_len > 0,
        config.output_patch_len >= config.input_patch_len,
        context + effective_horizon(context as int, horizon as int, future_len) + 3
            * config.output_patch_len + 2 * config.input_patch_len <= usize::MAX,
        fits(
            effective_horizon(context as int, horizon as int, future_len),
            config.input_patch_len as int,
            config.output_patch_len as int,
            config.use_stitching,
        ),
    ensures
        ({
            let h = effective_horizon(context as int, horizon as int, future_len);
            if h == 0 {
                r matches Err(TimesfmError::Candle(m)) && m@ == "Decode requires horizon > 0"@
            } else {
                r matches Ok(plan) && is_plan(
                    plan,
                    config.input_patch_len as int,
                    config.output_patch_len as int,
                    config.use_stitching,
                    config.use_frozen_running_stats,
                    context as int,
                    h,
                ) && plan.total_patches + plan.rolls < usize::MAX
            }
        }),
{
    let horizon = match future_len {
        Some(n) => n - context,
        None => horizon,
    };
    if horizon == 0 {
        return Err(TimesfmError::Candle("Decode requires horizon > 0".to_owned()));
    }
    let p = config.input_patch_len;
    let o = config.output_patch_len;
    let stitch = config.use_stitching;
    proof {
        lemma_shortfall(context as int, p as int);
        lemma_shortfall(horizon as int, o as int);
        lemma_lengths(horizon as int, p as int, o as int, stitch);
    }
    let ctx_padding = (p - context % p) % p;
    let context = context + ctx_padding;
    let rolls = o / p;
    let extract_len = if stitch && p < o - p {
        2 * p
    } else {
        o
    };
    let (num_forecast_patches, padded_horizon) = if stitch {
        lay_stitches(horizon, p, o)
    } else {
        let ph = horizon + (o - horizon % o) % o;
        (ph / o, ph)
    };
    proof {
        lemma_patch_counts(context as int, padded_horizon as int, p as int, o as int);
    }
    let num_context_patches = context / p;
    let num_horizon_patches = padded_horizon / p;
    Ok(
        DecodePlan {
            context,
            ctx_padding,
            horizon,
            padded_horizon,
            hor_padding: padded_horizon - horizon,
            rolls,
            extract_len,
            num_forecast_patches,
            num_context_patches,
            num_horizon_patches,
            total_patches: num_context_patches + num_horizon_patches,
            freeze_after: if config.use_frozen_running_stats {
                Some(num_context_patches - 1)
            } else {
                None
            },
            use_stitching: stitch,
        },
    )
}

/// One for each patch of the horizon, zero for each patch of the context.
pub open spec fn horizon_marks(plan: DecodePlan) -> Seq<Single> {
    Seq::new(
        plan.total_patches as nat,
        |i: int|
            if i >= plan.num_context_patches {
                one()
            } else {
                Single::zero()
            },
    )
}

/// Marks the patches of the horizon.
pub fn mark_horizon(plan: &DecodePlan) -> (r: Vec<Single>)
    ensures
        r@ == horizon_marks(*plan),
{
    let mut r: Vec<Single> = Vec::new();
    let mut i: usize = 0;
    while i < plan.total_patches
        invariant
            i <= plan.total_patches,
            r@.len() == i,
            forall|k: int| 0 <= k < i ==> r@[k] == horizon_marks(*plan)[k],
        decreases plan.total_patches - i,
    {
        r.push(
            if i >= plan.num_context_patches {
                one()
            } else {
                Single::zero()
            },
        );
        i = i + 1;
    }
    assert(r@ =~= horizon_marks(*plan));
    r
}

/// Whether patches of these lengths can be laid out so that they cover the horizon.
pub fn horizon_fits(config: &TimesFM3Config, horizon: usize) -> (r: bool)
    requires
        config.input_patch_len > 0,
        config.output_patch_len >= config.input_patch_len,
        horizon + 2 * config.output_patch_len + config.input_patch_len <= usize::MAX,
    ensures
        r == fits(
            horizon as int,
            config.input_patch_len as int,
            config.output_patch_len as int,
            config.use_stitching,
        ),
{
    let p = config.input_patch_len;
    let o = config.output_patch_len;
    if !config.use_stitching || horizon == 0 {
        return true;
    }
    let (_, padded_horizon) = lay_stitches(horizon, p, o);
    horizon <= padded_horizon
}

/// Where an output patch is a whole number of input patches, every horizon can be covered.
pub proof fn law_whole_patches_fit(horizon: int, p: int, o: int, stitch: bool)
    requires
        p > 0,
        o >= p,
        o % p == 0,
    ensures
        fits(horizon, p, o, stitch),
{
    if horizon > 0 && stitch {
        lemma_lengths(horizon, p, o, true);
        lemma_fundamental_div_mod(o, p);
        let rolls = o / p;
        let nfp = stitched_patches(horizon, p, o);
        lemma_mul_is_commutative(rolls, p);
        assert((nfp + rolls - 1) * p == nfp * p + rolls * p - p) by (nonlinear_arith);
    }
}

/// The padded context and the padded horizon are whole numbers of patches, the padding of the
/// context is less than a patch, and nothing of either is lost.
pub proof fn law_padding(plan: DecodePlan, p: int, o: int)
    requires
        plan.is_for(p, o),
    ensures
        plan.context as int % p == 0,
        plan.ctx_padding < p,
        plan.padded_horizon as int % p == 0,
        plan.padded_horizon >= plan.horizon,
        plan.total_patches * p == plan.context + plan.padded_horizon,
        plan.num_context_patches >= 1,
{
    let stitch = plan.use_stitching;
    let horizon = plan.horizon as int;
    lemma_shortfall(plan.context - plan.ctx_padding, p);
    lemma_lengths(horizon, p, o, stitch);
    law_whole_patches_fit(horizon, p, o, stitch);
    let ph = plan.padded_horizon as int;
    if !stitch {
        // a multiple of the output patch is one of the input patch
        lemma_fundamental_div_mod(ph, o);
        lemma_fundamental_div_mod(o, p);
        let a = ph / o;
        let b = o / p;
        assert(ph == (a * b) * p) by (nonlinear_arith)
            requires
                ph == o * a,
                o == p * b,
        ;
        lemma_mod_multiples_basic(a * b, p);
    }
    lemma_fundamental_div_mod(ph, p);
    lemma_fundamental_div_mod(plan.context as int, p);
    let c = plan.num_context_patches as int;
    let h = plan.num_horizon_patches as int;
    assert(plan.total_patches * p == plan.context + ph) by (nonlinear_arith)
        requires
            plan.total_patches == c + h,
            plan.context == p * c,
            ph == p * h,
    ;
    assert(c >= 1) by (nonlinear_arith)
        requires
            plan.context == p * c,
            plan.context > 0,
            p > 0,
    ;
}

/// The patches that the answer is read from are among those that the model gives, and what is read
/// from them covers the horizon.
pub proof fn law_answer_is_covered(plan: DecodePlan, p: int, o: int)
    requires
        plan.is_for(p, o),
    ensures
        plan.num_forecast_patches >= 1,
        forall|i: int|
            0 <= i < plan.num_forecast_patches ==> 0 <= #[trigger] source_patch(plan, i)
                < plan.total_patches,
        plan.use_stitching ==> plan.num_forecast_patches * p + (plan.extract_len - p)
            >= plan.horizon,
        !plan.use_stitching ==> plan.num_forecast_patches * o >= plan.horizon,
{
    let stitch = plan.use_stitching;
    let horizon = plan.horizon as int;
    law_padding(plan, p, o);
    lemma_lengths(horizon, p, o, stitch);
    let c = plan.num_context_patches as int;
    let h = plan.num_horizon_patches as int;
    let n = plan.num_forecast_patches as int;
    let ph = plan.padded_horizon as int;
    let rolls = plan.rolls as int;
    lemma_fundamental_div_mod(o, p);
    lemma_fundamental_div_mod(ph, p);
    if stitch {
        assert(h == n + rolls - 1) by (nonlinear_arith)
            requires
                p * h == (n + rolls - 1) * p,
                p > 0,
        ;
    } else {
        lemma_fundamental_div_mod(ph, o);
        lemma_mul_is_commutative(n, o);
        assert(h == n * rolls) by (nonlinear_arith)
            requires
                p * h == o * n,
                o == p * rolls,
                p > 0,
        ;
        assert(n >= 1) by (nonlinear_arith)
            requires
                o * n >= horizon,
                horizon > 0,
                o > 0,
        ;
        assert forall|i: int| 0 <= i < n implies 0 <= #[trigger] source_patch(plan, i)
            < plan.total_patches by {
            assert(0 <= i * rolls && i * rolls + rolls <= n * rolls) by (nonlinear_arith)
                requires
                    0 <= i < n,
                    rolls >= 1,
            ;
        }
    }
}

/// The lengths of a plan are the least that will do: the context is padded to the next whole patch;
/// with stitching there are as few output patches as cover the horizon when each goes on one input
/// patch behind the one before, and the padded horizon is what they all reach; without it the horizon
/// is padded to the next whole output patch.
pub proof fn law_plan_is_the_least(
    plan: DecodePlan,
    p: int,
    o: int,
    stitch: bool,
    freeze: bool,
    context: int,
    horizon: int,
)
    requires
        is_plan(plan, p, o, stitch, freeze, context, horizon),
        p > 0,
        o >= p,
        context > 0,
        horizon > 0,
    ensures
        plan.horizon == horizon,
        plan.use_stitching == stitch,
        plan.context == context + plan.ctx_padding,
        plan.context as int % p == 0,
        plan.ctx_padding < p,
        plan.rolls == o / p,
        plan.hor_padding == plan.padded_horizon - horizon,
        plan.num_context_patches * p == plan.context,
        plan.total_patches == plan.num_context_patches + plan.padded_horizon as int / p,
        freeze ==> plan.freeze_after is Some && plan.freeze_after->Some_0
            == plan.num_context_patches - 1,
        !freeze ==> plan.freeze_after is None,
        ({
            let reach = if stitch && 2 * p < o {
                2 * p
            } else {
                o
            };
            let n = plan.num_forecast_patches as int;
            &&& plan.extract_len == reach
            &&& stitch ==> n >= 1 && (n - 1) * p + reach >= horizon && (n > 1 ==> (n - 2) * p
                + reach < horizon) && plan.padded_horizon == (n + o / p - 1) * p
            &&& !stitch ==> plan.padded_horizon as int % o == 0 && horizon <= plan.padded_horizon
                < horizon + o && n == plan.padded_horizon as int / o
        }),
{
    lemma_shortfall(context, p);
    let c = plan.context as int;
    lemma_fundamental_div_mod(c, p);
    lemma_mul_is_commutative(p, c / p);
    assert(c >= p) by {
        if c < p {
            lemma_small_mod(c as nat, p as nat);
        }
    }
    lemma_div_is_ordered(p, c, p);
    lemma_div_multiples_vanish(1, p);
    assert(c / p >= 1);
    if stitch {
        let reach = extract_length(p, o, true);
        let overlap = reach - p;
        let n = stitched_patches(horizon, p, o);
        if horizon > overlap {
            let x = horizon - overlap;
            lemma_fundamental_div_mod(x + p - 1, p);
            lemma_mod_bound(x + p - 1, p);
            let r = (x + p - 1) % p;
            assert(p * n + r == x + p - 1);
            lemma_mul_is_commutative(p, n);
            assert(n >= 1) by (nonlinear_arith)
                requires
                    n * p + r == x + p - 1,
                    r < p,
                    x >= 1,
                    p > 0,
            ;
            assert((n - 1) * p == n * p - p && (n - 2) * p == n * p - 2 * p) by (nonlinear_arith);
        } else {
            assert((1 - 1) * p == 0);
        }
    } else {
        lemma_shortfall(horizon, o);
    }
}

/// A horizon fits exactly where what the least number of stitched patches reaches covers it; without
/// stitching, and of whole patches, any horizon does.
pub proof fn law_when_a_horizon_fits(horizon: int, p: int, o: int, n: int)
    requires
        p > 0,
        o >= p,
        horizon > 0,
        n >= 1,
        ({
            let reach = if 2 * p < o {
                2 * p
            } else {
                o
            };
            (n - 1) * p + reach >= horizon && (n > 1 ==> (n - 2) * p + reach < horizon)
        }),
    ensures
        fits(horizon, p, o, false),
        fits(horizon, p, o, true) <==> horizon <= (n + o / p - 1) * p,
        stitched_patches(horizon, p, o) == n,
        padded_length(horizon, p, o, true) == (n + o / p - 1) * p,
{
    let reach = extract_length(p, o, true);
    let overlap = reach - p;
    let m = stitched_patches(horizon, p, o);
    assert((n - 1) * p == n * p - p && (n - 2) * p == n * p - 2 * p) by (nonlinear_arith);
    if horizon > overlap {
        let x = horizon - overlap;
        lemma_fundamental_div_mod(x + p - 1, p);
        lemma_mod_bound(x + p - 1, p);
        let r = (x + p - 1) % p;
        lemma_mul_is_commutative(p, m);
        assert(m * p + r == x + p - 1);
        assert(m == n) by (nonlinear_arith)
            requires
                m * p + r == x + p - 1,
                0 <= r < p,
                n * p >= x,
                n > 1 ==> n * p - p < x,
                n >= 1,
                x >= 1,
                p > 0,
        ;
    } else {
        assert(n == 1) by (nonlinear_arith)
            requires
                n >= 1,
                n > 1 ==> n * p - 2 * p + (overlap + p) < horizon,
                horizon <= overlap,
                p > 0,
        ;
    }
}

} // verus!
