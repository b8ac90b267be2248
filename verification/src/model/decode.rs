//! A forecast from end to end, but for the layers: what they are given of each series, and what is
//! made of what they give back.

use vstd::arithmetic::div_mod::*;
use vstd::arithmetic::mul::*;
use vstd::prelude::*;

use super::answer::{answer_at, plain_answer, read_answer, sources};
use super::detrend::{fitted_line, is_trending, Line};
use super::patches::is_even;
use super::plan::{
    effective_horizon, horizon_marks, is_plan, law_padding, lemma_padded, mark_horizon, shortfall,
    DecodePlan,
};
use super::running::{normalized_row, same_shape, RunningStats};
use super::tokens::{lane_of, optional_flags, output_stats, postprocess, preprocess, Lane, Tokens};
use super::window::{
    context_mask, context_values, cut, cut_row, future_mask, future_values, future_window,
    is_future_window, is_long_enough, is_past_window, past_window, seen_context, unknown_horizon,
    Series, Window,
};
use crate::config::TimesFM3Config;
use crate::ieee::scalar::{Double, Single};
use crate::rows::{
    clip_row, clipped_row, constant, is_masked, one, repeated, rows_view, silenced,
};
use super::cpm::carry_after;
use super::tokens::median_blocks;

verus! {

/// What a series is to a forecast.
#[derive(Debug, Clone, Copy, PartialEq, Eq, Structural)]
pub enum Role {
    /// It is to be forecast.
    Target,
    /// It is known up to now.
    PastOnly,
    /// It is known ahead.
    PastFuture,
}

/// How long a series in a role has to be.
pub open spec fn needed_length(role: Role, plan: DecodePlan) -> int {
    let context = plan.context - plan.ctx_padding;
    if role == Role::PastFuture {
        context + plan.horizon
    } else {
        context
    }
}

/// The threshold for taking out a trend, where that is done.
pub open spec fn threshold_spec(config: TimesFM3Config) -> Option<Double> {
    if config.use_linear_detrending {
        Some(config.linear_detrending_threshold)
    } else {
        None
    }
}

/// The flags of a series: one at each patch, unless it is known ahead.
pub open spec fn role_flags(role: Role, plan: DecodePlan) -> Seq<Single> {
    constant(
        plan.total_patches as int,
        if role == Role::PastFuture {
            Single::zero()
        } else {
            one()
        },
    )
}

/// What the layers see of a series through its window.
pub open spec fn window_lane(w: Window, role: Role, plan: DecodePlan, config: TimesFM3Config) -> Lane {
    let p = config.input_patch_len as int;
    Lane {
        values: cut(clipped_row(w.values@, config.value_clip.narrowed()), p),
        masks: cut(w.masks@, p),
        targets: role_flags(role, plan),
        hidden: Some(horizon_marks(plan)),
        freeze_after: plan.freeze_after,
        rolls: plan.rolls as int,
        p,
    }
}

/// A series as the layers are given it.
#[derive(Debug, Clone)]
pub struct Encoded {
    pub window: Window,
    pub tokens: Tokens,
}

/// The tokens of a lane.
pub open spec fn are_tokens(t: Tokens, lane: Lane) -> bool {
    let n = lane.values.len();
    &&& rows_view(t.rows@) == Seq::new(n, |i: int| lane.token(i))
    &&& t.blank@ == Seq::new(n, |i: int| lane.is_blank_up_to(i))
    &&& t.stats@ == Seq::new(n, |i: int| lane.stats(i))
}

/// The window of a series in a role.
pub open spec fn is_window(
    w: Window,
    s: Series,
    common: Option<Vec<Single>>,
    role: Role,
    plan: DecodePlan,
    config: TimesFM3Config,
) -> bool {
    if role == Role::PastFuture {
        is_future_window(w, s, common, plan, threshold_spec(config))
    } else {
        is_past_window(w, s, common, plan, threshold_spec(config))
    }
}

/// The line through the context of a series, and whether it is taken out.
pub open spec fn trend_for(
    s: Series,
    common: Option<Vec<Single>>,
    plan: DecodePlan,
    config: TimesFM3Config,
) -> (Line, bool) {
    let values = context_values(s, plan);
    let mask = context_mask(s, common, plan);
    match threshold_spec(config) {
        Some(t) => (fitted_line(values, mask), is_trending(values, mask, t)),
        None => (Line { slope: Single::zero(), level: Single::zero() }, false),
    }
}

/// The points of a series that the layers see.
pub open spec fn window_values(
    s: Series,
    common: Option<Vec<Single>>,
    role: Role,
    plan: DecodePlan,
    config: TimesFM3Config,
) -> Seq<Single> {
    let (line, applied) = trend_for(s, common, plan, config);
    let context = seen_context(s, common, plan, line, applied);
    if role == Role::PastFuture {
        context + silenced(future_values(s, plan, line, applied), future_mask(s, plan)) + constant(
            plan.hor_padding as int,
            Single::zero(),
        )
    } else {
        context + unknown_horizon(plan, Single::zero())
    }
}

/// Which points of a series the layers do not see.
pub open spec fn window_masks(
    s: Series,
    common: Option<Vec<Single>>,
    role: Role,
    plan: DecodePlan,
) -> Seq<Single> {
    let context = context_mask(s, common, plan);
    if role == Role::PastFuture {
        context + future_mask(s, plan) + constant(plan.hor_padding as int, one())
    } else {
        context + unknown_horizon(plan, one())
    }
}

/// What the layers see of a series.
pub open spec fn lane_for(
    s: Series,
    common: Option<Vec<Single>>,
    role: Role,
    plan: DecodePlan,
    config: TimesFM3Config,
) -> Lane {
    let p = config.input_patch_len as int;
    let values = window_values(s, common, role, plan, config);
    Lane {
        values: cut(clipped_row(values, config.value_clip.narrowed()), p),
        masks: cut(window_masks(s, common, role, plan), p),
        targets: role_flags(role, plan),
        hidden: Some(horizon_marks(plan)),
        freeze_after: plan.freeze_after,
        rolls: plan.rolls as int,
        p,
    }
}

pub proof fn lemma_cut_rows(row: Seq<Single>, p: int, n: int)
    requires
        p > 0,
        row.len() == n * p,
        n >= 0,
    ensures
        row.len() as int % p == 0,
        cut(row, p).len() == n,
        is_even(cut(row, p), p),
{
    lemma_fundamental_div_mod_converse(row.len() as int, p, n, 0);
    assert forall|i: int| 0 <= i < n implies (#[trigger] cut(row, p)[i]).len() == p by {
        assert(0 <= i * p && i * p + p <= n * p) by (nonlinear_arith)
            requires
                0 <= i < n,
                p > 0,
        ;
    }
}

/// Turns a series into what the layers are given of it. `common` is a mask for all series.
pub fn encode_series(
    s: &Series,
    common: &Option<Vec<Single>>,
    role: Role,
    plan: &DecodePlan,
    config: &TimesFM3Config,
) -> (r: Encoded)
    requires
        plan.is_for(config.input_patch_len as int, config.output_patch_len as int),
        plan.total_patches + plan.rolls < usize::MAX,
        is_long_enough(*s, *common, *plan, needed_length(role, *plan)),
    ensures
        is_window(r.window, *s, *common, role, *plan, *config),
        are_tokens(r.tokens, window_lane(r.window, role, *plan, *config)),
        are_tokens(r.tokens, lane_for(*s, *common, role, *plan, *config)),
        (r.window.line, r.window.applied) == trend_for(*s, *common, *plan, *config),
        r.tokens.stats@.len() == plan.total_patches,
{
    let p = config.input_patch_len;
    let threshold = if config.use_linear_detrending {
        Some(config.linear_detrending_threshold)
    } else {
        None
    };
    let w = if role == Role::PastFuture {
        future_window(s, common, plan, threshold)
    } else {
        past_window(s, common, plan, threshold)
    };
    assert(is_window(w, *s, *common, role, *plan, *config));
    let ghost n = plan.total_patches as int;
    let clipped = clip_row(&w.values, config.value_clip.narrowed());
    proof {
        law_padding(*plan, p as int, config.output_patch_len as int);
        assert(w.values@.len() == plan.context + plan.padded_horizon);
        assert(w.masks@.len() == plan.context + plan.padded_horizon);
        lemma_cut_rows(clipped@, p as int, n);
        lemma_cut_rows(w.masks@, p as int, n);
    }
    let values = cut_row(&clipped, p);
    let masks = cut_row(&w.masks, p);
    let flags = repeated(
        plan.total_patches,
        if role == Role::PastFuture {
            Single::zero()
        } else {
            one()
        },
    );
    let marks = Some(mark_horizon(plan));
    let ghost lane = window_lane(w, role, *plan, *config);
    proof {
        assert(rows_view(values@).len() == n);
        assert(rows_view(masks@).len() == n);
        assert forall|i: int| 0 <= i < values@.len() implies (#[trigger] values@[i])@.len()
            == masks@[i]@.len() by {
            assert(rows_view(values@)[i].len() == p);
            assert(rows_view(masks@)[i].len() == p);
        }
        assert(rows_view(values@)[0] == values@[0]@);
        assert(same_shape(values@, masks@));
        let o = config.output_patch_len as int;
        lemma_fundamental_div_mod(o, p as int);
        lemma_mul_is_commutative(plan.rolls as int, p as int);
    }
    let tokens = preprocess(&values, &masks, &flags, plan.freeze_after, &marks, plan.rolls);
    proof {
        let given = lane_of(
            values@,
            masks@,
            flags@,
            plan.freeze_after,
            Some(horizon_marks(*plan)),
            plan.rolls as int,
        );
        assert(given.values =~= lane.values);
        assert(given.masks =~= lane.masks);
        assert(given == lane);
    }
    assert(lane == lane_for(*s, *common, role, *plan, *config));
    Encoded { window: w, tokens }
}

/// Which patches are hidden from the layers, as far as their statistics are refined.
pub open spec fn refined_patches(plan: DecodePlan, config: TimesFM3Config) -> Option<Seq<bool>> {
    if config.use_iterative_cpm_revin {
        Some(horizon_marks(plan).map_values(|m: Single| is_masked(m)))
    } else {
        None
    }
}

/// What the layers say of each patch, taken back to scale.
pub open spec fn restored_logits(
    raw: Seq<Seq<Single>>,
    stats: Seq<RunningStats>,
    plan: DecodePlan,
    config: TimesFM3Config,
) -> Seq<Seq<Single>> {
    Seq::new(
        raw.len(),
        |i: int|
            {
                let s = output_stats(
                    raw,
                    stats,
                    refined_patches(plan, config),
                    plan.rolls as int,
                    config.input_patch_len as int,
                    config.quantiles@.len() as int,
                    config.value_clip.narrowed(),
                    i,
                );
                clipped_row(
                    normalized_row(raw[i], s.mu, s.sigma, true),
                    config.value_clip.narrowed(),
                )
            },
    )
}

/// The trend that goes back onto the forecast.
pub open spec fn trend_spec(encoded: Encoded, config: TimesFM3Config) -> Option<(Line, bool)> {
    if config.use_linear_detrending {
        Some((encoded.window.line, encoded.window.applied))
    } else {
        None
    }
}

/// Reads the forecast of one series out of what the layers say of its patches: for each step one
/// number for each quantile level.
pub fn decode_series(
    raw_logits: &Vec<Vec<Single>>,
    encoded: &Encoded,
    plan: &DecodePlan,
    config: &TimesFM3Config,
) -> (r: Vec<Single>)
    requires
        plan.is_for(config.input_patch_len as int, config.output_patch_len as int),
        config.quantiles@.len() > 0,
        encoded.tokens.stats@.len() == plan.total_patches,
        raw_logits@.len() == plan.total_patches,
        is_even(rows_view(raw_logits@), config.output_patch_len * config.quantiles@.len()),
    ensures
        r@.len() == plan.horizon * config.quantiles@.len(),
        forall|h: int, level: int|
            0 <= h < plan.horizon && 0 <= level < config.quantiles@.len() ==> r@[h
                * config.quantiles@.len() + level] == #[trigger] answer_at(
                restored_logits(
                    rows_view(raw_logits@),
                    encoded.tokens.stats@,
                    *plan,
                    *config,
                ),
                *plan,
                config.input_patch_len as int,
                config.quantiles@.len() as int,
                level,
                h,
                trend_spec(*encoded, *config),
            ),
{
    let p = config.input_patch_len;
    let o = config.output_patch_len;
    let q = config.quantiles.len();
    let marks = mark_horizon(plan);
    let hidden: Option<Vec<bool>> = if config.use_iterative_cpm_revin {
        let mut flags: Vec<bool> = Vec::new();
        let mut i: usize = 0;
        while i < marks.len()
            invariant
                i <= marks@.len(),
                flags@.len() == i,
                forall|k: int| 0 <= k < i ==> flags@[k] == is_masked(marks@[k]),
            decreases marks@.len() - i,
        {
            flags.push(is_masked(marks[i]));
            i = i + 1;
        }
        assert(flags@ =~= marks@.map_values(|m: Single| is_masked(m)));
        Some(flags)
    } else {
        None
    };
    proof {
        assert(optional_flags(hidden) == refined_patches(*plan, *config));
        lemma_fundamental_div_mod(o as int, p as int);
        lemma_mul_is_commutative(plan.rolls as int, p as int);
        law_padding(*plan, p as int, o as int);
        assert(plan.rolls >= 1) by (nonlinear_arith)
            requires
                o == p * plan.rolls,
                o >= p,
                p > 0,
        ;
    }
    let ghost restored = restored_logits(
        rows_view(raw_logits@),
        encoded.tokens.stats@,
        *plan,
        *config,
    );
    let logits = postprocess(
        raw_logits,
        &encoded.tokens.stats,
        &hidden,
        plan.rolls,
        p,
        q,
        config.value_clip,
    );
    assert(rows_view(logits@) =~= restored);
    proof {
        assert(rows_view(logits@).len() == logits@.len());
        assert forall|i: int| 0 <= i < restored.len() implies (#[trigger] restored[i]).len() == o
            * q by {
            assert(rows_view(raw_logits@)[i].len() == o * q);
        }
    }
    let trend = if config.use_linear_detrending {
        Some((encoded.window.line, encoded.window.applied))
    } else {
        None
    };
    read_answer(&logits, plan, p, o, q, trend)
}

/// A forecast from end to end: the series to forecast, the covariates, a mask for all of them, and
/// how the model is built.
pub struct Decoding {
    pub targets: Seq<Series>,
    pub past_only: Seq<Series>,
    pub past_future: Seq<Series>,
    pub common: Option<Vec<Single>>,
    pub config: TimesFM3Config,
}

impl Decoding {
    /// What the layers see: the targets, then the covariates.
    pub open spec fn lanes(self, plan: DecodePlan) -> Seq<Lane> {
        self.targets.map_values(
            |s: Series| lane_for(s, self.common, Role::Target, plan, self.config),
        ) + self.past_only.map_values(
            |s: Series| lane_for(s, self.common, Role::PastOnly, plan, self.config),
        ) + self.past_future.map_values(
            |s: Series| lane_for(s, self.common, Role::PastFuture, plan, self.config),
        )
    }

    /// The tokens of each series.
    pub open spec fn tokens(self, plan: DecodePlan) -> Seq<Seq<Seq<Single>>> {
        self.lanes(plan).map_values(
            |lane: Lane| Seq::new(lane.values.len(), |i: int| lane.token(i)),
        )
    }

    /// Which tokens of each series nothing can be seen of.
    pub open spec fn blanks(self, plan: DecodePlan) -> Seq<Seq<bool>> {
        self.lanes(plan).map_values(
            |lane: Lane| Seq::new(lane.values.len(), |i: int| lane.is_blank_up_to(i)),
        )
    }

    /// The forecast of target `v` at step `h` and one quantile level. `layers` is what the layers
    /// make of tokens and blanks: for each series, what they say of each patch.
    pub open spec fn answer(
        self,
        plan: DecodePlan,
        layers: spec_fn(Seq<Seq<Seq<Single>>>, Seq<Seq<bool>>) -> Seq<Seq<Seq<Single>>>,
        v: int,
        h: int,
        level: int,
    ) -> Single {
        let lane = self.lanes(plan)[v];
        let raw = layers(self.tokens(plan), self.blanks(plan))[v];
        let stats = Seq::new(lane.values.len(), |i: int| lane.stats(i));
        answer_at(
            restored_logits(raw, stats, plan, self.config),
            plan,
            self.config.input_patch_len as int,
            self.config.quantiles@.len() as int,
            level,
            h,
            if self.config.use_linear_detrending {
                Some(trend_for(self.targets[v], self.common, plan, self.config))
            } else {
                None
            },
        )
    }

    /// A plan for this model.
    pub open spec fn has_plan(self, plan: DecodePlan, context: int, horizon: int) -> bool {
        is_plan(
            plan,
            self.config.input_patch_len as int,
            self.config.output_patch_len as int,
            self.config.use_stitching,
            self.config.use_frozen_running_stats,
            context,
            horizon,
        )
    }
}

/// Where covariates are known ahead, they set the horizon: whatever horizon was asked for, the plan
/// and the whole forecast are the same, as long as the covariates reach beyond the context.
pub proof fn law_known_future_sets_horizon(
    d: Decoding,
    plan1: DecodePlan,
    plan2: DecodePlan,
    context: int,
    horizon1: int,
    horizon2: int,
    future_len: usize,
)
    requires
        d.has_plan(plan1, context, effective_horizon(context, horizon1, Some(future_len))),
        d.has_plan(plan2, context, effective_horizon(context, horizon2, Some(future_len))),
    ensures
        plan1 == plan2,
        plan1.horizon == future_len - context,
        forall|
            layers: spec_fn(Seq<Seq<Seq<Single>>>, Seq<Seq<bool>>) -> Seq<Seq<Seq<Single>>>,
            v: int,
            h: int,
            level: int,
        |
            #![auto]
            d.answer(plan1, layers, v, h, level) == d.answer(plan2, layers, v, h, level),
{
}

/// The points put before a context to fill its first patch count as masked: the forecast is the one
/// of the series with that many zeros before it and a mask over them.
#[verifier::rlimit(40)]
pub proof fn law_padding_is_masked(
    d: Decoding,
    longer: Decoding,
    plan: DecodePlan,
    longer_plan: DecodePlan,
    context: int,
    horizon: int,
    layers: spec_fn(Seq<Seq<Seq<Single>>>, Seq<Seq<bool>>) -> Seq<Seq<Seq<Single>>>,
    v: int,
    h: int,
    level: int,
)
    requires
        d.config.input_patch_len > 0,
        context > 0,
        horizon > 0,
        d.has_plan(plan, context, horizon),
        longer.has_plan(
            longer_plan,
            context + shortfall(context, d.config.input_patch_len as int),
            horizon,
        ),
        longer.config == d.config,
        d.common is None,
        longer.common matches Some(m) && m@ == constant(plan.ctx_padding as int, one()) + constant(
            context,
            Single::zero(),
        ),
        d.past_only.len() == 0,
        d.past_future.len() == 0,
        longer.past_only.len() == 0,
        longer.past_future.len() == 0,
        longer.targets.len() == d.targets.len(),
        forall|i: int|
            0 <= i < d.targets.len() ==> (#[trigger] d.targets[i]).mask is None
                && d.targets[i].values@.len() == context && longer.targets[i].mask is None
                && longer.targets[i].values@ == constant(plan.ctx_padding as int, Single::zero())
                + d.targets[i].values@,
        0 <= v < d.targets.len(),
    ensures
        d.answer(plan, layers, v, h, level) == longer.answer(longer_plan, layers, v, h, level),
{
    let p = d.config.input_patch_len as int;
    lemma_padded(context, p);
    let r = plan.ctx_padding as int;
    assert(longer_plan.ctx_padding == 0);
    assert(longer_plan.context == plan.context);
    assert(horizon_marks(plan) =~= horizon_marks(longer_plan));
    assert forall|i: int| 0 <= i < d.targets.len() implies lane_for(
        #[trigger] d.targets[i],
        d.common,
        Role::Target,
        plan,
        d.config,
    ) == lane_for(longer.targets[i], longer.common, Role::Target, longer_plan, d.config)
        && trend_for(d.targets[i], d.common, plan, d.config) == trend_for(
        longer.targets[i],
        longer.common,
        longer_plan,
        d.config,
    ) by {
        let s = d.targets[i];
        let t = longer.targets[i];
        assert(context_values(s, plan) =~= context_values(t, longer_plan));
        let a = context_mask(s, d.common, plan);
        let b = context_mask(t, longer.common, longer_plan);
        assert(a.len() == plan.context && b.len() == plan.context);
        assert(a =~= b);
        assert(unknown_horizon(plan, one()) == unknown_horizon(longer_plan, one()));
    }
    assert(d.lanes(plan) =~= longer.lanes(longer_plan)) by {
        assert(d.lanes(plan).len() == d.targets.len());
        assert(longer.lanes(longer_plan).len() == d.targets.len());
        assert forall|i: int| 0 <= i < d.targets.len() implies d.lanes(plan)[i] == longer.lanes(
            longer_plan,
        )[i] by {
            assert(d.lanes(plan)[i] == lane_for(
                d.targets[i],
                d.common,
                Role::Target,
                plan,
                d.config,
            ));
            assert(longer.lanes(longer_plan)[i] == lane_for(
                longer.targets[i],
                longer.common,
                Role::Target,
                longer_plan,
                d.config,
            ));
        }
    }
    assert(d.tokens(plan) == longer.tokens(longer_plan));
    assert(d.blanks(plan) == longer.blanks(longer_plan));
    let raw = layers(d.tokens(plan), d.blanks(plan))[v];
    let lane = d.lanes(plan)[v];
    let stats = Seq::new(lane.values.len(), |i: int| lane.stats(i));
    let logits = restored_logits(raw, stats, plan, d.config);
    assert(logits =~= restored_logits(raw, stats, longer_plan, d.config));
    let q = d.config.quantiles@.len() as int;
    assert(sources(logits, plan, q, level) =~= sources(logits, longer_plan, q, level));
    assert(plain_answer(logits, plan, p, q, level, h) == plain_answer(
        logits,
        longer_plan,
        p,
        q,
        level,
        h,
    ));
    assert(d.targets[v].mask is None);
}

/// What the layers see of a series, point by point. The context, with masked zeros before it up to a
/// whole patch, is masked where the series' own mask or the one for all series is greater; a point that
/// is masked reads as zero, any other as it stands, less the line where it is taken out. Of the horizon
/// nothing is seen, unless the series is known ahead: then its points and masks go on, and only the
/// padding behind them is hidden.
pub proof fn law_window_points(
    s: Series,
    common: Option<Vec<Single>>,
    role: Role,
    plan: DecodePlan,
    config: TimesFM3Config,
    i: int,
)
    requires
        plan.is_for(config.input_patch_len as int, config.output_patch_len as int),
        is_long_enough(s, common, plan, needed_length(role, plan)),
        0 <= i < plan.context + plan.padded_horizon,
    ensures
        ({
            let zero = Single { bits: 0 };
            let unit = Single { bits: 0x3f80_0000 };
            let half = Single { bits: 0x3f00_0000 };
            let values = window_values(s, common, role, plan, config);
            let masks = window_masks(s, common, role, plan);
            let (line, applied) = trend_for(s, common, plan, config);
            let n = plan.context - plan.ctx_padding;
            let at = i - plan.ctx_padding;
            let mark = |m: Option<Vec<Single>>|
                match m {
                    Some(v) => v@[at],
                    None => zero,
                };
            let size = Single::from_count(plan.context);
            let time = if i < plan.context {
                Single::from_count((plan.context - 1 - i) as usize).negated().over(size)
            } else {
                Single::from_count((i - plan.context + 1) as usize).over(size)
            };
            let x = if i < plan.ctx_padding {
                zero
            } else {
                s.values@[at]
            };
            let seen = if half.lt(masks[i]) {
                zero
            } else if applied {
                x.minus(line.slope.times(time).plus(line.level))
            } else {
                x
            };
            &&& values.len() == plan.context + plan.padded_horizon
            &&& masks.len() == plan.context + plan.padded_horizon
            &&& i < plan.ctx_padding ==> masks[i] == unit && values[i] == zero
            &&& plan.ctx_padding <= i < plan.context ==> masks[i] == (if mark(s.mask).lt(
                mark(common),
            ) {
                mark(common)
            } else {
                mark(s.mask)
            }) && values[i] == seen
            &&& i >= plan.context && role != Role::PastFuture ==> masks[i] == unit && values[i]
                == zero
            &&& plan.context <= i < plan.context + plan.horizon && role == Role::PastFuture
                ==> masks[i] == mark(s.mask) && values[i] == seen
            &&& i >= plan.context + plan.horizon && role == Role::PastFuture ==> masks[i] == unit
                && values[i] == zero
        }),
{
    law_padding(plan, config.input_patch_len as int, config.output_patch_len as int);
    let (line, applied) = trend_for(s, common, plan, config);
    let n = plan.context - plan.ctx_padding;
    let cm = context_mask(s, common, plan);
    let cv = context_values(s, plan);
    assert(cv.len() == plan.context);
    assert(cm.len() == plan.context);
    assert(Single::zero().lt(one()) && (Single { bits: 0x3f00_0000 }).lt(one()) && !one().lt(one()))
        by {
        reveal(Single::lt_spec);
    }
    let seen = seen_context(s, common, plan, line, applied);
    assert(seen.len() == plan.context);
    if i < plan.context {
        assert(window_values(s, common, role, plan, config)[i] == seen[i]);
        assert(window_masks(s, common, role, plan)[i] == cm[i]);
    }
}

/// The patches that the layers see are the window cut up in order, each point kept within the bound;
/// the patches of the horizon are hidden, and a series is marked as one to forecast unless it is known
/// ahead.
pub proof fn law_patches_of_the_window(
    s: Series,
    common: Option<Vec<Single>>,
    role: Role,
    plan: DecodePlan,
    config: TimesFM3Config,
    i: int,
    k: int,
)
    requires
        plan.is_for(config.input_patch_len as int, config.output_patch_len as int),
        is_long_enough(s, common, plan, needed_length(role, plan)),
        0 <= i < plan.total_patches,
        0 <= k < config.input_patch_len,
    ensures
        ({
            let lane = lane_for(s, common, role, plan, config);
            let p = config.input_patch_len as int;
            let x = window_values(s, common, role, plan, config)[i * p + k];
            let bound = config.value_clip.narrowed();
            let y = if x.lt(bound.negated()) {
                bound.negated()
            } else {
                x
            };
            &&& lane.values.len() == plan.total_patches
            &&& lane.masks.len() == plan.total_patches
            &&& lane.values[i].len() == p
            &&& lane.values[i][k] == if bound.lt(y) {
                bound
            } else {
                y
            }
            &&& lane.masks[i][k] == window_masks(s, common, role, plan)[i * p + k]
            &&& lane.targets[i] == if role == Role::PastFuture {
                Single { bits: 0 }
            } else {
                Single { bits: 0x3f80_0000 }
            }
            &&& lane.hidden is Some && lane.hidden->Some_0[i] == if i < plan.num_context_patches {
                Single { bits: 0 }
            } else {
                Single { bits: 0x3f80_0000 }
            }
            &&& lane.freeze_after == plan.freeze_after
            &&& lane.rolls == plan.rolls
            &&& lane.p == p
        }),
{
    let p = config.input_patch_len as int;
    let n = plan.total_patches as int;
    law_padding(plan, p, config.output_patch_len as int);
    law_window_points(s, common, role, plan, config, 0);
    let row = clipped_row(
        window_values(s, common, role, plan, config),
        config.value_clip.narrowed(),
    );
    lemma_cut_rows(row, p, n);
    lemma_cut_rows(window_masks(s, common, role, plan), p, n);
    assert(0 <= i * p && i * p + p <= n * p) by (nonlinear_arith)
        requires
            0 <= i < n,
            p > 0,
    ;
}

/// What the layers say of a patch is taken back to scale number by number: times the deviation, the
/// mean put on, kept within the bound. A patch of the context goes by the statistics it was brought to
/// scale by; one of the horizon by refined ones, where they are refined, and else by its own.
pub proof fn law_said_numbers_taken_back(
    raw: Seq<Seq<Single>>,
    stats: Seq<RunningStats>,
    plan: DecodePlan,
    config: TimesFM3Config,
    i: int,
    k: int,
)
    requires
        0 <= i < raw.len(),
        raw.len() == stats.len(),
        raw.len() == plan.total_patches,
        0 <= k < raw[i].len(),
    ensures
        restored_logits(raw, stats, plan, config).len() == raw.len(),
        i < plan.num_context_patches || !config.use_iterative_cpm_revin ==> ({
            let bound = config.value_clip.narrowed();
            let x = raw[i][k].times(stats[i].sigma).plus(stats[i].mu);
            let y = if x.lt(bound.negated()) {
                bound.negated()
            } else {
                x
            };
            restored_logits(raw, stats, plan, config)[i][k] == if bound.lt(y) {
                bound
            } else {
                y
            }
        }),
        config.use_iterative_cpm_revin ==> ({
            let bound = config.value_clip.narrowed();
            let q = config.quantiles@.len() as int;
            let p = config.input_patch_len as int;
            let medians = raw.map_values(
                |row: Seq<Single>|
                    Seq::new(
                        plan.rolls as nat,
                        |r: int| Seq::new(p as nat, |m: int| row[(r * p + m) * q + q / 2]),
                    ),
            );
            let hidden = Seq::new(raw.len(), |j: int| j >= plan.num_context_patches);
            let s = carry_after(
                medians,
                stats,
                hidden,
                plan.rolls as int,
                p,
                bound,
                i + 1,
            ).stats;
            let x = raw[i][k].times(s.sigma).plus(s.mu);
            let y = if x.lt(bound.negated()) {
                bound.negated()
            } else {
                x
            };
            restored_logits(raw, stats, plan, config)[i][k] == if bound.lt(y) {
                bound
            } else {
                y
            }
        }),
{
    assert((Single { bits: 0x3f00_0000 }).lt(one()) && !(Single { bits: 0x3f00_0000 }).lt(
        Single::zero(),
    )) by {
        reveal(Single::lt_spec);
    }
    if config.use_iterative_cpm_revin {
        let q = config.quantiles@.len() as int;
        let p = config.input_patch_len as int;
        let medians = raw.map_values(
            |row: Seq<Single>|
                Seq::new(
                    plan.rolls as nat,
                    |r: int| Seq::new(p as nat, |m: int| row[(r * p + m) * q + q / 2]),
                ),
        );
        let given = median_blocks(raw, plan.rolls as int, p, q);
        assert forall|j: int| 0 <= j < raw.len() implies medians[j] == given[j] by {
            assert forall|r: int| 0 <= r < plan.rolls implies medians[j][r] == given[j][r] by {
                assert(medians[j][r] =~= given[j][r]);
            }
            assert(medians[j] =~= given[j]);
        }
        assert(medians =~= given);
        let hidden = Seq::new(raw.len(), |j: int| j >= plan.num_context_patches);
        assert(horizon_marks(plan).map_values(|m: Single| is_masked(m)) =~= hidden);
    }
}

/// The trend of a series is that of its context: of the points before the forecast, with zeros before
/// them up to a whole patch, wherever neither mask is above zero; there is none where trends are left
/// alone.
pub proof fn law_trend_of_the_context(
    s: Series,
    common: Option<Vec<Single>>,
    plan: DecodePlan,
    config: TimesFM3Config,
)
    requires
        is_long_enough(s, common, plan, plan.context - plan.ctx_padding),
    ensures
        ({
            let zero = Single { bits: 0 };
            let values = Seq::new(
                plan.context as nat,
                |i: int|
                    if i < plan.ctx_padding {
                        zero
                    } else {
                        s.values@[i - plan.ctx_padding]
                    },
            );
            let mark = |m: Option<Vec<Single>>, i: int|
                match m {
                    Some(v) => v@[i - plan.ctx_padding],
                    None => zero,
                };
            let mask = Seq::new(
                plan.context as nat,
                |i: int|
                    if i < plan.ctx_padding {
                        Single { bits: 0x3f80_0000 }
                    } else if mark(s.mask, i).lt(mark(common, i)) {
                        mark(common, i)
                    } else {
                        mark(s.mask, i)
                    },
            );
            let (line, applied) = trend_for(s, common, plan, config);
            &&& config.use_linear_detrending ==> line == fitted_line(values, mask) && applied
                == is_trending(values, mask, config.linear_detrending_threshold)
            &&& !config.use_linear_detrending ==> !applied && line.slope == zero && line.level
                == zero
        }),
{
    let zero = Single { bits: 0 };
    let values = Seq::new(
        plan.context as nat,
        |i: int|
            if i < plan.ctx_padding {
                zero
            } else {
                s.values@[i - plan.ctx_padding]
            },
    );
    let mark = |m: Option<Vec<Single>>, i: int|
        match m {
            Some(v) => v@[i - plan.ctx_padding],
            None => zero,
        };
    let mask = Seq::new(
        plan.context as nat,
        |i: int|
            if i < plan.ctx_padding {
                Single { bits: 0x3f80_0000 }
            } else if mark(s.mask, i).lt(mark(common, i)) {
                mark(common, i)
            } else {
                mark(s.mask, i)
            },
    );
    assert(Single::zero().lt(one()) && !one().lt(one())) by {
        reveal(Single::lt_spec);
    }
    assert(context_values(s, plan) =~= values);
    assert(context_mask(s, common, plan).len() == plan.context);
    assert(context_mask(s, common, plan) =~= mask);
}

/// What the layers are given of a series are the tokens of its patches, one for each, with which of them
/// nothing can be seen of and the statistics they are brought to scale by; what is put back onto its
/// forecast is its own trend, where trends are taken out.
pub proof fn law_series_as_encoded(e: Encoded, lane: Lane, config: TimesFM3Config, i: int)
    requires
        are_tokens(e.tokens, lane),
        0 <= i < lane.values.len(),
    ensures
        e.tokens.rows@.len() == lane.values.len(),
        e.tokens.rows@[i]@ == lane.token(i),
        e.tokens.blank@.len() == lane.values.len(),
        e.tokens.blank@[i] == lane.is_blank_up_to(i),
        e.tokens.stats@.len() == lane.values.len(),
        e.tokens.stats@[i] == lane.stats(i),
        config.use_linear_detrending ==> trend_spec(e, config) == Some(
            (e.window.line, e.window.applied),
        ),
        !config.use_linear_detrending ==> trend_spec(e, config) is None,
{
    assert(rows_view(e.tokens.rows@).len() == e.tokens.rows@.len());
    assert(rows_view(e.tokens.rows@)[i] == e.tokens.rows@[i]@);
}

} // verus!
