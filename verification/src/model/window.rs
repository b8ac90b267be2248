//! The stretch of a series that a forecast looks at: its context and its horizon, padded to whole
//! patches.

use vstd::arithmetic::div_mod::lemma_fundamental_div_mod;
use vstd::arithmetic::mul::lemma_mul_is_commutative;
use vstd::prelude::*;

use super::detrend::{
    apply_linear_detrending, fitted_line, future_time, future_time_spec, is_trending, without_line,
    Line,
};
use super::plan::DecodePlan;
use crate::ieee::scalar::{Double, Single};
use crate::rows::{
    append_part, append_row, constant, join_masks, joint_mask, one, repeated, silence, silenced,
};

verus! {

/// A series to forecast from. A covariate that is known ahead goes on beyond the context.
#[derive(Debug, Clone)]
pub struct Series {
    pub values: Vec<Single>,
    /// One where a point is to be left out; without a mask none is.
    pub mask: Option<Vec<Single>>,
}

/// The mask up to a length, zero where there is none.
pub open spec fn mask_part(mask: Option<Vec<Single>>, from: int, to: int) -> Seq<Single> {
    match mask {
        Some(m) => m@.subrange(from, to),
        None => constant(to - from, Single::zero()),
    }
}

/// The first `n` points, with the padding before them.
pub open spec fn context_values(s: Series, plan: DecodePlan) -> Seq<Single> {
    constant(plan.ctx_padding as int, Single::zero()) + s.values@.take(
        plan.context - plan.ctx_padding,
    )
}

/// The mask of the context: the series' own, joined with the one for all series. The padding is
/// masked.
pub open spec fn context_mask(s: Series, common: Option<Vec<Single>>, plan: DecodePlan) -> Seq<
    Single,
> {
    let n = plan.context - plan.ctx_padding;
    let own_padding = if s.mask is Some {
        one()
    } else {
        Single::zero()
    };
    joint_mask(
        constant(plan.ctx_padding as int, own_padding) + mask_part(s.mask, 0, n),
        constant(plan.ctx_padding as int, one()) + mask_part(common, 0, n),
    )
}

/// The line through the context, and whether it is taken out.
pub open spec fn is_trend_of(
    line: Line,
    applied: bool,
    values: Seq<Single>,
    mask: Seq<Single>,
    threshold: Option<Double>,
) -> bool {
    match threshold {
        Some(t) => line == fitted_line(values, mask) && applied == is_trending(values, mask, t),
        None => line == (Line { slope: Single::zero(), level: Single::zero() }) && !applied,
    }
}

/// The context as the model sees it: without the line, if it is taken out, and zero where it is
/// masked.
pub open spec fn seen_context(
    s: Series,
    common: Option<Vec<Single>>,
    plan: DecodePlan,
    line: Line,
    applied: bool,
) -> Seq<Single> {
    let values = context_values(s, plan);
    silenced(
        if applied {
            without_line(values, line)
        } else {
            values
        },
        context_mask(s, common, plan),
    )
}

/// The points of the horizon without the line, if it is taken out.
pub open spec fn future_values(s: Series, plan: DecodePlan, line: Line, applied: bool) -> Seq<
    Single,
> {
    let start = plan.context - plan.ctx_padding;
    Seq::new(
        plan.horizon as nat,
        |i: int|
            if applied {
                s.values@[start + i].minus(line.at(future_time_spec(i, plan.context as int)))
            } else {
                s.values@[start + i]
            },
    )
}

/// The mask of the horizon.
pub open spec fn future_mask(s: Series, plan: DecodePlan) -> Seq<Single> {
    let start = plan.context - plan.ctx_padding;
    mask_part(s.mask, start, start + plan.horizon)
}

/// The horizon of a series that is not known ahead: nothing of it can be seen.
pub open spec fn unknown_horizon(plan: DecodePlan, x: Single) -> Seq<Single> {
    constant(plan.padded_horizon as int, x)
}

/// What the model sees of a series.
#[derive(Debug, Clone)]
pub struct Window {
    /// The points of the context and of the horizon.
    pub values: Vec<Single>,
    /// One where a point cannot be seen.
    pub masks: Vec<Single>,
    /// The line that was taken out, if it was.
    pub line: Line,
    pub applied: bool,
}

/// The window of a series whose future is not known.
pub open spec fn is_past_window(
    w: Window,
    s: Series,
    common: Option<Vec<Single>>,
    plan: DecodePlan,
    threshold: Option<Double>,
) -> bool {
    &&& is_trend_of(
        w.line,
        w.applied,
        context_values(s, plan),
        context_mask(s, common, plan),
        threshold,
    )
    &&& w.values@ == seen_context(s, common, plan, w.line, w.applied) + unknown_horizon(
        plan,
        Single::zero(),
    )
    &&& w.masks@ == context_mask(s, common, plan) + unknown_horizon(plan, one())
}

/// The window of a series whose future is known.
pub open spec fn is_future_window(
    w: Window,
    s: Series,
    common: Option<Vec<Single>>,
    plan: DecodePlan,
    threshold: Option<Double>,
) -> bool {
    let padding = plan.hor_padding as int;
    &&& is_trend_of(
        w.line,
        w.applied,
        context_values(s, plan),
        context_mask(s, common, plan),
        threshold,
    )
    &&& w.values@ == seen_context(s, common, plan, w.line, w.applied) + silenced(
        future_values(s, plan, w.line, w.applied),
        future_mask(s, plan),
    ) + constant(padding, Single::zero())
    &&& w.masks@ == context_mask(s, common, plan) + future_mask(s, plan) + constant(padding, one())
}

/// The series and the common mask are as long as the context, or longer.
pub open spec fn is_long_enough(
    s: Series,
    common: Option<Vec<Single>>,
    plan: DecodePlan,
    n: int,
) -> bool {
    &&& plan.ctx_padding <= plan.context
    &&& s.values@.len() >= n
    &&& (s.mask matches Some(m) ==> m@.len() >= n)
    &&& (common matches Some(m) ==> m@.len() >= plan.context - plan.ctx_padding)
}

fn take_mask(out: &mut Vec<Single>, mask: &Option<Vec<Single>>, from: usize, to: usize)
    requires
        from <= to,
        mask matches Some(m) ==> m@.len() >= to,
    ensures
        final(out)@ == old(out)@ + mask_part(*mask, from as int, to as int),
{
    match mask {
        Some(m) => append_part(out, m, from, to),
        None => append_row(out, &repeated(to - from, Single::zero())),
    }
}

/// The context of a series, the mask of the context, the line through it, and whether it is taken
/// out.
fn open_context(
    s: &Series,
    common: &Option<Vec<Single>>,
    plan: &DecodePlan,
    threshold: Option<Double>,
) -> (r: Window)
    requires
        is_long_enough(*s, *common, *plan, plan.context - plan.ctx_padding),
    ensures
        is_trend_of(
            r.line,
            r.applied,
            context_values(*s, *plan),
            context_mask(*s, *common, *plan),
            threshold,
        ),
        r.values@ == seen_context(*s, *common, *plan, r.line, r.applied),
        r.masks@ == context_mask(*s, *common, *plan),
        r.values@.len() == plan.context,
        r.masks@.len() == plan.context,
{
    let n = plan.context - plan.ctx_padding;
    let mut values = repeated(plan.ctx_padding, Single::zero());
    append_part(&mut values, &s.values, 0, n);
    assert(values@ =~= context_values(*s, *plan));
    let mut own = repeated(
        plan.ctx_padding,
        if s.mask.is_some() {
            one()
        } else {
            Single::zero()
        },
    );
    take_mask(&mut own, &s.mask, 0, n);
    let mut shared = repeated(plan.ctx_padding, one());
    take_mask(&mut shared, common, 0, n);
    let masks = join_masks(&own, &shared);
    match threshold {
        Some(t) => {
            let d = apply_linear_detrending(&values, &masks, t);
            Window {
                values: silence(&d.values, &masks),
                masks,
                line: d.line,
                applied: d.applied,
            }
        },
        None => Window {
            values: silence(&values, &masks),
            masks,
            line: Line { slope: Single::zero(), level: Single::zero() },
            applied: false,
        },
    }
}

/// The window of a series that is to be forecast, or of a covariate that is not known ahead.
/// `threshold` is the one for taking out a trend, where that is done.
pub fn past_window(
    s: &Series,
    common: &Option<Vec<Single>>,
    plan: &DecodePlan,
    threshold: Option<Double>,
) -> (r: Window)
    requires
        is_long_enough(*s, *common, *plan, plan.context - plan.ctx_padding),
    ensures
        is_past_window(r, *s, *common, *plan, threshold),
{
    let mut w = open_context(s, common, plan, threshold);
    append_row(&mut w.values, &repeated(plan.padded_horizon, Single::zero()));
    append_row(&mut w.masks, &repeated(plan.padded_horizon, one()));
    w
}

/// The window of a covariate that is known ahead.
pub fn future_window(
    s: &Series,
    common: &Option<Vec<Single>>,
    plan: &DecodePlan,
    threshold: Option<Double>,
) -> (r: Window)
    requires
        is_long_enough(
            *s,
            *common,
            *plan,
            plan.context - plan.ctx_padding + plan.horizon,
        ),
    ensures
        is_future_window(r, *s, *common, *plan, threshold),
{
    let length = s.values.len();
    let start = plan.context - plan.ctx_padding;
    let mut w = open_context(s, common, plan, threshold);
    let ghost line = w.line;
    let ghost applied = w.applied;
    let ghost model = future_values(*s, *plan, line, applied);
    let mut future: Vec<Single> = Vec::new();
    let mut i: usize = 0;
    while i < plan.horizon
        invariant
            i <= plan.horizon,
            length == s.values@.len(),
            start == plan.context - plan.ctx_padding,
            start + plan.horizon <= length,
            w.line == line,
            w.applied == applied,
            model == future_values(*s, *plan, line, applied),
            future@.len() == i,
            forall|k: int| 0 <= k < i ==> future@[k] == model[k],
        decreases plan.horizon - i,
    {
        let y = s.values[start + i];
        let v = if w.applied {
            y.minus(w.line.at(future_time(i, plan.context)))
        } else {
            y
        };
        future.push(v);
        i = i + 1;
    }
    assert(future@ =~= model);
    let mut ahead: Vec<Single> = Vec::new();
    take_mask(&mut ahead, &s.mask, start, start + plan.horizon);
    assert(ahead@ =~= future_mask(*s, *plan));
    append_row(&mut w.values, &silence(&future, &ahead));
    append_row(&mut w.values, &repeated(plan.hor_padding, Single::zero()));
    append_row(&mut w.masks, &ahead);
    append_row(&mut w.masks, &repeated(plan.hor_padding, one()));
    w
}

/// A row cut into patches.
pub open spec fn cut(row: Seq<Single>, p: int) -> Seq<Seq<Single>> {
    Seq::new((row.len() as int / p) as nat, |i: int| row.subrange(i * p, i * p + p))
}

/// Cuts a row into patches.
pub fn cut_row(row: &Vec<Single>, p: usize) -> (r: Vec<Vec<Single>>)
    requires
        p > 0,
        row@.len() as int % p as int == 0,
    ensures
        crate::rows::rows_view(r@) == cut(row@, p as int),
{
    let n = row.len() / p;
    let ghost model = cut(row@, p as int);
    proof {
        lemma_fundamental_div_mod(row@.len() as int, p as int);
        lemma_mul_is_commutative(p as int, n as int);
    }
    let mut r: Vec<Vec<Single>> = Vec::new();
    let mut i: usize = 0;
    let mut from: usize = 0;
    while i < n
        invariant
            i <= n,
            n * p == row@.len(),
            p > 0,
            from == i * p,
            n == row@.len() as int / p as int,
            model == cut(row@, p as int),
            r@.len() == i,
            forall|k: int| 0 <= k < i ==> (#[trigger] r@[k])@ == model[k],
        decreases n - i,
    {
        proof {
            assert(i * p + p <= n * p) by (nonlinear_arith)
                requires
                    i + 1 <= n,
                    p > 0,
            ;
            assert((i + 1) * p == i * p + p) by (nonlinear_arith);
        }
        let length = row.len();
        let mut patch: Vec<Single> = Vec::new();
        append_part(&mut patch, row, from, from + p);
        assert(patch@ =~= model[i as int]);
        r.push(patch);
        i = i + 1;
        from = from + p;
    }
    assert(crate::rows::rows_view(r@) =~= model);
    r
}

/// The points that a window holds are those of the padded context and the padded horizon.
pub proof fn law_window_length(
    w: Window,
    s: Series,
    common: Option<Vec<Single>>,
    plan: DecodePlan,
    threshold: Option<Double>,
)
    requires
        is_long_enough(s, common, plan, plan.context - plan.ctx_padding),
        is_past_window(w, s, common, plan, threshold),
    ensures
        w.values@.len() == plan.context + plan.padded_horizon,
        w.masks@.len() == plan.context + plan.padded_horizon,
{
}

/// Nothing of the horizon of a series that is to be forecast can be seen, and where a point of its
/// context is masked it reads as zero.
pub proof fn law_future_stays_hidden(
    w: Window,
    s: Series,
    common: Option<Vec<Single>>,
    plan: DecodePlan,
    threshold: Option<Double>,
)
    requires
        is_long_enough(s, common, plan, plan.context - plan.ctx_padding),
        is_past_window(w, s, common, plan, threshold),
    ensures
        forall|i: int|
            plan.context <= i < w.values@.len() ==> (#[trigger] w.values@[i]) == Single::zero()
                && w.masks@[i] == one(),
        forall|i: int|
            0 <= i < plan.context && crate::rows::is_masked(w.masks@[i]) ==> (
            #[trigger] w.values@[i]) == Single::zero(),
{
}

} // verus!
