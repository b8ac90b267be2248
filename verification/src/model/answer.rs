//! Reading a forecast out of what the model says of each patch.

use vstd::arithmetic::div_mod::*;
use vstd::arithmetic::mul::*;
use vstd::prelude::*;

use super::detrend::{future_time, future_time_spec, Line};
use super::patches::{is_even, law_stitched_length, stitch_patches, stitched};
use super::plan::{law_answer_is_covered, law_padding, source_patch, DecodePlan};
use crate::ieee::scalar::Single;
use crate::rows::rows_view;
use super::patches::law_stitched_points;

verus! {

/// What the model says of the points behind a patch at one quantile level.
pub open spec fn level_row(patch: Seq<Single>, q: int, level: int, len: int) -> Seq<Single> {
    Seq::new(len as nat, |j: int| patch[j * q + level])
}

/// What the forecast is put together from, at one quantile level.
pub open spec fn sources(logits: Seq<Seq<Single>>, plan: DecodePlan, q: int, level: int) -> Seq<
    Seq<Single>,
> {
    Seq::new(
        plan.num_forecast_patches as nat,
        |i: int| level_row(logits[source_patch(plan, i)], q, level, plan.extract_len as int),
    )
}

/// The forecast at step `h` and one quantile level, without the trend: from the stitched patches,
/// or, without stitching, from patches laid end to end.
pub open spec fn plain_answer(
    logits: Seq<Seq<Single>>,
    plan: DecodePlan,
    p: int,
    q: int,
    level: int,
    h: int,
) -> Single {
    let parts = sources(logits, plan, q, level);
    if plan.use_stitching {
        stitched(parts, p)[h]
    } else {
        parts[h / (plan.extract_len as int)][h % (plan.extract_len as int)]
    }
}

/// The trend at step `h`, zero where none was taken out.
pub open spec fn trend_at(line: Line, applied: bool, h: int, context: int) -> Single {
    if applied {
        line.at(future_time_spec(h, context))
    } else {
        Single::zero()
    }
}

/// The forecast at step `h` and one quantile level.
pub open spec fn answer_at(
    logits: Seq<Seq<Single>>,
    plan: DecodePlan,
    p: int,
    q: int,
    level: int,
    h: int,
    trend: Option<(Line, bool)>,
) -> Single {
    let plain = plain_answer(logits, plan, p, q, level, h);
    match trend {
        Some((line, applied)) => plain.plus(trend_at(line, applied, h, plan.context as int)),
        None => plain,
    }
}

pub proof fn lemma_level_index(j: int, q: int, level: int, len: int)
    requires
        0 <= j < len,
        0 <= level < q,
    ensures
        0 <= j * q,
        j * q + level < len * q,
{
    assert(0 <= j * q && j * q + q <= len * q) by (nonlinear_arith)
        requires
            0 <= j < len,
            q > 0,
    ;
}

fn take_level(patch: &Vec<Single>, q: usize, level: usize, len: usize) -> (r: Vec<Single>)
    requires
        level < q,
        patch@.len() >= len * q,
    ensures
        r@ == level_row(patch@, q as int, level as int, len as int),
{
    let available = patch.len();
    let mut r: Vec<Single> = Vec::new();
    let mut j: usize = 0;
    while j < len
        invariant
            j <= len,
            level < q,
            available == patch@.len(),
            patch@.len() >= len * q,
            r@.len() == j,
            forall|k: int| 0 <= k < j ==> r@[k] == patch@[k * q + level],
        decreases len - j,
    {
        proof {
            lemma_level_index(j as int, q as int, level as int, len as int);
        }
        r.push(patch[j * q + level]);
        j = j + 1;
    }
    assert(r@ =~= level_row(patch@, q as int, level as int, len as int));
    r
}

/// The forecast at one quantile level.
fn read_level(
    logits: &Vec<Vec<Single>>,
    plan: &DecodePlan,
    p: usize,
    o: usize,
    q: usize,
    level: usize,
) -> (r: Vec<Single>)
    requires
        plan.is_for(p as int, o as int),
        level < q,
        logits@.len() == plan.total_patches,
        is_even(rows_view(logits@), o * q),
    ensures
        r@.len() >= plan.horizon,
        forall|h: int|
            0 <= h < plan.horizon ==> r@[h] == plain_answer(
                rows_view(logits@),
                *plan,
                p as int,
                q as int,
                level as int,
                h,
            ),
{
    let ghost views = rows_view(logits@);
    let ghost parts = sources(views, *plan, q as int, level as int);
    proof {
        law_answer_is_covered(*plan, p as int, o as int);
        law_padding(*plan, p as int, o as int);
        let e = plan.extract_len as int;
        assert(e * q <= o * q) by (nonlinear_arith)
            requires
                e <= o,
                q >= 0,
        ;
    }
    let mut preds: Vec<Vec<Single>> = Vec::new();
    let mut source: usize = plan.num_context_patches - 1;
    let step = if plan.use_stitching {
        1
    } else {
        plan.rolls
    };
    let mut i: usize = 0;
    while i < plan.num_forecast_patches
        invariant
            i <= plan.num_forecast_patches,
            level < q,
            views == rows_view(logits@),
            parts == sources(views, *plan, q as int, level as int),
            logits@.len() == plan.total_patches,
            is_even(views, o * q),
            plan.extract_len * q <= o * q,
            forall|k: int|
                0 <= k < plan.num_forecast_patches ==> 0 <= #[trigger] source_patch(*plan, k)
                    < plan.total_patches,
            step == if plan.use_stitching {
                1
            } else {
                plan.rolls
            },
            i < plan.num_forecast_patches ==> source == source_patch(*plan, i as int),
            preds@.len() == i,
            forall|k: int| 0 <= k < i ==> (#[trigger] preds@[k])@ == parts[k],
        decreases plan.num_forecast_patches - i,
    {
        assert(0 <= source_patch(*plan, i as int) < plan.total_patches);
        assert(views[source as int] == logits@[source as int]@);
        assert(views[source as int].len() == o * q);
        let row = take_level(&logits[source], q, level, plan.extract_len);
        assert(row@ == parts[i as int]);
        preds.push(row);
        i = i + 1;
        if i < plan.num_forecast_patches {
            proof {
                assert(0 <= source_patch(*plan, i as int) < plan.total_patches);
                let before = i - 1;
                let rolls = plan.rolls as int;
                assert((before + 1) * rolls == before * rolls + rolls) by (nonlinear_arith);
            }
            source = source + step;
        }
    }
    assert(rows_view(preds@) =~= parts);
    assert(is_even(parts, plan.extract_len as int));
    if plan.use_stitching {
        proof {
            law_stitched_length(parts, p as int);
            assert(parts[0] == preds@[0]@);
        }
        stitch_patches(&preds, p)
    } else {
        let ghost e = o as int;
        let mut r: Vec<Single> = Vec::new();
        let mut n: usize = 0;
        while n < preds.len()
            invariant
                n <= preds@.len(),
                e == o == plan.extract_len,
                o > 0,
                rows_view(preds@) == parts,
                is_even(parts, e),
                r@.len() == n * e,
                forall|h: int| 0 <= h < n * e ==> r@[h] == parts[h / e][h % e],
            decreases preds@.len() - n,
        {
            let ghost start = r@;
            assert(parts[n as int] == preds@[n as int]@);
            crate::rows::append_row(&mut r, &preds[n]);
            proof {
                assert((n + 1) * e == n * e + e) by (nonlinear_arith);
                assert forall|h: int| 0 <= h < (n + 1) * e implies r@[h] == parts[h / e][h
                    % e] by {
                    if h >= n * e {
                        lemma_fundamental_div_mod_converse(h, e, n as int, h - n * e);
                    }
                }
            }
            n = n + 1;
        }
        r
    }
}

/// Reads the forecast of one series out of what the model says of its patches: for each step one
/// number for each quantile level. `trend` is what was taken out of the context, where that is
/// done.
pub fn read_answer(
    logits: &Vec<Vec<Single>>,
    plan: &DecodePlan,
    p: usize,
    o: usize,
    q: usize,
    trend: Option<(Line, bool)>,
) -> (r: Vec<Single>)
    requires
        plan.is_for(p as int, o as int),
        q > 0,
        logits@.len() == plan.total_patches,
        is_even(rows_view(logits@), o * q),
    ensures
        r@.len() == plan.horizon * q,
        forall|h: int, level: int|
            0 <= h < plan.horizon && 0 <= level < q ==> r@[h * q + level] == #[trigger] answer_at(
                rows_view(logits@),
                *plan,
                p as int,
                q as int,
                level,
                h,
                trend,
            ),
{
    let ghost views = rows_view(logits@);
    let mut levels: Vec<Vec<Single>> = Vec::new();
    let mut level: usize = 0;
    while level < q
        invariant
            level <= q,
            plan.is_for(p as int, o as int),
            views == rows_view(logits@),
            logits@.len() == plan.total_patches,
            is_even(rows_view(logits@), o * q),
            levels@.len() == level,
            forall|k: int|
                0 <= k < level ==> (#[trigger] levels@[k])@.len() >= plan.horizon && forall|h: int|
                    0 <= h < plan.horizon ==> levels@[k]@[h] == plain_answer(
                        views,
                        *plan,
                        p as int,
                        q as int,
                        k,
                        h,
                    ),
        decreases q - level,
    {
        let row = read_level(logits, plan, p, o, q, level);
        levels.push(row);
        level = level + 1;
    }
    let mut r: Vec<Single> = Vec::new();
    let mut h: usize = 0;
    while h < plan.horizon
        invariant
            h <= plan.horizon,
            q > 0,
            levels@.len() == q,
            forall|k: int|
                0 <= k < q ==> (#[trigger] levels@[k])@.len() >= plan.horizon && forall|t: int|
                    0 <= t < plan.horizon ==> levels@[k]@[t] == plain_answer(
                        views,
                        *plan,
                        p as int,
                        q as int,
                        k,
                        t,
                    ),
            r@.len() == h * q,
            forall|t: int, k: int|
                0 <= t < h && 0 <= k < q ==> r@[t * q + k] == #[trigger] answer_at(
                    views,
                    *plan,
                    p as int,
                    q as int,
                    k,
                    t,
                    trend,
                ),
        decreases plan.horizon - h,
    {
        let added = match trend {
            Some((line, applied)) => if applied {
                line.at(future_time(h, plan.context))
            } else {
                Single::zero()
            },
            None => Single::zero(),
        };
        let ghost start = r@;
        let mut k: usize = 0;
        while k < q
            invariant
                h < plan.horizon,
                k <= q,
                levels@.len() == q,
                forall|j: int|
                    0 <= j < q ==> (#[trigger] levels@[j])@.len() >= plan.horizon && forall|t: int|
                        0 <= t < plan.horizon ==> levels@[j]@[t] == plain_answer(
                            views,
                            *plan,
                            p as int,
                            q as int,
                            j,
                            t,
                        ),
                trend matches Some(d) ==> added == trend_at(d.0, d.1, h as int, plan.context as int),
                start.len() == h * q,
                r@.len() == h * q + k,
                forall|t: int| 0 <= t < start.len() ==> r@[t] == start[t],
                forall|j: int|
                    0 <= j < k ==> r@[h * q + j] == #[trigger] answer_at(
                        views,
                        *plan,
                        p as int,
                        q as int,
                        j,
                        h as int,
                        trend,
                    ),
            decreases q - k,
        {
            let plain = levels[k][h];
            let v = match trend {
                Some(_) => plain.plus(added),
                None => plain,
            };
            r.push(v);
            k = k + 1;
        }
        proof {
            assert((h + 1) * q == h * q + q) by (nonlinear_arith);
            assert forall|t: int, j: int| 0 <= t < h + 1 && 0 <= j < q implies r@[t * q + j]
                == #[trigger] answer_at(
                views,
                *plan,
                p as int,
                q as int,
                j,
                t,
                trend,
            ) by {
                if t < h {
                    lemma_level_index(t, q as int, j, h as int);
                    assert(r@[t * q + j] == start[t * q + j]);
                }
            }
        }
        h = h + 1;
    }
    r
}

/// Without stitching the forecast at a step is read where it was said: from the patch whose output
/// covers the step, at the step's place in that output and the level's place at the step, with the
/// trend put back on where one was taken out.
pub proof fn law_answer_end_to_end(
    logits: Seq<Seq<Single>>,
    plan: DecodePlan,
    p: int,
    q: int,
    level: int,
    h: int,
    trend: Option<(Line, bool)>,
)
    requires
        !plan.use_stitching,
        plan.extract_len > 0,
        0 <= h < plan.num_forecast_patches * plan.extract_len,
    ensures
        ({
            let o = plan.extract_len as int;
            let patch = plan.num_context_patches - 1 + (h / o) * plan.rolls;
            let plain = logits[patch][(h % o) * q + level];
            answer_at(logits, plan, p, q, level, h, trend) == match trend {
                Some(t) => if t.1 {
                    plain.plus(
                        t.0.slope.times(
                            Single::from_count((h + 1) as usize).over(
                                Single::from_count(plan.context),
                            ),
                        ).plus(t.0.level),
                    )
                } else {
                    plain.plus(Single { bits: 0 })
                },
                None => plain,
            }
        }),
{
    let o = plan.extract_len as int;
    lemma_fundamental_div_mod(h, o);
    lemma_mod_bound(h, o);
    let n = plan.num_forecast_patches as int;
    let k = h / o;
    assert(0 <= k < n) by (nonlinear_arith)
        requires
            h == o * k + h % o,
            0 <= h % o < o,
            0 <= h < n * o,
    ;
}

/// With stitching the forecast at step `i * p + j` comes from the patches around it: the `i`th output
/// patch, counted from the last patch of the context, says it at its own point `j`; where the patch
/// before it reaches as far, the two are mixed, the earlier one weighted from one down to zero in even
/// steps; the trend is put back on where one was taken out.
pub proof fn law_answer_stitched(
    logits: Seq<Seq<Single>>,
    plan: DecodePlan,
    p: int,
    q: int,
    level: int,
    i: int,
    j: int,
    trend: Option<(Line, bool)>,
)
    requires
        plan.use_stitching,
        0 < p <= plan.extract_len <= 2 * p,
        plan.num_forecast_patches >= 1,
        0 <= i < plan.num_forecast_patches,
        0 <= j,
        j < p || i == plan.num_forecast_patches - 1 && j < plan.extract_len,
    ensures
        ({
            let first = plan.num_context_patches - 1;
            let overlap = plan.extract_len - p;
            let unit = Single { bits: 0x3f80_0000 };
            let w = if overlap == 1 {
                unit
            } else {
                unit.minus(
                    Single::from_count(j as usize).over(Single::from_count((overlap - 1) as usize)),
                )
            };
            let own = logits[first + i][j * q + level];
            let plain = if i > 0 && j < overlap {
                logits[first + i - 1][(p + j) * q + level].times(w).plus(own.times(unit.minus(w)))
            } else {
                own
            };
            let h = i * p + j;
            answer_at(logits, plan, p, q, level, h, trend) == match trend {
                Some(t) => if t.1 {
                    plain.plus(
                        t.0.slope.times(
                            Single::from_count((h + 1) as usize).over(
                                Single::from_count(plan.context),
                            ),
                        ).plus(t.0.level),
                    )
                } else {
                    plain.plus(Single { bits: 0 })
                },
                None => plain,
            }
        }),
{
    let parts = sources(logits, plan, q, level);
    let e = plan.extract_len as int;
    assert forall|k: int| 0 <= k < parts.len() implies (#[trigger] parts[k]).len()
        == parts[0].len() by {}
    assert(parts[0].len() == e);
    law_stitched_points(parts, p, i, j);
}

} // verus!
