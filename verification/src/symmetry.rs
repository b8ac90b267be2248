//! How the forecasts of related series relate: mirror images, and forecasts that may not be
//! negative.

use vstd::arithmetic::div_mod::*;
use vstd::prelude::*;

use crate::forecaster::{
    inserted, is_prepared, joined, joined_covariates, law_sorted_row, lemma_index, non_negative,
    own_scale, restored, same_lengths, scale_of, scaled, sorted, symmetric, ForecastOptions,
    ForecastOutput, Layout, PreparedInput,
};
use crate::ieee::mirror::{
    law_same, law_same_order, law_same_product, law_same_quotient, law_same_root, law_same_sum,
    law_sum_commutes, same_run,
};
use crate::ieee::number::rank_of;
use crate::ieee::scalar::{law_negated_twice, Single};
use crate::model::alike::{
    are_same_series, law_same_forecast, layers_go_by_value, lemma_same_part, lemma_same_self,
    same_decoding, same_series,
};
use crate::model::decode::Decoding;
use crate::model::plan::DecodePlan;
use crate::model::window::Series;
use crate::stats::{lemma_same_mean, lemma_same_sum, mean, squared_distances, sum};
use crate::util::{
    interpolated, law_interpolation_of_complete_series, law_interpolation_of_turned_series,
};

verus! {

/// How many numbers of a row rank below `t`.
spec fn count_below(row: Seq<Single>, t: int) -> int
    decreases row.len(),
{
    if row.len() == 0 {
        0
    } else {
        count_below(row.drop_last(), t) + if rank_of(row.last().number()) < t {
            1int
        } else {
            0
        }
    }
}

proof fn lemma_count_range(row: Seq<Single>, t: int)
    ensures
        0 <= count_below(row, t) <= row.len(),
    decreases row.len(),
{
    if row.len() > 0 {
        lemma_count_range(row.drop_last(), t);
    }
}

proof fn lemma_count_inserted(row: Seq<Single>, x: Single, t: int)
    ensures
        count_below(inserted(row, x), t) == count_below(row.push(x), t),
    decreases row.len(),
{
    assert(row.push(x).drop_last() =~= row);
    if !(row.len() == 0 || !x.lt(row.last())) {
        let low = row.drop_last();
        lemma_count_inserted(low, x, t);
        assert(low.push(x).drop_last() =~= low);
        assert(inserted(row, x) == inserted(low, x).push(row.last()));
        assert(inserted(row, x).drop_last() =~= inserted(low, x));
        assert(count_below(row.push(x), t) == count_below(row, t) + count_below(seq![x], t)) by {
            assert(seq![x].drop_last() =~= seq![]);
            assert(count_below(seq![x].drop_last(), t) == 0);
        }
        assert(count_below(low.push(x), t) == count_below(low, t) + count_below(seq![x], t)) by {
            assert(seq![x].drop_last() =~= seq![]);
            assert(count_below(seq![x].drop_last(), t) == 0);
        }
    }
}

proof fn lemma_count_sorted(row: Seq<Single>, t: int)
    ensures
        count_below(sorted(row), t) == count_below(row, t),
    decreases row.len(),
{
    if row.len() > 0 {
        let low = row.drop_last();
        lemma_count_sorted(low, t);
        lemma_count_inserted(sorted(low), row.last(), t);
        assert(sorted(low).push(row.last()).drop_last() =~= sorted(low));
    }
}

spec fn ascends(row: Seq<Single>) -> bool {
    forall|i: int, j: int| 0 <= i < j < row.len() ==> (#[trigger] row[i]).le(#[trigger] row[j])
}

proof fn lemma_count_of_ascending(row: Seq<Single>, k: int, t: int)
    requires
        ascends(row),
        0 <= k < row.len(),
    ensures
        rank_of(row[k].number()) < t <==> count_below(row, t) > k,
    decreases row.len(),
{
    reveal(Single::lt_spec);
    let low = row.drop_last();
    let n = row.len() - 1;
    assert(ascends(low)) by {
        assert forall|i: int, j: int| 0 <= i < j < low.len() implies (#[trigger] low[i]).le(
            #[trigger] low[j],
        ) by {
            assert(row[i].le(row[j]));
        }
    }
    lemma_count_range(low, t);
    if k < n {
        lemma_count_of_ascending(low, k, t);
        assert(row[k].le(row[n]));
    } else if n > 0 {
        assert(row[n - 1].le(row[n]));
        lemma_count_of_ascending(low, n - 1, t);
    }
}

proof fn lemma_numbers_ascend(row: Seq<Single>)
    requires
        forall|i: int| 0 <= i < row.len() ==> !(#[trigger] row[i]).is_nan(),
    ensures
        ascends(sorted(row)),
        sorted(row).len() == row.len(),
        forall|i: int| 0 <= i < row.len() ==> !(#[trigger] sorted(row)[i]).is_nan(),
{
    broadcast use vstd::seq_lib::group_to_multiset_ensures;

    law_sorted_row(row);
    assert forall|i: int| 0 <= i < row.len() implies !(#[trigger] sorted(row)[i]).is_nan() by {
        let x = sorted(row)[i];
        assert(sorted(row).to_multiset().contains(x));
        assert(row.to_multiset().contains(x));
        let k = choose|k: int| 0 <= k < row.len() && row[k] == x;
        assert(!row[k].is_nan());
    }
}

proof fn lemma_count_turned(a: Seq<Single>, b: Seq<Single>, t: int)
    requires
        same_run(a, b, true),
        forall|i: int| 0 <= i < a.len() ==> !(#[trigger] a[i]).is_nan(),
    ensures
        count_below(b, t) == a.len() - count_below(a, 1 - t),
    decreases a.len(),
{
    if a.len() > 0 {
        let (c, d) = (a.drop_last(), b.drop_last());
        assert forall|i: int| 0 <= i < c.len() implies (#[trigger] c[i]).same(d[i], true)
            && !c[i].is_nan() by {
            assert(a[i].same(b[i], true) && !a[i].is_nan());
        }
        lemma_count_turned(c, d, t);
        let n = a.len() - 1;
        assert(a[n].same(b[n], true) && !a[n].is_nan());
    }
}

/// The row in ascending order of numbers whose signs are turned is the row in ascending order, read
/// from its end and turned.
pub proof fn law_sorting_turned_numbers(a: Seq<Single>, b: Seq<Single>)
    requires
        same_run(a, b, true),
        forall|i: int| 0 <= i < a.len() ==> !(#[trigger] a[i]).is_nan(),
    ensures
        sorted(a).len() == a.len(),
        sorted(b).len() == a.len(),
        forall|k: int|
            0 <= k < a.len() ==> (#[trigger] sorted(b)[k]).same(sorted(a)[a.len() - 1 - k], true),
{
    assert forall|i: int| 0 <= i < b.len() implies !(#[trigger] b[i]).is_nan() by {
        assert(a[i].same(b[i], true) && !a[i].is_nan());
    }
    lemma_numbers_ascend(a);
    lemma_numbers_ascend(b);
    let n = a.len() as int;
    assert forall|k: int| 0 <= k < n implies (#[trigger] sorted(b)[k]).same(
        sorted(a)[n - 1 - k],
        true,
    ) by {
        let x = rank_of(sorted(a)[n - 1 - k].number());
        let y = rank_of(sorted(b)[k].number());
        assert(!sorted(a)[n - 1 - k].is_nan());
        lemma_turned_place(a, b, k, y);
        lemma_turned_place(a, b, k, -x);
    }
}

proof fn lemma_turned_place(a: Seq<Single>, b: Seq<Single>, k: int, t: int)
    requires
        same_run(a, b, true),
        forall|i: int| 0 <= i < a.len() ==> !(#[trigger] a[i]).is_nan(),
        ascends(sorted(a)),
        ascends(sorted(b)),
        sorted(a).len() == a.len(),
        sorted(b).len() == a.len(),
        0 <= k < a.len(),
    ensures
        rank_of(sorted(b)[k].number()) < t <==> -rank_of(sorted(a)[a.len() - 1 - k].number()) < t,
{
    lemma_count_of_ascending(sorted(b), k, t);
    lemma_count_of_ascending(sorted(a), a.len() - 1 - k, 1 - t);
    lemma_count_sorted(a, 1 - t);
    lemma_count_sorted(b, t);
    lemma_count_turned(a, b, t);
}

/// A number, or zero where it is negative.
pub open spec fn raised(x: Single) -> Single {
    if x.lt(Single::zero()) {
        Single::zero()
    } else {
        x
    }
}

proof fn lemma_raised(x: Single)
    requires
        !x.is_nan(),
    ensures
        !raised(x).is_nan(),
        rank_of(raised(x).number()) == if rank_of(x.number()) < 0 {
            0
        } else {
            rank_of(x.number())
        },
{
    reveal(Single::lt_spec);
}

proof fn lemma_count_raised(a: Seq<Single>, b: Seq<Single>, t: int)
    requires
        a.len() == b.len(),
        forall|i: int| 0 <= i < a.len() ==> !(#[trigger] a[i]).is_nan() && b[i] == raised(a[i]),
    ensures
        count_below(b, t) == if t <= 0 {
            0
        } else {
            count_below(a, t)
        },
    decreases a.len(),
{
    if a.len() > 0 {
        let (c, d) = (a.drop_last(), b.drop_last());
        assert forall|i: int| 0 <= i < c.len() implies !(#[trigger] c[i]).is_nan() && d[i]
            == raised(c[i]) by {
            assert(!a[i].is_nan() && b[i] == raised(a[i]));
        }
        lemma_count_raised(c, d, t);
        let n = a.len() - 1;
        assert(!a[n].is_nan() && b[n] == raised(a[n]));
        lemma_raised(a[n]);
    }
}

/// Raising the numbers of a row to zero and sorting them is sorting them and raising them, in value.
pub proof fn law_sorting_raised_numbers(a: Seq<Single>, b: Seq<Single>)
    requires
        a.len() == b.len(),
        forall|i: int| 0 <= i < a.len() ==> !(#[trigger] a[i]).is_nan() && b[i] == raised(a[i]),
    ensures
        sorted(a).len() == a.len(),
        sorted(b).len() == a.len(),
        forall|k: int|
            0 <= k < a.len() ==> (#[trigger] sorted(b)[k]).same(raised(sorted(a)[k]), false),
{
    assert forall|i: int| 0 <= i < b.len() implies !(#[trigger] b[i]).is_nan() by {
        assert(!a[i].is_nan() && b[i] == raised(a[i]));
        lemma_raised(a[i]);
    }
    lemma_numbers_ascend(a);
    lemma_numbers_ascend(b);
    assert forall|k: int| 0 <= k < a.len() implies (#[trigger] sorted(b)[k]).same(
        raised(sorted(a)[k]),
        false,
    ) by {
        let x = rank_of(sorted(a)[k].number());
        let y = rank_of(sorted(b)[k].number());
        assert(!sorted(a)[k].is_nan());
        lemma_raised(sorted(a)[k]);
        lemma_raised_place(a, b, k, y);
        lemma_raised_place(a, b, k, y + 1);
        lemma_raised_place(a, b, k, x);
        lemma_raised_place(a, b, k, x + 1);
        lemma_raised_place(a, b, k, 0);
        lemma_raised_place(a, b, k, 1);
    }
}

proof fn lemma_raised_place(a: Seq<Single>, b: Seq<Single>, k: int, t: int)
    requires
        a.len() == b.len(),
        forall|i: int| 0 <= i < a.len() ==> !(#[trigger] a[i]).is_nan() && b[i] == raised(a[i]),
        ascends(sorted(a)),
        ascends(sorted(b)),
        sorted(a).len() == a.len(),
        sorted(b).len() == a.len(),
        0 <= k < a.len(),
    ensures
        rank_of(sorted(b)[k].number()) < t <==> t > 0 && rank_of(sorted(a)[k].number()) < t,
{
    lemma_count_of_ascending(sorted(b), k, t);
    lemma_count_of_ascending(sorted(a), k, t);
    lemma_count_sorted(a, t);
    lemma_count_sorted(b, t);
    lemma_count_raised(a, b, t);
}

/// The numbers with their signs turned.
pub open spec fn turned(s: Seq<Single>) -> Seq<Single> {
    s.map_values(|x: Single| x.negated())
}

/// Numbers that are equal in value are the same to the model: it does not tell the two zeros apart.
/// How many numbers it gives depends on how many it sees alone.
pub open spec fn goes_by_value(model: spec_fn(Seq<Single>) -> Seq<Single>) -> bool {
    &&& forall|a: Seq<Single>, b: Seq<Single>|
        same_run(a, b, false) ==> same_run(#[trigger] model(a), #[trigger] model(b), false)
    &&& forall|a: Seq<Single>, b: Seq<Single>|
        a.len() == b.len() ==> #[trigger] model(a).len() == #[trigger] model(b).len()
}

/// What the model gives for a series averaged with what it gives for the mirror image.
pub open spec fn averaged(x: Seq<Single>, mirrored: Seq<Single>) -> Seq<Single> {
    Seq::new(x.len(), |i: int| symmetric(x[i], mirrored[i]))
}

/// What turns the model's numbers for a prepared input into a forecast.
pub open spec fn layout_of(
    logits: Seq<Single>,
    p: PreparedInput,
    horizon: int,
    num_quantiles: int,
    options: ForecastOptions,
) -> Layout {
    Layout {
        logits,
        scales: p.scales@,
        horizon,
        num_quantiles,
        clamp: p.is_non_negative,
        options,
    }
}

/// The forecast that a model makes of a prepared input: with symmetric averaging the model also
/// sees the input with its signs turned. What the model gives for covariates that stay the same is
/// part of `model`.
pub open spec fn layout_for(
    model: spec_fn(Seq<Single>) -> Seq<Single>,
    p: PreparedInput,
    horizon: int,
    num_quantiles: int,
    options: ForecastOptions,
) -> Layout {
    layout_of(
        if options.use_symmetric_averaging {
            averaged(model(p.target@), model(turned(p.target@)))
        } else {
            model(p.target@)
        },
        p,
        horizon,
        num_quantiles,
        options,
    )
}

/// The layout has a number for each variate, step and level.
pub open spec fn is_complete(layout: Layout) -> bool {
    &&& layout.horizon >= 0
    &&& layout.num_quantiles > 0
    &&& layout.logits.len() >= layout.scales.len() * (layout.horizon * layout.num_quantiles)
}

/// Every number that the model gave is one once it is back on its own scale.
pub open spec fn is_numeric(layout: Layout) -> bool {
    forall|v: int, h: int, q: int|
        0 <= v < layout.scales.len() && 0 <= h < layout.horizon && 0 <= q < layout.num_quantiles
            ==> !(#[trigger] layout.raw_row(v, h)[q]).is_nan()
}

proof fn lemma_turned_run(s: Seq<Single>)
    ensures
        same_run(s, turned(s), true),
        same_run(turned(s), s, true),
{
    assert forall|i: int| 0 <= i < s.len() implies (#[trigger] s[i]).same(turned(s)[i], true) by {
        law_same(s[i], s[i], s[i], true, true);
    }
    assert forall|i: int| 0 <= i < s.len() implies (#[trigger] turned(s)[i]).same(s[i], true) by {
        law_same(s[i], turned(s)[i], s[i], true, true);
        assert(s[i].same(turned(s)[i], true));
    }
}

proof fn lemma_same_runs(a: Seq<Single>, b: Seq<Single>, c: Seq<Single>, t: bool, u: bool)
    requires
        same_run(a, b, t),
        same_run(b, c, u),
    ensures
        same_run(a, c, t != u),
        same_run(b, a, t),
{
    assert forall|i: int| 0 <= i < a.len() implies (#[trigger] a[i]).same(c[i], t != u) by {
        assert(a[i].same(b[i], t));
        assert(b[i].same(c[i], u));
        law_same(a[i], b[i], c[i], t, u);
    }
    assert forall|i: int| 0 <= i < b.len() implies (#[trigger] b[i]).same(a[i], t) by {
        assert(a[i].same(b[i], t));
        law_same(a[i], b[i], a[i], t, t);
    }
}

proof fn lemma_turned_scale(s: Seq<Single>, r: Seq<Single>)
    requires
        same_run(s, r, true),
    ensures
        own_scale(s).mean.same(own_scale(r).mean, true),
        own_scale(s).deviation.same(own_scale(r).deviation, false),
        own_scale(s).deviation.number().magnitude > 0,
{
    lemma_same_mean(s, r, true);
    let (a, b) = (squared_distances(s, mean(s)), squared_distances(r, mean(r)));
    lemma_same_sum(Single { bits: 0x8000_0000 }, a, b, false);
    let n = Single::from_count(s.len() as usize);
    law_same(n, n, n, false, false);
    law_same_quotient(sum(a), n, sum(b), n, false, false);
    let (x, y) = (sum(a).over(n).root(), sum(b).over(n).root());
    law_same_root(sum(a).over(n), sum(b).over(n));
    let least = Single { bits: 0x3586_37bd };
    law_same(least, least, least, false, false);
    law_same_order(x, least, y, least, false);
    lemma_at_least(x);
}

proof fn lemma_at_least(x: Single)
    ensures
        x.max(Single { bits: 0x3586_37bd }).number().magnitude > 0,
{
    reveal(Single::lt_spec);
}

proof fn lemma_turned_row(s: Seq<Single>, r: Seq<Single>, use_znorm: bool)
    requires
        same_run(s, r, true),
    ensures
        same_run(scaled(s, use_znorm), scaled(r, use_znorm), true),
{
    if use_znorm {
        lemma_turned_scale(s, r);
        let (a, b) = (own_scale(s), own_scale(r));
        let (c, d) = (scaled(s, true), scaled(r, true));
        assert forall|i: int| 0 <= i < c.len() implies (#[trigger] c[i]).same(d[i], true) by {
            assert(s[i].same(r[i], true));
            law_same_sum(s[i], a.mean, r[i], b.mean, true);
            law_same_quotient(
                s[i].minus(a.mean),
                a.deviation,
                r[i].minus(b.mean),
                b.deviation,
                true,
                false,
            );
        }
    }
}

/// The series of the second input are those of the first with their signs turned.
pub open spec fn are_mirrored(contexts: Seq<Vec<Single>>, mirrored: Seq<Vec<Single>>) -> bool {
    contexts.len() == mirrored.len() && forall|i: int|
        0 <= i < contexts.len() ==> (#[trigger] mirrored[i])@ == turned(contexts[i]@)
}

proof fn lemma_turned_input(
    contexts: Seq<Vec<Single>>,
    mirrored: Seq<Vec<Single>>,
    use_znorm: bool,
    n: int,
)
    requires
        are_mirrored(contexts, mirrored),
        0 <= n <= contexts.len(),
    ensures
        same_run(joined(contexts, use_znorm, n), joined(mirrored, use_znorm, n), true),
    decreases n,
{
    if n > 0 {
        lemma_turned_input(contexts, mirrored, use_znorm, n - 1);
        let (s, r) = (contexts[n - 1]@, mirrored[n - 1]@);
        lemma_turned_run(s);
        law_interpolation_of_turned_series(s, r, true);
        lemma_turned_row(interpolated(s), interpolated(r), use_znorm);
        let (a, b) = (joined(contexts, use_znorm, n - 1), joined(mirrored, use_znorm, n - 1));
        let (c, d) = (scaled(interpolated(s), use_znorm), scaled(interpolated(r), use_znorm));
        assert forall|i: int| 0 <= i < (a + c).len() implies (#[trigger] (a + c)[i]).same(
            (b + d)[i],
            true,
        ) by {
            if i < a.len() {
                assert(a[i].same(b[i], true));
            } else {
                assert(c[i - a.len()].same(d[i - a.len()], true));
            }
        }
    }
}

/// Swapping what the model gives for a series and for its mirror image turns the symmetric forecast.
proof fn lemma_symmetric_turned(x: Single, y: Single, z: Single, w: Single)
    requires
        x.same(w, false),
        y.same(z, false),
    ensures
        symmetric(x, y).same(symmetric(z, w), true),
{
    let half = Single { bits: 0x3f00_0000 };
    law_same(x, w, w.negated(), false, true);
    law_same(y.negated(), y, z, true, false);
    law_same(y, y, y, true, true);
    law_same(w, w, w, true, true);
    law_negated_twice(y);
    law_same(y.negated(), y.negated(), y, true, false);
    // x + -y is turned by -w + z
    law_same_sum(x, y.negated(), w.negated(), z, true);
    law_sum_commutes(w.negated(), z);
    let a = x.plus(y.negated());
    let b = z.plus(w.negated());
    law_same(a, w.negated().plus(z), b, true, false);
    law_same(half, half, half, false, false);
    law_same_product(a, half, b, half, true, false);
    law_same_sum(a.times(half), Single::zero(), b.times(half), Single::zero(), true);
}

proof fn lemma_turned_number(
    x: Single,
    y: Single,
    s: Seq<Single>,
    r: Seq<Single>,
    use_znorm: bool,
)
    requires
        same_run(s, r, true),
        x.same(y, true),
    ensures
        restored(x, scale_of(s, use_znorm), use_znorm, false).same(
            restored(y, scale_of(r, use_znorm), use_znorm, false),
            true,
        ),
{
    if use_znorm {
        lemma_turned_scale(s, r);
        let (a, b) = (own_scale(s), own_scale(r));
        law_same_product(x, a.deviation, y, b.deviation, true, false);
        law_same_sum(x.times(a.deviation), a.mean, y.times(b.deviation), b.mean, true);
    }
}

/// The two layouts hold turned numbers at every place.
spec fn are_turned(a: Layout, b: Layout) -> bool {
    &&& a.horizon == b.horizon
    &&& a.num_quantiles == b.num_quantiles
    &&& a.scales.len() == b.scales.len()
    &&& forall|v: int, h: int|
        0 <= v < a.scales.len() && 0 <= h < a.horizon ==> same_run(
            #[trigger] a.raw_row(v, h),
            b.raw_row(v, h),
            true,
        )
}

/// The averages of what a model gives for a series and for its mirror image, and of what it gives
/// the other way round.
#[verifier::rlimit(40)]
proof fn lemma_layouts_turned(
    x: Seq<Single>,
    y: Seq<Single>,
    z: Seq<Single>,
    w: Seq<Single>,
    p: PreparedInput,
    q: PreparedInput,
    contexts: Seq<Vec<Single>>,
    mirrored: Seq<Vec<Single>>,
    horizon: usize,
    num_quantiles: int,
    past_only: Option<Vec<Vec<Single>>>,
    past_future: Option<Vec<Vec<Single>>>,
    options: ForecastOptions,
)
    requires
        same_run(x, w, false),
        same_run(y, z, false),
        x.len() == y.len(),
        are_mirrored(contexts, mirrored),
        is_prepared(p, contexts, horizon, past_only, past_future, options),
        is_prepared(q, mirrored, horizon, past_only, past_future, options),
        !p.is_non_negative && !q.is_non_negative,
        is_complete(
            layout_of(averaged(x, y), p, horizon as int, num_quantiles, options),
        ),
    ensures
        are_turned(
            layout_of(averaged(x, y), p, horizon as int, num_quantiles, options),
            layout_of(averaged(z, w), q, horizon as int, num_quantiles, options),
        ),
{
    let a = layout_of(averaged(x, y), p, horizon as int, num_quantiles, options);
    let b = layout_of(averaged(z, w), q, horizon as int, num_quantiles, options);
    assert forall|v: int, h: int|
        0 <= v < a.scales.len() && 0 <= h < a.horizon implies same_run(
        #[trigger] a.raw_row(v, h),
        b.raw_row(v, h),
        true,
    ) by {
        let (m, n) = (interpolated(contexts[v]@), interpolated(mirrored[v]@));
        assert(a.scales[v] == scale_of(m, options.use_znorm));
        assert(b.scales[v] == scale_of(n, options.use_znorm));
        lemma_turned_run(contexts[v]@);
        assert(mirrored[v]@ == turned(contexts[v]@));
        law_interpolation_of_turned_series(contexts[v]@, mirrored[v]@, true);
        assert forall|k: int| 0 <= k < a.raw_row(v, h).len() implies (
        #[trigger] a.raw_row(v, h)[k]).same(b.raw_row(v, h)[k], true) by {
            lemma_index(v, h, k, a.scales.len() as int, a.horizon, a.num_quantiles);
            let i = a.index(v, h, k);
            assert(0 <= i < x.len());
            assert(x[i].same(w[i], false));
            assert(y[i].same(z[i], false));
            lemma_symmetric_turned(x[i], y[i], z[i], w[i]);
            lemma_turned_number(a.logits[i], b.logits[i], m, n, options.use_znorm);
        }
    }
}

/// Two forecasts are each other's mirror images: the point forecast at each step is the opposite
/// one, and the quantiles are the opposite ones in the opposite order, or, where they are not sorted,
/// in the same order. With an even number of sorted levels no level is the middle one, and only the
/// quantiles correspond.
pub open spec fn are_mirror_images(
    out: ForecastOutput,
    mirror: ForecastOutput,
    variates: int,
    horizon: int,
    num_quantiles: int,
    sort: bool,
) -> bool {
    &&& sort && num_quantiles % 2 == 0 || forall|v: int, h: int|
        0 <= v < variates && 0 <= h < horizon ==> (#[trigger] mirror.forecast@[v]@[h]).same(
            out.forecast@[v]@[h],
            true,
        )
    &&& out.quantiles is Some == mirror.quantiles is Some
    &&& out.quantiles is Some ==> forall|v: int, h: int, k: int|
        0 <= v < variates && 0 <= h < horizon && 0 <= k < num_quantiles ==> (
        #[trigger] mirror.quantiles->Some_0@[v]@[h]@[k]).same(
            out.quantiles->Some_0@[v]@[h]@[if sort {
                num_quantiles - 1 - k
            } else {
                k
            }],
            true,
        )
}

#[verifier::rlimit(40)]
proof fn lemma_turned_layouts_mirror(
    a: Layout,
    b: Layout,
    out: ForecastOutput,
    mirror: ForecastOutput,
)
    requires
        are_turned(a, b),
        a.options == b.options,
        a.num_quantiles > 0,
        a.options.sort_quantiles ==> is_numeric(a),
        a.is_forecast(out),
        b.is_forecast(mirror),
    ensures
        are_mirror_images(
            out,
            mirror,
            a.scales.len() as int,
            a.horizon,
            a.num_quantiles,
            a.options.sort_quantiles,
        ),
{
    let n = a.num_quantiles;
    let sort = a.options.sort_quantiles;
    let variates = a.scales.len() as int;
    assert forall|v: int, h: int, k: int|
        0 <= v < variates && 0 <= h < a.horizon && 0 <= k < n implies (
    #[trigger] b.row(v, h)[k]).same(
        a.row(v, h)[if sort {
            n - 1 - k
        } else {
            k
        }],
        true,
    ) by {
        let (x, y) = (a.raw_row(v, h), b.raw_row(v, h));
        assert(same_run(x, y, true));
        if sort {
            assert forall|i: int| 0 <= i < x.len() implies !(#[trigger] x[i]).is_nan() by {
                assert(!a.raw_row(v, h)[i].is_nan());
            }
            law_sorting_turned_numbers(x, y);
        } else {
            assert(x[k].same(y[k], true));
            law_same(x[k], y[k], x[k], true, true);
        }
    }
    if !(sort && n % 2 == 0) {
        assert forall|v: int, h: int| 0 <= v < variates && 0 <= h < a.horizon implies (
        #[trigger] mirror.forecast@[v]@[h]).same(out.forecast@[v]@[h], true) by {
            let (x, y) = (out.forecast@[v]@, mirror.forecast@[v]@);
            assert(x[h] == a.row(v, h)[n / 2]);
            assert(y[h] == b.row(v, h)[n / 2]);
            assert(b.row(v, h)[n / 2].same(
                a.row(v, h)[if sort {
                    n - 1 - n / 2
                } else {
                    n / 2
                }],
                true,
            ));
        }
    }
    if out.quantiles is Some {
        let (x, y) = (out.quantiles->Some_0@, mirror.quantiles->Some_0@);
        assert forall|v: int, h: int, k: int|
            0 <= v < variates && 0 <= h < a.horizon && 0 <= k < n implies (
        #[trigger] y[v]@[h]@[k]).same(
            x[v]@[h]@[if sort {
                n - 1 - k
            } else {
                k
            }],
            true,
        ) by {
            assert(x[v]@[h]@ == a.row(v, h));
            assert(y[v]@[h]@ == b.row(v, h));
            assert(b.row(v, h)[k] == y[v]@[h]@[k]);
        }
    }
}

/// Of turned targets, each is equal in value to the other turned.
proof fn lemma_turned_targets(
    p: PreparedInput,
    q: PreparedInput,
    contexts: Seq<Vec<Single>>,
    mirrored: Seq<Vec<Single>>,
    horizon: usize,
    past_only: Option<Vec<Vec<Single>>>,
    past_future: Option<Vec<Vec<Single>>>,
    options: ForecastOptions,
)
    requires
        are_mirrored(contexts, mirrored),
        is_prepared(p, contexts, horizon, past_only, past_future, options),
        is_prepared(q, mirrored, horizon, past_only, past_future, options),
    ensures
        same_run(p.target@, turned(q.target@), false),
        same_run(turned(p.target@), q.target@, false),
{
    let (s, r) = (p.target@, q.target@);
    lemma_turned_input(contexts, mirrored, options.use_znorm, contexts.len() as int);
    lemma_turned_run(s);
    lemma_turned_run(r);
    lemma_same_runs(s, r, turned(r), true, true);
    lemma_same_runs(turned(s), s, r, true, true);
}

/// With symmetric averaging, series with every sign turned have the forecast with every sign turned.
/// It holds of any model that goes by the values of the points, with the covariates left as they
/// are, where no forecast is kept from falling below zero and, if there is sorting, every number is
/// one.
pub proof fn law_mirrored_series_have_mirrored_forecasts(
    model: spec_fn(Seq<Single>) -> Seq<Single>,
    p: PreparedInput,
    q: PreparedInput,
    contexts: Seq<Vec<Single>>,
    mirrored: Seq<Vec<Single>>,
    horizon: usize,
    num_quantiles: usize,
    past_only: Option<Vec<Vec<Single>>>,
    past_future: Option<Vec<Vec<Single>>>,
    options: ForecastOptions,
    out: ForecastOutput,
    mirror: ForecastOutput,
)
    requires
        goes_by_value(model),
        are_mirrored(contexts, mirrored),
        is_prepared(p, contexts, horizon, past_only, past_future, options),
        is_prepared(q, mirrored, horizon, past_only, past_future, options),
        options.use_symmetric_averaging,
        !p.is_non_negative && !q.is_non_negative,
        is_complete(layout_for(model, p, horizon as int, num_quantiles as int, options)),
        options.sort_quantiles ==> is_numeric(
            layout_for(model, p, horizon as int, num_quantiles as int, options),
        ),
        layout_for(model, p, horizon as int, num_quantiles as int, options).is_forecast(out),
        layout_for(model, q, horizon as int, num_quantiles as int, options).is_forecast(mirror),
    ensures
        are_mirror_images(
            out,
            mirror,
            contexts.len() as int,
            horizon as int,
            num_quantiles as int,
            options.sort_quantiles,
        ),
{
    lemma_turned_targets(
        p,
        q,
        contexts,
        mirrored,
        horizon,
        past_only,
        past_future,
        options,
    );
    let (s, r) = (p.target@, q.target@);
    let (x, y, z, w) = (model(s), model(turned(s)), model(r), model(turned(r)));
    lemma_layouts_turned(
        x,
        y,
        z,
        w,
        p,
        q,
        contexts,
        mirrored,
        horizon,
        num_quantiles as int,
        past_only,
        past_future,
        options,
    );
    lemma_turned_layouts_mirror(
        layout_for(model, p, horizon as int, num_quantiles as int, options),
        layout_for(model, q, horizon as int, num_quantiles as int, options),
        out,
        mirror,
    );
}

/// Every point of every series is finite.
pub open spec fn are_complete(contexts: Seq<Vec<Single>>) -> bool {
    forall|i: int, j: int|
        0 <= i < contexts.len() && 0 <= j < contexts[i]@.len() ==> (
        #[trigger] contexts[i]@[j]).is_finite()
}

proof fn lemma_turned_twice(s: Seq<Single>)
    ensures
        turned(turned(s)) == s,
{
    assert forall|i: int| 0 <= i < s.len() implies turned(turned(s))[i] == s[i] by {
        law_negated_twice(s[i]);
    }
    assert(turned(turned(s)) =~= s);
}

/// Without gaps and without normalization the mirrored input is the input turned, to the bit.
proof fn lemma_turned_exactly(contexts: Seq<Vec<Single>>, mirrored: Seq<Vec<Single>>, n: int)
    requires
        are_mirrored(contexts, mirrored),
        are_complete(contexts),
        0 <= n <= contexts.len(),
    ensures
        joined(mirrored, false, n) == turned(joined(contexts, false, n)),
    decreases n,
{
    if n > 0 {
        lemma_turned_exactly(contexts, mirrored, n - 1);
        let (s, r) = (contexts[n - 1]@, mirrored[n - 1]@);
        assert forall|j: int| 0 <= j < s.len() implies (#[trigger] s[j]).is_finite() by {
            assert(contexts[n - 1]@[j].is_finite());
        }
        assert forall|j: int| 0 <= j < r.len() implies (#[trigger] r[j]).is_finite() by {
            assert(s[j].is_finite());
            law_negated_twice(s[j]);
        }
        law_interpolation_of_complete_series(s);
        law_interpolation_of_complete_series(r);
    }
    assert(joined(mirrored, false, n) =~= turned(joined(contexts, false, n)));
}

/// Of series without gaps, and without normalization, it holds whatever the model is: with symmetric
/// averaging, series with every sign turned have the forecast with every sign turned.
pub proof fn law_complete_series_have_mirrored_forecasts(
    model: spec_fn(Seq<Single>) -> Seq<Single>,
    p: PreparedInput,
    q: PreparedInput,
    contexts: Seq<Vec<Single>>,
    mirrored: Seq<Vec<Single>>,
    horizon: usize,
    num_quantiles: usize,
    past_only: Option<Vec<Vec<Single>>>,
    past_future: Option<Vec<Vec<Single>>>,
    options: ForecastOptions,
    out: ForecastOutput,
    mirror: ForecastOutput,
)
    requires
        are_complete(contexts),
        !options.use_znorm,
        model(turned(p.target@)).len() == model(p.target@).len(),
        are_mirrored(contexts, mirrored),
        is_prepared(p, contexts, horizon, past_only, past_future, options),
        is_prepared(q, mirrored, horizon, past_only, past_future, options),
        options.use_symmetric_averaging,
        !p.is_non_negative && !q.is_non_negative,
        is_complete(layout_for(model, p, horizon as int, num_quantiles as int, options)),
        options.sort_quantiles ==> is_numeric(
            layout_for(model, p, horizon as int, num_quantiles as int, options),
        ),
        layout_for(model, p, horizon as int, num_quantiles as int, options).is_forecast(out),
        layout_for(model, q, horizon as int, num_quantiles as int, options).is_forecast(mirror),
    ensures
        are_mirror_images(
            out,
            mirror,
            contexts.len() as int,
            horizon as int,
            num_quantiles as int,
            options.sort_quantiles,
        ),
{
    let s = p.target@;
    lemma_turned_exactly(contexts, mirrored, contexts.len() as int);
    lemma_turned_twice(s);
    assert(q.target@ == turned(s));
    let (x, y) = (model(s), model(turned(s)));
    lemma_same_self(x);
    lemma_same_self(y);
    lemma_layouts_turned(
        x,
        y,
        y,
        x,
        p,
        q,
        contexts,
        mirrored,
        horizon,
        num_quantiles as int,
        past_only,
        past_future,
        options,
    );
    lemma_turned_layouts_mirror(
        layout_for(model, p, horizon as int, num_quantiles as int, options),
        layout_for(model, q, horizon as int, num_quantiles as int, options),
        out,
        mirror,
    );
}

/// Rows of `len` points that stand one after another, as series without masks.
pub open spec fn are_rows(series: Seq<Series>, flat: Seq<Single>, len: int) -> bool {
    forall|i: int|
        0 <= i < series.len() ==> (#[trigger] series[i]).mask is None && series[i].values@
            == flat.subrange(i * len, i * len + len)
}

/// Covariates that stand one after another, as series without masks.
pub open spec fn are_covariates(
    series: Seq<Series>,
    given: Option<(usize, Vec<Single>)>,
    len: int,
) -> bool {
    match given {
        Some((n, flat)) => series.len() == n && are_rows(series, flat@, len),
        None => series.len() == 0,
    }
}

/// The forecast to be made of a target with the covariates of a prepared input.
pub open spec fn is_decoding_of(d: Decoding, p: PreparedInput, target: Seq<Single>) -> bool {
    &&& d.common is None
    &&& d.targets.len() == p.num_variates
    &&& are_rows(d.targets, target, p.context_len as int)
    &&& are_covariates(d.past_only, p.past_only, p.context_len as int)
    &&& are_covariates(
        d.past_future,
        p.past_future,
        match p.total_len {
            Some(n) => n as int,
            None => 0,
        },
    )
}

/// The numbers of a whole forecast, which run over the targets, the steps and the levels in that
/// order.
pub open spec fn decoded(
    d: Decoding,
    plan: DecodePlan,
    layers: spec_fn(Seq<Seq<Seq<Single>>>, Seq<Seq<bool>>) -> Seq<Seq<Seq<Single>>>,
) -> Seq<Single> {
    let q = d.config.quantiles@.len() as int;
    let each = plan.horizon * q;
    Seq::new(
        (d.targets.len() * each) as nat,
        |i: int| d.answer(plan, layers, i / each, (i % each) / q, (i % each) % q),
    )
}

/// Where the number for a target, a step and a level stands.
pub proof fn law_decoded_place(
    d: Decoding,
    plan: DecodePlan,
    layers: spec_fn(Seq<Seq<Seq<Single>>>, Seq<Seq<bool>>) -> Seq<Seq<Seq<Single>>>,
    v: int,
    h: int,
    level: int,
)
    requires
        0 <= v < d.targets.len(),
        0 <= h < plan.horizon,
        0 <= level < d.config.quantiles@.len(),
    ensures
        ({
            let q = d.config.quantiles@.len() as int;
            let i = v * (plan.horizon * q) + h * q + level;
            0 <= i < decoded(d, plan, layers).len() && decoded(d, plan, layers)[i] == d.answer(
                plan,
                layers,
                v,
                h,
                level,
            )
        }),
{
    let q = d.config.quantiles@.len() as int;
    let each = plan.horizon * q;
    lemma_index(v, h, level, d.targets.len() as int, plan.horizon as int, q);
    let rest = h * q + level;
    assert(0 <= rest < each) by (nonlinear_arith)
        requires
            rest == h * q + level,
            each == plan.horizon * q,
            0 <= h < plan.horizon,
            0 <= level < q,
    ;
    lemma_fundamental_div_mod_converse(v * each + rest, each, v, rest);
    lemma_fundamental_div_mod_converse(rest, q, h, level);
}

proof fn lemma_joined_length(series: Seq<Vec<Single>>, use_znorm: bool, n: int)
    requires
        same_lengths(series),
        0 <= n <= series.len(),
    ensures
        joined(series, use_znorm, n).len() == n * series[0]@.len(),
    decreases n,
{
    if n > 0 {
        lemma_joined_length(series, use_znorm, n - 1);
        assert(series[n - 1]@.len() == series[0]@.len());
        let len = series[0]@.len() as int;
        assert((n - 1) * len + len == n * len) by (nonlinear_arith);
    } else {
        assert(0 * series[0]@.len() == 0);
    }
}

proof fn lemma_same_targets(a: Seq<Series>, b: Seq<Series>, s: Seq<Single>, r: Seq<Single>, len: int)
    requires
        a.len() == b.len(),
        are_rows(a, s, len),
        are_rows(b, r, len),
        same_run(s, r, false),
        s.len() == a.len() * len,
        len >= 0,
    ensures
        are_same_series(a, b),
{
    let n = a.len() as int;
    assert forall|i: int| 0 <= i < n implies same_series(#[trigger] a[i], b[i]) by {
        assert(0 <= i * len && i * len + len <= n * len) by (nonlinear_arith)
            requires
                0 <= i < n,
                len >= 0,
        ;
        assert(b[i].mask is None);
        lemma_same_part(s, r, i * len, i * len + len);
    }
}

proof fn lemma_same_covariates(
    a: Seq<Series>,
    b: Seq<Series>,
    p: Option<(usize, Vec<Single>)>,
    q: Option<(usize, Vec<Single>)>,
    given: Option<Vec<Vec<Single>>>,
    len: int,
)
    requires
        joined_covariates(given, p),
        joined_covariates(given, q),
        are_covariates(a, p, len),
        are_covariates(b, q, len),
    ensures
        are_same_series(a, b),
{
    assert forall|i: int| 0 <= i < a.len() implies same_series(#[trigger] a[i], b[i]) by {
        assert(b[i].mask is None);
        assert(a[i].values@ == b[i].values@);
        lemma_same_self(a[i].values@);
    }
}

/// The numbers of forecasts of series that are equal in value are equal in value.
proof fn lemma_same_decoded(
    d: Decoding,
    e: Decoding,
    plan: DecodePlan,
    layers: spec_fn(Seq<Seq<Seq<Single>>>, Seq<Seq<bool>>) -> Seq<Seq<Seq<Single>>>,
)
    requires
        same_decoding(d, e),
        layers_go_by_value(layers),
        d.is_complete(plan, layers),
    ensures
        same_run(decoded(d, plan, layers), decoded(e, plan, layers), false),
{
    let (x, y) = (decoded(d, plan, layers), decoded(e, plan, layers));
    let q = d.config.quantiles@.len() as int;
    let each = plan.horizon * q;
    let n = d.targets.len() as int;
    assert(each > 0) by (nonlinear_arith)
        requires
            each == plan.horizon * q,
            plan.horizon > 0,
            q > 0,
    ;
    assert(n * each >= 0) by (nonlinear_arith)
        requires
            n >= 0,
            each > 0,
    ;
    assert forall|i: int| 0 <= i < x.len() implies (#[trigger] x[i]).same(y[i], false) by {
        lemma_fundamental_div_mod(i, each);
        lemma_mod_bound(i, each);
        let v = i / each;
        let rest = i % each;
        assert(0 <= v < n) by (nonlinear_arith)
            requires
                i == each * v + rest,
                0 <= rest < each,
                0 <= i < n * each,
        ;
        lemma_fundamental_div_mod(rest, q);
        lemma_mod_bound(rest, q);
        let h = rest / q;
        let level = rest % q;
        let steps = plan.horizon as int;
        assert(0 <= h < steps) by (nonlinear_arith)
            requires
                rest == q * h + level,
                0 <= level < q,
                0 <= rest < steps * q,
        ;
        law_same_forecast(d, e, plan, layers, v, h, level);
    }
}

/// The same of the model as it is put together here, where only the layers are left open: with
/// symmetric averaging, series with every sign turned have the forecast with every sign turned, as
/// long as what the layers say goes by the values of what they are given. `a` and `a_turned` are the
/// forecasts of the target of `p` and of its mirror image, `b` and `b_turned` those of `q`.
#[verifier::rlimit(40)]
pub proof fn law_layers_that_go_by_value_mirror(
    layers: spec_fn(Seq<Seq<Seq<Single>>>, Seq<Seq<bool>>) -> Seq<Seq<Seq<Single>>>,
    plan: DecodePlan,
    a: Decoding,
    a_turned: Decoding,
    b: Decoding,
    b_turned: Decoding,
    p: PreparedInput,
    q: PreparedInput,
    contexts: Seq<Vec<Single>>,
    mirrored: Seq<Vec<Single>>,
    horizon: usize,
    past_only: Option<Vec<Vec<Single>>>,
    past_future: Option<Vec<Vec<Single>>>,
    options: ForecastOptions,
    out: ForecastOutput,
    mirror: ForecastOutput,
)
    requires
        layers_go_by_value(layers),
        contexts.len() > 0,
        same_lengths(contexts),
        are_mirrored(contexts, mirrored),
        is_prepared(p, contexts, horizon, past_only, past_future, options),
        is_prepared(q, mirrored, horizon, past_only, past_future, options),
        options.use_symmetric_averaging,
        !p.is_non_negative && !q.is_non_negative,
        is_decoding_of(a, p, p.target@),
        is_decoding_of(a_turned, p, turned(p.target@)),
        is_decoding_of(b, q, q.target@),
        is_decoding_of(b_turned, q, turned(q.target@)),
        a_turned.config == a.config && b.config == a.config && b_turned.config == a.config,
        plan.horizon == horizon,
        a.is_complete(plan, layers),
        a_turned.is_complete(plan, layers),
        ({
            let levels = a.config.quantiles@.len() as int;
            let given = averaged(
                decoded(a, plan, layers),
                decoded(a_turned, plan, layers),
            );
            let turned_round = averaged(
                decoded(b, plan, layers),
                decoded(b_turned, plan, layers),
            );
            let layout = layout_of(given, p, horizon as int, levels, options);
            &&& options.sort_quantiles ==> is_numeric(layout)
            &&& layout.is_forecast(out)
            &&& layout_of(turned_round, q, horizon as int, levels, options).is_forecast(mirror)
        }),
    ensures
        are_mirror_images(
            out,
            mirror,
            contexts.len() as int,
            horizon as int,
            a.config.quantiles@.len() as int,
            options.sort_quantiles,
        ),
{
    lemma_turned_targets(
        p,
        q,
        contexts,
        mirrored,
        horizon,
        past_only,
        past_future,
        options,
    );
    let (s, r) = (p.target@, q.target@);
    let len = p.context_len as int;
    let n = contexts.len() as int;
    lemma_joined_length(contexts, options.use_znorm, n);
    assert(mirrored[0]@ == turned(contexts[0]@));
    assert(q.context_len == p.context_len);
    lemma_same_targets(a.targets, b_turned.targets, s, turned(r), len);
    lemma_same_targets(a_turned.targets, b.targets, turned(s), r, len);
    let total = match p.total_len {
        Some(m) => m as int,
        None => 0,
    };
    assert(p.total_len == q.total_len);
    lemma_same_covariates(
        a.past_only,
        b_turned.past_only,
        p.past_only,
        q.past_only,
        past_only,
        len,
    );
    lemma_same_covariates(a_turned.past_only, b.past_only, p.past_only, q.past_only, past_only, len);
    lemma_same_covariates(
        a.past_future,
        b_turned.past_future,
        p.past_future,
        q.past_future,
        past_future,
        total,
    );
    lemma_same_covariates(
        a_turned.past_future,
        b.past_future,
        p.past_future,
        q.past_future,
        past_future,
        total,
    );
    lemma_same_decoded(a, b_turned, plan, layers);
    lemma_same_decoded(a_turned, b, plan, layers);
    let (x, y) = (decoded(a, plan, layers), decoded(a_turned, plan, layers));
    let (z, w) = (decoded(b, plan, layers), decoded(b_turned, plan, layers));
    let levels = a.config.quantiles@.len() as int;
    assert(x.len() == n * (horizon * levels)) by {
        assert(0 <= n * (horizon * levels)) by (nonlinear_arith)
            requires
                n >= 0,
                horizon >= 0,
                levels >= 0,
        ;
    }
    lemma_layouts_turned(
        x,
        y,
        z,
        w,
        p,
        q,
        contexts,
        mirrored,
        horizon,
        levels,
        past_only,
        past_future,
        options,
    );
    lemma_turned_layouts_mirror(
        layout_of(averaged(x, y), p, horizon as int, levels, options),
        layout_of(averaged(z, w), q, horizon as int, levels, options),
        out,
        mirror,
    );
}

/// A forecast that must be positive is the plain one, each number of it raised to zero where it is
/// negative, if no finite point of the series is negative; it is the plain one as it stands if one
/// is.
#[verifier::rlimit(40)]
pub proof fn law_positive_forecast_is_raised(
    model: spec_fn(Seq<Single>) -> Seq<Single>,
    p: PreparedInput,
    q: PreparedInput,
    contexts: Seq<Vec<Single>>,
    horizon: usize,
    num_quantiles: usize,
    past_only: Option<Vec<Vec<Single>>>,
    past_future: Option<Vec<Vec<Single>>>,
    options: ForecastOptions,
    positive: ForecastOptions,
    out: ForecastOutput,
    raised_out: ForecastOutput,
)
    requires
        !options.make_positive,
        positive == (ForecastOptions { make_positive: true, ..options }),
        is_prepared(p, contexts, horizon, past_only, past_future, options),
        is_prepared(q, contexts, horizon, past_only, past_future, positive),
        is_complete(layout_for(model, p, horizon as int, num_quantiles as int, options)),
        options.sort_quantiles ==> is_numeric(
            layout_for(model, p, horizon as int, num_quantiles as int, options),
        ),
        layout_for(model, p, horizon as int, num_quantiles as int, options).is_forecast(out),
        layout_for(model, q, horizon as int, num_quantiles as int, positive).is_forecast(
            raised_out,
        ),
    ensures
        forall|v: int, h: int|
            0 <= v < contexts.len() && 0 <= h < horizon ==> if non_negative(contexts) {
                (#[trigger] raised_out.forecast@[v]@[h]).same(
                    raised(out.forecast@[v]@[h]),
                    false,
                )
            } else {
                raised_out.forecast@[v]@[h] == out.forecast@[v]@[h]
            },
        out.quantiles is Some == raised_out.quantiles is Some,
        out.quantiles is Some ==> forall|v: int, h: int, k: int|
            0 <= v < contexts.len() && 0 <= h < horizon && 0 <= k < num_quantiles
                ==> if non_negative(contexts) {
                (#[trigger] raised_out.quantiles->Some_0@[v]@[h]@[k]).same(
                    raised(out.quantiles->Some_0@[v]@[h]@[k]),
                    false,
                )
            } else {
                raised_out.quantiles->Some_0@[v]@[h]@[k] == out.quantiles->Some_0@[v]@[h]@[k]
            },
{
    let a = layout_for(model, p, horizon as int, num_quantiles as int, options);
    let b = layout_for(model, q, horizon as int, num_quantiles as int, positive);
    let n = num_quantiles as int;
    assert(a.scales =~= b.scales) by {
        assert forall|i: int| 0 <= i < contexts.len() implies a.scales[i] == b.scales[i] by {
            assert(p.scales@[i] == scale_of(interpolated(contexts[i]@), options.use_znorm));
            assert(q.scales@[i] == scale_of(interpolated(contexts[i]@), options.use_znorm));
        }
    }
    assert(a.logits =~= b.logits);
    assert forall|v: int, h: int, k: int|
        0 <= v < contexts.len() && 0 <= h < horizon && 0 <= k < n implies if non_negative(
        contexts,
    ) {
        (#[trigger] b.row(v, h)[k]).same(raised(a.row(v, h)[k]), false)
    } else {
        b.row(v, h)[k] == a.row(v, h)[k]
    } by {
        let (x, y) = (a.raw_row(v, h), b.raw_row(v, h));
        if non_negative(contexts) {
            assert forall|i: int| 0 <= i < x.len() implies #[trigger] y[i] == raised(x[i]) by {}
            if options.sort_quantiles {
                assert forall|i: int| 0 <= i < x.len() implies !(#[trigger] x[i]).is_nan() && y[i]
                    == raised(x[i]) by {
                    assert(!a.raw_row(v, h)[i].is_nan());
                }
                law_sorting_raised_numbers(x, y);
            } else {
                law_same(y[k], y[k], y[k], false, false);
            }
        } else {
            assert(x =~= y);
        }
    }
    assert forall|v: int, h: int| 0 <= v < contexts.len() && 0 <= h < horizon implies if
        non_negative(contexts) {
        (#[trigger] raised_out.forecast@[v]@[h]).same(raised(out.forecast@[v]@[h]), false)
    } else {
        raised_out.forecast@[v]@[h] == out.forecast@[v]@[h]
    } by {
        let (x, y) = (out.forecast@[v]@, raised_out.forecast@[v]@);
        assert(x[h] == a.row(v, h)[n / 2]);
        assert(y[h] == b.row(v, h)[n / 2]);
    }
    if out.quantiles is Some {
        let (x, y) = (out.quantiles->Some_0@, raised_out.quantiles->Some_0@);
        assert forall|v: int, h: int, k: int|
            0 <= v < contexts.len() && 0 <= h < horizon && 0 <= k < num_quantiles implies if
            non_negative(contexts) {
            (#[trigger] y[v]@[h]@[k]).same(raised(x[v]@[h]@[k]), false)
        } else {
            y[v]@[h]@[k] == x[v]@[h]@[k]
        } by {
            assert(x[v]@[h]@ == a.row(v, h));
            assert(y[v]@[h]@ == b.row(v, h));
            assert(b.row(v, h)[k] == y[v]@[h]@[k]);
        }
    }
}

/// What a forecast shows of a target is what was decoded for that target: without normalization,
/// clamping and sorting each number is the one for its own target, step and level, and the point
/// forecast is the one at the middle level.
pub proof fn law_forecast_shows_each_target(
    d: Decoding,
    plan: DecodePlan,
    layers: spec_fn(Seq<Seq<Seq<Single>>>, Seq<Seq<bool>>) -> Seq<Seq<Seq<Single>>>,
    layout: Layout,
    out: ForecastOutput,
    v: int,
    h: int,
    level: int,
)
    requires
        layout.is_forecast(out),
        layout.logits == decoded(d, plan, layers),
        layout.scales.len() == d.targets.len(),
        layout.horizon == plan.horizon,
        layout.num_quantiles == d.config.quantiles@.len(),
        !layout.options.use_znorm,
        !layout.options.sort_quantiles,
        !layout.clamp,
        0 <= v < d.targets.len(),
        0 <= h < plan.horizon,
        0 <= level < d.config.quantiles@.len(),
    ensures
        out.forecast@[v]@[h] == d.answer(plan, layers, v, h, layout.num_quantiles / 2),
        out.quantiles matches Some(all) ==> all@[v]@[h]@[level] == d.answer(
            plan,
            layers,
            v,
            h,
            level,
        ),
{
    let n = layout.num_quantiles;
    law_decoded_place(d, plan, layers, v, h, level);
    law_decoded_place(d, plan, layers, v, h, n / 2);
    let row = layout.row(v, h);
    let steps = out.forecast@[v]@;
    assert(steps[h] == row[n / 2]);
    if let Some(all) = out.quantiles {
        assert(all@[v]@[h]@ == row);
    }
}

} // verus!
