//! Forecasts: what is asked for and what comes out.

use vstd::prelude::*;
use vstd::string::*;

use crate::error::TimesfmError;
use crate::ieee::scalar::{
    law_difference_turned, law_negated_twice, law_nothing_added, law_numbers_stay_numbers, law_order,
    law_product_turned, law_zero_halved, Single,
};
use crate::rows::append_row;
use crate::stats::{mean, mean_of, squared_distances, squared_distances_of, sum, total_of};
use crate::util::{interpolated, linear_interpolation};

verus! {

/// A forecast.
#[derive(Debug, Clone)]
pub struct ForecastOutput {
    pub ts_id: Option<String>,
    /// The point forecast: one run of `horizon` numbers for each variate.
    pub forecast: Vec<Vec<Single>>,
    /// The quantiles: for each variate and each step, one number for each level.
    pub quantiles: Option<Vec<Vec<Vec<Single>>>>,
}

/// How a forecast is made.
#[derive(Debug, Clone)]
pub struct ForecastOptions {
    pub return_quantiles: bool,
    pub use_symmetric_averaging: bool,
    pub make_positive: bool,
    pub sort_quantiles: bool,
    pub use_znorm: bool,
}

impl ForecastOptions {
    /// Sorted quantiles and nothing else.
    pub open spec fn standard() -> ForecastOptions {
        ForecastOptions {
            return_quantiles: true,
            use_symmetric_averaging: false,
            make_positive: false,
            sort_quantiles: true,
            use_znorm: false,
        }
    }
}

impl Default for ForecastOptions {
    fn default() -> (r: ForecastOptions)
        ensures
            r == ForecastOptions::standard(),
    {
        ForecastOptions {
            return_quantiles: true,
            use_symmetric_averaging: false,
            make_positive: false,
            sort_quantiles: true,
            use_znorm: false,
        }
    }
}

/// How a variate was brought to scale: what was taken off it and what it was divided by.
#[derive(Debug, Clone, Copy)]
pub struct Scale {
    pub mean: Single,
    pub deviation: Single,
}

/// A forecast's input, ready for the model.
#[derive(Debug, Clone)]
pub struct PreparedInput {
    pub num_variates: usize,
    pub context_len: usize,
    /// The variates one after another, gaps filled and brought to scale.
    pub target: Vec<Single>,
    /// How many past-only covariates there are, and their points one after another.
    pub past_only: Option<(usize, Vec<Single>)>,
    /// How many past-and-future covariates there are, and their points one after another.
    pub past_future: Option<(usize, Vec<Single>)>,
    /// The length of a past-and-future covariate, where there are any: context and horizon.
    pub total_len: Option<usize>,
    pub scales: Vec<Scale>,
    /// The forecast must not fall below zero.
    pub is_non_negative: bool,
}

/// The series all have the length of the first.
pub open spec fn same_lengths(contexts: Seq<Vec<Single>>) -> bool {
    forall|i: int| 0 <= i < contexts.len() ==> (#[trigger] contexts[i])@.len() == contexts[0]@.len()
}

/// No point of the series is negative, the missing and infinite ones left aside.
pub open spec fn non_negative(contexts: Seq<Vec<Single>>) -> bool {
    forall|i: int, j: int|
        0 <= i < contexts.len() && 0 <= j < contexts[i]@.len() ==> Single::zero().le(
            #[trigger] contexts[i]@[j],
        ) || !contexts[i]@[j].is_finite()
}

/// The mean and the deviation that a series is brought to scale by. The deviation is at least 1e-6.
pub open spec fn own_scale(s: Seq<Single>) -> Scale {
    let m = mean(s);
    let variance = sum(squared_distances(s, m)).over(Single::from_count(s.len() as usize));
    Scale { mean: m, deviation: variance.root().max(Single { bits: 0x3586_37bd }) }
}

/// The scale of a series; without normalization it is left as it is.
pub open spec fn scale_of(s: Seq<Single>, use_znorm: bool) -> Scale {
    if use_znorm {
        own_scale(s)
    } else {
        Scale { mean: Single::zero(), deviation: Single { bits: 0x3f80_0000 } }
    }
}

/// The series brought to scale.
pub open spec fn scaled(s: Seq<Single>, use_znorm: bool) -> Seq<Single> {
    if use_znorm {
        s.map_values(|x: Single| x.minus(own_scale(s).mean).over(own_scale(s).deviation))
    } else {
        s
    }
}

/// The first `n` series, gaps filled and brought to scale, one after another.
pub open spec fn joined(series: Seq<Vec<Single>>, use_znorm: bool, n: int) -> Seq<Single>
    decreases n,
{
    if n <= 0 {
        seq![]
    } else {
        joined(series, use_znorm, n - 1) + scaled(interpolated(series[n - 1]@), use_znorm)
    }
}

/// The covariates, gaps filled, one after another.
pub open spec fn joined_covariates(given: Option<Vec<Vec<Single>>>, r: Option<(usize, Vec<Single>)>) -> bool {
    match given {
        Some(series) => r matches Some(p) && p.0 == series@.len() && p.1@ == joined(
            series@,
            false,
            series@.len() as int,
        ),
        None => r is None,
    }
}

/// The input as the model is to see it.
pub open spec fn is_prepared(
    p: PreparedInput,
    contexts: Seq<Vec<Single>>,
    horizon: usize,
    past_only: Option<Vec<Vec<Single>>>,
    past_future: Option<Vec<Vec<Single>>>,
    options: ForecastOptions,
) -> bool {
    &&& p.num_variates == contexts.len()
    &&& p.context_len == contexts[0]@.len()
    &&& p.target@ == joined(contexts, options.use_znorm, contexts.len() as int)
    &&& joined_covariates(past_only, p.past_only)
    &&& joined_covariates(past_future, p.past_future)
    &&& p.total_len == if past_future is Some {
        Some((contexts[0]@.len() + horizon) as usize)
    } else {
        None
    }
    &&& p.scales@.len() == contexts.len()
    &&& forall|i: int|
        0 <= i < contexts.len() ==> #[trigger] p.scales@[i] == scale_of(
            interpolated(contexts[i]@),
            options.use_znorm,
        )
    &&& p.is_non_negative == (options.make_positive && non_negative(contexts))
}

fn find_scale(s: &Vec<Single>, use_znorm: bool) -> (r: Scale)
    ensures
        r == scale_of(s@, use_znorm),
{
    if use_znorm {
        let m = mean_of(s);
        let distances = squared_distances_of(s, m);
        let variance = total_of(&distances).over(Single::from_count(s.len()));
        Scale { mean: m, deviation: variance.root().max(Single::from_bits(0x3586_37bd)) }
    } else {
        Scale { mean: Single::zero(), deviation: Single::from_bits(0x3f80_0000) }
    }
}

fn bring_to_scale(s: Vec<Single>, scale: Scale, use_znorm: bool) -> (r: Vec<Single>)
    requires
        scale == scale_of(s@, use_znorm),
    ensures
        r@ == scaled(s@, use_znorm),
{
    if !use_znorm {
        return s;
    }
    let mut r: Vec<Single> = Vec::new();
    let mut i: usize = 0;
    while i < s.len()
        invariant
            i <= s@.len(),
            r@.len() == i,
            scale == own_scale(s@),
            forall|j: int|
                0 <= j < i ==> r@[j] == s@[j].minus(own_scale(s@).mean).over(
                    own_scale(s@).deviation,
                ),
        decreases s@.len() - i,
    {
        r.push(s[i].minus(scale.mean).over(scale.deviation));
        i = i + 1;
    }
    assert(r@ =~= scaled(s@, true));
    r
}

fn join_covariates(given: &Option<Vec<Vec<Single>>>) -> (r: Option<(usize, Vec<Single>)>)
    ensures
        joined_covariates(*given, r),
{
    match given {
        Some(series) => {
            let mut flat: Vec<Single> = Vec::new();
            let mut i: usize = 0;
            while i < series.len()
                invariant
                    i <= series@.len(),
                    flat@ == joined(series@, false, i as int),
                decreases series@.len() - i,
            {
                let cleaned = linear_interpolation(&series[i]);
                append_row(&mut flat, &cleaned);
                i = i + 1;
            }
            Some((series.len(), flat))
        },
        None => None,
    }
}

fn is_non_negative_input(contexts: &Vec<Vec<Single>>) -> (r: bool)
    ensures
        r == non_negative(contexts@),
{
    let mut i: usize = 0;
    while i < contexts.len()
        invariant
            i <= contexts@.len(),
            forall|a: int, b: int|
                0 <= a < i && 0 <= b < contexts@[a]@.len() ==> Single::zero().le(
                    #[trigger] contexts@[a]@[b],
                ) || !contexts@[a]@[b].is_finite(),
        decreases contexts@.len() - i,
    {
        let c = &contexts[i];
        let mut j: usize = 0;
        while j < c.len()
            invariant
                i < contexts@.len(),
                *c == contexts@[i as int],
                j <= c@.len(),
                forall|a: int, b: int|
                    0 <= a < i && 0 <= b < contexts@[a]@.len() ==> Single::zero().le(
                        #[trigger] contexts@[a]@[b],
                    ) || !contexts@[a]@[b].is_finite(),
                forall|b: int|
                    0 <= b < j ==> Single::zero().le(#[trigger] contexts@[i as int]@[b])
                        || !contexts@[i as int]@[b].is_finite(),
            decreases c@.len() - j,
        {
            let v = c[j];
            if !(Single::zero().le(v) || !v.is_finite()) {
                assert(!(Single::zero().le(contexts@[i as int]@[j as int])
                    || !contexts@[i as int]@[j as int].is_finite()));
                return false;
            }
            j = j + 1;
        }
        i = i + 1;
    }
    true
}

/// Checks the input of a forecast and brings it into the shape that the model takes.
pub fn prepare(
    contexts: &Vec<Vec<Single>>,
    horizon: usize,
    past_only_covariates: &Option<Vec<Vec<Single>>>,
    past_future_covariates: &Option<Vec<Vec<Single>>>,
    options: &ForecastOptions,
) -> (r: Result<PreparedInput, TimesfmError>)
    requires
        past_future_covariates is Some && contexts@.len() > 0 ==> contexts@[0]@.len() + horizon
            <= usize::MAX,
    ensures
        if contexts@.len() == 0 {
            r matches Err(TimesfmError::Inference(m)) && m@ == "Contexts cannot be empty"@
        } else if !same_lengths(contexts@) {
            r matches Err(TimesfmError::Shape(m)) && m@
                == "All variates in multivariate target must have equal context length"@
        } else {
            r matches Ok(p) && is_prepared(
                p,
                contexts@,
                horizon,
                *past_only_covariates,
                *past_future_covariates,
                *options,
            )
        },
{
    let num_variates = contexts.len();
    if num_variates == 0 {
        return Err(TimesfmError::Inference("Contexts cannot be empty".to_owned()));
    }
    let context_len = contexts[0].len();
    let mut i: usize = 0;
    while i < num_variates
        invariant
            i <= num_variates == contexts@.len(),
            num_variates > 0,
            context_len == contexts@[0]@.len(),
            forall|j: int| 0 <= j < i ==> (#[trigger] contexts@[j])@.len() == context_len,
        decreases num_variates - i,
    {
        if contexts[i].len() != context_len {
            assert(contexts@[i as int]@.len() != contexts@[0]@.len());
            return Err(
                TimesfmError::Shape(
                    "All variates in multivariate target must have equal context length".to_owned(),
                ),
            );
        }
        i = i + 1;
    }
    let is_non_negative = if options.make_positive {
        is_non_negative_input(contexts)
    } else {
        false
    };
    let mut scales: Vec<Scale> = Vec::new();
    let mut target: Vec<Single> = Vec::new();
    let mut v: usize = 0;
    while v < num_variates
        invariant
            v <= num_variates == contexts@.len(),
            scales@.len() == v,
            forall|j: int|
                0 <= j < v ==> #[trigger] scales@[j] == scale_of(
                    interpolated(contexts@[j]@),
                    options.use_znorm,
                ),
            target@ == joined(contexts@, options.use_znorm, v as int),
        decreases num_variates - v,
    {
        let cleaned = linear_interpolation(&contexts[v]);
        let scale = find_scale(&cleaned, options.use_znorm);
        let row = bring_to_scale(cleaned, scale, options.use_znorm);
        append_row(&mut target, &row);
        scales.push(scale);
        v = v + 1;
    }
    Ok(
        PreparedInput {
            num_variates,
            context_len,
            target,
            past_only: join_covariates(past_only_covariates),
            past_future: join_covariates(past_future_covariates),
            total_len: if past_future_covariates.is_some() {
                Some(context_len + horizon)
            } else {
                None
            },
            scales,
            is_non_negative,
        },
    )
}

/// The mean of a forecast and of the mirror image of the forecast for the mirrored series.
pub open spec fn symmetric(x: Single, mirrored: Single) -> Single {
    x.plus(mirrored.negated()).times(Single { bits: 0x3f00_0000 }).plus(Single::zero())
}

/// The numbers with their signs turned.
pub fn mirror(s: &Vec<Single>) -> (r: Vec<Single>)
    ensures
        r@ == s@.map_values(|x: Single| x.negated()),
{
    let mut r: Vec<Single> = Vec::new();
    let mut i: usize = 0;
    while i < s.len()
        invariant
            i <= s@.len(),
            r@.len() == i,
            forall|k: int| 0 <= k < i ==> r@[k] == s@[k].negated(),
        decreases s@.len() - i,
    {
        r.push(s[i].negated());
        i = i + 1;
    }
    assert(r@ =~= s@.map_values(|x: Single| x.negated()));
    r
}

/// Half of the difference between what the model gives for a series and for its mirror image.
pub fn average_symmetric(logits: &Vec<Single>, mirrored: &Vec<Single>) -> (r: Vec<Single>)
    requires
        logits@.len() == mirrored@.len(),
    ensures
        r@ == Seq::new(logits@.len(), |i: int| symmetric(logits@[i], mirrored@[i])),
{
    let half = Single::from_bits(0x3f00_0000);
    let mut r: Vec<Single> = Vec::new();
    let mut i: usize = 0;
    while i < logits.len()
        invariant
            i <= logits@.len() == mirrored@.len(),
            half == (Single { bits: 0x3f00_0000 }),
            r@.len() == i,
            forall|k: int| 0 <= k < i ==> r@[k] == symmetric(logits@[k], mirrored@[k]),
        decreases logits@.len() - i,
    {
        r.push(logits[i].plus(mirrored[i].negated()).times(half).plus(Single::zero()));
        i = i + 1;
    }
    assert(r@ =~= Seq::new(logits@.len(), |i: int| symmetric(logits@[i], mirrored@[i])));
    r
}

/// A number put into its place in an ascending row, behind the ones that it is not below.
pub open spec fn inserted(row: Seq<Single>, x: Single) -> Seq<Single>
    decreases row.len(),
{
    if row.len() == 0 || !x.lt(row.last()) {
        row.push(x)
    } else {
        inserted(row.drop_last(), x).push(row.last())
    }
}

/// The row in ascending order; equal numbers stay in the order in which they came.
pub open spec fn sorted(row: Seq<Single>) -> Seq<Single>
    decreases row.len(),
{
    if row.len() == 0 {
        seq![]
    } else {
        inserted(sorted(row.drop_last()), row.last())
    }
}

/// A number that the model gave, taken back to the variate's own scale and, where the forecast
/// must not fall below zero, raised to zero.
pub open spec fn restored(x: Single, scale: Scale, use_znorm: bool, clamp: bool) -> Single {
    let y = if use_znorm {
        x.times(scale.deviation).plus(scale.mean)
    } else {
        x
    };
    if clamp && y.lt(Single::zero()) {
        Single::zero()
    } else {
        y
    }
}

/// What turns the model's numbers into a forecast.
pub struct Layout {
    pub logits: Seq<Single>,
    pub scales: Seq<Scale>,
    pub horizon: int,
    pub num_quantiles: int,
    pub clamp: bool,
    pub options: ForecastOptions,
}

impl Layout {
    /// Where the model's number for variate `v`, step `h` and level `q` stands.
    pub open spec fn index(self, v: int, h: int, q: int) -> int {
        v * (self.horizon * self.num_quantiles) + h * self.num_quantiles + q
    }

    /// The quantiles of variate `v` at step `h`, as the model gave them.
    pub open spec fn raw_row(self, v: int, h: int) -> Seq<Single> {
        Seq::new(
            self.num_quantiles as nat,
            |q: int|
                restored(
                    self.logits[self.index(v, h, q)],
                    self.scales[v],
                    self.options.use_znorm,
                    self.clamp,
                ),
        )
    }

    /// The quantiles of variate `v` at step `h`.
    pub open spec fn row(self, v: int, h: int) -> Seq<Single> {
        if self.options.sort_quantiles {
            sorted(self.raw_row(v, h))
        } else {
            self.raw_row(v, h)
        }
    }

    /// The forecast: the middle quantile of each variate at each step and, if asked for, all
    /// quantiles.
    pub open spec fn is_forecast(self, out: ForecastOutput) -> bool {
        let n = self.scales.len() as int;
        &&& out.ts_id is None
        &&& out.forecast@.len() == n
        &&& forall|v: int| #![trigger out.forecast@[v]]
            0 <= v < n ==> out.forecast@[v]@ == Seq::new(
                self.horizon as nat,
                |h: int| self.row(v, h)[self.num_quantiles / 2],
            )
        &&& match out.quantiles {
            Some(all) => {
                &&& self.options.return_quantiles
                &&& all@.len() == n
                &&& forall|v: int| #![trigger all@[v]]
                    0 <= v < n ==> all@[v]@.len() == self.horizon && forall|h: int|
                        0 <= h < self.horizon ==> (#[trigger] all@[v]@[h])@ == self.row(v, h)
            },
            None => !self.options.return_quantiles,
        }
    }
}

fn insert_sorted(row: &mut Vec<Single>, x: Single)
    ensures
        final(row)@ == inserted(old(row)@, x),
{
    let ghost start = row@;
    let mut i = row.len();
    assert(start.take(i as int) =~= start);
    row.push(x);
    let ghost tail: Seq<Single> = seq![];
    while i > 0 && x.lt(row[i - 1])
        invariant
            i <= start.len(),
            row@.len() == start.len() + 1,
            row@ =~= start.take(i as int).push(x) + tail,
            inserted(start, x) =~= inserted(start.take(i as int), x) + tail,
        decreases i,
    {
        let y = row[i - 1];
        proof {
            assert(y == start[i - 1]);
            assert(start.take(i as int).drop_last() =~= start.take(i - 1));
            assert(start.take(i as int).last() == y);
            assert(inserted(start.take(i as int), x) == inserted(start.take(i - 1), x).push(y));
            tail = seq![y] + tail;
        }
        row.set(i, y);
        row.set(i - 1, x);
        i = i - 1;
    }
    proof {
        if i > 0 {
            assert(start.take(i as int).last() == start[i - 1]);
        }
        assert(inserted(start.take(i as int), x) == start.take(i as int).push(x));
    }
}

fn sort_row(row: Vec<Single>) -> (r: Vec<Single>)
    ensures
        r@ == sorted(row@),
{
    let mut r: Vec<Single> = Vec::new();
    let mut i: usize = 0;
    assert(row@.take(0) =~= seq![]);
    while i < row.len()
        invariant
            i <= row@.len(),
            r@ == sorted(row@.take(i as int)),
        decreases row@.len() - i,
    {
        assert(row@.take(i + 1).drop_last() =~= row@.take(i as int));
        insert_sorted(&mut r, row[i]);
        i = i + 1;
    }
    assert(row@.take(i as int) =~= row@);
    r
}

proof fn lemma_inserted_len(row: Seq<Single>, x: Single)
    ensures
        inserted(row, x).len() == row.len() + 1,
    decreases row.len(),
{
    if row.len() > 0 {
        lemma_inserted_len(row.drop_last(), x);
    }
}

proof fn lemma_sorted_len(row: Seq<Single>)
    ensures
        sorted(row).len() == row.len(),
    decreases row.len(),
{
    if row.len() > 0 {
        lemma_sorted_len(row.drop_last());
        lemma_inserted_len(sorted(row.drop_last()), row.last());
    }
}

pub proof fn lemma_index(v: int, h: int, q: int, n: int, horizon: int, levels: int)
    requires
        0 <= v < n,
        0 <= h < horizon,
        0 <= q < levels,
    ensures
        0 <= v * (horizon * levels),
        0 <= horizon * levels,
        0 <= h * levels,
        v * (horizon * levels) + h * levels + q < n * (horizon * levels),
{
    assert(0 <= horizon * levels) by (nonlinear_arith)
        requires
            horizon >= 0,
            levels >= 0,
    ;
    assert(0 <= h * levels && h * levels + q < horizon * levels) by (nonlinear_arith)
        requires
            0 <= h < horizon,
            0 <= q < levels,
    ;
    let m = horizon * levels;
    assert(0 <= v * m && v * m + m <= n * m) by (nonlinear_arith)
        requires
            0 <= v < n,
            m >= 0,
    ;
}

/// Turns the model's numbers, which run over the variates, the steps and the quantile levels in
/// that order, into a forecast.
pub fn assemble(
    logits: &Vec<Single>,
    horizon: usize,
    num_quantiles: usize,
    scales: &Vec<Scale>,
    is_non_negative: bool,
    options: &ForecastOptions,
) -> (r: ForecastOutput)
    requires
        scales@.len() > 0 && horizon > 0 ==> num_quantiles > 0,
        logits@.len() >= scales@.len() * (horizon * num_quantiles),
    ensures
        (Layout {
            logits: logits@,
            scales: scales@,
            horizon: horizon as int,
            num_quantiles: num_quantiles as int,
            clamp: is_non_negative,
            options: *options,
        }).is_forecast(r),
{
    let ghost layout = Layout {
        logits: logits@,
        scales: scales@,
        horizon: horizon as int,
        num_quantiles: num_quantiles as int,
        clamp: is_non_negative,
        options: *options,
    };
    let num_variates = scales.len();
    let available = logits.len();
    let median = num_quantiles / 2;
    let mut forecasts: Vec<Vec<Single>> = Vec::new();
    let mut all_quantiles: Vec<Vec<Vec<Single>>> = Vec::new();
    let mut v: usize = 0;
    while v < num_variates
        invariant
            v <= num_variates == scales@.len(),
            median == num_quantiles / 2,
            scales@.len() > 0 && horizon > 0 ==> num_quantiles > 0,
            available == logits@.len(),
            logits@.len() >= scales@.len() * (horizon * num_quantiles),
            layout.logits == logits@,
            layout.scales == scales@,
            layout.horizon == horizon,
            layout.num_quantiles == num_quantiles,
            layout.clamp == is_non_negative,
            layout.options == *options,
            forecasts@.len() == v,
            forall|i: int| #![trigger forecasts@[i]]
                0 <= i < v ==> forecasts@[i]@ == Seq::new(
                    horizon as nat,
                    |h: int| layout.row(i, h)[num_quantiles as int / 2],
                ),
            all_quantiles@.len() == if options.return_quantiles {
                v as int
            } else {
                0
            },
            options.return_quantiles ==> forall|i: int| #![trigger all_quantiles@[i]]
                0 <= i < v ==> all_quantiles@[i]@.len() == horizon && forall|h: int|
                    0 <= h < horizon ==> (#[trigger] all_quantiles@[i]@[h])@ == layout.row(i, h),
        decreases num_variates - v,
    {
        let scale = scales[v];
        let mut steps: Vec<Single> = Vec::new();
        let mut rows: Vec<Vec<Single>> = Vec::new();
        let mut h: usize = 0;
        while h < horizon
            invariant
                v < num_variates == scales@.len(),
                h <= horizon,
                median == num_quantiles / 2,
                horizon > 0 ==> num_quantiles > 0,
                available == logits@.len(),
                scale == scales@[v as int],
                logits@.len() >= scales@.len() * (horizon * num_quantiles),
                layout.logits == logits@,
                layout.scales == scales@,
                layout.horizon == horizon,
                layout.num_quantiles == num_quantiles,
                layout.clamp == is_non_negative,
                layout.options == *options,
                steps@.len() == h,
                forall|k: int|
                    0 <= k < h ==> steps@[k] == layout.row(v as int, k)[num_quantiles as int / 2],
                rows@.len() == if options.return_quantiles {
                    h as int
                } else {
                    0
                },
                options.return_quantiles ==> forall|k: int|
                    0 <= k < h ==> (#[trigger] rows@[k])@ == layout.row(v as int, k),
            decreases horizon - h,
        {
            let mut row: Vec<Single> = Vec::new();
            let mut q: usize = 0;
            while q < num_quantiles
                invariant
                    v < num_variates == scales@.len(),
                    h < horizon,
                    q <= num_quantiles,
                    available == logits@.len(),
                    scale == scales@[v as int],
                    logits@.len() >= scales@.len() * (horizon * num_quantiles),
                    layout.logits == logits@,
                    layout.scales == scales@,
                    layout.horizon == horizon,
                    layout.num_quantiles == num_quantiles,
                    layout.clamp == is_non_negative,
                    layout.options == *options,
                    row@.len() == q,
                    forall|k: int|
                        0 <= k < q ==> row@[k] == layout.raw_row(v as int, h as int)[k],
                decreases num_quantiles - q,
            {
                proof {
                    lemma_index(
                        v as int,
                        h as int,
                        q as int,
                        num_variates as int,
                        horizon as int,
                        num_quantiles as int,
                    );
                    let m = horizon * num_quantiles;
                    assert(m <= num_variates * m) by (nonlinear_arith)
                        requires
                            num_variates >= 1,
                            m >= 0,
                    ;
                }
                let idx = v * (horizon * num_quantiles) + h * num_quantiles + q;
                let mut val = logits[idx];
                if options.use_znorm {
                    val = val.times(scale.deviation).plus(scale.mean);
                }
                if is_non_negative && val.lt(Single::zero()) {
                    val = Single::zero();
                }
                row.push(val);
                q = q + 1;
            }
            assert(row@ =~= layout.raw_row(v as int, h as int));
            if options.sort_quantiles {
                row = sort_row(row);
            }
            proof {
                lemma_sorted_len(layout.raw_row(v as int, h as int));
            }
            steps.push(row[median]);
            if options.return_quantiles {
                rows.push(row);
            }
            h = h + 1;
        }
        assert(steps@ =~= Seq::new(
            horizon as nat,
            |k: int| layout.row(v as int, k)[num_quantiles as int / 2],
        ));
        forecasts.push(steps);
        if options.return_quantiles {
            all_quantiles.push(rows);
        }
        v = v + 1;
    }
    ForecastOutput {
        ts_id: None,
        forecast: forecasts,
        quantiles: if options.return_quantiles {
            Some(all_quantiles)
        } else {
            None
        },
    }
}

/// The mirror image of a series has the mirror image of its symmetric forecast: with what the model
/// gives for the two swapped, every number but a zero has its sign turned.
pub proof fn law_symmetric_forecast_is_odd(x: Single, y: Single)
    requires
        x.is_finite(),
        y.is_finite(),
    ensures
        symmetric(x, y) == symmetric(y, x).negated() || (symmetric(x, y).number().magnitude == 0
            && symmetric(y, x).number().magnitude == 0),
{
    let half = Single { bits: 0x3f00_0000 };
    let a = x.plus(y.negated());
    let b = y.plus(x.negated());
    law_numbers_stay_numbers(x, y);
    law_numbers_stay_numbers(y, x);
    law_difference_turned(x, y);
    law_negated_twice(b);
    law_numbers_stay_numbers(a, half);
    law_numbers_stay_numbers(b, half);
    law_nothing_added(a.times(half));
    law_nothing_added(b.times(half));
    if a == b.negated() {
        law_product_turned(b, half);
        law_negated_twice(b.times(half));
    } else {
        law_zero_halved(a);
        law_zero_halved(b);
    }
}

proof fn lemma_inserted_items(row: Seq<Single>, x: Single)
    ensures
        inserted(row, x).to_multiset() == row.to_multiset().insert(x),
    decreases row.len(),
{
    broadcast use vstd::seq_lib::group_to_multiset_ensures;

    if !(row.len() == 0 || !x.lt(row.last())) {
        lemma_inserted_items(row.drop_last(), x);
        assert(row =~= row.drop_last().push(row.last()));
        assert(inserted(row, x).to_multiset() =~= row.to_multiset().insert(x));
    }
}

proof fn lemma_inserted_order(row: Seq<Single>, x: Single)
    requires
        !x.is_nan(),
        forall|i: int| 0 <= i < row.len() ==> !(#[trigger] row[i]).is_nan(),
        forall|i: int, j: int| 0 <= i < j < row.len() ==> (#[trigger] row[i]).le(#[trigger] row[j]),
    ensures
        forall|i: int, j: int|
            0 <= i < j < row.len() + 1 ==> (#[trigger] inserted(row, x)[i]).le(
                #[trigger] inserted(row, x)[j],
            ),
        inserted(row, x).len() == row.len() + 1,
        forall|i: int|
            0 <= i < row.len() + 1 ==> !(#[trigger] inserted(row, x)[i]).is_nan() && (
            inserted(row, x)[i] == x || row.contains(inserted(row, x)[i])),
    decreases row.len(),
{
    let out = inserted(row, x);
    lemma_inserted_len(row, x);
    if row.len() == 0 {
    } else if !x.lt(row.last()) {
        let n = row.len() as int;
        assert forall|i: int, j: int| 0 <= i < j < n + 1 implies (#[trigger] out[i]).le(
            #[trigger] out[j],
        ) by {
            if j == n {
                law_order(out[i], row.last(), x);
                law_order(row.last(), row.last(), row.last());
                if i < n - 1 {
                    assert(row[i].le(row[n - 1]));
                }
            } else {
                assert(row[i].le(row[j]));
            }
        }
        assert forall|i: int| 0 <= i < n + 1 implies !(#[trigger] out[i]).is_nan() && (out[i] == x
            || row.contains(out[i])) by {
            if i < n {
                assert(row[i] == out[i]);
            }
        }
    } else {
        let t = row.drop_last();
        let n = row.len() as int;
        let top = row.last();
        lemma_inserted_order(t, x);
        let below = inserted(t, x);
        law_order(x, top, top);
        assert forall|i: int| 0 <= i < n implies !(#[trigger] below[i]).is_nan() && below[i].le(top)
            && (below[i] == x || row.contains(below[i])) by {
            if below[i] != x {
                let k = choose|k: int| 0 <= k < t.len() && t[k] == below[i];
                assert(row[k] == below[i]);
                assert(row[k].le(row[n - 1]));
            }
        }
        assert(row[n - 1] == top);
        assert(row.contains(top));
        assert forall|i: int, j: int| 0 <= i < j < n + 1 implies (#[trigger] out[i]).le(
            #[trigger] out[j],
        ) by {
            if j < n {
                assert(below[i].le(below[j]));
            }
        }
    }
}

/// Sorting a row keeps what it holds, and brings a row of numbers into ascending order.
pub proof fn law_sorted_row(row: Seq<Single>)
    ensures
        sorted(row).len() == row.len(),
        sorted(row).to_multiset() == row.to_multiset(),
        (forall|i: int| 0 <= i < row.len() ==> !(#[trigger] row[i]).is_nan()) ==> forall|i: int, j: int|

            0 <= i < j < row.len() ==> (#[trigger] sorted(row)[i]).le(#[trigger] sorted(row)[j]),
    decreases row.len(),
{
    broadcast use vstd::seq_lib::group_to_multiset_ensures;

    lemma_sorted_len(row);
    if row.len() > 0 {
        let t = row.drop_last();
        law_sorted_row(t);
        lemma_inserted_items(sorted(t), row.last());
        assert(row =~= t.push(row.last()));
        if forall|i: int| 0 <= i < row.len() ==> !(#[trigger] row[i]).is_nan() {
            assert(!row[row.len() - 1].is_nan());
            assert forall|i: int| 0 <= i < t.len() implies !(#[trigger] t[i]).is_nan() by {
                assert(!row[i].is_nan());
            }
            assert forall|i: int| 0 <= i < sorted(t).len() implies !(
            #[trigger] sorted(t)[i]).is_nan() by {
                assert(sorted(t).to_multiset().contains(sorted(t)[i]));
                assert(t.to_multiset().contains(sorted(t)[i]));
                let k = choose|k: int| 0 <= k < t.len() && t[k] == sorted(t)[i];
                assert(!t[k].is_nan());
            }
            lemma_inserted_order(sorted(t), row.last());
        }
    }
}

/// A forecast has one run for each variate and one number for each step, and as many quantiles at
/// each step as there are levels, the middle one of which is the point forecast.
pub proof fn law_forecast_shape(layout: Layout, out: ForecastOutput)
    requires
        layout.is_forecast(out),
        layout.horizon >= 0,
        layout.num_quantiles > 0,
    ensures
        out.forecast@.len() == layout.scales.len(),
        forall|v: int|
            0 <= v < out.forecast@.len() ==> (#[trigger] out.forecast@[v])@.len() == layout.horizon,
        out.quantiles matches Some(all) ==> all@.len() == out.forecast@.len() && forall|
            v: int,
            h: int,
        |
            0 <= v < all@.len() && 0 <= h < layout.horizon ==> (#[trigger] all@[v]@[h])@.len()
                == layout.num_quantiles && all@[v]@[h]@[layout.num_quantiles / 2]
                == out.forecast@[v]@[h],
        out.quantiles is Some <==> layout.options.return_quantiles,
{
    if let Some(all) = out.quantiles {
        assert forall|v: int, h: int| 0 <= v < all@.len() && 0 <= h < layout.horizon implies (
        #[trigger] all@[v]@[h])@.len() == layout.num_quantiles && all@[v]@[h]@[layout.num_quantiles
            / 2] == out.forecast@[v]@[h] by {
            lemma_sorted_len(layout.raw_row(v, h));
            let steps = out.forecast@[v]@;
            assert(steps[h] == layout.row(v, h)[layout.num_quantiles / 2]);
        }
    }
}

/// Where the forecast must not fall below zero, none of its numbers does.
pub proof fn law_forecast_never_negative(layout: Layout, out: ForecastOutput)
    requires
        layout.is_forecast(out),
        layout.horizon >= 0,
        layout.num_quantiles > 0,
        layout.clamp,
    ensures
        forall|v: int, h: int|
            0 <= v < out.forecast@.len() && 0 <= h < layout.horizon ==> !(
            #[trigger] out.forecast@[v]@[h]).lt(Single::zero()),
        out.quantiles matches Some(all) ==> forall|v: int, h: int, q: int|
            0 <= v < all@.len() && 0 <= h < layout.horizon && 0 <= q < layout.num_quantiles ==> !(
            #[trigger] all@[v]@[h]@[q]).lt(Single::zero()),
{
    law_forecast_shape(layout, out);
    assert forall|v: int, h: int, q: int|
        0 <= v < layout.scales.len() && 0 <= h < layout.horizon && 0 <= q
            < layout.num_quantiles implies !(#[trigger] layout.row(v, h)[q]).lt(Single::zero()) by {
        lemma_row_never_negative(layout, v, h, q);
    }
    assert forall|v: int, h: int| 0 <= v < out.forecast@.len() && 0 <= h < layout.horizon implies !(
    #[trigger] out.forecast@[v]@[h]).lt(Single::zero()) by {
        let steps = out.forecast@[v]@;
        assert(steps[h] == layout.row(v, h)[layout.num_quantiles / 2]);
    }
}

proof fn lemma_row_never_negative(layout: Layout, v: int, h: int, q: int)
    requires
        layout.clamp,
        0 <= q < layout.num_quantiles,
    ensures
        !layout.row(v, h)[q].lt(Single::zero()),
{
    broadcast use vstd::seq_lib::group_to_multiset_ensures;

    let raw = layout.raw_row(v, h);
    law_order(Single::zero(), Single::zero(), Single::zero());
    law_sorted_row(raw);
    let x = layout.row(v, h)[q];
    if layout.options.sort_quantiles {
        assert(sorted(raw).to_multiset().contains(x));
        assert(raw.to_multiset().contains(x));
        let k = choose|k: int| 0 <= k < raw.len() && raw[k] == x;
        assert(!raw[k].lt(Single::zero()));
    }
}

/// Sorted quantiles never cross: at each step they ascend with their level, unless one of them is
/// not a number.
pub proof fn law_quantiles_ascend(layout: Layout, out: ForecastOutput, v: int, h: int)
    requires
        layout.is_forecast(out),
        layout.options.sort_quantiles,
        0 <= v < layout.scales.len(),
        0 <= h < layout.horizon,
        forall|q: int|
            0 <= q < layout.num_quantiles ==> !(#[trigger] layout.raw_row(v, h)[q]).is_nan(),
    ensures
        out.quantiles matches Some(all) ==> forall|i: int, j: int|
            0 <= i < j < layout.num_quantiles ==> (#[trigger] all@[v]@[h]@[i]).le(
                #[trigger] all@[v]@[h]@[j],
            ),
{
    law_sorted_row(layout.raw_row(v, h));
    if let Some(all) = out.quantiles {
        assert(all@[v]@[h]@ == sorted(layout.raw_row(v, h)));
    }
}

/// Every variate gets its own numbers: at each step the quantiles of variate `v` are the model's
/// numbers for that variate and that step, from the first level to the last, taken back to the
/// variate's own scale where it was normalized, and raised to zero where they must not be negative;
/// sorting puts them in ascending order and does nothing else, and the point forecast is the middle
/// one of them.
pub proof fn law_each_variate_its_own(layout: Layout, out: ForecastOutput, v: int, h: int)
    requires
        layout.is_forecast(out),
        layout.num_quantiles > 0,
        0 <= v < layout.scales.len(),
        0 <= h < layout.horizon,
    ensures
        ({
            let n = layout.num_quantiles;
            let given = Seq::new(
                n as nat,
                |q: int|
                    {
                        let x = layout.logits[(v * layout.horizon + h) * n + q];
                        let y = if layout.options.use_znorm {
                            x.times(layout.scales[v].deviation).plus(layout.scales[v].mean)
                        } else {
                            x
                        };
                        if layout.clamp && y.lt(Single::zero()) {
                            Single::zero()
                        } else {
                            y
                        }
                    },
            );
            exists|row: Seq<Single>|
                {
                    &&& #[trigger] row.len() == n
                    &&& row.to_multiset() == given.to_multiset()
                    &&& !layout.options.sort_quantiles ==> row == given
                    &&& layout.options.sort_quantiles && (forall|q: int|
                        0 <= q < n ==> !(#[trigger] given[q]).is_nan()) ==> forall|i: int, j: int|
                        0 <= i < j < n ==> (#[trigger] row[i]).le(#[trigger] row[j])
                    &&& out.forecast@[v]@[h] == row[n / 2]
                    &&& out.quantiles matches Some(all) ==> all@[v]@[h]@ == row
                }
        }),
        out.forecast@.len() == layout.scales.len(),
        out.forecast@[v]@.len() == layout.horizon,
        out.quantiles is Some <==> layout.options.return_quantiles,
        out.quantiles matches Some(all) ==> all@.len() == layout.scales.len() && all@[v]@.len()
            == layout.horizon,
{
    let n = layout.num_quantiles;
    let given = Seq::new(
        n as nat,
        |q: int|
            {
                let x = layout.logits[(v * layout.horizon + h) * n + q];
                let y = if layout.options.use_znorm {
                    x.times(layout.scales[v].deviation).plus(layout.scales[v].mean)
                } else {
                    x
                };
                if layout.clamp && y.lt(Single::zero()) {
                    Single::zero()
                } else {
                    y
                }
            },
    );
    let raw = layout.raw_row(v, h);
    assert forall|q: int| 0 <= q < n implies raw[q] == given[q] by {
        let m = layout.horizon;
        assert(v * (m * n) + h * n + q == (v * m + h) * n + q) by (nonlinear_arith);
    }
    assert(raw =~= given);
    law_sorted_row(raw);
    let row = layout.row(v, h);
    assert(row.len() == n);
    let steps = out.forecast@[v]@;
    assert(steps[h] == row[n / 2]);
    if let Some(all) = out.quantiles {
        assert(all@[v]@[h]@ == row);
    }
}

/// The forecast of a variate rests on the model's numbers for that variate alone: two forecasts that
/// were given the same numbers and the same scale for it agree on it, whatever the other variates
/// were given.
pub proof fn law_variates_do_not_mix(
    a: Layout,
    b: Layout,
    out: ForecastOutput,
    other: ForecastOutput,
    v: int,
    w: int,
)
    requires
        a.is_forecast(out),
        b.is_forecast(other),
        a.num_quantiles == b.num_quantiles,
        a.num_quantiles > 0,
        a.horizon == b.horizon,
        a.horizon >= 0,
        a.options == b.options,
        a.clamp == b.clamp,
        0 <= v < a.scales.len(),
        0 <= w < b.scales.len(),
        a.scales[v] == b.scales[w],
        a.logits.len() >= a.scales.len() * (a.horizon * a.num_quantiles),
        b.logits.len() >= b.scales.len() * (a.horizon * a.num_quantiles),
        ({
            let m = a.horizon * a.num_quantiles;
            a.logits.subrange(v * m, v * m + m) == b.logits.subrange(w * m, w * m + m)
        }),
    ensures
        out.forecast@[v]@ == other.forecast@[w]@,
        forall|h: int|
            0 <= h < a.horizon && out.quantiles is Some ==> (
            #[trigger] out.quantiles->Some_0@[v]@[h])@ == other.quantiles->Some_0@[w]@[h]@,
{
    let n = a.num_quantiles;
    assert forall|h: int| 0 <= h < a.horizon implies #[trigger] a.row(v, h) == b.row(w, h) by {
        assert forall|q: int| 0 <= q < n implies a.raw_row(v, h)[q] == b.raw_row(w, h)[q] by {
            let i = h * n + q;
            assert(0 <= i < a.horizon * n) by (nonlinear_arith)
                requires
                    i == h * n + q,
                    0 <= h < a.horizon,
                    0 <= q < n,
            ;
            let m = a.horizon * n;
            lemma_block(v, a.scales.len() as int, m);
            lemma_block(w, b.scales.len() as int, m);
            assert(a.logits.subrange(v * m, v * m + m)[i] == a.logits[v * m + i]);
            assert(b.logits.subrange(w * m, w * m + m)[i] == b.logits[w * m + i]);
        }
        assert(a.raw_row(v, h) =~= b.raw_row(w, h));
    }
    let (x, y) = (out.forecast@[v]@, other.forecast@[w]@);
    assert forall|h: int| 0 <= h < a.horizon implies x[h] == y[h] by {
        assert(a.row(v, h) == b.row(w, h));
    }
    assert(x =~= y);
    if out.quantiles is Some {
        assert forall|h: int| 0 <= h < a.horizon implies (
        #[trigger] out.quantiles->Some_0@[v]@[h])@ == other.quantiles->Some_0@[w]@[h]@ by {
            assert(a.row(v, h) == b.row(w, h));
            assert(out.quantiles->Some_0@[v]@[h]@ == a.row(v, h));
            assert(other.quantiles->Some_0@[w]@[h]@ == b.row(w, h));
        }
    }
}

proof fn lemma_block(v: int, n: int, m: int)
    requires
        0 <= v < n,
        m >= 0,
    ensures
        0 <= v * m,
        v * m + m <= n * m,
{
    assert(0 <= v * m && v * m + m <= n * m) by (nonlinear_arith)
        requires
            0 <= v < n,
            m >= 0,
    ;
}

proof fn lemma_joined_place(
    series: Seq<Vec<Single>>,
    use_znorm: bool,
    n: int,
    len: int,
    v: int,
    i: int,
)
    requires
        0 <= v < n <= series.len(),
        0 <= i < len,
        forall|k: int| 0 <= k < n ==> (#[trigger] series[k])@.len() == len,
    ensures
        joined(series, use_znorm, n).len() == n * len,
        joined(series, use_znorm, n)[v * len + i] == scaled(interpolated(series[v]@), use_znorm)[i],
    decreases n,
{
    lemma_joined_size(series, use_znorm, n, len);
    lemma_joined_size(series, use_znorm, n - 1, len);
    assert(v * len + i >= 0) by (nonlinear_arith)
        requires
            v >= 0,
            len >= 0,
            i >= 0,
    ;
    if v < n - 1 {
        lemma_joined_place(series, use_znorm, n - 1, len, v, i);
        assert(v * len + i < (n - 1) * len) by (nonlinear_arith)
            requires
                v < n - 1,
                0 <= i < len,
        ;
    } else {
        assert(series[n - 1]@.len() == len);
    }
}

proof fn lemma_joined_size(series: Seq<Vec<Single>>, use_znorm: bool, n: int, len: int)
    requires
        0 <= n <= series.len(),
        forall|k: int| 0 <= k < n ==> (#[trigger] series[k])@.len() == len,
    ensures
        joined(series, use_znorm, n).len() == n * len,
    decreases n,
{
    if n > 0 {
        lemma_joined_size(series, use_znorm, n - 1, len);
        assert(series[n - 1]@.len() == len);
        assert((n - 1) * len + len == n * len) by (nonlinear_arith);
    } else {
        assert(0 * len == 0);
    }
}

/// What the model is given of a target: the variates stand one after another, each with its gaps
/// filled. With normalization each point has its variate's mean taken off and is divided by its
/// variate's deviation: the mean is the sum over the count, the deviation the root of the mean of the
/// squared distances, and never below 1e-6. Without it the points stand as they are.
pub proof fn law_prepared_points(
    p: PreparedInput,
    contexts: Seq<Vec<Single>>,
    horizon: usize,
    past_only: Option<Vec<Vec<Single>>>,
    past_future: Option<Vec<Vec<Single>>>,
    options: ForecastOptions,
    v: int,
    i: int,
)
    requires
        is_prepared(p, contexts, horizon, past_only, past_future, options),
        same_lengths(contexts),
        0 <= v < contexts.len(),
        0 <= i < contexts[0]@.len(),
    ensures
        p.num_variates == contexts.len(),
        p.context_len == contexts[0]@.len(),
        p.target@.len() == contexts.len() * contexts[0]@.len(),
        p.scales@.len() == contexts.len(),
        ({
            let full = interpolated(contexts[v]@);
            let n = Single::from_count(full.len() as usize);
            let x = p.target@[v * contexts[0]@.len() + i];
            let s = p.scales@[v];
            if options.use_znorm {
                let squares = Seq::new(
                    full.len(),
                    |k: int| full[k].minus(s.mean).times(full[k].minus(s.mean)),
                );
                let spread = sum(squares).over(n).root();
                &&& x == full[i].minus(s.mean).over(s.deviation)
                &&& s.mean == sum(full).over(n)
                &&& s.deviation == if spread.is_nan() || spread.lt(Single { bits: 0x3586_37bd }) {
                    Single { bits: 0x3586_37bd }
                } else {
                    spread
                }
            } else {
                x == full[i] && s.mean == Single::zero() && s.deviation == Single {
                    bits: 0x3f80_0000,
                }
            }
        }),
{
    let len = contexts[0]@.len() as int;
    assert forall|k: int| 0 <= k < contexts.len() implies (#[trigger] contexts[k])@.len() == len by {}
    lemma_joined_place(contexts, options.use_znorm, contexts.len() as int, len, v, i);
    let full = interpolated(contexts[v]@);
    let s = p.scales@[v];
    assert(s == scale_of(full, options.use_znorm));
    assert(contexts[v]@.len() == len);
    let squares = Seq::new(
        full.len(),
        |k: int| full[k].minus(s.mean).times(full[k].minus(s.mean)),
    );
    assert(squares =~= squared_distances(full, s.mean));
}

/// What the model is given of covariates: they stand one after another, each with its gaps filled, and
/// are not normalized. Covariates that are known ahead are as long as the context and the horizon.
pub proof fn law_prepared_covariates(
    p: PreparedInput,
    contexts: Seq<Vec<Single>>,
    horizon: usize,
    past_only: Option<Vec<Vec<Single>>>,
    past_future: Option<Vec<Vec<Single>>>,
    options: ForecastOptions,
    len: int,
    v: int,
    i: int,
)
    requires
        is_prepared(p, contexts, horizon, past_only, past_future, options),
        contexts[0]@.len() + horizon <= usize::MAX,
        0 <= i < len,
    ensures
        past_only is None <==> p.past_only is None,
        past_future is None <==> p.past_future is None,
        past_only matches Some(given) ==> (0 <= v < given@.len() && (forall|k: int|
            0 <= k < given@.len() ==> (#[trigger] given@[k])@.len() == len) ==> p.past_only->Some_0.0
            == given@.len() && p.past_only->Some_0.1@[v * len + i] == interpolated(given@[v]@)[i]),
        past_future matches Some(given) ==> (0 <= v < given@.len() && (forall|k: int|
            0 <= k < given@.len() ==> (#[trigger] given@[k])@.len() == len) ==> p.past_future->Some_0.0
            == given@.len() && p.past_future->Some_0.1@[v * len + i] == interpolated(given@[v]@)[i]),
        past_future is Some ==> p.total_len is Some && p.total_len->Some_0 == contexts[0]@.len()
            + horizon,
        past_future is None ==> p.total_len is None,
{
    if let Some(given) = past_only {
        if 0 <= v < given@.len() && forall|k: int|
            0 <= k < given@.len() ==> (#[trigger] given@[k])@.len() == len {
            lemma_joined_place(given@, false, given@.len() as int, len, v, i);
        }
    }
    if let Some(given) = past_future {
        if 0 <= v < given@.len() && forall|k: int|
            0 <= k < given@.len() ==> (#[trigger] given@[k])@.len() == len {
            lemma_joined_place(given@, false, given@.len() as int, len, v, i);
        }
    }
}

/// A forecast is kept from falling below zero exactly where that was asked for and no finite point of
/// any variate is below zero.
pub proof fn law_kept_from_falling(
    p: PreparedInput,
    contexts: Seq<Vec<Single>>,
    horizon: usize,
    past_only: Option<Vec<Vec<Single>>>,
    past_future: Option<Vec<Vec<Single>>>,
    options: ForecastOptions,
)
    requires
        is_prepared(p, contexts, horizon, past_only, past_future, options),
    ensures
        p.is_non_negative <==> options.make_positive && forall|v: int, i: int|
            0 <= v < contexts.len() && 0 <= i < contexts[v]@.len() && (
            #[trigger] contexts[v]@[i]).is_finite() ==> !contexts[v]@[i].lt(Single::zero()),
{
    reveal(Single::lt_spec);
    assert(!Single::zero().is_nan());
    if options.make_positive && forall|v: int, i: int|
        0 <= v < contexts.len() && 0 <= i < contexts[v]@.len() && (
        #[trigger] contexts[v]@[i]).is_finite() ==> !contexts[v]@[i].lt(Single::zero()) {
        assert(non_negative(contexts));
    }
    if p.is_non_negative {
        assert forall|v: int, i: int|
            0 <= v < contexts.len() && 0 <= i < contexts[v]@.len() && (
            #[trigger] contexts[v]@[i]).is_finite() implies !contexts[v]@[i].lt(
            Single::zero(),
        ) by {
            assert(Single::zero().le(contexts[v]@[i]) || !contexts[v]@[i].is_finite());
        }
    }
}

/// The average of a forecast and of the mirrored forecast of the mirrored series is half of the
/// difference, point by point, in value.
pub proof fn law_symmetric_average(x: Single, mirrored: Single)
    requires
        x.is_finite(),
        mirrored.is_finite(),
        x.minus(mirrored).times(Single { bits: 0x3f00_0000 }).is_finite(),
    ensures
        symmetric(x, mirrored).same(x.minus(mirrored).times(Single { bits: 0x3f00_0000 }), false),
{
    crate::ieee::nearest::law_plus_zero(
        x.minus(mirrored).times(Single { bits: 0x3f00_0000 }),
        Single::zero(),
    );
}

/// Sorting takes one number after another and puts each behind every number that it is not below:
/// everything behind its place is above it, and the number before it, if there is one, is not. So equal
/// numbers keep their order.
pub proof fn law_sorting_inserts(row: Seq<Single>, x: Single)
    ensures
        sorted(seq![]).len() == 0,
        exists|k: int|
            0 <= k <= sorted(row).len() && sorted(row.push(x)) == #[trigger] sorted(row).insert(k, x)
                && (k > 0 ==> !x.lt(sorted(row)[k - 1])) && forall|j: int|
                k <= j < sorted(row).len() ==> x.lt(#[trigger] sorted(row)[j]),
{
    assert(row.push(x).drop_last() =~= row);
    lemma_inserted_place(sorted(row), x);
}

proof fn lemma_inserted_place(row: Seq<Single>, x: Single)
    ensures
        exists|k: int|
            0 <= k <= row.len() && inserted(row, x) == #[trigger] row.insert(k, x) && (k > 0
                ==> !x.lt(row[k - 1])) && forall|j: int|
                k <= j < row.len() ==> x.lt(#[trigger] row[j]),
    decreases row.len(),
{
    if row.len() == 0 || !x.lt(row.last()) {
        let k = row.len() as int;
        assert(row.insert(k, x) =~= row.push(x));
    } else {
        let t = row.drop_last();
        lemma_inserted_place(t, x);
        let k = choose|k: int|
            0 <= k <= t.len() && inserted(t, x) == #[trigger] t.insert(k, x) && (k > 0 ==> !x.lt(
                t[k - 1],
            )) && forall|j: int| k <= j < t.len() ==> x.lt(#[trigger] t[j]);
        assert(row.insert(k, x) =~= t.insert(k, x).push(row.last()));
        assert forall|j: int| k <= j < row.len() implies x.lt(#[trigger] row[j]) by {
            if j < t.len() {
                assert(t[j] == row[j]);
            }
        }
    }
}

/// Variates are of equal length exactly where any two of them are, and the average of a forecast and of
/// the mirrored one is half of their difference, with no sign left on a zero.
pub proof fn law_lengths_and_averages(contexts: Seq<Vec<Single>>, x: Single, mirrored: Single)
    ensures
        same_lengths(contexts) <==> forall|i: int, j: int|
            0 <= i < contexts.len() && 0 <= j < contexts.len() ==> (#[trigger] contexts[i])@.len()
                == (#[trigger] contexts[j])@.len(),
        symmetric(x, mirrored) == x.minus(mirrored).times(Single::from_bits(0x3f00_0000)).plus(
            Single::from_bits(0),
        ),
{
    if forall|i: int, j: int|
        0 <= i < contexts.len() && 0 <= j < contexts.len() ==> (#[trigger] contexts[i])@.len() == (
        #[trigger] contexts[j])@.len() {
        assert forall|i: int| 0 <= i < contexts.len() implies (#[trigger] contexts[i])@.len()
            == contexts[0]@.len() by {
            assert(contexts[i]@.len() == contexts[0]@.len());
        }
    }
}

/// Unless it is told otherwise, a forecast comes with its quantiles, sorted, and nothing else is done to
/// it.
pub proof fn law_standard_options()
    ensures
        ({
            let o = ForecastOptions::standard();
            &&& o.return_quantiles
            &&& o.sort_quantiles
            &&& !o.use_symmetric_averaging
            &&& !o.make_positive
            &&& !o.use_znorm
        }),
{
}

} // verus!
