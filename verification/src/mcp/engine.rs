//! What the tools need of a forecaster.

use vstd::prelude::*;
use vstd::string::*;

use crate::config::deciles;
use crate::error::TimesfmError;
use crate::forecaster::ForecastOutput;
use crate::ieee::scalar::{Double, Single};
use crate::rows::rows_view;

verus! {

/// What optional rows of numbers hold.
pub open spec fn optional_rows(rows: Option<Vec<Vec<Single>>>) -> Option<Seq<Seq<Single>>> {
    match rows {
        Some(r) => Some(rows_view(r@)),
        None => None,
    }
}

/// A forecaster that the tools can use. What it forecasts is its own affair: each implementation
/// may say which outcomes it can come to; one that does not may come to any.
pub trait Forecaster: Send + Sync {
    /// Whether a univariate forecast may come to `r`.
    open spec fn may_forecast(
        &self,
        context: Seq<Single>,
        horizon: usize,
        return_quantiles: bool,
        r: Result<ForecastOutput, TimesfmError>,
    ) -> bool {
        true
    }

    /// Whether a multivariate forecast may come to `r`.
    open spec fn may_forecast_all(
        &self,
        contexts: Seq<Seq<Single>>,
        horizon: usize,
        past_only_covariates: Option<Seq<Seq<Single>>>,
        past_future_covariates: Option<Seq<Seq<Single>>>,
        return_quantiles: bool,
        r: Result<ForecastOutput, TimesfmError>,
    ) -> bool {
        true
    }

    /// Whether the quantile levels may be `r`.
    open spec fn may_have_levels(&self, r: Seq<Double>) -> bool {
        true
    }

    /// Predicts future values of one series.
    fn forecast_univariate(&self, context: &Vec<Single>, horizon: usize, return_quantiles: bool) -> (r:
        Result<ForecastOutput, TimesfmError>)
        ensures
            self.may_forecast(context@, horizon, return_quantiles, r),
    ;

    /// Predicts future values of several series, with optional covariates.
    fn forecast_multivariate(
        &self,
        contexts: &Vec<Vec<Single>>,
        horizon: usize,
        past_only_covariates: &Option<Vec<Vec<Single>>>,
        past_future_covariates: &Option<Vec<Vec<Single>>>,
        return_quantiles: bool,
    ) -> (r: Result<ForecastOutput, TimesfmError>)
        ensures
            self.may_forecast_all(
                rows_view(contexts@),
                horizon,
                optional_rows(*past_only_covariates),
                optional_rows(*past_future_covariates),
                return_quantiles,
                r,
            ),
    ;

    /// The probability levels of the quantiles.
    fn quantile_levels(&self) -> (r: Vec<Double>)
        ensures
            self.may_have_levels(r@),
    ;
}

/// A forecaster that repeats the last value, for tests and for machines too small for a model.
#[derive(Debug, Clone)]
pub struct MockForecaster {
    pub quantiles: Vec<Double>,
}

impl Default for MockForecaster {
    fn default() -> (r: MockForecaster)
        ensures
            r.quantiles@ == deciles(),
    {
        MockForecaster { quantiles: crate::config::default_quantiles() }
    }
}

/// The last value, zero where there is none.
pub open spec fn last_value(context: Seq<Single>) -> Single {
    if context.len() > 0 {
        context.last()
    } else {
        Single::zero()
    }
}

/// The level's distance from one half, doubled, on top of the last value.
pub open spec fn mock_quantile(last: Single, level: Double) -> Single {
    last.plus(
        level.narrowed().minus(Single { bits: 0x3f00_0000 }).times(Single { bits: 0x4000_0000 }),
    )
}

/// Every series goes on with its last value, at each step the quantiles around it.
pub open spec fn is_mock_forecast(
    out: ForecastOutput,
    contexts: Seq<Seq<Single>>,
    horizon: usize,
    levels: Seq<Double>,
    return_quantiles: bool,
) -> bool {
    &&& out.ts_id is None
    &&& out.forecast@.len() == contexts.len()
    &&& forall|v: int|
        0 <= v < contexts.len() ==> (#[trigger] out.forecast@[v])@ == Seq::new(
            horizon as nat,
            |h: int| last_value(contexts[v]),
        )
    &&& match out.quantiles {
        Some(all) => {
            &&& return_quantiles
            &&& all@.len() == contexts.len()
            &&& forall|v: int|
                0 <= v < contexts.len() ==> (#[trigger] all@[v])@.len() == horizon && forall|h: int|
                    0 <= h < horizon ==> (#[trigger] all@[v]@[h])@ == levels.map_values(
                        |q: Double| mock_quantile(last_value(contexts[v]), q),
                    )
        },
        None => !return_quantiles,
    }
}

/// An inference error with the given words.
pub open spec fn is_inference_error(
    r: Result<ForecastOutput, TimesfmError>,
    words: Seq<char>,
) -> bool {
    r matches Err(TimesfmError::Inference(m)) && m@ == words
}

impl MockForecaster {
    fn repeat(&self, last: Single, horizon: usize) -> (r: Vec<Single>)
        ensures
            r@ == Seq::new(horizon as nat, |h: int| last),
    {
        let mut r: Vec<Single> = Vec::new();
        let mut h: usize = 0;
        while h < horizon
            invariant
                h <= horizon,
                r@ =~= Seq::new(h as nat, |k: int| last),
            decreases horizon - h,
        {
            r.push(last);
            h = h + 1;
        }
        r
    }

    fn quantile_row(&self, last: Single) -> (r: Vec<Single>)
        ensures
            r@ == self.quantiles@.map_values(|q: Double| mock_quantile(last, q)),
    {
        let mut r: Vec<Single> = Vec::new();
        let mut i: usize = 0;
        while i < self.quantiles.len()
            invariant
                i <= self.quantiles@.len(),
                r@.len() == i,
                forall|k: int| 0 <= k < i ==> r@[k] == mock_quantile(last, self.quantiles@[k]),
            decreases self.quantiles@.len() - i,
        {
            let q = self.quantiles[i].narrowed();
            r.push(
                last.plus(
                    q.minus(Single::from_bits(0x3f00_0000)).times(Single::from_bits(0x4000_0000)),
                ),
            );
            i = i + 1;
        }
        assert(r@ =~= self.quantiles@.map_values(|q: Double| mock_quantile(last, q)));
        r
    }

    fn quantile_rows(&self, last: Single, horizon: usize) -> (r: Vec<Vec<Single>>)
        ensures
            r@.len() == horizon,
            forall|h: int|
                0 <= h < horizon ==> (#[trigger] r@[h])@ == self.quantiles@.map_values(
                    |q: Double| mock_quantile(last, q),
                ),
    {
        let mut r: Vec<Vec<Single>> = Vec::new();
        let mut h: usize = 0;
        while h < horizon
            invariant
                h <= horizon,
                r@.len() == h,
                forall|k: int|
                    0 <= k < h ==> (#[trigger] r@[k])@ == self.quantiles@.map_values(
                        |q: Double| mock_quantile(last, q),
                    ),
            decreases horizon - h,
        {
            r.push(self.quantile_row(last));
            h = h + 1;
        }
        r
    }
}

impl Forecaster for MockForecaster {
    open spec fn may_forecast(
        &self,
        context: Seq<Single>,
        horizon: usize,
        return_quantiles: bool,
        r: Result<ForecastOutput, TimesfmError>,
    ) -> bool {
        if context.len() == 0 {
            is_inference_error(r, "Context cannot be empty"@)
        } else if horizon == 0 {
            is_inference_error(r, "Horizon must be greater than 0"@)
        } else {
            r matches Ok(out) && is_mock_forecast(
                out,
                seq![context],
                horizon,
                self.quantiles@,
                return_quantiles,
            )
        }
    }

    open spec fn may_forecast_all(
        &self,
        contexts: Seq<Seq<Single>>,
        horizon: usize,
        past_only_covariates: Option<Seq<Seq<Single>>>,
        past_future_covariates: Option<Seq<Seq<Single>>>,
        return_quantiles: bool,
        r: Result<ForecastOutput, TimesfmError>,
    ) -> bool {
        if contexts.len() == 0 {
            is_inference_error(r, "Contexts cannot be empty"@)
        } else if horizon == 0 {
            is_inference_error(r, "Horizon must be greater than 0"@)
        } else {
            r matches Ok(out) && is_mock_forecast(
                out,
                contexts,
                horizon,
                self.quantiles@,
                return_quantiles,
            )
        }
    }

    open spec fn may_have_levels(&self, r: Seq<Double>) -> bool {
        r == self.quantiles@
    }

    fn forecast_univariate(&self, context: &Vec<Single>, horizon: usize, return_quantiles: bool) -> (r:
        Result<ForecastOutput, TimesfmError>) {
        if context.len() == 0 {
            return Err(TimesfmError::Inference("Context cannot be empty".to_owned()));
        }
        if horizon == 0 {
            return Err(TimesfmError::Inference("Horizon must be greater than 0".to_owned()));
        }
        let last = context[context.len() - 1];
        let mut forecast: Vec<Vec<Single>> = Vec::new();
        forecast.push(self.repeat(last, horizon));
        let quantiles = if return_quantiles {
            let mut all: Vec<Vec<Vec<Single>>> = Vec::new();
            all.push(self.quantile_rows(last, horizon));
            Some(all)
        } else {
            None
        };
        Ok(ForecastOutput { ts_id: None, forecast, quantiles })
    }

    fn forecast_multivariate(
        &self,
        contexts: &Vec<Vec<Single>>,
        horizon: usize,
        past_only_covariates: &Option<Vec<Vec<Single>>>,
        past_future_covariates: &Option<Vec<Vec<Single>>>,
        return_quantiles: bool,
    ) -> (r: Result<ForecastOutput, TimesfmError>) {
        if contexts.len() == 0 {
            return Err(TimesfmError::Inference("Contexts cannot be empty".to_owned()));
        }
        if horizon == 0 {
            return Err(TimesfmError::Inference("Horizon must be greater than 0".to_owned()));
        }
        let ghost rows = rows_view(contexts@);
        let mut forecast: Vec<Vec<Single>> = Vec::new();
        let mut all: Vec<Vec<Vec<Single>>> = Vec::new();
        let mut v: usize = 0;
        while v < contexts.len()
            invariant
                v <= contexts@.len(),
                rows == rows_view(contexts@),
                forecast@.len() == v,
                forall|i: int|
                    0 <= i < v ==> (#[trigger] forecast@[i])@ == Seq::new(
                        horizon as nat,
                        |h: int| last_value(rows[i]),
                    ),
                all@.len() == if return_quantiles {
                    v as int
                } else {
                    0
                },
                return_quantiles ==> forall|i: int|
                    0 <= i < v ==> (#[trigger] all@[i])@.len() == horizon && forall|h: int|
                        0 <= h < horizon ==> (#[trigger] all@[i]@[h])@
                            == self.quantiles@.map_values(
                            |q: Double| mock_quantile(last_value(rows[i]), q),
                        ),
            decreases contexts@.len() - v,
        {
            let context = &contexts[v];
            let last = if context.len() > 0 {
                context[context.len() - 1]
            } else {
                Single::zero()
            };
            assert(last == last_value(rows[v as int]));
            forecast.push(self.repeat(last, horizon));
            if return_quantiles {
                all.push(self.quantile_rows(last, horizon));
            }
            v = v + 1;
        }
        let quantiles = if return_quantiles {
            Some(all)
        } else {
            None
        };
        Ok(ForecastOutput { ts_id: None, forecast, quantiles })
    }

    fn quantile_levels(&self) -> (r: Vec<Double>) {
        let mut r: Vec<Double> = Vec::new();
        let mut i: usize = 0;
        while i < self.quantiles.len()
            invariant
                i <= self.quantiles@.len(),
                r@ =~= self.quantiles@.take(i as int),
            decreases self.quantiles@.len() - i,
        {
            r.push(self.quantiles[i]);
            i = i + 1;
        }
        assert(self.quantiles@.take(i as int) =~= self.quantiles@);
        r
    }
}

/// The mock forecaster goes on with the last value of each series, for each series its own, and puts
/// the quantile of a level as far from it as twice the level lies from one half.
pub proof fn law_mock_forecast(
    mock: MockForecaster,
    contexts: Seq<Seq<Single>>,
    horizon: usize,
    past_only: Option<Seq<Seq<Single>>>,
    past_future: Option<Seq<Seq<Single>>>,
    return_quantiles: bool,
    r: Result<ForecastOutput, TimesfmError>,
    v: int,
    h: int,
    k: int,
)
    requires
        mock.may_forecast_all(contexts, horizon, past_only, past_future, return_quantiles, r) || (
        contexts.len() == 1 && contexts[0].len() > 0 && mock.may_forecast(
            contexts[0],
            horizon,
            return_quantiles,
            r,
        )),
        0 <= v < contexts.len(),
        contexts[v].len() > 0,
        0 <= h < horizon,
        0 <= k < mock.quantiles@.len(),
    ensures
        r is Ok,
        ({
            let out = r->Ok_0;
            let last = contexts[v][contexts[v].len() - 1];
            &&& out.forecast@.len() == contexts.len()
            &&& out.forecast@[v]@.len() == horizon
            &&& out.forecast@[v]@[h] == last
            &&& out.quantiles is Some <==> return_quantiles
            &&& out.quantiles matches Some(all) ==> all@.len() == contexts.len() && all@[v]@.len()
                == horizon && all@[v]@[h]@.len() == mock.quantiles@.len() && all@[v]@[h]@[k]
                == last.plus(
                mock.quantiles@[k].narrowed().minus(Single { bits: 0x3f00_0000 }).times(
                    Single { bits: 0x4000_0000 },
                ),
            )
        }),
{
    let out = r->Ok_0;
    if contexts.len() == 1 {
        assert(seq![contexts[0]] =~= contexts);
    }
    let last = contexts[v][contexts[v].len() - 1];
    assert(out.forecast@[v]@ == Seq::new(horizon as nat, |i: int| last_value(contexts[v])));
    if let Some(all) = out.quantiles {
        assert(all@[v]@.len() == horizon);
        assert(all@[v]@[h]@ == mock.quantiles@.map_values(
            |q: Double| mock_quantile(last_value(contexts[v]), q),
        ));
    }
}

} // verus!
