//! The tools: what they are given, and what they give back.

use vstd::prelude::*;
use vstd::string::*;

use super::decode::{
    check_arguments, count_from, find_argument, numbers_from, rows_from, Field, Kind, Signature,
};
use super::decode::{
    argument, complaint, count_fault, count_in, fault, items_fault, members_fault,
    numbers_in, position, rows_in, FieldModel, SignatureModel,
};
use super::engine::{last_value, optional_rows, Forecaster, MockForecaster};
use super::trend::{evaluate_trend, is_trend, TrendEvaluationResult};
use crate::decimal::{digits, push_count, push_integer};
use crate::error::TimesfmError;
use crate::forecaster::ForecastOutput;
use crate::ieee::scalar::{Double, Single};
use crate::json::{member, Json, JsonModel};
use crate::rows::rows_view;
use super::decode::{
    has_distinct_fields, law_objects_as_arguments, law_values_that_fit, number_in, says_number,
    says_numbers, says_rows,
};
use crate::json::are_distinct;

verus! {

/// What a tool call gives back.
#[derive(Debug, Clone)]
pub struct CallToolResult {
    pub content: Vec<ToolContent>,
    pub is_error: bool,
}

/// A piece of what a tool call gives back: a text, or a result that is shown as JSON text.
#[derive(Debug, Clone)]
pub enum ToolContent {
    Text { text: String },
    Univariate(UnivariateForecastResult),
    Multivariate(MultivariateForecastResult),
    Trend(TrendEvaluationResult),
}

#[derive(Debug, Clone)]
pub struct UnivariateForecastResult {
    pub point_forecast: Vec<Single>,
    pub quantiles: Option<Vec<Vec<Single>>>,
    pub quantile_levels: Vec<Double>,
    pub horizon: usize,
}

#[derive(Debug, Clone)]
pub struct MultivariateForecastResult {
    pub forecasts: Vec<Vec<Single>>,
    pub quantiles: Option<Vec<Vec<Vec<Single>>>>,
    pub quantile_levels: Vec<Double>,
    pub num_variates: usize,
    pub horizon: usize,
}

/// The arguments of `forecast_univariate`.
#[derive(Debug)]
pub struct ForecastUnivariateArgs {
    pub context: Vec<Single>,
    pub horizon: usize,
    pub return_quantiles: bool,
}

/// The arguments of `forecast_multivariate`.
#[derive(Debug)]
pub struct ForecastMultivariateArgs {
    pub contexts: Vec<Vec<Single>>,
    pub horizon: usize,
    pub past_only_covariates: Option<Vec<Vec<Single>>>,
    pub past_future_covariates: Option<Vec<Vec<Single>>>,
    pub return_quantiles: bool,
}

/// The arguments of `evaluate_trend`.
#[derive(Debug)]
pub struct EvaluateTrendArgs {
    pub series: Vec<Single>,
}

/// A switch that is left out is on.
pub fn default_true() -> (r: bool)
    ensures
        r,
{
    true
}

pub open spec fn required_model(name: Seq<char>, kind: Kind) -> FieldModel {
    FieldModel { name, kind, required_in_object: true, required_in_array: true }
}

pub open spec fn optional_model(name: Seq<char>, kind: Kind) -> FieldModel {
    FieldModel { name, kind, required_in_object: false, required_in_array: false }
}

fn required_field(name: &'static str, kind: Kind) -> (r: Field)
    ensures
        r@ == required_model(name@, kind),
{
    Field { name, kind, required_in_object: true, required_in_array: true }
}

fn optional_field(name: &'static str, kind: Kind) -> (r: Field)
    ensures
        r@ == optional_model(name@, kind),
{
    Field { name, kind, required_in_object: false, required_in_array: false }
}

pub open spec fn univariate_model() -> SignatureModel {
    SignatureModel {
        title: "ForecastUnivariateArgs"@,
        fields: seq![
            required_model("context"@, Kind::Numbers),
            required_model("horizon"@, Kind::Count),
            optional_model("return_quantiles"@, Kind::Flag),
        ],
    }
}

fn univariate_signature() -> (r: Signature)
    ensures
        r@ == univariate_model(),
{
    let mut fields: Vec<Field> = Vec::new();
    fields.push(required_field("context", Kind::Numbers));
    fields.push(required_field("horizon", Kind::Count));
    fields.push(optional_field("return_quantiles", Kind::Flag));
    let r = Signature { title: "ForecastUnivariateArgs", fields };
    assert(r@.fields =~= univariate_model().fields);
    r
}

pub open spec fn multivariate_model() -> SignatureModel {
    SignatureModel {
        title: "ForecastMultivariateArgs"@,
        fields: seq![
            required_model("contexts"@, Kind::NumberRows),
            required_model("horizon"@, Kind::Count),
            optional_model("past_only_covariates"@, Kind::OptionalNumberRows),
            optional_model("past_future_covariates"@, Kind::OptionalNumberRows),
            optional_model("return_quantiles"@, Kind::Flag),
        ],
    }
}

fn multivariate_signature() -> (r: Signature)
    ensures
        r@ == multivariate_model(),
{
    let mut fields: Vec<Field> = Vec::new();
    fields.push(required_field("contexts", Kind::NumberRows));
    fields.push(required_field("horizon", Kind::Count));
    fields.push(optional_field("past_only_covariates", Kind::OptionalNumberRows));
    fields.push(optional_field("past_future_covariates", Kind::OptionalNumberRows));
    fields.push(optional_field("return_quantiles", Kind::Flag));
    let r = Signature { title: "ForecastMultivariateArgs", fields };
    assert(r@.fields =~= multivariate_model().fields);
    r
}

pub open spec fn trend_model() -> SignatureModel {
    SignatureModel {
        title: "EvaluateTrendArgs"@,
        fields: seq![required_model("series"@, Kind::Numbers)],
    }
}

fn trend_signature() -> (r: Signature)
    ensures
        r@ == trend_model(),
{
    let mut fields: Vec<Field> = Vec::new();
    fields.push(required_field("series", Kind::Numbers));
    let r = Signature { title: "EvaluateTrendArgs", fields };
    assert(r@.fields =~= trend_model().fields);
    r
}

/// A list of numbers that is given, or an empty one.
pub open spec fn given_numbers(a: Option<JsonModel>) -> Seq<Single> {
    match a {
        Some(j) => numbers_in(j),
        None => seq![],
    }
}

/// The rows of numbers that are given, or none.
pub open spec fn given_rows(a: Option<JsonModel>) -> Seq<Seq<Single>> {
    match a {
        Some(j) => rows_in(j),
        None => seq![],
    }
}

/// The rows of numbers, unless they are left out or `null`.
pub open spec fn given_optional_rows(a: Option<JsonModel>) -> Option<Seq<Seq<Single>>> {
    match a {
        Some(JsonModel::Null) => None,
        Some(j) => Some(rows_in(j)),
        None => None,
    }
}

/// The count that is given, or zero.
pub open spec fn given_count(a: Option<JsonModel>) -> int {
    match a {
        Some(j) => count_in(j),
        None => 0,
    }
}

/// The switch that is given, or on.
pub open spec fn given_flag(a: Option<JsonModel>) -> bool {
    match a {
        Some(JsonModel::Bool(b)) => b,
        _ => true,
    }
}

fn take_numbers(s: &Signature, j: &Json, i: usize) -> (r: Vec<Single>)
    requires
        i < s.fields@.len(),
    ensures
        r@ == given_numbers(argument(s@, j@, i as int)),
{
    match find_argument(s, j, i) {
        Some(v) => numbers_from(v),
        None => Vec::new(),
    }
}

fn take_rows(s: &Signature, j: &Json, i: usize) -> (r: Vec<Vec<Single>>)
    requires
        i < s.fields@.len(),
    ensures
        rows_view(r@) == given_rows(argument(s@, j@, i as int)),
{
    match find_argument(s, j, i) {
        Some(v) => rows_from(v),
        None => {
            let r: Vec<Vec<Single>> = Vec::new();
            assert(rows_view(r@) =~= seq![]);
            r
        },
    }
}

fn take_optional_rows(s: &Signature, j: &Json, i: usize) -> (r: Option<Vec<Vec<Single>>>)
    requires
        i < s.fields@.len(),
    ensures
        optional_rows(r) == given_optional_rows(argument(s@, j@, i as int)),
{
    match find_argument(s, j, i) {
        Some(v) => match v {
            Json::Null => None,
            _ => Some(rows_from(v)),
        },
        None => None,
    }
}

fn take_flag(s: &Signature, j: &Json, i: usize) -> (r: bool)
    requires
        i < s.fields@.len(),
    ensures
        r == given_flag(argument(s@, j@, i as int)),
{
    match find_argument(s, j, i) {
        Some(Json::Bool(b)) => *b,
        _ => default_true(),
    }
}

fn take_count(s: &Signature, j: &Json, i: usize) -> (r: usize)
    requires
        i < s.fields@.len(),
        argument(s@, j@, i as int) matches Some(v) ==> count_fault(v) is None,
    ensures
        r == given_count(argument(s@, j@, i as int)),
{
    match find_argument(s, j, i) {
        Some(v) => count_from(v),
        None => 0,
    }
}

proof fn lemma_no_items_fault(s: SignatureModel, items: Seq<JsonModel>, n: int, m: int)
    requires
        items_fault(s, items, m) is None,
        n <= m,
    ensures
        items_fault(s, items, n) is None,
    decreases m - n,
{
    if n < m {
        lemma_no_items_fault(s, items, n, m - 1);
    }
}

proof fn lemma_no_members_fault(
    s: SignatureModel,
    members: Seq<(Seq<char>, JsonModel)>,
    i: int,
    n: int,
)
    requires
        0 <= i < s.fields.len(),
        0 <= n <= members.len(),
        members_fault(s, members, n) is None,
        position(s.fields, s.fields[i].name) == Some(i),
    ensures
        member(members.take(n), s.fields[i].name) matches Some(v) ==> fault(
            s.fields[i].kind,
            v,
        ) is None,
    decreases n,
{
    if n > 0 {
        lemma_no_members_fault(s, members, i, n - 1);
        assert(members.take(n).drop_last() =~= members.take(n - 1));
    }
}

/// In a value that nothing is wrong with, each argument that is given fits.
pub proof fn lemma_accepted(s: SignatureModel, j: JsonModel, i: int)
    requires
        complaint(s, j) is None,
        0 <= i < s.fields.len(),
        position(s.fields, s.fields[i].name) == Some(i),
    ensures
        argument(s, j, i) matches Some(v) ==> fault(s.fields[i].kind, v) is None,
{
    match j {
        JsonModel::Array(items) => {
            lemma_no_items_fault(s, items, i + 1, s.fields.len() as int);
        },
        JsonModel::Object(members) => {
            lemma_no_members_fault(s, members, i, members.len() as int);
            assert(members.take(members.len() as int) =~= members);
        },
        _ => {},
    }
}

/// Whether an outcome is the complaint, if there is one.
pub open spec fn refuses<A>(r: Result<A, String>, complaint: Option<Seq<char>>) -> bool {
    complaint matches Some(text) ==> (r matches Err(m) && m@ == text)
}

/// What the arguments of `forecast_univariate` say.
pub open spec fn are_univariate_args(a: ForecastUnivariateArgs, j: JsonModel) -> bool {
    let s = univariate_model();
    &&& a.context@ == given_numbers(argument(s, j, 0))
    &&& a.horizon == given_count(argument(s, j, 1))
    &&& a.return_quantiles == given_flag(argument(s, j, 2))
}

/// Reads the arguments of `forecast_univariate`.
pub fn univariate_args(j: &Json) -> (r: Result<ForecastUnivariateArgs, String>)
    ensures
        refuses(r, complaint(univariate_model(), j@)),
        complaint(univariate_model(), j@) is None ==> (r matches Ok(a) && are_univariate_args(a, j@)),
{
    let s = univariate_signature();
    match check_arguments(&s, j) {
        Err(m) => Err(m),
        Ok(_) => {
            proof {
                lemma_horizon_place();
                lemma_accepted(univariate_model(), j@, 1);
            }
            Ok(
                ForecastUnivariateArgs {
                    context: take_numbers(&s, j, 0),
                    horizon: take_count(&s, j, 1),
                    return_quantiles: take_flag(&s, j, 2),
                },
            )
        },
    }
}

/// What the arguments of `forecast_multivariate` say.
pub open spec fn are_multivariate_args(a: ForecastMultivariateArgs, j: JsonModel) -> bool {
    let s = multivariate_model();
    &&& rows_view(a.contexts@) == given_rows(argument(s, j, 0))
    &&& a.horizon == given_count(argument(s, j, 1))
    &&& optional_rows(a.past_only_covariates) == given_optional_rows(argument(s, j, 2))
    &&& optional_rows(a.past_future_covariates) == given_optional_rows(argument(s, j, 3))
    &&& a.return_quantiles == given_flag(argument(s, j, 4))
}

/// Reads the arguments of `forecast_multivariate`.
pub fn multivariate_args(j: &Json) -> (r: Result<ForecastMultivariateArgs, String>)
    ensures
        refuses(r, complaint(multivariate_model(), j@)),
        complaint(multivariate_model(), j@) is None ==> (r matches Ok(a) && are_multivariate_args(
            a,
            j@,
        )),
{
    let s = multivariate_signature();
    match check_arguments(&s, j) {
        Err(m) => Err(m),
        Ok(_) => {
            proof {
                reveal_strlit("contexts");
                reveal_strlit("horizon");
                assert("contexts"@.len() != "horizon"@.len());
                reveal_with_fuel(position, 6);
                let f = multivariate_model().fields;
                let f4 = f.drop_last();
                let f3 = f4.drop_last();
                let f2 = f3.drop_last();
                assert(f2.drop_last() =~= seq![f[0]]);
                assert(f2.drop_last().drop_last() =~= seq![]);
                assert(position(f2, f[1].name) == Some(1int));
                assert(position(f, f[1].name) == Some(1int));
                lemma_accepted(multivariate_model(), j@, 1);
            }
            Ok(
                ForecastMultivariateArgs {
                    contexts: take_rows(&s, j, 0),
                    horizon: take_count(&s, j, 1),
                    past_only_covariates: take_optional_rows(&s, j, 2),
                    past_future_covariates: take_optional_rows(&s, j, 3),
                    return_quantiles: take_flag(&s, j, 4),
                },
            )
        },
    }
}

/// Reads the arguments of `evaluate_trend`.
pub fn trend_args(j: &Json) -> (r: Result<EvaluateTrendArgs, String>)
    ensures
        refuses(r, complaint(trend_model(), j@)),
        complaint(trend_model(), j@) is None ==> (r matches Ok(a) && a.series@ == given_numbers(
            argument(trend_model(), j@, 0),
        )),
{
    let s = trend_signature();
    match check_arguments(&s, j) {
        Err(m) => Err(m),
        Ok(_) => Ok(EvaluateTrendArgs { series: take_numbers(&s, j, 0) }),
    }
}

/// A call that failed, and why.
pub open spec fn is_failure(r: CallToolResult, text: Seq<char>) -> bool {
    &&& r.is_error
    &&& r.content@.len() == 1
    &&& r.content@[0] matches ToolContent::Text { text: t } && t@ == text
}

/// A failed call.
pub fn failure(text: String) -> (r: CallToolResult)
    ensures
        is_failure(r, text@),
{
    let mut content: Vec<ToolContent> = Vec::new();
    content.push(ToolContent::Text { text });
    CallToolResult { content, is_error: true }
}

fn failure_with(prefix: &str, detail: &str) -> (r: CallToolResult)
    ensures
        is_failure(r, prefix@ + detail@),
{
    let mut t = prefix.to_owned();
    t.append(detail);
    failure(t)
}

/// A call that succeeded with one piece of content.
pub open spec fn is_success(r: CallToolResult) -> bool {
    !r.is_error && r.content@.len() == 1
}

fn success(content: ToolContent) -> (r: CallToolResult)
    ensures
        is_success(r),
        r.content@[0] == content,
{
    let mut pieces: Vec<ToolContent> = Vec::new();
    pieces.push(content);
    CallToolResult { content: pieces, is_error: false }
}

/// The answer to a univariate forecast: its first variate, or why there is none.
pub open spec fn is_univariate_reply(
    r: CallToolResult,
    outcome: Result<ForecastOutput, TimesfmError>,
    levels: Seq<Double>,
    horizon: usize,
) -> bool {
    match outcome {
        Ok(out) => is_success(r) && (r.content@[0] matches ToolContent::Univariate(p)
            && p.point_forecast@ == if out.forecast@.len() > 0 {
            out.forecast@[0]@
        } else {
            seq![]
        } && p.quantiles == (match out.quantiles {
            Some(q) => if q@.len() > 0 {
                Some(q@[0])
            } else {
                None
            },
            None => None,
        }) && p.quantile_levels@ == levels && p.horizon == horizon),
        Err(e) => is_failure(r, "Forecast execution error: "@ + e.text()),
    }
}

/// The answer to a univariate forecast that came to `outcome`.
pub fn univariate_reply(
    outcome: Result<ForecastOutput, TimesfmError>,
    levels: Vec<Double>,
    horizon: usize,
) -> (r: CallToolResult)
    ensures
        is_univariate_reply(r, outcome, levels@, horizon),
{
    match outcome {
        Ok(out) => {
            let mut forecast = out.forecast;
            let point_forecast = if forecast.len() > 0 {
                forecast.remove(0)
            } else {
                let none: Vec<Single> = Vec::new();
                assert(none@ =~= seq![]);
                none
            };
            let quantiles = match out.quantiles {
                Some(q) => {
                    let mut q = q;
                    if q.len() > 0 {
                        Some(q.remove(0))
                    } else {
                        None
                    }
                },
                None => None,
            };
            success(
                ToolContent::Univariate(
                    UnivariateForecastResult {
                        point_forecast,
                        quantiles,
                        quantile_levels: levels,
                        horizon,
                    },
                ),
            )
        },
        Err(e) => failure_with("Forecast execution error: ", &e.message()),
    }
}

/// What a call of `forecast_univariate` comes to: a complaint about the arguments, or the answer to
/// some forecast that the forecaster may make of exactly these arguments.
pub open spec fn is_univariate_call<F: Forecaster + ?Sized>(
    r: CallToolResult,
    j: JsonModel,
    forecaster: &F,
) -> bool {
    let s = univariate_model();
    let context = given_numbers(argument(s, j, 0));
    let horizon = given_count(argument(s, j, 1));
    match complaint(s, j) {
        Some(c) => is_failure(r, "Invalid arguments for forecast_univariate: "@ + c),
        None => if context.len() == 0 {
            is_failure(r, "Context cannot be empty"@)
        } else if horizon == 0 {
            is_failure(r, "Horizon must be greater than 0"@)
        } else {
            exists|outcome: Result<ForecastOutput, TimesfmError>, levels: Seq<Double>|
                forecaster.may_forecast(
                    context,
                    horizon as usize,
                    given_flag(argument(s, j, 2)),
                    outcome,
                ) && (outcome is Ok ==> forecaster.may_have_levels(levels)) && #[trigger] is_univariate_reply(
                    r,
                    outcome,
                    levels,
                    horizon as usize,
                )
        },
    }
}

/// Forecasts one series.
pub fn call_forecast_univariate<F: Forecaster + ?Sized>(arguments: &Json, forecaster: &F) -> (r:
    CallToolResult)
    ensures
        is_univariate_call(r, arguments@, forecaster),
{
    let args = match univariate_args(arguments) {
        Ok(a) => a,
        Err(e) => {
            return failure_with("Invalid arguments for forecast_univariate: ", &e);
        },
    };
    if args.context.len() == 0 {
        return failure("Context cannot be empty".to_owned());
    }
    if args.horizon == 0 {
        return failure("Horizon must be greater than 0".to_owned());
    }
    let outcome = forecaster.forecast_univariate(
        &args.context,
        args.horizon,
        args.return_quantiles,
    );
    let levels = match &outcome {
        Ok(_) => forecaster.quantile_levels(),
        Err(_) => Vec::new(),
    };
    let ghost (o, l) = (outcome, levels@);
    let r = univariate_reply(outcome, levels, args.horizon);
    assert(given_count(argument(univariate_model(), arguments@, 1)) as usize == args.horizon);
    assert(is_univariate_reply(r, o, l, args.horizon));
    r
}

/// The first of the rows whose length is not `len`.
pub open spec fn first_misfit(rows: Seq<Seq<Single>>, len: int) -> Option<int>
    decreases rows.len(),
{
    if rows.len() == 0 {
        None
    } else {
        match first_misfit(rows.drop_last(), len) {
            Some(i) => Some(i),
            None => if rows.last().len() != len {
                Some(rows.len() - 1)
            } else {
                None
            },
        }
    }
}

/// What is said of a row that has the wrong length.
pub open spec fn misfit_text(what: Seq<char>, rows: Seq<Seq<Single>>, i: int, len: int) -> Seq<char> {
    what + " at index "@ + digits(i as nat) + " has length "@ + digits(rows[i].len())
        + ", expected "@ + digits(len as nat)
}

/// What is said of the first row that has the wrong length.
pub open spec fn misfit(what: Seq<char>, rows: Seq<Seq<Single>>, len: int) -> Option<Seq<char>> {
    match first_misfit(rows, len) {
        Some(i) => Some(misfit_text(what, rows, i, len)),
        None => None,
    }
}

/// What is wrong with the lengths of series and covariates.
pub open spec fn length_objection(
    contexts: Seq<Seq<Single>>,
    horizon: int,
    past_only: Option<Seq<Seq<Single>>>,
    past_future: Option<Seq<Seq<Single>>>,
) -> Option<Seq<char>> {
    if contexts.len() == 0 {
        Some("Contexts cannot be empty"@)
    } else if horizon == 0 {
        Some("Horizon must be greater than 0"@)
    } else if contexts[0].len() == 0 {
        Some("Context length cannot be 0"@)
    } else {
        let len = contexts[0].len() as int;
        match misfit("Variate"@, contexts, len) {
            Some(t) => Some(t),
            None => match covariate_misfit("Past-only covariate"@, past_only, len) {
                Some(t) => Some(t),
                None => covariate_misfit(
                    "Past-future covariate"@,
                    past_future,
                    len + horizon,
                ),
            },
        }
    }
}

/// What is said of the first covariate that has the wrong length, where there are covariates.
pub open spec fn covariate_misfit(
    what: Seq<char>,
    rows: Option<Seq<Seq<Single>>>,
    len: int,
) -> Option<Seq<char>> {
    match rows {
        Some(r) => misfit(what, r, len),
        None => None,
    }
}

fn find_misfit(what: &str, rows: &Vec<Vec<Single>>, len: u128) -> (r: Option<String>)
    ensures
        crate::text::optional(r) == misfit(what@, rows_view(rows@), len as int),
{
    let ghost views = rows_view(rows@);
    let mut i: usize = 0;
    assert(views.take(0) =~= seq![]);
    while i < rows.len()
        invariant
            i <= rows@.len(),
            views == rows_view(rows@),
            first_misfit(views.take(i as int), len as int) is None,
        decreases rows@.len() - i,
    {
        assert(views.take(i + 1).drop_last() =~= views.take(i as int));
        if rows[i].len() as u128 != len {
            let mut t = what.to_owned();
            t.append(" at index ");
            push_count(&mut t, i);
            t.append(" has length ");
            push_count(&mut t, rows[i].len());
            t.append(", expected ");
            push_integer(&mut t, len);
            proof {
                lemma_first_misfit(views, len as int, i as int);
            }
            return Some(t);
        }
        i = i + 1;
    }
    assert(views.take(i as int) =~= views);
    None
}

proof fn lemma_first_misfit(rows: Seq<Seq<Single>>, len: int, i: int)
    requires
        0 <= i < rows.len(),
        first_misfit(rows.take(i), len) is None,
        rows[i].len() != len,
    ensures
        first_misfit(rows, len) == Some(i),
    decreases rows.len(),
{
    if i == rows.len() - 1 {
        assert(rows.take(i) =~= rows.drop_last());
    } else {
        assert(rows.drop_last().take(i) =~= rows.take(i));
        lemma_first_misfit(rows.drop_last(), len, i);
    }
}

fn find_covariate_misfit(what: &str, rows: &Option<Vec<Vec<Single>>>, len: u128) -> (r: Option<
    String,
>)
    ensures
        crate::text::optional(r) == covariate_misfit(what@, optional_rows(*rows), len as int),
{
    match rows {
        Some(r) => find_misfit(what, r, len),
        None => None,
    }
}

/// Finds what is wrong with the lengths of series and covariates.
pub fn find_length_objection(args: &ForecastMultivariateArgs) -> (r: Option<String>)
    ensures
        crate::text::optional(r) == length_objection(
            rows_view(args.contexts@),
            args.horizon as int,
            optional_rows(args.past_only_covariates),
            optional_rows(args.past_future_covariates),
        ),
{
    if args.contexts.len() == 0 {
        return Some("Contexts cannot be empty".to_owned());
    }
    if args.horizon == 0 {
        return Some("Horizon must be greater than 0".to_owned());
    }
    let expected_len = args.contexts[0].len();
    if expected_len == 0 {
        return Some("Context length cannot be 0".to_owned());
    }
    let variate = find_misfit("Variate", &args.contexts, expected_len as u128);
    if variate.is_some() {
        return variate;
    }
    let past = find_covariate_misfit(
        "Past-only covariate",
        &args.past_only_covariates,
        expected_len as u128,
    );
    if past.is_some() {
        return past;
    }
    find_covariate_misfit(
        "Past-future covariate",
        &args.past_future_covariates,
        expected_len as u128 + args.horizon as u128,
    )
}

/// The answer to a multivariate forecast: all of it, or why there is none.
pub open spec fn is_multivariate_reply(
    r: CallToolResult,
    outcome: Result<ForecastOutput, TimesfmError>,
    levels: Seq<Double>,
    horizon: usize,
) -> bool {
    match outcome {
        Ok(out) => is_success(r) && (r.content@[0] matches ToolContent::Multivariate(p)
            && p.forecasts == out.forecast && p.quantiles == out.quantiles && p.quantile_levels@
            == levels && p.num_variates == out.forecast@.len() && p.horizon == horizon),
        Err(e) => is_failure(r, "Forecast execution error: "@ + e.text()),
    }
}

/// The answer to a multivariate forecast that came to `outcome`.
pub fn multivariate_reply(
    outcome: Result<ForecastOutput, TimesfmError>,
    levels: Vec<Double>,
    horizon: usize,
) -> (r: CallToolResult)
    ensures
        is_multivariate_reply(r, outcome, levels@, horizon),
{
    match outcome {
        Ok(out) => {
            let num_variates = out.forecast.len();
            success(
                ToolContent::Multivariate(
                    MultivariateForecastResult {
                        forecasts: out.forecast,
                        quantiles: out.quantiles,
                        quantile_levels: levels,
                        num_variates,
                        horizon,
                    },
                ),
            )
        },
        Err(e) => failure_with("Forecast execution error: ", &e.message()),
    }
}

/// What a call of `forecast_multivariate` comes to: a complaint about the arguments, an objection to
/// their lengths, or the answer to some forecast that the forecaster may make of exactly these
/// arguments.
pub open spec fn is_multivariate_call<F: Forecaster + ?Sized>(
    r: CallToolResult,
    j: JsonModel,
    forecaster: &F,
) -> bool {
    let s = multivariate_model();
    let contexts = given_rows(argument(s, j, 0));
    let horizon = given_count(argument(s, j, 1));
    let past_only = given_optional_rows(argument(s, j, 2));
    let past_future = given_optional_rows(argument(s, j, 3));
    match complaint(s, j) {
        Some(c) => is_failure(r, "Invalid arguments for forecast_multivariate: "@ + c),
        None => match length_objection(contexts, horizon, past_only, past_future) {
            Some(t) => is_failure(r, t),
            None => exists|outcome: Result<ForecastOutput, TimesfmError>, levels: Seq<Double>|
                forecaster.may_forecast_all(
                    contexts,
                    horizon as usize,
                    past_only,
                    past_future,
                    given_flag(argument(s, j, 4)),
                    outcome,
                ) && (outcome is Ok ==> forecaster.may_have_levels(levels)) && #[trigger] is_multivariate_reply(
                    r,
                    outcome,
                    levels,
                    horizon as usize,
                ),
        },
    }
}

/// Forecasts several series.
pub fn call_forecast_multivariate<F: Forecaster + ?Sized>(arguments: &Json, forecaster: &F) -> (r:
    CallToolResult)
    ensures
        is_multivariate_call(r, arguments@, forecaster),
{
    let args = match multivariate_args(arguments) {
        Ok(a) => a,
        Err(e) => {
            return failure_with("Invalid arguments for forecast_multivariate: ", &e);
        },
    };
    if let Some(t) = find_length_objection(&args) {
        return failure(t);
    }
    let outcome = forecaster.forecast_multivariate(
        &args.contexts,
        args.horizon,
        &args.past_only_covariates,
        &args.past_future_covariates,
        args.return_quantiles,
    );
    let levels = match &outcome {
        Ok(_) => forecaster.quantile_levels(),
        Err(_) => Vec::new(),
    };
    let ghost (o, l) = (outcome, levels@);
    let r = multivariate_reply(outcome, levels, args.horizon);
    assert(given_count(argument(multivariate_model(), arguments@, 1)) as usize == args.horizon);
    assert(is_multivariate_reply(r, o, l, args.horizon));
    r
}

/// What a call of `evaluate_trend` comes to.
pub open spec fn is_trend_call(r: CallToolResult, j: JsonModel) -> bool {
    let series = given_numbers(argument(trend_model(), j, 0));
    match complaint(trend_model(), j) {
        Some(c) => is_failure(r, "Invalid arguments for evaluate_trend: "@ + c),
        None => if series.len() == 0 {
            is_failure(r, "Series cannot be empty"@)
        } else {
            is_success(r) && (r.content@[0] matches ToolContent::Trend(t) && is_trend(t, series))
        },
    }
}

/// Evaluates the trend of a series.
pub fn call_evaluate_trend(arguments: &Json) -> (r: CallToolResult)
    ensures
        is_trend_call(r, arguments@),
{
    let args = match trend_args(arguments) {
        Ok(a) => a,
        Err(e) => {
            return failure_with("Invalid arguments for evaluate_trend: ", &e);
        },
    };
    match evaluate_trend(&args.series) {
        Ok(t) => success(ToolContent::Trend(t)),
        Err(m) => failure(m),
    }
}

/// A call of `forecast_univariate` on the mock forecaster goes on with the last value that it was
/// given, for as many steps as were asked for.
pub proof fn law_mock_call_repeats_last_value(
    r: CallToolResult,
    j: JsonModel,
    mock: MockForecaster,
)
    requires
        is_univariate_call(r, j, &mock),
        complaint(univariate_model(), j) is None,
        given_numbers(argument(univariate_model(), j, 0)).len() > 0,
        given_count(argument(univariate_model(), j, 1)) > 0,
    ensures
        is_success(r),
        r.content@[0] matches ToolContent::Univariate(p) && p.point_forecast@ == Seq::new(
            p.horizon as nat,
            |h: int| given_numbers(argument(univariate_model(), j, 0)).last(),
        ) && p.horizon == given_count(argument(univariate_model(), j, 1)) as usize
            && p.quantile_levels@ == mock.quantiles@ && (p.quantiles is Some <==> given_flag(
            argument(univariate_model(), j, 2),
        )),
{
    let s = univariate_model();
    let context = given_numbers(argument(s, j, 0));
    let horizon = given_count(argument(s, j, 1)) as usize;
    lemma_horizon_argument(j);
    let (outcome, levels) = choose|
        outcome: Result<ForecastOutput, TimesfmError>,
        levels: Seq<Double>,
    |
        (&mock).may_forecast(context, horizon, given_flag(argument(s, j, 2)), outcome) && (
        outcome is Ok ==> (&mock).may_have_levels(levels)) && #[trigger] is_univariate_reply(
            r,
            outcome,
            levels,
            horizon,
        );
    let out = outcome->Ok_0;
    assert(out.forecast@[0]@ == Seq::new(
        horizon as nat,
        |h: int| last_value(seq![context][0]),
    ));
    assert(out.forecast@[0]@ =~= Seq::new(horizon as nat, |h: int| context.last()));
}

proof fn lemma_horizon_argument(j: JsonModel)
    requires
        complaint(univariate_model(), j) is None,
    ensures
        0 <= given_count(argument(univariate_model(), j, 1)) <= usize::MAX,
{
    lemma_horizon_place();
    lemma_accepted(univariate_model(), j, 1);
}

proof fn lemma_horizon_place()
    ensures
        position(univariate_model().fields, univariate_model().fields[1].name) == Some(1int),
{
    reveal_strlit("context");
    reveal_strlit("horizon");
    assert("context"@[0] != "horizon"@[0]);
    reveal_with_fuel(position, 4);
    let f = univariate_model().fields;
    assert(f.drop_last().drop_last() =~= seq![f[0]]);
    assert(f.drop_last().drop_last().drop_last() =~= seq![]);
}

/// What the numbers of a list say, in order.
pub open spec fn numbers_said(items: Seq<JsonModel>) -> Seq<Single> {
    Seq::new(items.len(), |i: int| number_in(items[i]))
}

/// A member of a name, or a name that no member has.
pub open spec fn has_value(
    members: Seq<(Seq<char>, JsonModel)>,
    name: Seq<char>,
    value: Option<JsonModel>,
) -> bool {
    match value {
        Some(v) => exists|k: int| 0 <= k < members.len() && #[trigger] members[k] == (name, v),
        None => forall|k: int| 0 <= k < members.len() ==> (#[trigger] members[k]).0 != name,
    }
}

proof fn lemma_has_value(
    s: SignatureModel,
    members: Seq<(Seq<char>, JsonModel)>,
    i: int,
    value: Option<JsonModel>,
)
    requires
        has_distinct_fields(s),
        are_distinct(members),
        0 <= i < s.fields.len(),
        has_value(members, s.fields[i].name, value),
    ensures
        argument(s, JsonModel::Object(members), i) == value,
        forall|k: int|
            0 <= k < members.len() && (#[trigger] members[k]).0 == s.fields[i].name ==> value
                == Some(members[k].1),
{
    law_objects_as_arguments(s, members, i);
    if let Some(v) = value {
        let k = choose|k: int|
            0 <= k < members.len() && #[trigger] members[k] == (s.fields[i].name, v);
        assert forall|m: int|
            0 <= m < members.len() && (#[trigger] members[m]).0 == s.fields[i].name implies value
            == Some(members[m].1) by {
            if m < k {
                assert(members[m].0 != members[k].0);
            } else if k < m {
                assert(members[k].0 != members[m].0);
            }
        }
    }
}

proof fn lemma_univariate_names()
    ensures
        univariate_model().fields.len() == 3,
        has_distinct_fields(univariate_model()),
{
    reveal_strlit("context");
    reveal_strlit("horizon");
    reveal_strlit("return_quantiles");
    assert("context"@[0] != "horizon"@[0]);
    assert("return_quantiles"@.len() == 16);
}

proof fn lemma_multivariate_names()
    ensures
        multivariate_model().fields.len() == 5,
        has_distinct_fields(multivariate_model()),
{
    reveal_strlit("contexts");
    reveal_strlit("horizon");
    reveal_strlit("past_only_covariates");
    reveal_strlit("past_future_covariates");
    reveal_strlit("return_quantiles");
    assert("contexts"@.len() == 8);
    assert("horizon"@.len() == 7);
    assert("past_only_covariates"@.len() == 20);
    assert("past_future_covariates"@.len() == 22);
    assert("return_quantiles"@.len() == 16);
}

/// A switch that is left out is on.
pub open spec fn is_on(flag: Option<JsonModel>) -> bool {
    flag is None || flag == Some(JsonModel::Bool(true))
}

/// A call of `forecast_univariate` with an object of arguments asks the forecaster for a forecast of the
/// numbers under `context`, in order, for as many steps as `horizon` says, with quantiles unless
/// `return_quantiles` is off, and answers with the first variate of what it came to, its own quantiles,
/// the forecaster's levels and the same number of steps; or with the error that it came to.
pub proof fn law_univariate_call<F: Forecaster + ?Sized>(
    r: CallToolResult,
    members: Seq<(Seq<char>, JsonModel)>,
    forecaster: &F,
    items: Seq<JsonModel>,
    horizon: u64,
    flag: Option<JsonModel>,
)
    requires
        is_univariate_call(r, JsonModel::Object(members), forecaster),
        are_distinct(members),
        has_value(members, "context"@, Some(JsonModel::Array(items))),
        has_value(members, "horizon"@, Some(JsonModel::Unsigned(horizon))),
        has_value(members, "return_quantiles"@, flag),
        items.len() > 0,
        forall|i: int| 0 <= i < items.len() ==> says_number(#[trigger] items[i]),
        0 < horizon <= usize::MAX,
        flag matches Some(j) ==> j is Bool,
    ensures
        exists|outcome: Result<ForecastOutput, TimesfmError>, levels: Seq<Double>|
            {
                &&& #[trigger] forecaster.may_forecast(
                    numbers_said(items),
                    horizon as usize,
                    is_on(flag),
                    outcome,
                )
                &&& outcome is Ok ==> forecaster.may_have_levels(levels)
                &&& r.content@.len() == 1
                &&& r.is_error == (outcome is Err)
                &&& match outcome {
                    Ok(out) => r.content@[0] matches ToolContent::Univariate(p) && p.horizon
                        == horizon && p.quantile_levels@ == levels && (out.forecast@.len() > 0
                        ==> p.point_forecast@ == out.forecast@[0]@) && (out.forecast@.len() == 0
                        ==> p.point_forecast@.len() == 0) && (match out.quantiles {
                        Some(q) => if q@.len() > 0 {
                            p.quantiles == Some(q@[0])
                        } else {
                            p.quantiles is None
                        },
                        None => p.quantiles is None,
                    }),
                    Err(e) => r.content@[0] matches ToolContent::Text { text } && text@
                        == "Forecast execution error: "@ + e.text(),
                }
                &&& #[trigger] levels.len() >= 0
            },
{
    let s = univariate_model();
    let j = JsonModel::Object(members);
    lemma_univariate_names();
    lemma_has_value(s, members, 0, Some(JsonModel::Array(items)));
    lemma_has_value(s, members, 1, Some(JsonModel::Unsigned(horizon)));
    lemma_has_value(s, members, 2, flag);
    law_objects_as_arguments(s, members, 0);
    assert forall|k: int, m: int|
        0 <= k < members.len() && 0 <= m < s.fields.len() && (#[trigger] members[k]).0 == (
        #[trigger] s.fields[m]).name implies fault(s.fields[m].kind, members[k].1) is None by {
        law_values_that_fit(s.fields[m].kind, members[k].1);
    }
    assert forall|m: int| 0 <= m < s.fields.len() && (
    #[trigger] s.fields[m]).required_in_object implies exists|k: int|
        0 <= k < members.len() && (#[trigger] members[k]).0 == s.fields[m].name by {
        if m == 0 {
            let k = choose|k: int|
                0 <= k < members.len() && #[trigger] members[k] == (
                    "context"@,
                    JsonModel::Array(items),
                );
            assert(members[k].0 == s.fields[m].name);
        } else {
            let k = choose|k: int|
                0 <= k < members.len() && #[trigger] members[k] == (
                    "horizon"@,
                    JsonModel::Unsigned(horizon),
                );
            assert(members[k].0 == s.fields[m].name);
        }
    }
    assert(complaint(s, j) is None);
    let context = given_numbers(argument(s, j, 0));
    assert(context =~= numbers_said(items));
    let (outcome, levels) = choose|
        outcome: Result<ForecastOutput, TimesfmError>,
        levels: Seq<Double>,
    |
        forecaster.may_forecast(context, horizon as usize, given_flag(argument(s, j, 2)), outcome)
            && (outcome is Ok ==> forecaster.may_have_levels(levels))
            && #[trigger] is_univariate_reply(r, outcome, levels, horizon as usize);
    assert(given_flag(argument(s, j, 2)) == is_on(flag));
    assert(levels.len() >= 0);
    assert(forecaster.may_forecast(
        numbers_said(items),
        horizon as usize,
        is_on(flag),
        outcome,
    ));
}

/// What the rows of a list say.
pub open spec fn rows_said(items: Seq<JsonModel>) -> Seq<Seq<Single>> {
    Seq::new(
        items.len(),
        |i: int|
            Seq::new(
                items[i]->Array_0.len(),
                |k: int| number_in(items[i]->Array_0[k]),
            ),
    )
}

/// What covariates say that may be left out.
pub open spec fn covariates_said(value: Option<JsonModel>) -> Option<Seq<Seq<Single>>> {
    match value {
        Some(JsonModel::Array(items)) => Some(rows_said(items)),
        _ => None,
    }
}

/// Every row is as long as it has to be.
pub open spec fn are_all(rows: Option<Seq<Seq<Single>>>, len: int) -> bool {
    match rows {
        Some(r) => are_as_long(r, len),
        None => true,
    }
}

/// Every row has `len` numbers.
pub open spec fn are_as_long(rows: Seq<Seq<Single>>, len: int) -> bool {
    forall|i: int| 0 <= i < rows.len() ==> (#[trigger] rows[i]).len() == len
}

proof fn lemma_misfit_is_first(rows: Seq<Seq<Single>>, len: int)
    ensures
        match first_misfit(rows, len) {
            Some(i) => 0 <= i < rows.len() && rows[i].len() != len && forall|k: int|
                0 <= k < i ==> (#[trigger] rows[k]).len() == len,
            None => forall|k: int| 0 <= k < rows.len() ==> (#[trigger] rows[k]).len() == len,
        },
    decreases rows.len(),
{
    if rows.len() > 0 {
        let t = rows.drop_last();
        lemma_misfit_is_first(t, len);
        match first_misfit(t, len) {
            Some(i) => {
                assert forall|k: int| 0 <= k < i implies (#[trigger] rows[k]).len() == len by {
                    assert(t[k].len() == len);
                }
            },
            None => {
                assert forall|k: int| 0 <= k < t.len() implies (#[trigger] rows[k]).len() == len by {
                    assert(t[k].len() == len);
                }
            },
        }
    }
}

/// Series and covariates are accepted exactly where there is a series, the horizon is not zero, the
/// series are not empty and all as long as the first, past-only covariates are as long as the series and
/// past-and-future covariates as long as the series and the horizon together.
pub proof fn law_lengths_that_are_accepted(
    contexts: Seq<Seq<Single>>,
    horizon: int,
    past_only: Option<Seq<Seq<Single>>>,
    past_future: Option<Seq<Seq<Single>>>,
)
    ensures
        length_objection(contexts, horizon, past_only, past_future) is None <==> contexts.len() > 0
            && horizon != 0 && contexts[0].len() > 0 && are_as_long(contexts, contexts[0].len() as int) && are_all(past_only, contexts[0].len() as int) && are_all(
            past_future,
            contexts[0].len() + horizon,
        ),
{
    if contexts.len() > 0 {
        let len = contexts[0].len() as int;
        lemma_misfit_is_first(contexts, len);
        if let Some(p) = past_only {
            lemma_misfit_is_first(p, len);
        }
        if let Some(p) = past_future {
            lemma_misfit_is_first(p, len + horizon);
        }
    }
}

/// The first row that does not fit is named, with its place, its length and the length it should have:
/// series before past-only covariates, and those before past-and-future ones.
pub proof fn law_first_misfit_is_named(
    contexts: Seq<Seq<Single>>,
    horizon: int,
    past_only: Option<Seq<Seq<Single>>>,
    past_future: Option<Seq<Seq<Single>>>,
    i: int,
)
    requires
        contexts.len() > 0,
        horizon > 0,
        contexts[0].len() > 0,
        i >= 0,
    ensures
        ({
            let len = contexts[0].len() as int;
            let said = length_objection(contexts, horizon, past_only, past_future);
            let text = |what: Seq<char>, got: nat, wanted: int|
                Some(
                    what + " at index "@ + digits(i as nat) + " has length "@ + digits(got)
                        + ", expected "@ + digits(wanted as nat),
                );
            &&& i < contexts.len() && contexts[i].len() != len && are_as_long(contexts.take(i), len) ==> said == text("Variate"@, contexts[i].len(), len)
            &&& are_as_long(contexts, len) && past_only is Some && i < past_only->Some_0.len()
                && past_only->Some_0[i].len() != len && are_as_long(past_only->Some_0.take(i), len) ==> said == text("Past-only covariate"@, past_only->Some_0[i].len(), len)
            &&& are_as_long(contexts, len) && are_all(past_only, len) && past_future is Some && i
                < past_future->Some_0.len() && past_future->Some_0[i].len() != len + horizon
                && are_as_long(past_future->Some_0.take(i), len + horizon) ==> said == text(
                "Past-future covariate"@,
                past_future->Some_0[i].len(),
                len + horizon,
            )
        }),
{
    let len = contexts[0].len() as int;
    lemma_misfit_is_first(contexts, len);
    lemma_which(contexts, len, i);
    if let Some(p) = past_only {
        lemma_misfit_is_first(p, len);
        lemma_which(p, len, i);
    }
    if let Some(p) = past_future {
        lemma_misfit_is_first(p, len + horizon);
        lemma_which(p, len + horizon, i);
    }
}

proof fn lemma_which(rows: Seq<Seq<Single>>, len: int, i: int)
    ensures
        0 <= i < rows.len() && rows[i].len() != len && are_as_long(rows.take(i), len)
            ==> first_misfit(rows, len) == Some(i),
{
    lemma_misfit_is_first(rows, len);
    if 0 <= i < rows.len() && rows[i].len() != len && are_as_long(rows.take(i), len) {
        let t = rows.take(i);
        let k = first_misfit(rows, len)->Some_0;
        if k < i {
            assert(t[k].len() == len);
        } else if i < k {
            assert(rows[i].len() == len);
        }
    }
}

/// A call of `forecast_multivariate` with an object of arguments asks the forecaster for a forecast of
/// the rows under `contexts`, with the rows under `past_only_covariates` and under
/// `past_future_covariates` each in its own place, and answers with all variates of what it came to; or
/// with the error that it came to.
pub proof fn law_multivariate_call<F: Forecaster + ?Sized>(
    r: CallToolResult,
    members: Seq<(Seq<char>, JsonModel)>,
    forecaster: &F,
    items: Seq<JsonModel>,
    horizon: u64,
    past_only: Option<JsonModel>,
    past_future: Option<JsonModel>,
    flag: Option<JsonModel>,
)
    requires
        is_multivariate_call(r, JsonModel::Object(members), forecaster),
        are_distinct(members),
        has_value(members, "contexts"@, Some(JsonModel::Array(items))),
        has_value(members, "horizon"@, Some(JsonModel::Unsigned(horizon))),
        has_value(members, "past_only_covariates"@, past_only),
        has_value(members, "past_future_covariates"@, past_future),
        has_value(members, "return_quantiles"@, flag),
        says_rows(JsonModel::Array(items)),
        past_only matches Some(j) ==> j is Null || says_rows(j),
        past_future matches Some(j) ==> j is Null || says_rows(j),
        flag matches Some(j) ==> j is Bool,
        0 < horizon <= usize::MAX,
        items.len() > 0,
        rows_said(items)[0].len() > 0,
        are_as_long(rows_said(items), rows_said(items)[0].len() as int),
        are_all(covariates_said(past_only), rows_said(items)[0].len() as int),
        are_all(covariates_said(past_future), rows_said(items)[0].len() + horizon),
    ensures
        exists|outcome: Result<ForecastOutput, TimesfmError>, levels: Seq<Double>|
            {
                &&& #[trigger] forecaster.may_forecast_all(
                    rows_said(items),
                    horizon as usize,
                    covariates_said(past_only),
                    covariates_said(past_future),
                    is_on(flag),
                    outcome,
                )
                &&& outcome is Ok ==> forecaster.may_have_levels(levels)
                &&& r.content@.len() == 1
                &&& r.is_error == (outcome is Err)
                &&& match outcome {
                    Ok(out) => r.content@[0] matches ToolContent::Multivariate(p) && p.forecasts
                        == out.forecast && p.quantiles == out.quantiles && p.quantile_levels@
                        == levels && p.num_variates == out.forecast@.len() && p.horizon == horizon,
                    Err(e) => r.content@[0] matches ToolContent::Text { text } && text@
                        == "Forecast execution error: "@ + e.text(),
                }
                &&& #[trigger] levels.len() >= 0
            },
{
    let s = multivariate_model();
    let j = JsonModel::Object(members);
    lemma_multivariate_names();
    lemma_has_value(s, members, 0, Some(JsonModel::Array(items)));
    lemma_has_value(s, members, 1, Some(JsonModel::Unsigned(horizon)));
    lemma_has_value(s, members, 2, past_only);
    lemma_has_value(s, members, 3, past_future);
    lemma_has_value(s, members, 4, flag);
    law_objects_as_arguments(s, members, 0);
    assert forall|k: int, m: int|
        0 <= k < members.len() && 0 <= m < s.fields.len() && (#[trigger] members[k]).0 == (
        #[trigger] s.fields[m]).name implies fault(s.fields[m].kind, members[k].1) is None by {
        law_values_that_fit(s.fields[m].kind, members[k].1);
    }
    assert forall|m: int| 0 <= m < s.fields.len() && (
    #[trigger] s.fields[m]).required_in_object implies exists|k: int|
        0 <= k < members.len() && (#[trigger] members[k]).0 == s.fields[m].name by {
        if m == 0 {
            let k = choose|k: int|
                0 <= k < members.len() && #[trigger] members[k] == (
                    "contexts"@,
                    JsonModel::Array(items),
                );
            assert(members[k].0 == s.fields[m].name);
        } else {
            let k = choose|k: int|
                0 <= k < members.len() && #[trigger] members[k] == (
                    "horizon"@,
                    JsonModel::Unsigned(horizon),
                );
            assert(members[k].0 == s.fields[m].name);
        }
    }
    assert(complaint(s, j) is None);
    lemma_rows_said(items);
    lemma_covariates_said(past_only);
    lemma_covariates_said(past_future);
    let contexts = given_rows(argument(s, j, 0));
    assert(contexts == rows_said(items));
    law_lengths_that_are_accepted(
        contexts,
        horizon as int,
        covariates_said(past_only),
        covariates_said(past_future),
    );
    let (outcome, levels) = choose|
        outcome: Result<ForecastOutput, TimesfmError>,
        levels: Seq<Double>,
    |
        forecaster.may_forecast_all(
            contexts,
            horizon as usize,
            covariates_said(past_only),
            covariates_said(past_future),
            given_flag(argument(s, j, 4)),
            outcome,
        ) && (outcome is Ok ==> forecaster.may_have_levels(levels))
            && #[trigger] is_multivariate_reply(r, outcome, levels, horizon as usize);
    assert(given_flag(argument(s, j, 4)) == is_on(flag));
    assert(levels.len() >= 0);
    assert(forecaster.may_forecast_all(
        rows_said(items),
        horizon as usize,
        covariates_said(past_only),
        covariates_said(past_future),
        is_on(flag),
        outcome,
    ));
}

proof fn lemma_rows_said(items: Seq<JsonModel>)
    requires
        says_rows(JsonModel::Array(items)),
    ensures
        rows_in(JsonModel::Array(items)) == rows_said(items),
{
    let (a, b) = (rows_in(JsonModel::Array(items)), rows_said(items));
    assert forall|i: int| 0 <= i < items.len() implies a[i] == b[i] by {
        assert(says_numbers(JsonModel::Array(items)->Array_0[i]));
        assert(a[i] =~= b[i]);
    }
    assert(a =~= b);
}

proof fn lemma_covariates_said(value: Option<JsonModel>)
    requires
        value matches Some(j) ==> j is Null || says_rows(j),
    ensures
        given_optional_rows(value) == covariates_said(value),
{
    if let Some(JsonModel::Array(items)) = value {
        lemma_rows_said(items);
    }
}

/// A call of `evaluate_trend` with an object of arguments answers with the trend of the numbers under
/// `series`, in order.
pub proof fn law_trend_call(
    r: CallToolResult,
    members: Seq<(Seq<char>, JsonModel)>,
    items: Seq<JsonModel>,
)
    requires
        is_trend_call(r, JsonModel::Object(members)),
        are_distinct(members),
        has_value(members, "series"@, Some(JsonModel::Array(items))),
        items.len() > 0,
        forall|i: int| 0 <= i < items.len() ==> says_number(#[trigger] items[i]),
    ensures
        !r.is_error,
        r.content@.len() == 1,
        r.content@[0] matches ToolContent::Trend(t) && is_trend(
            t,
            numbers_said(items),
        ),
{
    let s = trend_model();
    let j = JsonModel::Object(members);
    assert(has_distinct_fields(s));
    lemma_has_value(s, members, 0, Some(JsonModel::Array(items)));
    law_objects_as_arguments(s, members, 0);
    assert forall|k: int, m: int|
        0 <= k < members.len() && 0 <= m < s.fields.len() && (#[trigger] members[k]).0 == (
        #[trigger] s.fields[m]).name implies fault(s.fields[m].kind, members[k].1) is None by {
        law_values_that_fit(s.fields[m].kind, members[k].1);
    }
    let k = choose|k: int|
        0 <= k < members.len() && #[trigger] members[k] == ("series"@, JsonModel::Array(items));
    assert(members[k].0 == s.fields[0].name);
    assert(complaint(s, j) is None);
    assert(given_numbers(argument(s, j, 0)) =~= numbers_said(items));
}

/// Calls that the forecaster is not asked about: arguments that are refused, a context without a point
/// and a horizon of zero, each answered with its own words.
pub proof fn law_calls_that_are_refused<F: Forecaster + ?Sized>(
    r: CallToolResult,
    q: CallToolResult,
    j: JsonModel,
    forecaster: &F,
)
    requires
        is_univariate_call(r, j, forecaster),
        is_multivariate_call(q, j, forecaster),
    ensures
        complaint(univariate_model(), j) matches Some(c) ==> r.is_error && r.content@.len() == 1 && (
        r.content@[0] matches ToolContent::Text { text } && text@
            == "Invalid arguments for forecast_univariate: "@ + c),
        complaint(univariate_model(), j) is None && numbers_in_first(j).len() == 0 ==> r.is_error && (
        r.content@[0] matches ToolContent::Text { text } && text@ == "Context cannot be empty"@),
        complaint(multivariate_model(), j) matches Some(c) ==> q.is_error && q.content@.len() == 1
            && (q.content@[0] matches ToolContent::Text { text } && text@
            == "Invalid arguments for forecast_multivariate: "@ + c),
{
}

/// The numbers that are given as the first argument of a univariate call.
pub open spec fn numbers_in_first(j: JsonModel) -> Seq<Single> {
    given_numbers(argument(univariate_model(), j, 0))
}

} // verus!
