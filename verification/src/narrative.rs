//! A forecast told in words.

use vstd::prelude::*;
use vstd::string::*;

use crate::error::TimesfmError;
use crate::forecaster::ForecastOutput;
use crate::ieee::scalar::{Double, Single};
use crate::rows::{append_part, append_row};
use crate::stats::lemma_extremes;
use crate::stats::{highest, highest_from, highest_of, lowest, lowest_of};
use crate::text::{
    chars_of, find_headline, find_last, find_text, is_empty_text, text_of, trim,
};
use crate::text::{
    found, found_from, headline, is_part, last_place, law_trimmed_is_part, lemma_part_of_part,
    occurs_at, texts, trimmed,
};

verus! {

/// What a narrative says, apart from how its texts are stored.
pub struct NarrativeModel {
    pub summary: Seq<char>,
    pub trend_description: Seq<char>,
    pub volatility_analysis: Seq<char>,
    pub risk_alerts: Seq<Seq<char>>,
}

/// A forecast told in words.
#[derive(Debug, Clone)]
pub struct ForecastNarrative {
    /// The course of the forecast in a sentence.
    pub summary: String,
    /// Where it goes, and how fast.
    pub trend_description: String,
    /// How uncertain it is.
    pub volatility_analysis: String,
    /// What to look out for.
    pub risk_alerts: Vec<String>,
}

impl View for ForecastNarrative {
    type V = NarrativeModel;

    open spec fn view(&self) -> NarrativeModel {
        NarrativeModel {
            summary: self.summary@,
            trend_description: self.trend_description@,
            volatility_analysis: self.volatility_analysis@,
            risk_alerts: texts(self.risk_alerts@),
        }
    }
}

/// A forecast summed up in numbers.
#[derive(Debug, Clone, Copy)]
pub struct ForecastSummaryStats {
    /// The first point forecast.
    pub starting_value: Single,
    /// The last point forecast.
    pub final_median: Single,
    /// The way from the first to the last, in percent of the first.
    pub net_drift_percent: Single,
    /// The greatest width from `p10` to `p90`.
    pub max_spread: Single,
    /// The least of all medians and quantiles.
    pub min_bound: Single,
    /// The greatest of all medians and quantiles.
    pub max_bound: Single,
}

/// The way from the first to the last number in percent of the first. From nearly nothing (1e-6)
/// to something is a hundred percent up or down, and to nearly nothing none.
pub open spec fn drift(first: Single, last: Single) -> Single {
    let tiny = Single { bits: 0x3586_37bd };
    if tiny.lt(first.abs()) {
        last.minus(first).over(first).times(Single { bits: 0x42c8_0000 })
    } else if tiny.lt(last.abs()) {
        if Single::zero().lt(last) {
            Single { bits: 0x42c8_0000 }
        } else {
            Single { bits: 0xc2c8_0000 }
        }
    } else {
        Single::zero()
    }
}

/// The upper end of a step's quantiles: the ninth, or the last where there are fewer.
pub open spec fn upper(row: Seq<Single>) -> Single {
    if row.len() >= 9 {
        row[8]
    } else {
        row.last()
    }
}

/// The widths of the first `n` steps that have quantiles.
pub open spec fn widths(rows: Seq<Vec<Single>>, n: int) -> Seq<Single>
    decreases n,
{
    if n <= 0 {
        seq![]
    } else if rows[n - 1]@.len() > 0 {
        widths(rows, n - 1).push(upper(rows[n - 1]@).minus(rows[n - 1]@[0]).abs())
    } else {
        widths(rows, n - 1)
    }
}

/// The quantiles and the median of the first `n` steps.
pub open spec fn observed(series: Seq<Single>, rows: Seq<Vec<Single>>, n: int) -> Seq<Single>
    decreases n,
{
    if n <= 0 {
        seq![]
    } else {
        let with_row = observed(series, rows, n - 1) + rows[n - 1]@;
        if n - 1 < series.len() {
            with_row.push(series[n - 1])
        } else {
            with_row
        }
    }
}

/// The quantiles and the medians of all steps.
pub open spec fn all_observed(series: Seq<Single>, rows: Seq<Vec<Single>>) -> Seq<Single> {
    observed(series, rows, rows.len() as int) + if rows.len() < series.len() {
        series.skip(rows.len() as int)
    } else {
        seq![]
    }
}

/// The first variate has a point forecast.
pub open spec fn has_series(f: ForecastOutput) -> bool {
    f.forecast@.len() > 0 && f.forecast@[0]@.len() > 0
}

/// The first variate has quantiles.
pub open spec fn has_quantiles(f: ForecastOutput) -> bool {
    f.quantiles matches Some(q) && q@.len() > 0 && q@[0]@.len() > 0
}

/// The numbers that sum up the first variate of a forecast.
pub open spec fn are_stats(s: ForecastSummaryStats, f: ForecastOutput) -> bool {
    let series = f.forecast@[0]@;
    &&& s.starting_value == series.first()
    &&& s.final_median == series.last()
    &&& s.net_drift_percent == drift(series.first(), series.last())
    &&& if has_quantiles(f) {
        let rows = f.quantiles->Some_0@[0]@;
        let all = all_observed(series, rows);
        &&& s.max_spread == highest_from(Single::zero(), widths(rows, rows.len() as int))
        &&& s.min_bound == lowest(all)
        &&& s.max_bound == highest(all)
    } else {
        &&& s.max_spread == Single::zero()
        &&& s.min_bound == lowest(series)
        &&& s.max_bound == highest(series)
    }
}

fn find_drift(first: Single, last: Single) -> (r: Single)
    ensures
        r == drift(first, last),
{
    let tiny = Single::from_bits(0x3586_37bd);
    let hundred = Single::from_bits(0x42c8_0000);
    if tiny.lt(first.abs()) {
        last.minus(first).over(first).times(hundred)
    } else if tiny.lt(last.abs()) {
        if Single::zero().lt(last) {
            hundred
        } else {
            Single::from_bits(0xc2c8_0000)
        }
    } else {
        Single::zero()
    }
}

fn whole_range(s: &Vec<Single>) -> (r: (Single, Single))
    ensures
        r == (lowest(s@), highest(s@)),
{
    assert(s@.take(s@.len() as int) =~= s@);
    (
        lowest_of(Single::from_bits(0x7f80_0000), s, s.len()),
        highest_of(Single::from_bits(0xff80_0000), s, s.len()),
    )
}

/// Sums up the first variate of a forecast.
pub fn compute_summary_stats(forecast: &ForecastOutput) -> (r: Result<
    ForecastSummaryStats,
    TimesfmError,
>)
    ensures
        if has_series(*forecast) {
            r matches Ok(s) && are_stats(s, *forecast)
        } else {
            r matches Err(TimesfmError::Inference(m)) && m@
                == "Forecast series is empty; cannot compute summary statistics"@
        },
{
    if forecast.forecast.len() == 0 || forecast.forecast[0].len() == 0 {
        return Err(
            TimesfmError::Inference(
                "Forecast series is empty; cannot compute summary statistics".to_owned(),
            ),
        );
    }
    let series = &forecast.forecast[0];
    let starting_value = series[0];
    let final_median = series[series.len() - 1];
    let net_drift_percent = find_drift(starting_value, final_median);
    if let Some(q) = &forecast.quantiles {
        if q.len() > 0 && q[0].len() > 0 {
            let rows = &q[0];
            let mut spreads: Vec<Single> = Vec::new();
            let mut all: Vec<Single> = Vec::new();
            let mut n: usize = 0;
            while n < rows.len()
                invariant
                    n <= rows@.len(),
                    spreads@ == widths(rows@, n as int),
                    all@ == observed(series@, rows@, n as int),
                decreases rows@.len() - n,
            {
                let row = &rows[n];
                if row.len() > 0 {
                    let p90 = if row.len() >= 9 {
                        row[8]
                    } else {
                        row[row.len() - 1]
                    };
                    spreads.push(p90.minus(row[0]).abs());
                }
                append_row(&mut all, row);
                if n < series.len() {
                    all.push(series[n]);
                }
                n = n + 1;
            }
            if rows.len() < series.len() {
                append_part(&mut all, series, rows.len(), series.len());
                assert(series@.subrange(rows@.len() as int, series@.len() as int) =~= series@.skip(
                    rows@.len() as int,
                ));
            }
            assert(all@ =~= all_observed(series@, rows@));
            let (min_bound, max_bound) = whole_range(&all);
            assert(spreads@.take(spreads@.len() as int) =~= spreads@);
            return Ok(
                ForecastSummaryStats {
                    starting_value,
                    final_median,
                    net_drift_percent,
                    max_spread: highest_of(Single::zero(), &spreads, spreads.len()),
                    min_bound,
                    max_bound,
                },
            );
        }
    }
    let (min_bound, max_bound) = whole_range(series);
    Ok(
        ForecastSummaryStats {
            starting_value,
            final_median,
            net_drift_percent,
            max_spread: Single::zero(),
            min_bound,
            max_bound,
        },
    )
}

/// What is asked of the language model about the numbers.
pub open spec fn metrics_text(s: ForecastSummaryStats) -> Seq<char> {
    "You are an expert time-series analyst. Analyze the following time-series forecast and provide a structured narrative summary.\n\nForecast Metrics:\n- Starting Value: "@
        + s.starting_value.fixed(4) + "\n- Final Median Forecast: "@ + s.final_median.fixed(4)
        + "\n- Net Drift: "@ + s.net_drift_percent.signed_fixed(2)
        + "%\n- Maximum Uncertainty Spread (p90 - p10): "@ + s.max_spread.fixed(4)
        + "\n- Bounds: ["@ + s.min_bound.fixed(4) + ", "@ + s.max_bound.fixed(4) + "]\n"@
}

/// How the answer is to be given.
pub open spec fn schema_text() -> Seq<char> {
    "\nRespond strictly in valid JSON matching this schema:\n```json\n{\n\"summary\": \"Executive summary of the forecast trajectory.\",\n\"trend_description\": \"Detailed description of direction and velocity.\",\n\"volatility_analysis\": \"Assessment of spread, uncertainty, and bounds.\",\n\"risk_alerts\": [\"Alert 1\", \"Alert 2\"]\n}\n```\n"@
}

/// The metrics with the instruction, where there is one that is not blank.
pub open spec fn instructed_text(s: ForecastSummaryStats, instruction: Option<Seq<char>>) -> Seq<
    char,
> {
    match instruction {
        Some(i) => if trimmed(i).len() > 0 {
            metrics_text(s) + "\nInstruction:\n"@ + trimmed(i) + "\n"@
        } else {
            metrics_text(s)
        },
        None => metrics_text(s),
    }
}

/// What an optional text holds.
pub open spec fn optional_str(o: Option<&str>) -> Option<Seq<char>> {
    match o {
        Some(s) => Some(s@),
        None => None,
    }
}

/// Writes the prompt for the language model.
pub fn build_narrative_prompt(stats: &ForecastSummaryStats, prompt_instruction: Option<&str>) -> (r:
    String)
    ensures
        r@ == instructed_text(*stats, optional_str(prompt_instruction)) + schema_text(),
{
    let mut t =
        "You are an expert time-series analyst. Analyze the following time-series forecast and provide a structured narrative summary.\n\nForecast Metrics:\n- Starting Value: ".to_owned();
    stats.starting_value.push_fixed(&mut t, 4);
    t.append("\n- Final Median Forecast: ");
    stats.final_median.push_fixed(&mut t, 4);
    t.append("\n- Net Drift: ");
    stats.net_drift_percent.push_signed_fixed(&mut t, 2);
    t.append("%\n- Maximum Uncertainty Spread (p90 - p10): ");
    stats.max_spread.push_fixed(&mut t, 4);
    t.append("\n- Bounds: [");
    stats.min_bound.push_fixed(&mut t, 4);
    t.append(", ");
    stats.max_bound.push_fixed(&mut t, 4);
    t.append("]\n");
    if let Some(instruction) = prompt_instruction {
        let i = trim(instruction);
        if !is_empty_text(&i) {
            t.append("\nInstruction:\n");
            t.append(&i);
            t.append("\n");
        }
    }
    t.append(
        "\nRespond strictly in valid JSON matching this schema:\n```json\n{\n\"summary\": \"Executive summary of the forecast trajectory.\",\n\"trend_description\": \"Detailed description of direction and velocity.\",\n\"volatility_analysis\": \"Assessment of spread, uncertainty, and bounds.\",\n\"risk_alerts\": [\"Alert 1\", \"Alert 2\"]\n}\n```\n",
    );
    t
}

/// What the language model is asked.
#[derive(Debug, Clone)]
pub struct GenerateRequest {
    pub prompt: String,
    pub system_prompt: Option<String>,
    pub temperature: Option<Double>,
    pub top_p: Option<Double>,
    pub max_tokens: Option<usize>,
    pub permissive: bool,
    pub seed: Option<u64>,
}

/// The request for a narrative.
pub open spec fn is_narrative_request(r: GenerateRequest, prompt: Seq<char>) -> bool {
    &&& r.prompt@ == prompt
    &&& r.system_prompt matches Some(s) && s@
        == "You are an expert time-series analyst. Provide accurate, structured forecast narratives."@
    &&& r.temperature == Some(Double { bits: 0x3fc9_9999_9999_999a })
    &&& r.top_p is None
    &&& r.max_tokens == Some(512usize)
    &&& r.permissive
    &&& r.seed is None
}

/// What the language model is asked about a forecast, and the numbers that sum it up.
pub fn narrative_request(forecast: &ForecastOutput, prompt_instruction: Option<&str>) -> (r: Result<
    (ForecastSummaryStats, GenerateRequest),
    TimesfmError,
>)
    ensures
        if has_series(*forecast) {
            r matches Ok(p) && are_stats(p.0, *forecast) && is_narrative_request(
                p.1,
                instructed_text(p.0, optional_str(prompt_instruction)) + schema_text(),
            )
        } else {
            r matches Err(TimesfmError::Inference(m)) && m@
                == "Forecast series is empty; cannot compute summary statistics"@
        },
{
    match compute_summary_stats(forecast) {
        Ok(stats) => {
            let request = GenerateRequest {
                prompt: build_narrative_prompt(&stats, prompt_instruction),
                system_prompt: Some(
                    "You are an expert time-series analyst. Provide accurate, structured forecast narratives.".to_owned(),
                ),
                temperature: Some(Double::from_bits(0x3fc9_9999_9999_999a)),
                top_p: None,
                max_tokens: Some(512),
                permissive: true,
                seed: None,
            };
            Ok((stats, request))
        },
        Err(e) => Err(e),
    }
}

/// The text between the first code fence, and `json` where it follows, and the next fence.
pub open spec fn fenced(t: Seq<char>) -> Option<Seq<char>> {
    match found(t, "```"@) {
        None => None,
        Some(a) => {
            let rest = t.skip(a + 3);
            let body = if occurs_at(rest, "json"@, 0) {
                rest.skip(4)
            } else {
                rest
            };
            match found(body, "```"@) {
                None => None,
                Some(b) => Some(trimmed(body.take(b))),
            }
        },
    }
}

/// The text from the first opening to the last closing brace.
pub open spec fn braced(t: Seq<char>) -> Option<Seq<char>> {
    match (found(t, "{"@), last_place(t, '}')) {
        (Some(a), Some(b)) => if a < b {
            Some(t.subrange(a, b + 1))
        } else {
            None
        },
        _ => None,
    }
}

/// The parts of a reply that may be a narrative in JSON notation, in the order in which they are
/// tried: all of it, what stands in a code fence, and what stands in braces.
pub open spec fn candidates(content: Seq<char>) -> Seq<Seq<char>> {
    let t = trimmed(content);
    let first = seq![t];
    let second = match fenced(t) {
        Some(c) => first.push(c),
        None => first,
    };
    match braced(t) {
        Some(c) => second.push(c),
        None => second,
    }
}

fn find_fenced(t: &str) -> (r: Option<String>)
    ensures
        crate::text::optional(r) == fenced(t@),
{
    proof {
        reveal_strlit("```");
        reveal_strlit("json");
    }
    let chars = chars_of(t);
    match find_text(&chars, "```") {
        None => None,
        Some(a) => {
            let end = chars.len();
            let rest = chars_of(&text_of(&chars, a + 3, end));
            assert(rest@ =~= t@.skip(a + 3));
            let tagged = rest.len() >= 4 && rest[0] == 'j' && rest[1] == 's' && rest[2] == 'o'
                && rest[3] == 'n';
            proof {
                if tagged {
                    assert(rest@.subrange(0, 4) =~= "json"@);
                } else if rest@.len() >= 4 && rest@.subrange(0, 4) == "json"@ {
                    assert("json"@[0] == rest@[0] && "json"@[1] == rest@[1] && "json"@[2] == rest@[2]
                        && "json"@[3] == rest@[3]);
                }
            }
            let body = if tagged {
                let b = chars_of(&text_of(&rest, 4, rest.len()));
                assert(b@ =~= rest@.skip(4));
                b
            } else {
                rest
            };
            match find_text(&body, "```") {
                None => None,
                Some(b) => {
                    let inner = text_of(&body, 0, b);
                    assert(inner@ =~= body@.take(b as int));
                    Some(trim(&inner))
                },
            }
        },
    }
}

fn find_braced(t: &str) -> (r: Option<String>)
    ensures
        crate::text::optional(r) == braced(t@),
{
    let chars = chars_of(t);
    let end = chars.len();
    match (find_text(&chars, "{"), find_last(&chars, '}')) {
        (Some(a), Some(b)) => if a < b {
            Some(text_of(&chars, a, b + 1))
        } else {
            None
        },
        _ => None,
    }
}

/// The parts of a reply that may be a narrative in JSON notation.
pub fn narrative_candidates(content: &str) -> (r: Vec<String>)
    ensures
        texts(r@) == candidates(content@),
{
    let t = trim(content);
    let mut r: Vec<String> = Vec::new();
    let second = find_fenced(&t);
    let third = find_braced(&t);
    r.push(t);
    assert(texts(r@) =~= seq![t@]);
    if let Some(c) = second {
        let ghost start = texts(r@);
        r.push(c);
        assert(texts(r@) =~= start.push(c@));
    }
    if let Some(c) = third {
        let ghost start = texts(r@);
        r.push(c);
        assert(texts(r@) =~= start.push(c@));
    }
    r
}

/// The first of the candidates that reads as a narrative.
pub open spec fn first_reading(readings: Seq<Option<ForecastNarrative>>) -> Option<NarrativeModel>
    decreases readings.len(),
{
    if readings.len() == 0 {
        None
    } else {
        match first_reading(readings.drop_last()) {
            Some(n) => Some(n),
            None => match readings.last() {
                Some(n) => Some(n@),
                None => None,
            },
        }
    }
}

/// What stands in for alerts where there are none.
pub open spec fn all_clear() -> Seq<char> {
    "No significant drift or volatility anomalies detected."@
}

/// The narrative with at least one alert.
pub open spec fn alerted(n: NarrativeModel) -> NarrativeModel {
    if n.risk_alerts.len() == 0 {
        NarrativeModel { risk_alerts: seq![all_clear()], ..n }
    } else {
        n
    }
}

/// The summary: the first line of the model's text, or the drift where there is no text, or only
/// that of the stand-in engine.
pub open spec fn summary_of(text: Seq<char>, s: ForecastSummaryStats) -> Seq<char> {
    if text.len() > 0 && found(text, "mock backend engine"@) is None {
        match headline(text) {
            Some(h) => h,
            None => trimmed(text),
        }
    } else {
        "Forecast projects a net drift of "@ + s.net_drift_percent.signed_fixed(2)
            + "% over the horizon, shifting from "@ + s.starting_value.fixed(2) + " to "@
            + s.final_median.fixed(2) + "."@
    }
}

/// A drift of more than one percent either way is a trend.
pub open spec fn trend_of(s: ForecastSummaryStats) -> Seq<char> {
    if (Single { bits: 0x3f80_0000 }).lt(s.net_drift_percent) {
        "Upward trend projected with an increase of "@ + s.net_drift_percent.signed_fixed(2)
            + "% (starting at "@ + s.starting_value.fixed(2) + ", reaching "@
            + s.final_median.fixed(2) + ")."@
    } else if s.net_drift_percent.lt(Single { bits: 0xbf80_0000 }) {
        "Downward trend projected with a decline of "@ + s.net_drift_percent.signed_fixed(2)
            + "% (starting at "@ + s.starting_value.fixed(2) + ", reaching "@
            + s.final_median.fixed(2) + ")."@
    } else {
        "Relatively stable trend projected with negligible drift of "@
            + s.net_drift_percent.signed_fixed(2) + "% (starting at "@ + s.starting_value.fixed(2)
            + ", ending at "@ + s.final_median.fixed(2) + ")."@
    }
}

pub open spec fn volatility_of(s: ForecastSummaryStats) -> Seq<char> {
    if Single::zero().lt(s.max_spread) {
        "Forecast uncertainty reflects a maximum p90-p10 spread of "@ + s.max_spread.fixed(2)
            + ", with overall envelope bounded within ["@ + s.min_bound.fixed(2) + ", "@
            + s.max_bound.fixed(2) + "]."@
    } else {
        "Low or deterministic volatility with bounds ["@ + s.min_bound.fixed(2) + ", "@
            + s.max_bound.fixed(2) + "]."@
    }
}

/// A drift of more than twenty percent either way.
pub open spec fn drifts_far(s: ForecastSummaryStats) -> bool {
    (Single { bits: 0x41a0_0000 }).lt(s.net_drift_percent.abs())
}

/// The forecast starts at zero or above and may fall below.
pub open spec fn breaches_zero(s: ForecastSummaryStats) -> bool {
    s.min_bound.lt(Single::zero()) && Single::zero().le(s.starting_value)
}

/// The spread is more than half of what the forecast starts from, unless that is nearly nothing
/// (1e-4).
pub open spec fn is_uncertain(s: ForecastSummaryStats) -> bool {
    s.starting_value.abs().times(Single { bits: 0x3f00_0000 }).lt(s.max_spread) && (Single {
        bits: 0x38d1_b717,
    }).lt(s.starting_value.abs())
}

pub open spec fn drift_alert(s: ForecastSummaryStats) -> Seq<char> {
    "High drift magnitude: projected change of "@ + s.net_drift_percent.signed_fixed(2)
        + "% exceeds standard volatility threshold."@
}

pub open spec fn spread_alert(s: ForecastSummaryStats) -> Seq<char> {
    "Elevated uncertainty: maximum spread ("@ + s.max_spread.fixed(2)
        + ") exceeds 50% of base value ("@ + s.starting_value.fixed(2) + ")."@
}

/// The alerts that the numbers give rise to, or the all-clear.
pub open spec fn alerts_of(s: ForecastSummaryStats) -> Seq<Seq<char>> {
    let a: Seq<Seq<char>> = if drifts_far(s) {
        seq![drift_alert(s)]
    } else {
        seq![]
    };
    let b = if breaches_zero(s) {
        a.push("Prediction interval lower bound breaches zero into negative territory."@)
    } else {
        a
    };
    let c = if is_uncertain(s) {
        b.push(spread_alert(s))
    } else {
        b
    };
    if c.len() == 0 {
        seq![all_clear()]
    } else {
        c
    }
}

/// The narrative that the numbers and the model's text make without its help.
pub open spec fn synthesis(text: Seq<char>, s: ForecastSummaryStats) -> NarrativeModel {
    NarrativeModel {
        summary: summary_of(text, s),
        trend_description: trend_of(s),
        volatility_analysis: volatility_of(s),
        risk_alerts: alerts_of(s),
    }
}

fn write_summary(text: &str, s: &ForecastSummaryStats) -> (r: String)
    ensures
        r@ == summary_of(text@, *s),
{
    if !is_empty_text(text) && find_text(&chars_of(text), "mock backend engine").is_none() {
        match find_headline(text) {
            Some(h) => h,
            None => trim(text),
        }
    } else {
        let mut t = "Forecast projects a net drift of ".to_owned();
        s.net_drift_percent.push_signed_fixed(&mut t, 2);
        t.append("% over the horizon, shifting from ");
        s.starting_value.push_fixed(&mut t, 2);
        t.append(" to ");
        s.final_median.push_fixed(&mut t, 2);
        t.append(".");
        t
    }
}

fn write_trend(s: &ForecastSummaryStats) -> (r: String)
    ensures
        r@ == trend_of(*s),
{
    let up = Single::from_bits(0x3f80_0000).lt(s.net_drift_percent);
    let down = s.net_drift_percent.lt(Single::from_bits(0xbf80_0000));
    let mut t = if up {
        "Upward trend projected with an increase of ".to_owned()
    } else if down {
        "Downward trend projected with a decline of ".to_owned()
    } else {
        "Relatively stable trend projected with negligible drift of ".to_owned()
    };
    s.net_drift_percent.push_signed_fixed(&mut t, 2);
    t.append("% (starting at ");
    s.starting_value.push_fixed(&mut t, 2);
    if up || down {
        t.append(", reaching ");
    } else {
        t.append(", ending at ");
    }
    s.final_median.push_fixed(&mut t, 2);
    t.append(").");
    t
}

fn write_volatility(s: &ForecastSummaryStats) -> (r: String)
    ensures
        r@ == volatility_of(*s),
{
    if Single::zero().lt(s.max_spread) {
        let mut t = "Forecast uncertainty reflects a maximum p90-p10 spread of ".to_owned();
        s.max_spread.push_fixed(&mut t, 2);
        t.append(", with overall envelope bounded within [");
        s.min_bound.push_fixed(&mut t, 2);
        t.append(", ");
        s.max_bound.push_fixed(&mut t, 2);
        t.append("].");
        t
    } else {
        let mut t = "Low or deterministic volatility with bounds [".to_owned();
        s.min_bound.push_fixed(&mut t, 2);
        t.append(", ");
        s.max_bound.push_fixed(&mut t, 2);
        t.append("].");
        t
    }
}

fn write_alerts(s: &ForecastSummaryStats) -> (r: Vec<String>)
    ensures
        texts(r@) == alerts_of(*s),
{
    let mut r: Vec<String> = Vec::new();
    let ghost mut model: Seq<Seq<char>> = seq![];
    assert(texts(r@) =~= model);
    if Single::from_bits(0x41a0_0000).lt(s.net_drift_percent.abs()) {
        let mut t = "High drift magnitude: projected change of ".to_owned();
        s.net_drift_percent.push_signed_fixed(&mut t, 2);
        t.append("% exceeds standard volatility threshold.");
        r.push(t);
        proof {
            model = seq![drift_alert(*s)];
        }
        assert(texts(r@) =~= model);
    }
    if s.min_bound.lt(Single::zero()) && Single::zero().le(s.starting_value) {
        let t = "Prediction interval lower bound breaches zero into negative territory.".to_owned();
        proof {
            model = model.push(t@);
        }
        r.push(t);
        assert(texts(r@) =~= model);
    }
    let base = s.starting_value.abs();
    if base.times(Single::from_bits(0x3f00_0000)).lt(s.max_spread) && Single::from_bits(
        0x38d1_b717,
    ).lt(base) {
        let mut t = "Elevated uncertainty: maximum spread (".to_owned();
        s.max_spread.push_fixed(&mut t, 2);
        t.append(") exceeds 50% of base value (");
        s.starting_value.push_fixed(&mut t, 2);
        t.append(").");
        proof {
            model = model.push(t@);
        }
        r.push(t);
        assert(texts(r@) =~= model);
    }
    if r.len() == 0 {
        r.push("No significant drift or volatility anomalies detected.".to_owned());
        assert(texts(r@) =~= seq![all_clear()]);
    }
    r
}

/// Makes a narrative of the numbers and of whatever text the model gave.
pub fn synthesize_narrative_from_stats(text: &str, stats: &ForecastSummaryStats) -> (r:
    ForecastNarrative)
    ensures
        r@ == synthesis(text@, *stats),
{
    ForecastNarrative {
        summary: write_summary(text, stats),
        trend_description: write_trend(stats),
        volatility_analysis: write_volatility(stats),
        risk_alerts: write_alerts(stats),
    }
}

fn with_alert(n: ForecastNarrative) -> (r: ForecastNarrative)
    ensures
        r@ == alerted(n@),
{
    let mut n = n;
    if n.risk_alerts.len() == 0 {
        n.risk_alerts.push("No significant drift or volatility anomalies detected.".to_owned());
        assert(texts(n.risk_alerts@) =~= seq![all_clear()]);
    }
    n
}

/// The narrative in a reply: the first candidate that reads as one, or else one made from the
/// numbers and the text.
pub open spec fn narrative_in(
    content: Seq<char>,
    readings: Seq<Option<ForecastNarrative>>,
    s: ForecastSummaryStats,
) -> NarrativeModel {
    match first_reading(readings) {
        Some(n) => alerted(n),
        None => synthesis(trimmed(content), s),
    }
}

/// Finds the narrative in a reply. `readings` says, for each candidate in turn, what it reads as.
pub fn parse_narrative_response(
    content: &str,
    readings: Vec<Option<ForecastNarrative>>,
    stats: &ForecastSummaryStats,
) -> (r: ForecastNarrative)
    ensures
        r@ == narrative_in(content@, readings@, *stats),
{
    let ghost given = readings@;
    for reading in it: readings
        invariant
            it.seq() == given,
            first_reading(given.take(it.index() as int)) is None,
    {
        let ghost i = it.index() as int;
        assert(given.take(i + 1).drop_last() =~= given.take(i));
        if let Some(n) = reading {
            proof {
                lemma_first_reading(given, i);
            }
            return with_alert(n);
        }
    }
    assert(given.take(given.len() as int) =~= given);
    synthesize_narrative_from_stats(&trim(content), stats)
}

proof fn lemma_first_reading(readings: Seq<Option<ForecastNarrative>>, i: int)
    requires
        0 <= i < readings.len(),
        first_reading(readings.take(i)) is None,
        readings[i] is Some,
    ensures
        first_reading(readings) == Some(readings[i]->Some_0@),
    decreases readings.len(),
{
    if i == readings.len() - 1 {
        assert(readings.take(i) =~= readings.drop_last());
    } else {
        assert(readings.drop_last().take(i) =~= readings.take(i));
        lemma_first_reading(readings.drop_last(), i);
    }
}

/// What an engine's reply is made into: `reply` is its text, or nothing where the engine failed.
pub fn narrative_of_reply(
    reply: Option<&str>,
    readings: Vec<Option<ForecastNarrative>>,
    stats: &ForecastSummaryStats,
) -> (r: ForecastNarrative)
    ensures
        r@ == match reply {
            Some(content) => narrative_in(content@, readings@, *stats),
            None => synthesis(""@, *stats),
        },
{
    match reply {
        Some(content) => parse_narrative_response(content, readings, stats),
        None => synthesize_narrative_from_stats("", stats),
    }
}

/// A narrative always has an alert, if only the all-clear.
pub proof fn law_narrative_has_alerts(
    content: Seq<char>,
    readings: Seq<Option<ForecastNarrative>>,
    s: ForecastSummaryStats,
)
    ensures
        narrative_in(content, readings, s).risk_alerts.len() > 0,
        synthesis(content, s).risk_alerts.len() > 0,
{
}

/// Where nothing reads as a narrative, everything but the summary is made from the numbers alone.
pub proof fn law_fallback_rests_on_numbers(
    content: Seq<char>,
    readings: Seq<Option<ForecastNarrative>>,
    s: ForecastSummaryStats,
)
    requires
        forall|i: int| 0 <= i < readings.len() ==> (#[trigger] readings[i]) is None,
    ensures
        narrative_in(content, readings, s) == (NarrativeModel {
            summary: summary_of(trimmed(content), s),
            ..synthesis(""@, s)
        }),
{
    lemma_no_reading(readings);
}

proof fn lemma_no_reading(readings: Seq<Option<ForecastNarrative>>)
    requires
        forall|i: int| 0 <= i < readings.len() ==> (#[trigger] readings[i]) is None,
    ensures
        first_reading(readings) is None,
    decreases readings.len(),
{
    if readings.len() > 0 {
        lemma_no_reading(readings.drop_last());
        assert(readings[readings.len() - 1] is None);
    }
}

/// Every candidate stands in the reply as it is: whatever a reply does not hold, no candidate holds.
pub proof fn law_candidates_are_parts(content: Seq<char>, i: int)
    requires
        0 <= i < candidates(content).len(),
    ensures
        is_part(candidates(content)[i], content),
{
    let t = trimmed(content);
    law_trimmed_is_part(content);
    if let Some(c) = fenced(t) {
        lemma_fenced_is_part(t);
        lemma_part_of_part(c, t, content);
    }
    if let Some(c) = braced(t) {
        lemma_braced_is_part(t);
        lemma_part_of_part(c, t, content);
    }
}

/// A reply with neither a brace nor a bracket ends in the narrative made from the numbers and the
/// trimmed text, as long as nothing without either of them reads as a narrative.
pub proof fn law_plain_text_is_synthesis(
    content: Seq<char>,
    readings: Seq<Option<ForecastNarrative>>,
    s: ForecastSummaryStats,
)
    requires
        !content.contains('{') && !content.contains('['),
        readings.len() == candidates(content).len(),
        forall|i: int|
            0 <= i < readings.len() && (#[trigger] readings[i]) is Some ==> candidates(
                content,
            )[i].contains('{') || candidates(content)[i].contains('['),
    ensures
        narrative_in(content, readings, s) == synthesis(trimmed(content), s),
{
    assert forall|i: int| 0 <= i < readings.len() implies (#[trigger] readings[i]) is None by {
        law_candidates_are_parts(content, i);
        let c = candidates(content)[i];
        let (k, l) = choose|k: int, l: int|
            0 <= k <= l <= content.len() && c == #[trigger] content.subrange(k, l);
        assert forall|x: char| c.contains(x) implies content.contains(x) by {
            let m = choose|m: int| 0 <= m < c.len() && c[m] == x;
            assert(content[k + m] == x);
        }
    }
    lemma_no_reading(readings);
}

proof fn lemma_found_in(s: Seq<char>, p: Seq<char>, i: int)
    requires
        i >= 0,
    ensures
        found_from(s, p, i) matches Some(k) ==> i <= k <= s.len() - p.len() && occurs_at(s, p, k),
    decreases s.len() - p.len() - i + 1,
{
    if i <= s.len() - p.len() && !occurs_at(s, p, i) {
        lemma_found_in(s, p, i + 1);
    }
}

proof fn lemma_last_place_in(s: Seq<char>, c: char)
    ensures
        last_place(s, c) matches Some(k) ==> 0 <= k < s.len() && s[k] == c,
    decreases s.len(),
{
    if s.len() > 0 && s.last() != c {
        lemma_last_place_in(s.drop_last(), c);
    }
}

proof fn lemma_fenced_is_part(t: Seq<char>)
    requires
        fenced(t) is Some,
    ensures
        is_part(fenced(t)->Some_0, t),
{
    reveal_strlit("```");
    reveal_strlit("json");
    lemma_found_in(t, "```"@, 0);
    let a = found(t, "```"@)->Some_0;
    let rest = t.skip(a + 3);
    let tagged = occurs_at(rest, "json"@, 0);
    let start = if tagged {
        a + 7
    } else {
        a + 3
    };
    let body = if tagged {
        rest.skip(4)
    } else {
        rest
    };
    assert(body =~= t.subrange(start, t.len() as int));
    lemma_found_in(body, "```"@, 0);
    let b = found(body, "```"@)->Some_0;
    assert(body.take(b) =~= t.subrange(start, start + b));
    assert(is_part(body.take(b), t));
    law_trimmed_is_part(body.take(b));
    lemma_part_of_part(trimmed(body.take(b)), body.take(b), t);
}

proof fn lemma_braced_is_part(t: Seq<char>)
    requires
        braced(t) is Some,
    ensures
        is_part(braced(t)->Some_0, t),
{
    lemma_found_in(t, "{"@, 0);
    lemma_last_place_in(t, '}');
    let a = found(t, "{"@)->Some_0;
    let b = last_place(t, '}')->Some_0;
    assert(is_part(t.subrange(a, b + 1), t));
}

/// A text that begins with an opening brace and ends with a closing one.
pub open spec fn is_object_text(j: Seq<char>) -> bool {
    j.len() > 0 && j[0] == '{' && j.last() == '}'
}

/// A text in a code fence that is marked as JSON.
pub open spec fn in_fence(j: Seq<char>) -> Seq<char> {
    "```json\n"@ + j + "\n```"@
}

/// An object alone is the first candidate of the reply, as it stands.
pub proof fn law_object_alone_is_first(j: Seq<char>)
    requires
        is_object_text(j),
    ensures
        candidates(j).len() > 0,
        candidates(j)[0] == j,
{
}

/// An object in a code fence is the last candidate of the reply, as it stands.
pub proof fn law_object_in_fence_is_last(j: Seq<char>)
    requires
        is_object_text(j),
    ensures
        candidates(in_fence(j)).last() == j,
{
    reveal_strlit("```json\n");
    reveal_strlit("\n```");
    reveal_strlit("{");
    let t = in_fence(j);
    let n = j.len() as int;
    assert(t[0] == '`' && t.last() == '`');
    assert(trimmed(t) == t);
    // the first opening brace
    assert(occurs_at(t, "{"@, 8)) by {
        assert(t.subrange(8, 9) =~= "{"@);
    }
    assert forall|i: int| 0 <= i < 8 implies !occurs_at(t, "{"@, i) by {
        assert(t.subrange(i, i + 1)[0] == t[i]);
        assert("{"@[0] == '{');
    }
    lemma_found_first(t, "{"@, 0, 8);
    // the last closing brace
    assert(t.len() == n + 12);
    assert(t[n + 7] == j.last());
    assert forall|i: int| n + 7 < i < t.len() implies t[i] != '}' by {
        assert(t[i] == "\n```"@[i - n - 8]);
    }
    lemma_last_place_is(t, '}', n + 7);
    assert(j.len() >= 2);
    assert(t.subrange(8, n + 8) =~= j);
}

proof fn lemma_found_first(s: Seq<char>, p: Seq<char>, i: int, k: int)
    requires
        0 <= i <= k <= s.len() - p.len(),
        occurs_at(s, p, k),
        forall|m: int| i <= m < k ==> !occurs_at(s, p, m),
    ensures
        found_from(s, p, i) == Some(k),
    decreases k - i,
{
    if i < k {
        lemma_found_first(s, p, i + 1, k);
    }
}

proof fn lemma_last_place_is(s: Seq<char>, c: char, k: int)
    requires
        0 <= k < s.len(),
        s[k] == c,
        forall|i: int| k < i < s.len() ==> s[i] != c,
    ensures
        last_place(s, c) == Some(k),
    decreases s.len(),
{
    if k < s.len() - 1 {
        lemma_last_place_is(s.drop_last(), c, k);
    }
}

/// Where one candidate reads as a narrative that has alerts, and no other candidate reads as one,
/// that narrative is the result, whatever the numbers are.
pub proof fn law_one_reading_decides(
    content: Seq<char>,
    readings: Seq<Option<ForecastNarrative>>,
    s: ForecastSummaryStats,
    j: Seq<char>,
    n: NarrativeModel,
)
    requires
        readings.len() == candidates(content).len(),
        candidates(content).contains(j),
        forall|i: int|
            0 <= i < readings.len() ==> if candidates(content)[i] == j {
                (#[trigger] readings[i]) matches Some(m) && m@ == n
            } else {
                readings[i] is None
            },
        n.risk_alerts.len() > 0,
    ensures
        narrative_in(content, readings, s) == n,
{
    let k = choose|k: int| 0 <= k < candidates(content).len() && candidates(content)[k] == j;
    assert(readings[k] is Some);
    lemma_some_reading(readings, n, k);
}

proof fn lemma_some_reading(readings: Seq<Option<ForecastNarrative>>, n: NarrativeModel, k: int)
    requires
        0 <= k < readings.len(),
        readings[k] is Some,
        forall|i: int|
            0 <= i < readings.len() ==> ((#[trigger] readings[i]) matches Some(m) ==> m@ == n),
    ensures
        first_reading(readings) == Some(n),
    decreases readings.len(),
{
    let t = readings.drop_last();
    assert forall|i: int| 0 <= i < t.len() implies ((#[trigger] t[i]) matches Some(m) ==> m@
        == n) by {
        assert(t[i] == readings[i]);
    }
    if k < t.len() {
        assert(t[k] == readings[k]);
        lemma_some_reading(t, n, k);
    } else {
        assert(readings.last() == readings[k]);
        if first_reading(t) is Some {
            lemma_reading_is_one(t, n);
        }
    }
}

proof fn lemma_reading_is_one(readings: Seq<Option<ForecastNarrative>>, n: NarrativeModel)
    requires
        forall|i: int|
            0 <= i < readings.len() ==> ((#[trigger] readings[i]) matches Some(m) ==> m@ == n),
    ensures
        first_reading(readings) matches Some(m) ==> m == n,
    decreases readings.len(),
{
    if readings.len() > 0 {
        let t = readings.drop_last();
        assert forall|i: int| 0 <= i < t.len() implies ((#[trigger] t[i]) matches Some(m) ==> m@
            == n) by {
            assert(t[i] == readings[i]);
        }
        lemma_reading_is_one(t, n);
        assert(readings[readings.len() - 1] == readings.last());
    }
}

/// A narrative in JSON notation, alone or in a code fence, comes back as it was written, whatever
/// the numbers are: where nothing but the object itself reads as a narrative, its reading is the
/// result.
pub proof fn law_narrative_comes_back(
    j: Seq<char>,
    fence: bool,
    readings: Seq<Option<ForecastNarrative>>,
    s: ForecastSummaryStats,
    n: NarrativeModel,
)
    requires
        is_object_text(j),
        n.risk_alerts.len() > 0,
        ({
            let content = if fence {
                in_fence(j)
            } else {
                j
            };
            readings.len() == candidates(content).len() && forall|i: int|
                0 <= i < readings.len() ==> if candidates(content)[i] == j {
                    (#[trigger] readings[i]) matches Some(m) && m@ == n
                } else {
                    readings[i] is None
                }
        }),
    ensures
        narrative_in(
            if fence {
                in_fence(j)
            } else {
                j
            },
            readings,
            s,
        ) == n,
{
    let content = if fence {
        in_fence(j)
    } else {
        j
    };
    law_object_alone_is_first(j);
    law_object_in_fence_is_last(j);
    if fence {
        assert(candidates(content)[candidates(content).len() - 1] == j);
    } else {
        assert(candidates(content)[0] == j);
    }
    assert(candidates(content).contains(j));
    law_one_reading_decides(content, readings, s, j, n);
}

proof fn lemma_observed_members(series: Seq<Single>, rows: Seq<Vec<Single>>, n: int, x: Single)
    requires
        0 <= n <= rows.len(),
    ensures
        observed(series, rows, n).contains(x) <==> (exists|h: int, k: int|
            0 <= h < n && 0 <= k < rows[h]@.len() && #[trigger] rows[h]@[k] == x) || (exists|h: int|
            0 <= h < n && h < series.len() && #[trigger] series[h] == x),
    decreases n,
{
    if n > 0 {
        lemma_observed_members(series, rows, n - 1, x);
        let before = observed(series, rows, n - 1);
        let row = rows[n - 1]@;
        let mid = before + row;
        let all = observed(series, rows, n);
        assert(mid.contains(x) <==> before.contains(x) || row.contains(x)) by {
            if mid.contains(x) {
                let i = choose|i: int| 0 <= i < mid.len() && mid[i] == x;
                if i < before.len() {
                    assert(before[i] == x);
                } else {
                    assert(row[i - before.len()] == x);
                }
            }
            if before.contains(x) {
                let i = choose|i: int| 0 <= i < before.len() && before[i] == x;
                assert(mid[i] == x);
            }
            if row.contains(x) {
                let i = choose|i: int| 0 <= i < row.len() && row[i] == x;
                assert(mid[before.len() + i] == x);
            }
        }
        if n - 1 < series.len() {
            assert(all == mid.push(series[n - 1]));
            assert(all.contains(x) <==> mid.contains(x) || series[n - 1] == x) by {
                if all.contains(x) {
                    let i = choose|i: int| 0 <= i < all.len() && all[i] == x;
                    assert(i < mid.len() ==> mid[i] == x);
                }
                if mid.contains(x) {
                    let i = choose|i: int| 0 <= i < mid.len() && mid[i] == x;
                    assert(all[i] == x);
                }
                assert(all[mid.len() as int] == series[n - 1]);
            }
        }
        if row.contains(x) {
            let i = choose|i: int| 0 <= i < row.len() && row[i] == x;
            assert(rows[n - 1]@[i] == x);
        }
        if exists|h: int, k: int| 0 <= h < n && 0 <= k < rows[h]@.len() && #[trigger] rows[h]@[k] == x {
            let (h, k) = choose|h: int, k: int|
                0 <= h < n && 0 <= k < rows[h]@.len() && #[trigger] rows[h]@[k] == x;
            if h == n - 1 {
                assert(row[k] == x);
            }
        }
    }
}

proof fn lemma_all_members(series: Seq<Single>, rows: Seq<Vec<Single>>, x: Single)
    ensures
        all_observed(series, rows).contains(x) <==> (exists|h: int, k: int|
            0 <= h < rows.len() && 0 <= k < rows[h]@.len() && #[trigger] rows[h]@[k] == x)
            || series.contains(x),
{
    let n = rows.len() as int;
    lemma_observed_members(series, rows, n, x);
    let before = observed(series, rows, n);
    let all = all_observed(series, rows);
    if all.contains(x) {
        let i = choose|i: int| 0 <= i < all.len() && all[i] == x;
        if i < before.len() {
            assert(before[i] == x);
        } else {
            assert(series[n + i - before.len()] == x);
        }
    }
    if before.contains(x) {
        let i = choose|i: int| 0 <= i < before.len() && before[i] == x;
        assert(all[i] == x);
    }
    if series.contains(x) {
        let h = choose|h: int| 0 <= h < series.len() && series[h] == x;
        if h >= n {
            assert(all[before.len() + h - n] == x);
        } else {
            assert(series[h] == x);
        }
    }
}

/// The numbers that sum up a forecast: it starts at the first and ends at the last point forecast of
/// the first variate, and every median and every quantile of it lies between the two bounds, which
/// are among them.
pub proof fn law_bounds_hold_everything(s: ForecastSummaryStats, f: ForecastOutput)
    requires
        has_series(f),
        are_stats(s, f),
        forall|h: int| 0 <= h < f.forecast@[0]@.len() ==> (#[trigger] f.forecast@[0]@[h]).is_finite(),
        has_quantiles(f) ==> forall|h: int, k: int|
            0 <= h < f.quantiles->Some_0@[0]@.len() && 0 <= k < f.quantiles->Some_0@[0]@[h]@.len()
                ==> (#[trigger] f.quantiles->Some_0@[0]@[h]@[k]).is_finite(),
    ensures
        s.starting_value == f.forecast@[0]@[0],
        s.final_median == f.forecast@[0]@[f.forecast@[0]@.len() - 1],
        forall|h: int|
            0 <= h < f.forecast@[0]@.len() ==> s.min_bound.le(#[trigger] f.forecast@[0]@[h])
                && f.forecast@[0]@[h].le(s.max_bound),
        f.quantiles is Some && f.quantiles->Some_0@.len() > 0 ==> forall|h: int, k: int|
            0 <= h < f.quantiles->Some_0@[0]@.len() && 0 <= k < f.quantiles->Some_0@[0]@[h]@.len()
                ==> s.min_bound.le(#[trigger] f.quantiles->Some_0@[0]@[h]@[k])
                && f.quantiles->Some_0@[0]@[h]@[k].le(s.max_bound),
        f.forecast@[0]@.contains(s.min_bound) || has_quantiles(f) && exists|h: int, k: int|
            0 <= h < f.quantiles->Some_0@[0]@.len() && 0 <= k < f.quantiles->Some_0@[0]@[h]@.len()
                && #[trigger] f.quantiles->Some_0@[0]@[h]@[k] == s.min_bound,
        f.forecast@[0]@.contains(s.max_bound) || has_quantiles(f) && exists|h: int, k: int|
            0 <= h < f.quantiles->Some_0@[0]@.len() && 0 <= k < f.quantiles->Some_0@[0]@[h]@.len()
                && #[trigger] f.quantiles->Some_0@[0]@[h]@[k] == s.max_bound,
{
    let series = f.forecast@[0]@;
    if has_quantiles(f) {
        let rows = f.quantiles->Some_0@[0]@;
        let all = all_observed(series, rows);
        assert forall|i: int| 0 <= i < all.len() implies (#[trigger] all[i]).is_finite() by {
            lemma_all_members(series, rows, all[i]);
            assert(all.contains(all[i]));
            if series.contains(all[i]) {
                let h = choose|h: int| 0 <= h < series.len() && series[h] == all[i];
                assert(series[h].is_finite());
            }
        }
        lemma_extremes(all);
        assert forall|h: int| 0 <= h < series.len() implies s.min_bound.le(#[trigger] series[h])
            && series[h].le(s.max_bound) by {
            lemma_all_members(series, rows, series[h]);
            assert(series.contains(series[h]));
            let i = choose|i: int| 0 <= i < all.len() && all[i] == series[h];
            assert(lowest(all).le(all[i]));
        }
        assert forall|h: int, k: int|
            0 <= h < rows.len() && 0 <= k < rows[h]@.len() implies s.min_bound.le(
            #[trigger] rows[h]@[k],
        ) && rows[h]@[k].le(s.max_bound) by {
            lemma_all_members(series, rows, rows[h]@[k]);
            let i = choose|i: int| 0 <= i < all.len() && all[i] == rows[h]@[k];
            assert(lowest(all).le(all[i]));
        }
        lemma_all_members(series, rows, series[0]);
        assert(series.contains(series[0]));
        assert(all.len() > 0);
        lemma_all_members(series, rows, s.min_bound);
        lemma_all_members(series, rows, s.max_bound);
    } else {
        lemma_extremes(series);
    }
}

/// The spread is the greatest width of a step: no step that has quantiles is wider, and some step is as
/// wide, unless it is zero. The width of a step is how far its ninth quantile, or its last where there
/// are fewer, lies from its first, either way.
pub proof fn law_spread_is_the_widest(s: ForecastSummaryStats, f: ForecastOutput)
    requires
        has_series(f),
        are_stats(s, f),
        has_quantiles(f),
        ({
            let rows = f.quantiles->Some_0@[0]@;
            forall|h: int|
                0 <= h < rows.len() && (#[trigger] rows[h])@.len() > 0 ==> (if rows[h]@.len() >= 9 {
                    rows[h]@[8]
                } else {
                    rows[h]@[rows[h]@.len() - 1]
                }).minus(rows[h]@[0]).is_finite()
        }),
    ensures
        ({
            let rows = f.quantiles->Some_0@[0]@;
            let width = |h: int|
                (if rows[h]@.len() >= 9 {
                    rows[h]@[8]
                } else {
                    rows[h]@[rows[h]@.len() - 1]
                }).minus(rows[h]@[0]).abs();
            &&& forall|h: int|
                0 <= h < rows.len() && (#[trigger] rows[h])@.len() > 0 ==> width(h).le(s.max_spread)
            &&& s.max_spread == Single::zero() || exists|h: int|
                0 <= h < rows.len() && (#[trigger] rows[h])@.len() > 0 && width(h) == s.max_spread
        }),
        f.quantiles->Some_0@[0]@.len() > 0,
{
    let rows = f.quantiles->Some_0@[0]@;
    let n = rows.len() as int;
    let w = widths(rows, n);
    assert forall|i: int| 0 <= i < w.len() implies (#[trigger] w[i]).is_finite() by {
        lemma_width_from(rows, n, i);
    }
    crate::decide::quantiles::lemma_highest_from_zero(w);
    assert forall|h: int| 0 <= h < rows.len() && (#[trigger] rows[h])@.len() > 0 implies upper(
        rows[h]@,
    ).minus(rows[h]@[0]).abs().le(s.max_spread) by {
        lemma_width_in(rows, n, h);
        let i = choose|i: int| 0 <= i < w.len() && w[i] == upper(rows[h]@).minus(rows[h]@[0]).abs();
        assert(w[i].le(s.max_spread));
    }
    if s.max_spread != Single::zero() {
        let i = choose|i: int| 0 <= i < w.len() && w[i] == s.max_spread;
        lemma_width_from(rows, n, i);
    }
}

proof fn lemma_width_in(rows: Seq<Vec<Single>>, n: int, h: int)
    requires
        0 <= h < n <= rows.len(),
        rows[h]@.len() > 0,
    ensures
        exists|i: int|
            0 <= i < widths(rows, n).len() && #[trigger] widths(rows, n)[i] == upper(
                rows[h]@,
            ).minus(rows[h]@[0]).abs(),
    decreases n,
{
    let x = upper(rows[h]@).minus(rows[h]@[0]).abs();
    if h == n - 1 {
        assert(widths(rows, n)[widths(rows, n - 1).len() as int] == x);
    } else {
        lemma_width_in(rows, n - 1, h);
        let i = choose|i: int|
            0 <= i < widths(rows, n - 1).len() && #[trigger] widths(rows, n - 1)[i] == x;
        assert(widths(rows, n)[i] == x);
    }
}

proof fn lemma_width_from(rows: Seq<Vec<Single>>, n: int, i: int)
    requires
        0 <= n <= rows.len(),
        0 <= i < widths(rows, n).len(),
    ensures
        exists|h: int|
            0 <= h < n && (#[trigger] rows[h])@.len() > 0 && widths(rows, n)[i] == upper(
                rows[h]@,
            ).minus(rows[h]@[0]).abs(),
    decreases n,
{
    if n > 0 {
        let before = widths(rows, n - 1);
        if i < before.len() {
            lemma_width_from(rows, n - 1, i);
            let h = choose|h: int|
                0 <= h < n - 1 && (#[trigger] rows[h])@.len() > 0 && before[i] == upper(
                    rows[h]@,
                ).minus(rows[h]@[0]).abs();
            assert(widths(rows, n)[i] == before[i]);
            assert(rows[h]@.len() > 0);
        } else {
            assert(rows[n - 1]@.len() > 0);
        }
    }
}

/// The drift is the way from the first to the last point forecast in percent of the first; from nearly
/// nothing it is a hundred percent up or down, and none to nearly nothing. Without quantiles there is
/// no spread.
pub proof fn law_drift_in_percent(s: ForecastSummaryStats, f: ForecastOutput)
    requires
        has_series(f),
        are_stats(s, f),
    ensures
        ({
            let a = f.forecast@[0]@[0];
            let b = f.forecast@[0]@[f.forecast@[0]@.len() - 1];
            let tiny = Single { bits: 0x3586_37bd };
            let hundred = Single { bits: 0x42c8_0000 };
            &&& tiny.lt(a.abs()) ==> s.net_drift_percent == b.minus(a).over(a).times(hundred)
            &&& !tiny.lt(a.abs()) && !tiny.lt(b.abs()) ==> s.net_drift_percent == Single { bits: 0 }
            &&& !tiny.lt(a.abs()) && tiny.lt(b.abs()) && Single { bits: 0 }.lt(b)
                ==> s.net_drift_percent == hundred
            &&& !tiny.lt(a.abs()) && tiny.lt(b.abs()) && !Single { bits: 0 }.lt(b)
                ==> s.net_drift_percent == hundred.negated()
        }),
        f.quantiles is None ==> s.max_spread == Single::zero(),
{
    assert(Single { bits: 0x42c8_0000 }.negated() == Single { bits: 0xc2c8_0000 });
}

/// What is said without the model's help rests on the numbers alone: a drift above one percent is an
/// upward trend, one below minus one percent a downward trend, and anything else is stable; a spread
/// above zero is told with the bounds.
pub proof fn law_synthesis_words(text: Seq<char>, s: ForecastSummaryStats)
    ensures
        ({
            let n = synthesis(text, s);
            let up = Single { bits: 0x3f80_0000 }.lt(s.net_drift_percent);
            let down = s.net_drift_percent.lt(Single { bits: 0x3f80_0000 }.negated());
            let drift = s.net_drift_percent.signed_fixed(2);
            let (a, b) = (s.starting_value.fixed(2), s.final_median.fixed(2));
            &&& up ==> n.trend_description == "Upward trend projected with an increase of "@ + drift
                + "% (starting at "@ + a + ", reaching "@ + b + ")."@
            &&& !up && down ==> n.trend_description
                == "Downward trend projected with a decline of "@ + drift + "% (starting at "@ + a
                + ", reaching "@ + b + ")."@
            &&& !up && !down ==> n.trend_description
                == "Relatively stable trend projected with negligible drift of "@ + drift
                + "% (starting at "@ + a + ", ending at "@ + b + ")."@
            &&& Single { bits: 0 }.lt(s.max_spread) ==> n.volatility_analysis
                == "Forecast uncertainty reflects a maximum p90-p10 spread of "@
                + s.max_spread.fixed(2) + ", with overall envelope bounded within ["@
                + s.min_bound.fixed(2) + ", "@ + s.max_bound.fixed(2) + "]."@
            &&& !Single { bits: 0 }.lt(s.max_spread) ==> n.volatility_analysis
                == "Low or deterministic volatility with bounds ["@ + s.min_bound.fixed(2) + ", "@
                + s.max_bound.fixed(2) + "]."@
            &&& text.len() == 0 ==> n.summary == "Forecast projects a net drift of "@ + drift
                + "% over the horizon, shifting from "@ + a + " to "@ + b + "."@
        }),
{
    assert(Single { bits: 0x3f80_0000 }.negated() == Single { bits: 0xbf80_0000 });
}

/// The alerts that the numbers give rise to: one for a drift beyond twenty percent either way, one for
/// a bound below zero of a forecast that does not start there, one for a spread of more than half of
/// what the forecast starts from, in this order, each exactly where it applies; the all-clear where
/// none does.
pub proof fn law_alerts_where_they_apply(text: Seq<char>, s: ForecastSummaryStats)
    ensures
        ({
            let far = Single { bits: 0x41a0_0000 }.lt(s.net_drift_percent.abs());
            let below = s.min_bound.lt(Single { bits: 0 }) && Single { bits: 0 }.le(
                s.starting_value,
            );
            let wide = s.starting_value.abs().times(Single { bits: 0x3f00_0000 }).lt(s.max_spread)
                && Single { bits: 0x38d1_b717 }.lt(s.starting_value.abs());
            let alerts = synthesis(text, s).risk_alerts;
            let first = if far {
                1int
            } else {
                0
            };
            let second = first + if below {
                1int
            } else {
                0
            };
            let third = second + if wide {
                1int
            } else {
                0
            };
            &&& alerts.len() == if third == 0 {
                1
            } else {
                third
            }
            &&& far ==> alerts[0] == "High drift magnitude: projected change of "@
                + s.net_drift_percent.signed_fixed(2)
                + "% exceeds standard volatility threshold."@
            &&& below ==> alerts[first]
                == "Prediction interval lower bound breaches zero into negative territory."@
            &&& wide ==> alerts[second] == "Elevated uncertainty: maximum spread ("@
                + s.max_spread.fixed(2) + ") exceeds 50% of base value ("@
                + s.starting_value.fixed(2) + ")."@
            &&& third == 0 ==> alerts[0]
                == "No significant drift or volatility anomalies detected."@
        }),
{
}

/// The prompt tells the numbers with four places, the drift with two and a sign, and the instruction
/// without the white space around it, where there is one that is not blank.
pub proof fn law_prompt_tells_the_numbers(s: ForecastSummaryStats, instruction: Option<Seq<char>>)
    ensures
        ({
            let start =
                "You are an expert time-series analyst. Analyze the following time-series forecast and provide a structured narrative summary.\n\nForecast Metrics:\n- Starting Value: "@
                + s.starting_value.fixed(4) + "\n- Final Median Forecast: "@
                + s.final_median.fixed(4) + "\n- Net Drift: "@ + s.net_drift_percent.signed_fixed(
                2,
            ) + "%\n- Maximum Uncertainty Spread (p90 - p10): "@ + s.max_spread.fixed(4)
                + "\n- Bounds: ["@ + s.min_bound.fixed(4) + ", "@ + s.max_bound.fixed(4) + "]\n"@;
            instructed_text(s, instruction) == if instruction is Some && trimmed(
                instruction->Some_0,
            ).len() > 0 {
                start + "\nInstruction:\n"@ + trimmed(instruction->Some_0) + "\n"@
            } else {
                start
            }
        }),
{
}

/// The first reading decides, whatever the later ones are, and gets the all-clear where it has no
/// alert.
pub proof fn law_first_reading_decides(
    content: Seq<char>,
    readings: Seq<Option<ForecastNarrative>>,
    s: ForecastSummaryStats,
    i: int,
)
    requires
        0 <= i < readings.len(),
        readings[i] is Some,
        forall|j: int| 0 <= j < i ==> (#[trigger] readings[j]) is None,
    ensures
        ({
            let n = readings[i]->Some_0@;
            let r = narrative_in(content, readings, s);
            &&& r.summary == n.summary
            &&& r.trend_description == n.trend_description
            &&& r.volatility_analysis == n.volatility_analysis
            &&& n.risk_alerts.len() > 0 ==> r.risk_alerts == n.risk_alerts
            &&& n.risk_alerts.len() == 0 ==> r.risk_alerts
                == seq!["No significant drift or volatility anomalies detected."@]
        }),
{
    assert forall|j: int| 0 <= j < i implies (#[trigger] readings.take(i)[j]) is None by {
        assert(readings[j] is None);
    }
    lemma_no_reading(readings.take(i));
    lemma_first_reading(readings, i);
}

/// What stands in a code fence: from the first three backticks, and the word `json` where it follows
/// them at once, up to the next three, without the white space around it; nothing where there are no
/// such backticks.
pub proof fn law_text_in_a_fence(t: Seq<char>, a: int, tagged: bool, b: int)
    requires
        0 <= a,
        a + 3 <= t.len(),
        t.subrange(a, a + 3) == "```"@,
        forall|j: int| 0 <= j < a ==> #[trigger] t.subrange(j, j + 3) != "```"@,
        tagged == (a + 7 <= t.len() && t.subrange(a + 3, a + 7) == "json"@),
        ({
            let start = if tagged {
                a + 7
            } else {
                a + 3
            };
            &&& start <= b <= t.len() - 3
            &&& t.subrange(b, b + 3) == "```"@
            &&& forall|j: int| start <= j < b ==> #[trigger] t.subrange(j, j + 3) != "```"@
        }),
    ensures
        fenced(t) == Some(
            trimmed(
                t.subrange(
                    if tagged {
                        a + 7
                    } else {
                        a + 3
                    },
                    b,
                ),
            ),
        ),
{
    reveal_strlit("```");
    reveal_strlit("json");
    assert forall|m: int| 0 <= m < a implies !occurs_at(t, "```"@, m) by {
        assert(t.subrange(m, m + 3) != "```"@);
    }
    lemma_found_first(t, "```"@, 0, a);
    let rest = t.skip(a + 3);
    if a + 7 <= t.len() {
        assert(rest.subrange(0, 4) =~= t.subrange(a + 3, a + 7));
    }
    assert(tagged == occurs_at(rest, "json"@, 0));
    let start = if tagged {
        a + 7
    } else {
        a + 3
    };
    let body = if tagged {
        rest.skip(4)
    } else {
        rest
    };
    assert(body =~= t.subrange(start, t.len() as int));
    assert(body.subrange(b - start, b - start + 3) =~= t.subrange(b, b + 3));
    assert forall|m: int| 0 <= m < b - start implies !occurs_at(body, "```"@, m) by {
        assert(body.subrange(m, m + 3) =~= t.subrange(start + m, start + m + 3));
        assert(t.subrange(start + m, start + m + 3) != "```"@);
    }
    lemma_found_first(body, "```"@, 0, b - start);
    assert(body.take(b - start) =~= t.subrange(start, b));
}

/// What stands in braces: from the first opening one to the last closing one, both with it; nothing
/// where the last closing one does not come behind the first opening one.
pub proof fn law_text_in_braces(t: Seq<char>, a: int, b: int)
    requires
        0 <= a < t.len(),
        0 <= b < t.len(),
        t[a] == '{',
        forall|j: int| 0 <= j < a ==> #[trigger] t[j] != '{',
        t[b] == '}',
        forall|j: int| b < j < t.len() ==> #[trigger] t[j] != '}',
    ensures
        a < b ==> braced(t) == Some(t.subrange(a, b + 1)),
        b < a ==> braced(t) is None,
{
    reveal_strlit("{");
    assert(t.subrange(a, a + 1) =~= "{"@);
    assert forall|m: int| 0 <= m < a implies !occurs_at(t, "{"@, m) by {
        assert(t.subrange(m, m + 1)[0] == t[m]);
        assert(t[m] != '{');
        assert("{"@[0] == '{');
    }
    lemma_found_first(t, "{"@, 0, a);
    lemma_last_place_is(t, '}', b);
}

/// The candidates of a reply, in the order in which they are tried: the trimmed reply, what stands in a
/// fence of it and what stands in braces of it, where there is such.
pub proof fn law_candidates_in_order(content: Seq<char>)
    ensures
        ({
            let t = trimmed(content);
            let (f, b) = (fenced(t), braced(t));
            let c = candidates(content);
            &&& c[0] == t
            &&& c.len() == 1 + (if f is Some {
                1int
            } else {
                0
            }) + (if b is Some {
                1int
            } else {
                0
            })
            &&& f is Some ==> c[1] == f->Some_0
            &&& b is Some ==> c[c.len() - 1] == b->Some_0
        }),
{
}

/// The summary is the first line of the model's text that is not blank, unless there is no text, or it
/// is that of the stand-in engine: then it tells the drift.
pub proof fn law_summary_line(text: Seq<char>, s: ForecastSummaryStats)
    ensures
        text.len() > 0 && found(text, "mock backend engine"@) is None && headline(text) is Some
            ==> synthesis(text, s).summary == headline(text)->Some_0,
        text.len() > 0 && found(text, "mock backend engine"@) is None && headline(text) is None
            ==> synthesis(text, s).summary == trimmed(text),
        text.len() == 0 || found(text, "mock backend engine"@) is Some ==> synthesis(
            text,
            s,
        ).summary == "Forecast projects a net drift of "@ + s.net_drift_percent.signed_fixed(2)
            + "% over the horizon, shifting from "@ + s.starting_value.fixed(2) + " to "@
            + s.final_median.fixed(2) + "."@,
{
}

/// What the language model is asked: the prompt as it is, as an analyst, at a temperature of one fifth,
/// for no more than 512 tokens.
pub proof fn law_request_settings(r: GenerateRequest, prompt: Seq<char>)
    requires
        is_narrative_request(r, prompt),
    ensures
        r.prompt@ == prompt,
        r.system_prompt is Some,
        r.temperature == Some(Double::from_bits(0x3fc9_9999_9999_999a)),
        r.max_tokens == Some(512usize),
        r.permissive,
        r.top_p is None,
        r.seed is None,
{
}

/// How the answer is to be given: as JSON with a summary, a description of the trend, an analysis of the
/// volatility and a list of alerts.
pub proof fn law_prompt_asks_for_json()
    ensures
        schema_text()
            == "\nRespond strictly in valid JSON matching this schema:\n```json\n{\n\"summary\": \"Executive summary of the forecast trajectory.\",\n\"trend_description\": \"Detailed description of direction and velocity.\",\n\"volatility_analysis\": \"Assessment of spread, uncertainty, and bounds.\",\n\"risk_alerts\": [\"Alert 1\", \"Alert 2\"]\n}\n```\n"@,
{
}

/// The bounds are the extremes of all medians and all quantiles of the first variate, whatever they are,
/// and the spread is the greatest of the widths of its steps and zero.
pub proof fn law_bounds_of_anything(s: ForecastSummaryStats, f: ForecastOutput)
    requires
        has_series(f),
        are_stats(s, f),
    ensures
        exists|all: Seq<Single>|
            {
                &&& s.min_bound == lowest(all)
                &&& s.max_bound == #[trigger] highest(all)
                &&& forall|x: Single| #[trigger]
                    all.contains(x) <==> f.forecast@[0]@.contains(x) || (f.quantiles is Some
                        && f.quantiles->Some_0@.len() > 0 && exists|h: int, k: int|
                        0 <= h < f.quantiles->Some_0@[0]@.len() && 0 <= k
                            < f.quantiles->Some_0@[0]@[h]@.len()
                            && #[trigger] f.quantiles->Some_0@[0]@[h]@[k] == x)
            },
        f.quantiles is None || f.quantiles->Some_0@.len() == 0 || f.quantiles->Some_0@[0]@.len() == 0
            ==> s.max_spread == Single::zero(),
{
    let series = f.forecast@[0]@;
    if has_quantiles(f) {
        let rows = f.quantiles->Some_0@[0]@;
        let all = all_observed(series, rows);
        assert forall|x: Single| #[trigger]
            all.contains(x) <==> series.contains(x) || (f.quantiles is Some
                && f.quantiles->Some_0@.len() > 0 && exists|h: int, k: int|
                0 <= h < f.quantiles->Some_0@[0]@.len() && 0 <= k
                    < f.quantiles->Some_0@[0]@[h]@.len()
                    && #[trigger] f.quantiles->Some_0@[0]@[h]@[k] == x) by {
            lemma_all_members(series, rows, x);
        }
        assert(s.max_bound == highest(all));
    } else {
        assert(s.max_bound == highest(series));
    }
}

/// One more row of quantiles: its width joins the widths, unless it has none.
pub proof fn law_widths_row_by_row(rows: Seq<Vec<Single>>, n: int)
    requires
        0 <= n < rows.len(),
    ensures
        widths(rows, 0).len() == 0,
        rows[n]@.len() == 0 ==> widths(rows, n + 1) == widths(rows, n),
        rows[n]@.len() > 0 ==> widths(rows, n + 1) == widths(rows, n).push(
            (if rows[n]@.len() >= 9 {
                rows[n]@[8]
            } else {
                rows[n]@[rows[n]@.len() - 1]
            }).minus(rows[n]@[0]).abs(),
        ),
{
}

} // verus!
