//! The question that a decision engine is asked about a forecast, and what is made of its answer.

use vstd::prelude::*;
use vstd::string::*;

use super::policy::{
    opens_object, resolve_policy, ForecastMetric, ForecastPolicy, PolicyModel, RuleModel,
};
use super::policy::is_resolution;
use super::policy::{
    alerting_model, all_pass, autoscaling_model, law_built_in_rules, law_rule_fires_on_end,
    passes_on_end, ComparisonOp,
};
use super::quantiles::{
    extract_quantiles, is_extract, law_tracks_follow_the_forecast, ExtractedQuantiles,
};
use crate::decimal::{digits, push_count};
use crate::error::TimesfmError;
use crate::forecaster::ForecastOutput;
use crate::ieee::scalar::{Double, Single};
use crate::text::{
    before, comes_before, lemma_before, optional, same_text, starts_with_char, trim, trimmed,
};

verus! {

/// One of the actions that may be chosen.
#[derive(Debug, Clone)]
pub struct OptionDef {
    pub id: String,
    pub description: String,
}

impl View for OptionDef {
    type V = (Seq<char>, Seq<char>);

    open spec fn view(&self) -> (Seq<char>, Seq<char>) {
        (self.id@, self.description@)
    }
}

/// How sure an answer has to be.
#[derive(Debug, Clone, Copy)]
pub struct AnswerPolicy {
    pub allow_abstain: bool,
    pub max_unavailable_probability: Double,
    pub min_top_probability: Double,
    pub max_slots: Option<usize>,
}

/// A choice among actions.
#[derive(Debug, Clone)]
pub struct ChoiceQuestion {
    pub instructions: String,
    pub options: Vec<OptionDef>,
    pub policy: AnswerPolicy,
}

/// A question to the engine.
#[derive(Debug, Clone)]
pub enum Question {
    Choice(ChoiceQuestion),
    /// A question that the caller spelled out in the engine's own JSON notation.
    Given(String),
}

/// What the engine is told about the forecast.
#[derive(Debug, Clone)]
pub enum ForecastState {
    Summary {
        summary: String,
        horizon: usize,
        mean_p50: Single,
        max_p90: Single,
        min_p10: Single,
        max_volatility: Single,
    },
    Assessment {
        assessment: String,
        horizon: usize,
        max_p90: Single,
        min_p10: Single,
        mean_p50: Single,
        max_volatility: Single,
        mean_volatility: Single,
        triggered_rule: Option<String>,
        recommended_action: String,
    },
}

/// Everything that the engine gets.
#[derive(Debug, Clone)]
pub struct ZevRequest {
    pub state: ForecastState,
    /// The questions, each under its name.
    pub questions: Vec<(String, Question)>,
    pub model: Option<String>,
    pub temperature: Option<Double>,
    pub enable_temporal_facts: bool,
}

/// What an answer decides: a text, or the JSON notation of another value.
#[derive(Debug, Clone)]
pub enum Decision {
    Text(String),
    Json(String),
}

/// What the engine answers to one question.
#[derive(Debug, Clone)]
pub struct ZevAnswer {
    pub decision: Option<Decision>,
    pub confidence: Double,
    pub status: String,
}

/// The action that a policy came to.
#[derive(Debug, Clone)]
pub struct PolicyDecision {
    pub action: String,
    pub triggered_rule: Option<String>,
    pub confidence: Double,
    pub rationale: String,
    pub zev_answer: Option<ZevAnswer>,
}

/// The track that a metric names.
pub open spec fn track(e: ExtractedQuantiles, metric: ForecastMetric) -> Seq<Single> {
    match metric {
        ForecastMetric::P10 => e.p10@,
        ForecastMetric::P50 => e.p50@,
        ForecastMetric::P90 => e.p90@,
        ForecastMetric::Volatility => e.volatility@,
        ForecastMetric::Mean => e.p50@,
    }
}

/// Whether a rule fires on the track that it looks at.
pub open spec fn rule_fires(r: RuleModel, e: ExtractedQuantiles) -> bool {
    r.rule.fires(track(e, r.rule.metric))
}

/// The first rule that fires.
pub open spec fn first_firing(rules: Seq<RuleModel>, e: ExtractedQuantiles) -> Option<RuleModel>
    decreases rules.len(),
{
    if rules.len() == 0 {
        None
    } else {
        match first_firing(rules.drop_last(), e) {
            Some(r) => Some(r),
            None => if rule_fires(rules.last(), e) {
                Some(rules.last())
            } else {
                None
            },
        }
    }
}

/// What an action is worth saying beyond its description.
pub open spec fn emphasis(action: Seq<char>) -> Seq<char> {
    if action == "scale_up"@ {
        "Strong affirmative evidence to scale up resources."@
    } else if action == "alert"@ {
        "Strong affirmative evidence to trigger an alert."@
    } else {
        ""@
    }
}

/// The forecast in a sentence, for a question that the caller spelled out.
pub open spec fn summary_text(e: ExtractedQuantiles) -> Seq<char> {
    "Forecast summary: horizon "@ + digits(e.horizon as nat) + " steps. Mean p50 is "@
        + e.mean_p50.fixed(2) + ", max p90 is "@ + e.max_p90.fixed(2) + ", min p10 is "@
        + e.min_p10.fixed(2) + ", max volatility is "@ + e.max_volatility.fixed(2) + "."@
}

/// The forecast as the first rule that fires on it sees it.
pub open spec fn alarm_text(e: ExtractedQuantiles, r: RuleModel) -> Seq<char> {
    "Forecast Quantile Assessment: Horizon is "@ + digits(e.horizon as nat)
        + " steps. P90 maximum reaches "@ + e.max_p90.fixed(2) + ", P50 median mean is "@
        + e.mean_p50.fixed(2) + ", volatility peak is "@ + e.max_volatility.fixed(2)
        + ". Condition met: rule '"@ + r.name + "' triggered. Recommended action: "@ + r.action
        + ". "@ + r.description + " "@ + emphasis(r.action)
}

/// The forecast where no rule fires.
pub open spec fn calm_text(e: ExtractedQuantiles, default_action: Seq<char>) -> Seq<char> {
    "Forecast Quantile Assessment: Horizon is "@ + digits(e.horizon as nat)
        + " steps. P90 maximum is "@ + e.max_p90.fixed(2) + ", P50 median mean is "@
        + e.mean_p50.fixed(2) + ", volatility is "@ + e.mean_volatility.fixed(2)
        + ". All forecast quantiles are within normal operational limits. No threshold alerts triggered. Recommended action: "@
        + default_action + ". Maintain normal operating capacity."@
}

/// What a policy offers, in the order in which it is written down: the action of each rule, then
/// the default action.
pub open spec fn offers(p: PolicyModel) -> Seq<(Seq<char>, Seq<char>)> {
    p.rules.map_values(|r: RuleModel| (r.action, r.description)).push(
        (
            p.default_action,
            "Maintain baseline operations (action: "@ + p.default_action + ")."@,
        ),
    )
}

/// The options are sorted by their name, strictly.
pub open spec fn in_order(options: Seq<(Seq<char>, Seq<char>)>) -> bool {
    forall|i: int, j: int|
        0 <= i < j < options.len() ==> before(#[trigger] options[i].0, #[trigger] options[j].0)
}

/// `k` is the first offer of its name.
pub open spec fn is_first_offer(list: Seq<(Seq<char>, Seq<char>)>, k: int) -> bool {
    0 <= k < list.len() && forall|j: int| 0 <= j < k ==> (#[trigger] list[j]).0 != list[k].0
}

/// The options are the first offers of each name, sorted by name.
pub open spec fn is_menu(
    options: Seq<(Seq<char>, Seq<char>)>,
    list: Seq<(Seq<char>, Seq<char>)>,
) -> bool {
    &&& in_order(options)
    &&& forall|o: (Seq<char>, Seq<char>)| #[trigger]
        options.contains(o) <==> exists|k: int|
            #[trigger] is_first_offer(list, k) && list[k] == o
}

pub open spec fn menu(options: Vec<OptionDef>) -> Seq<(Seq<char>, Seq<char>)> {
    options@.map_values(|o: OptionDef| o@)
}

/// One question by the name of `decision`, at temperature one.
pub open spec fn is_plain_request(r: ZevRequest) -> bool {
    &&& r.questions@.len() == 1
    &&& r.questions@[0].0@ == "decision"@
    &&& r.model is None
    &&& r.temperature == Some(Double { bits: 0x3ff0_0000_0000_0000 })
    &&& !r.enable_temporal_facts
}

/// The state for a question that the caller spelled out.
pub open spec fn is_summary(s: ForecastState, e: ExtractedQuantiles) -> bool {
    s matches ForecastState::Summary {
        summary,
        horizon,
        mean_p50,
        max_p90,
        min_p10,
        max_volatility,
    } && summary@ == summary_text(e) && horizon == e.horizon && mean_p50 == e.mean_p50 && max_p90
        == e.max_p90 && min_p10 == e.min_p10 && max_volatility == e.max_volatility
}

/// The state for a choice: what the first rule that fires recommends, or the default action.
pub open spec fn is_assessment(s: ForecastState, e: ExtractedQuantiles, p: PolicyModel) -> bool {
    let fired = first_firing(p.rules, e);
    s matches ForecastState::Assessment {
        assessment,
        horizon,
        max_p90,
        min_p10,
        mean_p50,
        max_volatility,
        mean_volatility,
        triggered_rule,
        recommended_action,
    } && horizon == e.horizon && mean_p50 == e.mean_p50 && max_p90 == e.max_p90 && min_p10
        == e.min_p10 && max_volatility == e.max_volatility && mean_volatility == e.mean_volatility
        && match fired {
        Some(rule) => {
            &&& assessment@ == alarm_text(e, rule)
            &&& optional(triggered_rule) == Some(rule.name)
            &&& recommended_action@ == rule.action
        },
        None => {
            &&& assessment@ == calm_text(e, p.default_action)
            &&& triggered_rule is None
            &&& recommended_action@ == p.default_action
        },
    }
}

/// The choice that a policy puts to the engine.
pub open spec fn is_choice(q: Question, p: PolicyModel) -> bool {
    q matches Question::Choice(c) && c.instructions@ == p.instructions && is_menu(
        menu(c.options),
        offers(p),
    ) && c.policy == (AnswerPolicy {
        allow_abstain: true,
        max_unavailable_probability: Double { bits: 0x3fe0_0000_0000_0000 },
        min_top_probability: Double::zero(),
        max_slots: None,
    })
}

/// The request that a policy makes of a forecast.
pub open spec fn is_choice_request(r: ZevRequest, e: ExtractedQuantiles, p: PolicyModel) -> bool {
    &&& is_plain_request(r)
    &&& is_assessment(r.state, e, p)
    &&& is_choice(r.questions@[0].1, p)
}

/// The request for a question that the caller spelled out.
pub open spec fn is_given_request(r: ZevRequest, e: ExtractedQuantiles, question: Seq<char>) -> bool {
    &&& is_plain_request(r)
    &&& is_summary(r.state, e)
    &&& r.questions@[0].1 matches Question::Given(q) && q@ == question
}

/// Adds an action to the options, unless it is there already.
fn offer(options: &mut Vec<OptionDef>, id: &str, description: &str, Ghost(list): Ghost<
    Seq<(Seq<char>, Seq<char>)>,
>)
    requires
        is_menu(menu(*old(options)), list),
    ensures
        is_menu(menu(*final(options)), list.push((id@, description@))),
{
    let ghost start = menu(*options);
    let ghost longer = list.push((id@, description@));
    let mut i: usize = 0;
    proof {
        assert forall|k: int| 0 <= k < list.len() implies is_first_offer(list, k)
            == #[trigger] is_first_offer(longer, k) by {
            if is_first_offer(list, k) {
                assert forall|j: int| 0 <= j < k implies (#[trigger] longer[j]).0
                    != longer[k].0 by {
                    assert(list[j].0 != list[k].0);
                }
            }
            if is_first_offer(longer, k) {
                assert forall|j: int| 0 <= j < k implies (#[trigger] list[j]).0 != list[k].0 by {
                    assert(longer[j].0 != longer[k].0);
                }
            }
        }
    }
    while i < options.len() && comes_before(&options[i].id, id)
        invariant
            i <= options@.len(),
            start == menu(*options),
            forall|j: int| 0 <= j < i ==> before(#[trigger] start[j].0, id@),
        decreases options@.len() - i,
    {
        assert(start[i as int].0 == options@[i as int].id@);
        i = i + 1;
    }
    if i < options.len() && same_text(&options[i].id, id) {
        proof {
            let o = start[i as int];
            assert(start.contains(o));
            let k = choose|k: int| #[trigger] is_first_offer(list, k) && list[k] == o;
            assert(!is_first_offer(longer, list.len() as int)) by {
                assert(longer[k].0 == longer[list.len() as int].0);
            }
            assert forall|o2: (Seq<char>, Seq<char>)| #[trigger]
                start.contains(o2) <==> exists|k: int|
                    #[trigger] is_first_offer(longer, k) && longer[k] == o2 by {
                if start.contains(o2) {
                    let k2 = choose|k2: int| #[trigger] is_first_offer(list, k2) && list[k2] == o2;
                    assert(is_first_offer(longer, k2) && longer[k2] == o2);
                }
                if exists|k: int| #[trigger] is_first_offer(longer, k) && longer[k] == o2 {
                    let k2 = choose|k2: int|
                        #[trigger] is_first_offer(longer, k2) && longer[k2] == o2;
                    assert(is_first_offer(list, k2) && list[k2] == o2);
                }
            }
        }
        return;
    }
    let item = OptionDef { id: id.to_owned(), description: description.to_owned() };
    let ghost new = (id@, description@);
    options.insert(i, item);
    proof {
        let after = menu(*options);
        assert(after =~= start.insert(i as int, new));
        // what lies behind the place comes after the new name
        assert forall|j: int| i <= j < start.len() implies before(id@, #[trigger] start[j].0) by {
            lemma_before(id@, start[i as int].0, start[j].0);
            if j > i {
                assert(before(start[i as int].0, start[j].0));
            }
        }
        assert(in_order(after)) by {
            assert forall|a: int, b: int| 0 <= a < b < after.len() implies before(
                #[trigger] after[a].0,
                #[trigger] after[b].0,
            ) by {
                if b < i {
                    assert(before(start[a].0, start[b].0));
                } else if b == i {
                    assert(before(start[a].0, id@));
                } else if a < i {
                    assert(before(start[a].0, start[b - 1].0));
                } else if a == i {
                    assert(before(id@, start[b - 1].0));
                } else {
                    assert(before(start[a - 1].0, start[b - 1].0));
                }
            }
        }
        // no option had the name
        assert forall|j: int| 0 <= j < start.len() implies (#[trigger] start[j]).0 != id@ by {
            lemma_before(id@, id@, id@);
            if j < i {
                assert(before(start[j].0, id@));
            } else {
                assert(before(id@, start[j].0));
            }
        }
        let n = list.len() as int;
        assert(is_first_offer(longer, n)) by {
            assert forall|j: int| 0 <= j < n implies (#[trigger] longer[j]).0 != longer[n].0 by {
                if list[j].0 == id@ {
                    lemma_first_offer(list, j);
                    let k = choose|k: int|
                        #[trigger] is_first_offer(list, k) && list[k].0 == list[j].0;
                    assert(start.contains(list[k]));
                    let m = choose|m: int| 0 <= m < start.len() && start[m] == list[k];
                    assert(start[m].0 == id@);
                }
            }
        }
        assert forall|o: (Seq<char>, Seq<char>)| #[trigger]
            after.contains(o) <==> exists|k: int|
                #[trigger] is_first_offer(longer, k) && longer[k] == o by {
            if after.contains(o) {
                let m = choose|m: int| 0 <= m < after.len() && after[m] == o;
                if m == i {
                    assert(is_first_offer(longer, n) && longer[n] == o);
                } else {
                    let m0 = if m < i {
                        m
                    } else {
                        m - 1
                    };
                    assert(start[m0] == o);
                    assert(start.contains(o));
                    let k = choose|k: int| #[trigger] is_first_offer(list, k) && list[k] == o;
                    assert(is_first_offer(longer, k) && longer[k] == o);
                }
            }
            if exists|k: int| #[trigger] is_first_offer(longer, k) && longer[k] == o {
                let k = choose|k: int| #[trigger] is_first_offer(longer, k) && longer[k] == o;
                if k == n {
                    assert(after[i as int] == o);
                } else {
                    assert(is_first_offer(list, k) && list[k] == o);
                    assert(start.contains(o));
                    let m = choose|m: int| 0 <= m < start.len() && start[m] == o;
                    if m < i {
                        assert(after[m] == o);
                    } else {
                        assert(after[m + 1] == o);
                    }
                }
            }
        }
    }
}

/// Every name that is offered has a first offer.
proof fn lemma_first_offer(list: Seq<(Seq<char>, Seq<char>)>, j: int)
    requires
        0 <= j < list.len(),
    ensures
        exists|k: int| #[trigger] is_first_offer(list, k) && k <= j && list[k].0 == list[j].0,
    decreases j,
{
    if !is_first_offer(list, j) {
        let i = choose|i: int| 0 <= i < j && (#[trigger] list[i]).0 == list[j].0;
        lemma_first_offer(list, i);
    } else {
        assert(is_first_offer(list, j));
    }
}

/// The options that a policy leaves to choose from.
fn options_of(policy: &ForecastPolicy) -> (r: Vec<OptionDef>)
    ensures
        is_menu(menu(r), offers(policy@)),
{
    let ghost list = offers(policy@);
    let ghost n = policy.rules@.len() as int;
    let mut options: Vec<OptionDef> = Vec::new();
    let mut i: usize = 0;
    assert(menu(options) =~= seq![]);
    assert(list.take(0) =~= seq![]);
    while i < policy.rules.len()
        invariant
            i <= policy.rules@.len() == n,
            list == offers(policy@),
            list.len() == n + 1,
            is_menu(menu(options), list.take(i as int)),
        decreases policy.rules@.len() - i,
    {
        let rule = &policy.rules[i];
        assert(list.take(i + 1) =~= list.take(i as int).push((rule.action@, rule.description@)));
        offer(&mut options, &rule.action, &rule.description, Ghost(list.take(i as int)));
        i = i + 1;
    }
    let mut baseline = "Maintain baseline operations (action: ".to_owned();
    baseline.append(&policy.default_action);
    baseline.append(").");
    assert(list =~= list.take(n).push((policy.default_action@, baseline@)));
    offer(&mut options, &policy.default_action, &baseline, Ghost(list.take(n)));
    options
}

/// Where the first rule that fires stands.
fn find_firing(policy: &ForecastPolicy, e: &ExtractedQuantiles) -> (r: Option<usize>)
    ensures
        match r {
            Some(i) => i < policy.rules@.len() && first_firing(policy@.rules, *e) == Some(
                policy.rules@[i as int]@,
            ),
            None => first_firing(policy@.rules, *e) is None,
        },
{
    let ghost rules = policy@.rules;
    let mut found: Option<usize> = None;
    let mut i: usize = 0;
    while i < policy.rules.len()
        invariant
            i <= policy.rules@.len() == rules.len(),
            rules == policy@.rules,
            match found {
                Some(k) => k < i && first_firing(rules.take(i as int), *e) == Some(
                    policy.rules@[k as int]@,
                ),
                None => first_firing(rules.take(i as int), *e) is None,
            },
        decreases policy.rules@.len() - i,
    {
        let rule = &policy.rules[i].rule;
        let fired = match rule.metric {
            ForecastMetric::P10 => rule.evaluate(&e.p10),
            ForecastMetric::P50 => rule.evaluate(&e.p50),
            ForecastMetric::P90 => rule.evaluate(&e.p90),
            ForecastMetric::Volatility => rule.evaluate(&e.volatility),
            ForecastMetric::Mean => rule.evaluate(&e.p50),
        };
        assert(rules.take(i + 1).drop_last() =~= rules.take(i as int));
        assert(rules.take(i + 1).last() == policy.rules@[i as int]@);
        if fired && found.is_none() {
            found = Some(i);
        }
        i = i + 1;
    }
    assert(rules.take(i as int) =~= rules);
    found
}

/// The request that a policy makes of a forecast.
pub fn choice_request(extracted: &ExtractedQuantiles, policy: &ForecastPolicy) -> (r: ZevRequest)
    ensures
        is_choice_request(r, *extracted, policy@),
{
    let options = options_of(policy);
    let (assessment, triggered_rule, recommended_action) = match find_firing(policy, extracted) {
        Some(i) => {
            let rule = &policy.rules[i];
            let mut t = "Forecast Quantile Assessment: Horizon is ".to_owned();
            push_count(&mut t, extracted.horizon);
            t.append(" steps. P90 maximum reaches ");
            extracted.max_p90.push_fixed(&mut t, 2);
            t.append(", P50 median mean is ");
            extracted.mean_p50.push_fixed(&mut t, 2);
            t.append(", volatility peak is ");
            extracted.max_volatility.push_fixed(&mut t, 2);
            t.append(". Condition met: rule '");
            t.append(&rule.name);
            t.append("' triggered. Recommended action: ");
            t.append(&rule.action);
            t.append(". ");
            t.append(&rule.description);
            t.append(" ");
            if same_text(&rule.action, "scale_up") {
                t.append("Strong affirmative evidence to scale up resources.");
            } else if same_text(&rule.action, "alert") {
                t.append("Strong affirmative evidence to trigger an alert.");
            } else {
                t.append("");
            }
            (t, Some(rule.name.clone()), rule.action.clone())
        },
        None => {
            let mut t = "Forecast Quantile Assessment: Horizon is ".to_owned();
            push_count(&mut t, extracted.horizon);
            t.append(" steps. P90 maximum is ");
            extracted.max_p90.push_fixed(&mut t, 2);
            t.append(", P50 median mean is ");
            extracted.mean_p50.push_fixed(&mut t, 2);
            t.append(", volatility is ");
            extracted.mean_volatility.push_fixed(&mut t, 2);
            t.append(
                ". All forecast quantiles are within normal operational limits. No threshold alerts triggered. Recommended action: ",
            );
            t.append(&policy.default_action);
            t.append(". Maintain normal operating capacity.");
            (t, None, policy.default_action.clone())
        },
    };
    let question = Question::Choice(
        ChoiceQuestion {
            instructions: policy.instructions.clone(),
            options,
            policy: AnswerPolicy {
                allow_abstain: true,
                max_unavailable_probability: Double::from_bits(0x3fe0_0000_0000_0000),
                min_top_probability: Double::zero(),
                max_slots: None,
            },
        },
    );
    let state = ForecastState::Assessment {
        assessment,
        horizon: extracted.horizon,
        max_p90: extracted.max_p90,
        min_p10: extracted.min_p10,
        mean_p50: extracted.mean_p50,
        max_volatility: extracted.max_volatility,
        mean_volatility: extracted.mean_volatility,
        triggered_rule,
        recommended_action,
    };
    plain_request(state, question)
}

fn plain_request(state: ForecastState, question: Question) -> (r: ZevRequest)
    ensures
        is_plain_request(r),
        r.state == state,
        r.questions@[0].1 == question,
{
    let mut questions: Vec<(String, Question)> = Vec::new();
    questions.push(("decision".to_owned(), question));
    ZevRequest {
        state,
        questions,
        model: None,
        temperature: Some(Double::from_bits(0x3ff0_0000_0000_0000)),
        enable_temporal_facts: false,
    }
}

fn given_request(extracted: &ExtractedQuantiles, question: String) -> (r: ZevRequest)
    ensures
        is_given_request(r, *extracted, question@),
{
    let mut t = "Forecast summary: horizon ".to_owned();
    push_count(&mut t, extracted.horizon);
    t.append(" steps. Mean p50 is ");
    extracted.mean_p50.push_fixed(&mut t, 2);
    t.append(", max p90 is ");
    extracted.max_p90.push_fixed(&mut t, 2);
    t.append(", min p10 is ");
    extracted.min_p10.push_fixed(&mut t, 2);
    t.append(", max volatility is ");
    extracted.max_volatility.push_fixed(&mut t, 2);
    t.append(".");
    let state = ForecastState::Summary {
        summary: t,
        horizon: extracted.horizon,
        mean_p50: extracted.mean_p50,
        max_p90: extracted.max_p90,
        min_p10: extracted.min_p10,
        max_volatility: extracted.max_volatility,
    };
    plain_request(state, Question::Given(question))
}

/// What the engine is asked about the first variate of a forecast. A schema that is an object and
/// reads as a question of the engine (`reads_as_question`) is put to it as it stands; any other
/// schema names a policy (`parsed` is what it reads as, where it reads as one).
pub fn policy_request(
    forecast: &ForecastOutput,
    schema: &str,
    reads_as_question: bool,
    parsed: Option<ForecastPolicy>,
) -> (r: Result<ZevRequest, TimesfmError>)
    ensures
        exists|e: ExtractedQuantiles| #[trigger]
            is_extract(e, *forecast, 0) && if opens_object(trimmed(schema@)) && reads_as_question {
                r is Ok && is_given_request(r->Ok_0, e, trimmed(schema@))
            } else {
                exists|policy: Result<ForecastPolicy, TimesfmError>| #[trigger]
                    is_resolution(policy, schema@, parsed) && match policy {
                        Ok(p) => r is Ok && is_choice_request(r->Ok_0, e, p@),
                        Err(x) => r == Err::<ZevRequest, TimesfmError>(x),
                    }
            },
{
    let extracted = extract_quantiles(forecast, 0);
    let s = trim(schema);
    if starts_with_char(&s, '{') && reads_as_question {
        return Ok(given_request(&extracted, s));
    }
    let resolved = resolve_policy(schema, parsed);
    let ghost found = resolved;
    match resolved {
        Ok(policy) => {
            let r = Ok(choice_request(&extracted, &policy));
            assert(is_resolution(found, schema@, parsed));
            r
        },
        Err(x) => {
            assert(is_resolution(found, schema@, parsed));
            Err(x)
        },
    }
}

/// The first of the engine's answers.
pub fn policy_answer(answers: Vec<ZevAnswer>) -> (r: Result<ZevAnswer, TimesfmError>)
    ensures
        answers@.len() > 0 ==> r == Ok::<ZevAnswer, TimesfmError>(answers@[0]),
        answers@.len() == 0 ==> (r matches Err(TimesfmError::Inference(m)) && m@
            == "ZevEngine returned no answers"@),
{
    let mut answers = answers;
    if answers.len() > 0 {
        Ok(answers.remove(0))
    } else {
        Err(TimesfmError::Inference("ZevEngine returned no answers".to_owned()))
    }
}

/// The action that an answer decides on, or the default action.
pub open spec fn chosen_action(answer: ZevAnswer, default_action: Seq<char>) -> Seq<char> {
    match answer.decision {
        Some(Decision::Text(s)) => s@,
        Some(Decision::Json(s)) => s@,
        None => default_action,
    }
}

/// The decision that an answer comes to under a policy.
pub fn policy_decision(policy: &ForecastPolicy, answer: ZevAnswer) -> (r: PolicyDecision)
    ensures
        r.action@ == chosen_action(answer, policy.default_action@),
        r.triggered_rule is None,
        r.confidence == answer.confidence,
        r.rationale@ == "Zev decision selected '"@ + chosen_action(answer, policy.default_action@)
            + "' with confidence "@ + answer.confidence.fixed(2) + " (status: "@ + answer.status@
            + ")"@,
        r.zev_answer == Some(answer),
{
    let action = match &answer.decision {
        Some(Decision::Text(s)) => s.clone(),
        Some(Decision::Json(s)) => s.clone(),
        None => policy.default_action.clone(),
    };
    let mut rationale = "Zev decision selected '".to_owned();
    rationale.append(&action);
    rationale.append("' with confidence ");
    answer.confidence.push_fixed(&mut rationale, 2);
    rationale.append(" (status: ");
    rationale.append(&answer.status);
    rationale.append(")");
    PolicyDecision {
        action,
        triggered_rule: None,
        confidence: answer.confidence,
        rationale,
        zev_answer: Some(answer),
    }
}

/// The rule that decides is the first in the policy's order that fires; where none fires there is
/// none.
pub proof fn law_first_rule_decides(rules: Seq<RuleModel>, e: ExtractedQuantiles)
    ensures
        first_firing(rules, e) is None <==> forall|i: int|
            0 <= i < rules.len() ==> !rule_fires(#[trigger] rules[i], e),
        first_firing(rules, e) matches Some(r) ==> exists|i: int|
            0 <= i < rules.len() && #[trigger] rules[i] == r && rule_fires(r, e) && forall|j: int|
                0 <= j < i ==> !rule_fires(#[trigger] rules[j], e),
    decreases rules.len(),
{
    if rules.len() > 0 {
        let shorter = rules.drop_last();
        law_first_rule_decides(shorter, e);
        let n = rules.len() - 1;
        match first_firing(shorter, e) {
            Some(r) => {
                let i = choose|i: int|
                    0 <= i < shorter.len() && #[trigger] shorter[i] == r && rule_fires(r, e)
                        && forall|j: int| 0 <= j < i ==> !rule_fires(#[trigger] shorter[j], e);
                assert(rules[i] == r);
                assert forall|j: int| 0 <= j < i implies !rule_fires(#[trigger] rules[j], e) by {
                    assert(shorter[j] == rules[j]);
                }
            },
            None => {
                assert forall|j: int| 0 <= j < n implies !rule_fires(#[trigger] rules[j], e) by {
                    assert(shorter[j] == rules[j]);
                }
                assert(rules[n] == rules.last());
            },
        }
    }
}

/// Every action of the policy, the default action among them, is offered exactly once.
pub proof fn law_actions_offered_once(options: Seq<(Seq<char>, Seq<char>)>, p: PolicyModel)
    requires
        is_menu(options, offers(p)),
    ensures
        forall|i: int, j: int|
            0 <= i < options.len() && 0 <= j < options.len() && (#[trigger] options[i]).0 == (
            #[trigger] options[j]).0 ==> i == j,
        exists|i: int| 0 <= i < options.len() && (#[trigger] options[i]).0 == p.default_action,
        forall|k: int|
            0 <= k < p.rules.len() ==> exists|i: int|
                0 <= i < options.len() && (#[trigger] options[i]).0 == (
                #[trigger] p.rules[k]).action,
{
    let list = offers(p);
    assert forall|i: int, j: int|
        0 <= i < options.len() && 0 <= j < options.len() && (#[trigger] options[i]).0 == (
        #[trigger] options[j]).0 implies i == j by {
        lemma_before(options[i].0, options[i].0, options[i].0);
        if i < j {
            assert(before(options[i].0, options[j].0));
        } else if j < i {
            assert(before(options[j].0, options[i].0));
        }
    }
    let n = p.rules.len() as int;
    assert(list[n].0 == p.default_action);
    lemma_offered(options, list, n);
    assert forall|k: int| 0 <= k < p.rules.len() implies exists|i: int|
        0 <= i < options.len() && (#[trigger] options[i]).0 == (#[trigger] p.rules[k]).action by {
        assert(list[k].0 == p.rules[k].action);
        lemma_offered(options, list, k);
    }
}

proof fn lemma_offered(
    options: Seq<(Seq<char>, Seq<char>)>,
    list: Seq<(Seq<char>, Seq<char>)>,
    k: int,
)
    requires
        is_menu(options, list),
        0 <= k < list.len(),
    ensures
        exists|i: int| 0 <= i < options.len() && (#[trigger] options[i]).0 == list[k].0,
{
    lemma_first_offer(list, k);
    let j = choose|j: int| #[trigger] is_first_offer(list, j) && j <= k && list[j].0 == list[k].0;
    assert(options.contains(list[j]));
    let i = choose|i: int| 0 <= i < options.len() && options[i] == list[j];
    assert(options[i].0 == list[k].0);
}

/// The action that the state recommends is always one of the options of the question.
pub proof fn law_recommended_action_is_offered(
    r: ZevRequest,
    e: ExtractedQuantiles,
    p: PolicyModel,
)
    requires
        is_choice_request(r, e, p),
    ensures
        exists|i: int|
            0 <= i < r.questions@[0].1->Choice_0.options@.len()
                && (#[trigger] r.questions@[0].1->Choice_0.options@[i]).id@
                == r.state->recommended_action@,
{
    let options = r.questions@[0].1->Choice_0.options;
    law_actions_offered_once(menu(options), p);
    law_first_rule_decides(p.rules, e);
    match first_firing(p.rules, e) {
        Some(rule) => {
            let k = choose|k: int| 0 <= k < p.rules.len() && #[trigger] p.rules[k] == rule;
            let i = choose|i: int|
                0 <= i < menu(options).len() && (#[trigger] menu(options)[i]).0 == p.rules[k].action;
            assert(options@[i].id@ == rule.action);
        },
        None => {
            let i = choose|i: int|
                0 <= i < menu(options).len() && (#[trigger] menu(options)[i]).0 == p.default_action;
            assert(options@[i].id@ == p.default_action);
        },
    }
}

/// What a rule on a metric looks at, read off the first variate of a forecast that has a row of
/// quantiles for each step: the point forecast, the first or the last quantile of each row, or the
/// last less the first, zero where that is negative.
pub open spec fn seen_steps(f: ForecastOutput, metric: ForecastMetric) -> Seq<Single> {
    let rows = f.quantiles->Some_0@[0]@;
    match metric {
        ForecastMetric::P50 => f.forecast@[0]@,
        ForecastMetric::Mean => f.forecast@[0]@,
        ForecastMetric::P10 => Seq::new(rows.len(), |h: int| rows[h]@[0]),
        ForecastMetric::P90 => Seq::new(rows.len(), |h: int| rows[h]@[rows[h]@.len() - 1]),
        ForecastMetric::Volatility => Seq::new(
            rows.len(),
            |h: int|
                {
                    let width = rows[h]@[rows[h]@.len() - 1].minus(rows[h]@[0]);
                    if width.is_nan() || width.lt(Single { bits: 0 }) {
                        Single { bits: 0 }
                    } else {
                        width
                    }
                },
        ),
    }
}

/// The first variate has a point forecast, and a row of quantiles for each of its steps.
pub open spec fn has_rows(f: ForecastOutput) -> bool {
    &&& f.forecast@.len() > 0
    &&& f.quantiles is Some
    &&& f.quantiles->Some_0@.len() > 0
    &&& f.quantiles->Some_0@[0]@.len() == f.forecast@[0]@.len()
    &&& forall|h: int|
        0 <= h < f.quantiles->Some_0@[0]@.len() ==> (
        #[trigger] f.quantiles->Some_0@[0]@[h])@.len() > 0
}

/// A rule calls for its action: what it looks at passes its threshold at its number of steps on end.
pub open spec fn calls_for_action(r: RuleModel, f: ForecastOutput) -> bool {
    passes_on_end(
        seen_steps(f, r.rule.metric),
        r.rule.consecutive_steps,
        r.rule.comparison,
        r.rule.threshold,
    )
}

/// A rule looks at the forecast that it names: a rule on `p50`, or on the mean, at the point forecast,
/// whatever the quantiles are; one on `p10` at the first quantile of each step, one on `p90` at the
/// last, one on the volatility at the width between them.
pub proof fn law_rule_looks_at_its_metric(r: RuleModel, e: ExtractedQuantiles, f: ForecastOutput)
    requires
        is_extract(e, f, 0),
        has_rows(f) || f.forecast@.len() > 0 && (r.rule.metric == ForecastMetric::P50
            || r.rule.metric == ForecastMetric::Mean),
    ensures
        rule_fires(r, e) <==> calls_for_action(r, f),
{
    let n = f.forecast@[0]@.len() as int;
    let steps = seen_steps(f, r.rule.metric);
    let t = track(e, r.rule.metric);
    if n > 0 {
        law_tracks_follow_the_forecast(e, f, 0, 0);
    }
    assert(t.len() == steps.len());
    assert forall|h: int| 0 <= h < t.len() implies t[h] == steps[h] by {
        law_tracks_follow_the_forecast(e, f, 0, h);
        if has_rows(f) {
            assert(f.quantiles->Some_0@[0]@[h]@.len() > 0);
        }
    }
    assert(t =~= steps);
    law_rule_fires_on_end(r.rule, steps);
}

/// Forecasts with the same point forecast agree on every rule on `p50` and on the mean, whatever
/// their quantiles are.
pub proof fn law_median_rules_ignore_quantiles(
    r: RuleModel,
    e: ExtractedQuantiles,
    other: ExtractedQuantiles,
    f: ForecastOutput,
    g: ForecastOutput,
)
    requires
        is_extract(e, f, 0),
        is_extract(other, g, 0),
        f.forecast@.len() > 0 && g.forecast@.len() > 0,
        f.forecast@[0]@ == g.forecast@[0]@,
        r.rule.metric == ForecastMetric::P50 || r.rule.metric == ForecastMetric::Mean,
    ensures
        rule_fires(r, e) == rule_fires(r, other),
{
    law_rule_looks_at_its_metric(r, e, f);
    law_rule_looks_at_its_metric(r, other, g);
}

/// The request recommends the action of the first rule, in the policy's order, that the forecast
/// calls for, and names that rule; where it calls for none, the default action and no rule.
pub proof fn law_request_recommends(
    r: ZevRequest,
    e: ExtractedQuantiles,
    f: ForecastOutput,
    p: PolicyModel,
)
    requires
        is_choice_request(r, e, p),
        is_extract(e, f, 0),
        has_rows(f),
    ensures
        r.state is Assessment,
        r.questions@.len() == 1,
        r.questions@[0].0@ == "decision"@,
        r.questions@[0].1 is Choice,
        r.questions@[0].1->Choice_0.instructions@ == p.instructions,
        forall|i: int|
            0 <= i < p.rules.len() && calls_for_action(#[trigger] p.rules[i], f) && (forall|j: int|
                0 <= j < i ==> !calls_for_action(#[trigger] p.rules[j], f))
                ==> r.state->recommended_action@ == p.rules[i].action && optional(
                r.state->triggered_rule,
            ) == Some(p.rules[i].name),
        (forall|i: int| 0 <= i < p.rules.len() ==> !calls_for_action(#[trigger] p.rules[i], f))
            ==> r.state->recommended_action@ == p.default_action
            && r.state->triggered_rule is None,
{
    law_first_rule_decides(p.rules, e);
    assert forall|i: int| 0 <= i < p.rules.len() implies rule_fires(#[trigger] p.rules[i], e)
        == calls_for_action(p.rules[i], f) by {
        law_rule_looks_at_its_metric(p.rules[i], e, f);
    }
    assert forall|i: int|
        0 <= i < p.rules.len() && calls_for_action(#[trigger] p.rules[i], f) && (forall|j: int|
            0 <= j < i ==> !calls_for_action(#[trigger] p.rules[j], f)) implies first_firing(
        p.rules,
        e,
    ) == Some(p.rules[i]) by {
        let first = first_firing(p.rules, e);
        assert(rule_fires(p.rules[i], e));
        assert(first is Some);
        let k = choose|k: int|
            0 <= k < p.rules.len() && #[trigger] p.rules[k] == first->Some_0 && rule_fires(
                first->Some_0,
                e,
            ) && forall|j: int| 0 <= j < k ==> !rule_fires(#[trigger] p.rules[j], e);
        if k < i {
            assert(!calls_for_action(p.rules[k], f));
        } else if i < k {
            assert(!rule_fires(p.rules[i], e));
        }
    }
}

/// The scaling policy recommends to scale up exactly where the last quantile of each step lies above
/// the first threshold for the number of steps on end, to alert exactly where it does not and at some
/// step the last quantile lies further above the first than the second threshold, and to maintain
/// otherwise.
pub proof fn law_scaling_policy(
    r: ZevRequest,
    e: ExtractedQuantiles,
    f: ForecastOutput,
    p90_threshold: Single,
    consecutive_steps: usize,
    volatility_threshold: Single,
)
    requires
        is_choice_request(
            r,
            e,
            autoscaling_model(p90_threshold, consecutive_steps, volatility_threshold),
        ),
        is_extract(e, f, 0),
        has_rows(f),
    ensures
        ({
            let rows = f.quantiles->Some_0@[0]@;
            let high = Seq::new(rows.len(), |h: int| rows[h]@[rows[h]@.len() - 1]);
            let wide = exists|h: int|
                0 <= h < rows.len() && volatility_threshold.lt(
                    #[trigger] seen_steps(f, ForecastMetric::Volatility)[h],
                );
            r.state->recommended_action@ == if passes_on_end(
                high,
                consecutive_steps,
                ComparisonOp::GreaterThan,
                p90_threshold,
            ) {
                "scale_up"@
            } else if wide {
                "alert"@
            } else {
                "maintain"@
            }
        }),
{
    let p = autoscaling_model(p90_threshold, consecutive_steps, volatility_threshold);
    law_built_in_rules(p90_threshold, consecutive_steps, volatility_threshold);
    law_request_recommends(r, e, f, p);
    let rows = f.quantiles->Some_0@[0]@;
    let high = Seq::new(rows.len(), |h: int| rows[h]@[rows[h]@.len() - 1]);
    assert(high =~= seen_steps(f, ForecastMetric::P90));
    lemma_one_step(seen_steps(f, ForecastMetric::Volatility), volatility_threshold);
    assert(calls_for_action(p.rules[0], f) == passes_on_end(
        high,
        consecutive_steps,
        ComparisonOp::GreaterThan,
        p90_threshold,
    )) by {
        lemma_at_least_one(high, consecutive_steps, ComparisonOp::GreaterThan, p90_threshold);
    }
}

/// The alerting policy recommends an alert exactly where at some step the last quantile lies above the
/// first threshold, or further above the first quantile than the second one, and normal otherwise.
pub proof fn law_alerting_policy(
    r: ZevRequest,
    e: ExtractedQuantiles,
    f: ForecastOutput,
    p90_threshold: Single,
    volatility_threshold: Single,
)
    requires
        is_choice_request(r, e, alerting_model(p90_threshold, volatility_threshold)),
        is_extract(e, f, 0),
        has_rows(f),
    ensures
        ({
            let rows = f.quantiles->Some_0@[0]@;
            let above = exists|h: int|
                0 <= h < rows.len() && p90_threshold.lt(
                    #[trigger] rows[h]@[rows[h]@.len() - 1],
                );
            let wide = exists|h: int|
                0 <= h < rows.len() && volatility_threshold.lt(
                    #[trigger] seen_steps(f, ForecastMetric::Volatility)[h],
                );
            r.state->recommended_action@ == if above || wide {
                "alert"@
            } else {
                "normal"@
            }
        }),
{
    let p = alerting_model(p90_threshold, volatility_threshold);
    law_built_in_rules(p90_threshold, 1, volatility_threshold);
    law_request_recommends(r, e, f, p);
    let rows = f.quantiles->Some_0@[0]@;
    let high = seen_steps(f, ForecastMetric::P90);
    lemma_one_step(high, p90_threshold);
    lemma_one_step(seen_steps(f, ForecastMetric::Volatility), volatility_threshold);
    if exists|h: int| 0 <= h < high.len() && p90_threshold.lt(#[trigger] high[h]) {
        let h = choose|h: int| 0 <= h < high.len() && p90_threshold.lt(#[trigger] high[h]);
        assert(p90_threshold.lt(rows[h]@[rows[h]@.len() - 1]));
    }
    if exists|h: int|
        0 <= h < rows.len() && p90_threshold.lt(#[trigger] rows[h]@[rows[h]@.len() - 1]) {
        let h = choose|h: int|
            0 <= h < rows.len() && p90_threshold.lt(#[trigger] rows[h]@[rows[h]@.len() - 1]);
        assert(p90_threshold.lt(high[h]));
    }
}

proof fn lemma_at_least_one(steps: Seq<Single>, n: usize, op: ComparisonOp, threshold: Single)
    ensures
        passes_on_end(
            steps,
            if n == 0 {
                1
            } else {
                n
            },
            op,
            threshold,
        ) == passes_on_end(steps, n, op, threshold),
{
}

proof fn lemma_one_step(steps: Seq<Single>, threshold: Single)
    ensures
        passes_on_end(steps, 1, ComparisonOp::GreaterThan, threshold) <==> exists|h: int|
            0 <= h < steps.len() && threshold.lt(#[trigger] steps[h]),
{
    if passes_on_end(steps, 1, ComparisonOp::GreaterThan, threshold) {
        let from = choose|from: int|
            0 <= from && from + 1 <= steps.len() && #[trigger] all_pass(
                steps,
                from,
                1,
                ComparisonOp::GreaterThan,
                threshold,
            );
        assert(threshold.lt(steps[from]));
    }
    if exists|h: int| 0 <= h < steps.len() && threshold.lt(#[trigger] steps[h]) {
        let h = choose|h: int| 0 <= h < steps.len() && threshold.lt(#[trigger] steps[h]);
        assert(all_pass(steps, h, 1, ComparisonOp::GreaterThan, threshold));
    }
}

/// What the engine is told of the forecast is what was read off it, number by number, and the sentence
/// says the same numbers with two places.
pub proof fn law_state_tells_the_numbers(r: ZevRequest, e: ExtractedQuantiles, p: PolicyModel)
    requires
        is_choice_request(r, e, p),
    ensures
        r.state matches ForecastState::Assessment {
            assessment,
            horizon,
            max_p90,
            min_p10,
            mean_p50,
            max_volatility,
            mean_volatility,
            triggered_rule,
            recommended_action,
        } && horizon == e.horizon && mean_p50 == e.mean_p50 && max_p90 == e.max_p90 && min_p10
            == e.min_p10 && max_volatility == e.max_volatility && mean_volatility
            == e.mean_volatility && (triggered_rule is Some ==> exists|i: int|
            0 <= i < p.rules.len() && (#[trigger] p.rules[i]).action == recommended_action@
                && p.rules[i].name == triggered_rule->Some_0@ && assessment@
                == "Forecast Quantile Assessment: Horizon is "@ + digits(e.horizon as nat)
                + " steps. P90 maximum reaches "@ + e.max_p90.fixed(2) + ", P50 median mean is "@
                + e.mean_p50.fixed(2) + ", volatility peak is "@ + e.max_volatility.fixed(2)
                + ". Condition met: rule '"@ + p.rules[i].name
                + "' triggered. Recommended action: "@ + p.rules[i].action + ". "@
                + p.rules[i].description + " "@ + (if p.rules[i].action == "scale_up"@ {
                "Strong affirmative evidence to scale up resources."@
            } else if p.rules[i].action == "alert"@ {
                "Strong affirmative evidence to trigger an alert."@
            } else {
                ""@
            })) && (triggered_rule is None ==> assessment@
            == "Forecast Quantile Assessment: Horizon is "@ + digits(e.horizon as nat)
            + " steps. P90 maximum is "@ + e.max_p90.fixed(2) + ", P50 median mean is "@
            + e.mean_p50.fixed(2) + ", volatility is "@ + e.mean_volatility.fixed(2)
            + ". All forecast quantiles are within normal operational limits. No threshold alerts triggered. Recommended action: "@
            + p.default_action + ". Maintain normal operating capacity."@),
{
    law_first_rule_decides(p.rules, e);
}

/// The question offers each action once: the action of each rule with the description of the first
/// rule that has it, the default action, and nothing else; the options stand in the order of their
/// names.
pub proof fn law_options_are_the_actions(r: ZevRequest, e: ExtractedQuantiles, p: PolicyModel, k: int)
    requires
        is_choice_request(r, e, p),
        0 <= k < r.questions@[0].1->Choice_0.options@.len(),
    ensures
        ({
            let o = r.questions@[0].1->Choice_0.options@[k];
            ||| exists|i: int|
                0 <= i < p.rules.len() && (#[trigger] p.rules[i]).action == o.id@
                    && p.rules[i].description == o.description@ && forall|j: int|
                    0 <= j < i ==> (#[trigger] p.rules[j]).action != o.id@
            ||| o.id@ == p.default_action && o.description@
                == "Maintain baseline operations (action: "@ + p.default_action + ")."@
                && forall|j: int| 0 <= j < p.rules.len() ==> (#[trigger] p.rules[j]).action != o.id@
        }),
        forall|j: int|
            0 <= j < k ==> before(
                (#[trigger] r.questions@[0].1->Choice_0.options@[j]).id@,
                r.questions@[0].1->Choice_0.options@[k].id@,
            ),
{
    let options = r.questions@[0].1->Choice_0.options;
    let m = menu(options);
    let list = offers(p);
    let o = options@[k];
    assert(m[k] == (o.id@, o.description@));
    assert(m.contains(m[k]));
    let i = choose|i: int| #[trigger] is_first_offer(list, i) && list[i] == m[k];
    let n = p.rules.len() as int;
    assert forall|j: int| 0 <= j < i && j < n implies (#[trigger] p.rules[j]).action != o.id@ by {
        assert(list[j].0 == p.rules[j].action);
        assert(list[j].0 != list[i].0);
    }
    if i < n {
        assert(p.rules[i].action == o.id@);
    }
    assert forall|j: int| 0 <= j < k implies before(
        (#[trigger] options@[j]).id@,
        options@[k].id@,
    ) by {
        assert(m[j].0 == options@[j].id@);
        assert(before(m[j].0, m[k].0));
    }
}

/// The engine's choice is the action: a text as it stands, any other value in its notation, and the
/// default action where it chose nothing.
pub proof fn law_choice_is_the_action(answer: ZevAnswer, default_action: Seq<char>)
    ensures
        answer.decision matches Some(Decision::Text(s)) ==> chosen_action(answer, default_action)
            == s@,
        answer.decision matches Some(Decision::Json(s)) ==> chosen_action(answer, default_action)
            == s@,
        answer.decision is None ==> chosen_action(answer, default_action) == default_action,
{
}

/// A question that the caller spelled out is put to the engine as it stands, with the numbers that were
/// read off the forecast and a sentence that says them with two places; every request has one question
/// by the name of `decision`, at temperature one.
pub proof fn law_given_question(r: ZevRequest, e: ExtractedQuantiles, question: Seq<char>)
    requires
        is_given_request(r, e, question),
    ensures
        r.questions@.len() == 1,
        r.questions@[0].0@ == "decision"@,
        r.questions@[0].1 matches Question::Given(q) && q@ == question,
        r.model is None,
        r.temperature == Some(Double::from_bits(0x3ff0_0000_0000_0000)),
        !r.enable_temporal_facts,
        r.state matches ForecastState::Summary {
            summary,
            horizon,
            mean_p50,
            max_p90,
            min_p10,
            max_volatility,
        } && horizon == e.horizon && mean_p50 == e.mean_p50 && max_p90 == e.max_p90 && min_p10
            == e.min_p10 && max_volatility == e.max_volatility && summary@
            == "Forecast summary: horizon "@ + digits(e.horizon as nat) + " steps. Mean p50 is "@
            + e.mean_p50.fixed(2) + ", max p90 is "@ + e.max_p90.fixed(2) + ", min p10 is "@
            + e.min_p10.fixed(2) + ", max volatility is "@ + e.max_volatility.fixed(2) + "."@,
{
}

/// How a choice is put to the engine: it may abstain, at one half at most for what is not offered, and no
/// option has to be likelier than another.
pub proof fn law_choice_settings(r: ZevRequest, e: ExtractedQuantiles, p: PolicyModel)
    requires
        is_choice_request(r, e, p),
    ensures
        r.model is None,
        r.temperature == Some(Double::from_bits(0x3ff0_0000_0000_0000)),
        !r.enable_temporal_facts,
        r.questions@[0].1 matches Question::Choice(c) && c.policy.allow_abstain
            && c.policy.max_unavailable_probability == Double::from_bits(0x3fe0_0000_0000_0000)
            && c.policy.min_top_probability == Double::from_bits(0) && c.policy.max_slots is None,
{
}

/// Where quantiles are missing for some step, every rule on `p10` and on `p90` looks at the point forecast
/// too, and every rule on the volatility at zeros.
pub proof fn law_rules_without_quantiles(r: RuleModel, e: ExtractedQuantiles, f: ForecastOutput)
    requires
        is_extract(e, f, 0),
        f.forecast@.len() > 0,
        f.quantiles is None || f.quantiles->Some_0@.len() == 0 || f.quantiles->Some_0@[0]@.len()
            < f.forecast@[0]@.len(),
        f.forecast@[0]@.len() > 0,
    ensures
        rule_fires(r, e) <==> passes_on_end(
            if r.rule.metric == ForecastMetric::Volatility {
                Seq::new(f.forecast@[0]@.len(), |h: int| Single { bits: 0 })
            } else {
                f.forecast@[0]@
            },
            r.rule.consecutive_steps,
            r.rule.comparison,
            r.rule.threshold,
        ),
{
    law_tracks_follow_the_forecast(e, f, 0, 0);
    let zeros = Seq::new(f.forecast@[0]@.len(), |h: int| Single { bits: 0 });
    assert forall|h: int| 0 <= h < f.forecast@[0]@.len() implies e.p10@[h] == f.forecast@[0]@[h]
        && e.p90@[h] == f.forecast@[0]@[h] && e.volatility@[h] == zeros[h] by {
        law_tracks_follow_the_forecast(e, f, 0, h);
    }
    assert(e.p10@ =~= f.forecast@[0]@);
    assert(e.p90@ =~= f.forecast@[0]@);
    assert(e.volatility@ =~= zeros);
    law_rule_fires_on_end(r.rule, track(e, r.rule.metric));
}

/// Whatever the tracks are, the action recommended is that of the first rule that fires on them, under
/// its name; where none fires it is the default action, under none.
pub proof fn law_first_firing_rule_recommends(r: ZevRequest, e: ExtractedQuantiles, p: PolicyModel)
    requires
        is_choice_request(r, e, p),
    ensures
        r.state is Assessment,
        forall|i: int|
            0 <= i < p.rules.len() && rule_fires(#[trigger] p.rules[i], e) && (forall|j: int|
                0 <= j < i ==> !rule_fires(#[trigger] p.rules[j], e))
                ==> r.state->recommended_action@ == p.rules[i].action && optional(
                r.state->triggered_rule,
            ) == Some(p.rules[i].name),
        (forall|i: int| 0 <= i < p.rules.len() ==> !rule_fires(#[trigger] p.rules[i], e))
            ==> r.state->recommended_action@ == p.default_action
            && r.state->triggered_rule is None,
{
    law_first_rule_decides(p.rules, e);
    assert forall|i: int|
        0 <= i < p.rules.len() && rule_fires(#[trigger] p.rules[i], e) && (forall|j: int|
            0 <= j < i ==> !rule_fires(#[trigger] p.rules[j], e)) implies first_firing(p.rules, e)
        == Some(p.rules[i]) by {
        let first = first_firing(p.rules, e);
        assert(first is Some);
        let k = choose|k: int|
            0 <= k < p.rules.len() && #[trigger] p.rules[k] == first->Some_0 && rule_fires(
                first->Some_0,
                e,
            ) && forall|j: int| 0 <= j < k ==> !rule_fires(#[trigger] p.rules[j], e);
        if k < i {
            assert(!rule_fires(p.rules[k], e));
        } else if i < k {
            assert(!rule_fires(p.rules[i], e));
        }
    }
}

/// A rule fires on the track of its metric and on no other.
pub proof fn law_rule_fires_on_its_track(r: RuleModel, e: ExtractedQuantiles)
    ensures
        rule_fires(r, e) <==> passes_on_end(
            match r.rule.metric {
                ForecastMetric::P10 => e.p10@,
                ForecastMetric::P50 => e.p50@,
                ForecastMetric::P90 => e.p90@,
                ForecastMetric::Volatility => e.volatility@,
                ForecastMetric::Mean => e.p50@,
            },
            r.rule.consecutive_steps,
            r.rule.comparison,
            r.rule.threshold,
        ),
{
    law_rule_fires_on_end(r.rule, track(e, r.rule.metric));
}

} // verus!
