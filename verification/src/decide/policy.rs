//! Policies: which action a forecast calls for.

use vstd::prelude::*;
use vstd::string::*;

use crate::error::TimesfmError;
use crate::ieee::scalar::Single;
use crate::text::{
    eq_ignore_ascii_case, is_empty_text, same_ignoring_case, starts_with_char, trim, trimmed,
};

verus! {

/// The track of a forecast that a rule looks at.
#[derive(Debug, Clone, Copy, PartialEq, Eq, Structural)]
pub enum ForecastMetric {
    P10,
    P50,
    P90,
    /// The width from `p10` to `p90`.
    Volatility,
    Mean,
}

/// How a number is held against a threshold.
#[derive(Debug, Clone, Copy, PartialEq, Eq, Structural)]
pub enum ComparisonOp {
    GreaterThan,
    GreaterThanOrEqual,
    LessThan,
    LessThanOrEqual,
}

impl ComparisonOp {
    /// `x op threshold`.
    pub open spec fn holds_spec(self, x: Single, threshold: Single) -> bool {
        match self {
            ComparisonOp::GreaterThan => threshold.lt(x),
            ComparisonOp::GreaterThanOrEqual => threshold.le(x),
            ComparisonOp::LessThan => x.lt(threshold),
            ComparisonOp::LessThanOrEqual => x.le(threshold),
        }
    }

    /// Whether `x op threshold`.
    #[verifier::when_used_as_spec(holds_spec)]
    pub fn holds(self, x: Single, threshold: Single) -> (r: bool)
        ensures
            r == self.holds_spec(x, threshold),
    {
        match self {
            ComparisonOp::GreaterThan => threshold.lt(x),
            ComparisonOp::GreaterThanOrEqual => threshold.le(x),
            ComparisonOp::LessThan => x.lt(threshold),
            ComparisonOp::LessThanOrEqual => x.le(threshold),
        }
    }
}

/// A threshold that a track has to pass for some steps on end.
#[derive(Debug, Clone, Copy)]
pub struct ThresholdRule {
    pub metric: ForecastMetric,
    pub comparison: ComparisonOp,
    pub threshold: Single,
    pub consecutive_steps: usize,
}

/// How many steps a rule asks for where it does not say.
pub fn default_consecutive_steps() -> (r: usize)
    ensures
        r == 1,
{
    1
}

/// A count, or one where it is zero.
pub open spec fn at_least_one(n: usize) -> usize {
    if n == 0 {
        1
    } else {
        n
    }
}

impl ThresholdRule {
    /// The rule that asks for at least one step.
    pub open spec fn made(
        metric: ForecastMetric,
        comparison: ComparisonOp,
        threshold: Single,
        consecutive_steps: usize,
    ) -> ThresholdRule {
        ThresholdRule {
            metric,
            comparison,
            threshold,
            consecutive_steps: at_least_one(consecutive_steps),
        }
    }

    pub fn new(
        metric: ForecastMetric,
        comparison: ComparisonOp,
        threshold: Single,
        consecutive_steps: usize,
    ) -> (r: ThresholdRule)
        ensures
            r == ThresholdRule::made(metric, comparison, threshold, consecutive_steps),
    {
        ThresholdRule {
            metric,
            comparison,
            threshold,
            consecutive_steps: if consecutive_steps == 0 {
                1
            } else {
                consecutive_steps
            },
        }
    }

    /// All steps from `from` up to `to` pass the threshold.
    pub open spec fn passed_through(self, steps: Seq<Single>, from: int, to: int) -> bool {
        forall|i: int|
            from <= i < to ==> self.comparison.holds(#[trigger] steps[i], self.threshold)
    }

    /// Some run of enough steps on end passes the threshold.
    pub open spec fn fires(self, steps: Seq<Single>) -> bool {
        exists|from: int|
            0 <= from <= steps.len() - at_least_one(self.consecutive_steps)
                && #[trigger] self.passed_through(
                steps,
                from,
                from + at_least_one(self.consecutive_steps),
            )
    }

    /// Whether the threshold is passed for enough steps on end.
    pub fn evaluate(&self, step_values: &[Single]) -> (r: bool)
        ensures
            r == self.fires(step_values@),
    {
        let ghost need = at_least_one(self.consecutive_steps) as int;
        let mut consecutive: usize = 0;
        let mut i: usize = 0;
        while i < step_values.len()
            invariant
                need == at_least_one(self.consecutive_steps),
                consecutive <= i <= step_values@.len(),
                consecutive < need,
                self.passed_through(step_values@, i - consecutive, i as int),
                consecutive < i ==> !self.comparison.holds(
                    step_values@[i - consecutive - 1],
                    self.threshold,
                ),
                forall|from: int|
                    0 <= from <= i - need ==> !#[trigger] self.passed_through(
                        step_values@,
                        from,
                        from + need,
                    ),
            decreases step_values@.len() - i,
        {
            let val = step_values[i];
            if self.comparison.holds(val, self.threshold) {
                consecutive = consecutive + 1;
                if consecutive >= self.consecutive_steps {
                    assert(self.passed_through(step_values@, i + 1 - need, i + 1 - need + need));
                    return true;
                }
                proof {
                    if i + 1 - need >= 0 {
                        let k = i - consecutive;
                        assert(i + 1 - need <= k);
                        assert(!self.comparison.holds(step_values@[k], self.threshold));
                        assert(!self.passed_through(
                            step_values@,
                            i + 1 - need,
                            i + 1 - need + need,
                        ));
                    }
                }
            } else {
                consecutive = 0;
                assert(!self.comparison.holds(step_values@[i as int], self.threshold));
            }
            i = i + 1;
        }
        false
    }
}

/// What a rule says, apart from how its texts are stored.
pub struct RuleModel {
    pub name: Seq<char>,
    pub action: Seq<char>,
    pub description: Seq<char>,
    pub rule: ThresholdRule,
}

/// An action and the threshold that calls for it.
#[derive(Debug, Clone)]
pub struct ForecastPolicyRule {
    pub name: String,
    pub action: String,
    pub description: String,
    pub rule: ThresholdRule,
}

impl View for ForecastPolicyRule {
    type V = RuleModel;

    open spec fn view(&self) -> RuleModel {
        RuleModel {
            name: self.name@,
            action: self.action@,
            description: self.description@,
            rule: self.rule,
        }
    }
}

impl ForecastPolicyRule {
    pub fn new(name: &str, action: &str, description: &str, rule: ThresholdRule) -> (r:
        ForecastPolicyRule)
        ensures
            r@ == (RuleModel { name: name@, action: action@, description: description@, rule }),
    {
        ForecastPolicyRule {
            name: name.to_owned(),
            action: action.to_owned(),
            description: description.to_owned(),
            rule,
        }
    }
}

/// What a policy says, apart from how its texts are stored.
pub struct PolicyModel {
    pub name: Seq<char>,
    pub instructions: Seq<char>,
    pub rules: Seq<RuleModel>,
    pub default_action: Seq<char>,
}

/// Rules in order of precedence, and the action where none of them fires.
#[derive(Debug, Clone)]
pub struct ForecastPolicy {
    pub name: String,
    pub instructions: String,
    pub rules: Vec<ForecastPolicyRule>,
    pub default_action: String,
}

impl View for ForecastPolicy {
    type V = PolicyModel;

    open spec fn view(&self) -> PolicyModel {
        PolicyModel {
            name: self.name@,
            instructions: self.instructions@,
            rules: self.rules@.map_values(|r: ForecastPolicyRule| r@),
            default_action: self.default_action@,
        }
    }
}

/// The instructions of a policy that does not give any.
pub fn default_policy_instructions() -> (r: String)
    ensures
        r@ == "Evaluate forecast quantiles and determine optimal policy action."@,
{
    "Evaluate forecast quantiles and determine optimal policy action.".to_owned()
}

/// The default action of a policy that does not name one.
pub fn default_fallback_action() -> (r: String)
    ensures
        r@ == "maintain"@,
{
    "maintain".to_owned()
}

/// Scale up on a high `p90`, alert on a high volatility, else maintain.
pub open spec fn autoscaling_model(
    p90_threshold: Single,
    consecutive_steps: usize,
    volatility_threshold: Single,
) -> PolicyModel {
    PolicyModel {
        name: "autoscaling_policy"@,
        instructions: "Determine operational scaling action based on forecast load and volatility."@,
        rules: seq![
            RuleModel {
                name: "scale_up_rule"@,
                action: "scale_up"@,
                description:
                    "Scale up infrastructure capacity due to high forecasted workload exceeding p90 threshold."@,
                rule: ThresholdRule::made(
                    ForecastMetric::P90,
                    ComparisonOp::GreaterThan,
                    p90_threshold,
                    consecutive_steps,
                ),
            },
            RuleModel {
                name: "volatility_alert_rule"@,
                action: "alert"@,
                description:
                    "Trigger operational alert due to elevated forecast volatility and uncertainty."@,
                rule: ThresholdRule::made(
                    ForecastMetric::Volatility,
                    ComparisonOp::GreaterThan,
                    volatility_threshold,
                    1,
                ),
            },
        ],
        default_action: "maintain"@,
    }
}

/// Alert on a high volatility or a high `p90`, else normal.
pub open spec fn alerting_model(p90_threshold: Single, volatility_threshold: Single) -> PolicyModel {
    PolicyModel {
        name: "alerting_policy"@,
        instructions:
            "Determine whether to trigger an alert based on forecasted values and volatility."@,
        rules: seq![
            RuleModel {
                name: "high_volatility_rule"@,
                action: "alert"@,
                description:
                    "Trigger operational alert due to excessive volatility across quantiles."@,
                rule: ThresholdRule::made(
                    ForecastMetric::Volatility,
                    ComparisonOp::GreaterThan,
                    volatility_threshold,
                    1,
                ),
            },
            RuleModel {
                name: "high_p90_rule"@,
                action: "alert"@,
                description: "Trigger operational alert due to p90 exceeding critical threshold."@,
                rule: ThresholdRule::made(
                    ForecastMetric::P90,
                    ComparisonOp::GreaterThan,
                    p90_threshold,
                    1,
                ),
            },
        ],
        default_action: "normal"@,
    }
}

impl ForecastPolicy {
    /// `scale_up` where `p90` exceeds its threshold for `consecutive_steps` steps on end, `alert`
    /// where the volatility exceeds its own at any step, `maintain` otherwise.
    pub fn autoscaling(
        p90_threshold: Single,
        consecutive_steps: usize,
        volatility_threshold: Single,
    ) -> (r: ForecastPolicy)
        ensures
            r@ == autoscaling_model(p90_threshold, consecutive_steps, volatility_threshold),
    {
        let mut rules: Vec<ForecastPolicyRule> = Vec::new();
        rules.push(
            ForecastPolicyRule::new(
                "scale_up_rule",
                "scale_up",
                "Scale up infrastructure capacity due to high forecasted workload exceeding p90 threshold.",
                ThresholdRule::new(
                    ForecastMetric::P90,
                    ComparisonOp::GreaterThan,
                    p90_threshold,
                    consecutive_steps,
                ),
            ),
        );
        rules.push(
            ForecastPolicyRule::new(
                "volatility_alert_rule",
                "alert",
                "Trigger operational alert due to elevated forecast volatility and uncertainty.",
                ThresholdRule::new(
                    ForecastMetric::Volatility,
                    ComparisonOp::GreaterThan,
                    volatility_threshold,
                    1,
                ),
            ),
        );
        let r = ForecastPolicy {
            name: "autoscaling_policy".to_owned(),
            instructions:
                "Determine operational scaling action based on forecast load and volatility.".to_owned(),
            rules,
            default_action: "maintain".to_owned(),
        };
        assert(r@.rules =~= autoscaling_model(
            p90_threshold,
            consecutive_steps,
            volatility_threshold,
        ).rules);
        r
    }

    /// `alert` where the volatility or `p90` exceeds its threshold at any step, `normal` otherwise.
    pub fn alerting(p90_threshold: Single, volatility_threshold: Single) -> (r: ForecastPolicy)
        ensures
            r@ == alerting_model(p90_threshold, volatility_threshold),
    {
        let mut rules: Vec<ForecastPolicyRule> = Vec::new();
        rules.push(
            ForecastPolicyRule::new(
                "high_volatility_rule",
                "alert",
                "Trigger operational alert due to excessive volatility across quantiles.",
                ThresholdRule::new(
                    ForecastMetric::Volatility,
                    ComparisonOp::GreaterThan,
                    volatility_threshold,
                    1,
                ),
            ),
        );
        rules.push(
            ForecastPolicyRule::new(
                "high_p90_rule",
                "alert",
                "Trigger operational alert due to p90 exceeding critical threshold.",
                ThresholdRule::new(
                    ForecastMetric::P90,
                    ComparisonOp::GreaterThan,
                    p90_threshold,
                    1,
                ),
            ),
        );
        let r = ForecastPolicy {
            name: "alerting_policy".to_owned(),
            instructions:
                "Determine whether to trigger an alert based on forecasted values and volatility.".to_owned(),
            rules,
            default_action: "normal".to_owned(),
        };
        assert(r@.rules =~= alerting_model(p90_threshold, volatility_threshold).rules);
        r
    }
}

/// The name, in any case, of one of the built-in scaling policies; no name means scaling too.
pub open spec fn names_scaling(s: Seq<char>) -> bool {
    s.len() == 0 || same_ignoring_case(s, "scaling"@) || same_ignoring_case(s, "autoscaling"@)
        || same_ignoring_case(s, "capacity"@)
}

/// The name, in any case, of the built-in alerting policy.
pub open spec fn names_alerting(s: Seq<char>) -> bool {
    same_ignoring_case(s, "alert"@) || same_ignoring_case(s, "alerting"@)
}

/// The start of an object in JSON notation.
pub open spec fn opens_object(s: Seq<char>) -> bool {
    s.len() > 0 && s[0] == '{'
}

/// The built-in scaling policy: 100 for `p90`, two steps on end, 50 for the volatility.
pub open spec fn stock_scaling() -> PolicyModel {
    autoscaling_model(Single { bits: 0x42c8_0000 }, 2, Single { bits: 0x4248_0000 })
}

/// The policy that a schema text asks for: a built-in one by name, one spelled out as an object
/// (`parsed` is what the text reads as, if it reads as a policy), or else the scaling policy with
/// the text as its instructions.
pub open spec fn is_resolution(
    r: Result<ForecastPolicy, TimesfmError>,
    schema: Seq<char>,
    parsed: Option<ForecastPolicy>,
) -> bool {
    let s = trimmed(schema);
    if names_scaling(s) {
        r matches Ok(p) && p@ == stock_scaling()
    } else if names_alerting(s) {
        r matches Ok(p) && p@ == alerting_model(
            Single { bits: 0x42c8_0000 },
            Single { bits: 0x4248_0000 },
        )
    } else if opens_object(s) {
        match parsed {
            Some(p) => r == Ok::<ForecastPolicy, TimesfmError>(p),
            None => r matches Err(TimesfmError::Policy(m)) && m@ == "Failed to parse policy JSON: "@
                + s,
        }
    } else {
        r matches Ok(p) && p@ == (PolicyModel { instructions: s, ..stock_scaling() })
    }
}

/// Finds the policy that a schema text asks for. `parsed` is what the trimmed text reads as, where
/// it is a policy in JSON notation.
pub fn resolve_policy(schema: &str, parsed: Option<ForecastPolicy>) -> (r: Result<
    ForecastPolicy,
    TimesfmError,
>)
    ensures
        is_resolution(r, schema@, parsed),
{
    let hundred = Single::from_bits(0x42c8_0000);
    let fifty = Single::from_bits(0x4248_0000);
    let s = trim(schema);
    if is_empty_text(&s) || eq_ignore_ascii_case(&s, "scaling") || eq_ignore_ascii_case(
        &s,
        "autoscaling",
    ) || eq_ignore_ascii_case(&s, "capacity") {
        Ok(ForecastPolicy::autoscaling(hundred, 2, fifty))
    } else if eq_ignore_ascii_case(&s, "alert") || eq_ignore_ascii_case(&s, "alerting") {
        Ok(ForecastPolicy::alerting(hundred, fifty))
    } else if starts_with_char(&s, '{') {
        match parsed {
            Some(policy) => Ok(policy),
            None => {
                let mut m = "Failed to parse policy JSON: ".to_owned();
                m.append(&s);
                Err(TimesfmError::Policy(m))
            },
        }
    } else {
        let mut policy = ForecastPolicy::autoscaling(hundred, 2, fifty);
        policy.instructions = s;
        Ok(policy)
    }
}

/// A rule that fires still fires when it asks for fewer steps on end.
pub proof fn law_fewer_steps_fire(rule: ThresholdRule, fewer: usize, steps: Seq<Single>)
    requires
        rule.fires(steps),
        fewer <= rule.consecutive_steps,
    ensures
        (ThresholdRule { consecutive_steps: fewer, ..rule }).fires(steps),
{
    let n = at_least_one(rule.consecutive_steps) as int;
    let from = choose|from: int|
        0 <= from <= steps.len() - n && #[trigger] rule.passed_through(steps, from, from + n);
    let easier = ThresholdRule { consecutive_steps: fewer, ..rule };
    assert(0 <= from <= steps.len() - at_least_one(easier.consecutive_steps));
    assert(easier.passed_through(steps, from, from + at_least_one(easier.consecutive_steps)));
}

/// A rule never fires on fewer steps than it asks for.
pub proof fn law_short_track_never_fires(rule: ThresholdRule, steps: Seq<Single>)
    requires
        steps.len() < at_least_one(rule.consecutive_steps),
    ensures
        !rule.fires(steps),
{
}

/// The `n` steps from `from` on all pass a threshold.
pub open spec fn all_pass(
    steps: Seq<Single>,
    from: int,
    n: int,
    op: ComparisonOp,
    threshold: Single,
) -> bool {
    forall|i: int|
        from <= i < from + n ==> match op {
            ComparisonOp::GreaterThan => threshold.lt(#[trigger] steps[i]),
            ComparisonOp::GreaterThanOrEqual => threshold.le(steps[i]),
            ComparisonOp::LessThan => steps[i].lt(threshold),
            ComparisonOp::LessThanOrEqual => steps[i].le(threshold),
        }
}

/// A threshold is passed at `n` steps on end, or at one where `n` is zero.
pub open spec fn passes_on_end(
    steps: Seq<Single>,
    n: usize,
    op: ComparisonOp,
    threshold: Single,
) -> bool {
    passes_for(
        steps,
        if n == 0 {
            1
        } else {
            n as int
        },
        op,
        threshold,
    )
}

/// A threshold is passed at `need` steps on end.
pub open spec fn passes_for(
    steps: Seq<Single>,
    need: int,
    op: ComparisonOp,
    threshold: Single,
) -> bool {
    exists|from: int|
        0 <= from && from + need <= steps.len() && #[trigger] all_pass(
            steps,
            from,
            need,
            op,
            threshold,
        )
}

/// A rule fires on steps exactly where its comparison holds at its number of steps on end: above,
/// not below, below, or not above the threshold.
pub proof fn law_rule_fires_on_end(rule: ThresholdRule, steps: Seq<Single>)
    ensures
        rule.fires(steps) <==> passes_on_end(
            steps,
            rule.consecutive_steps,
            rule.comparison,
            rule.threshold,
        ),
{
    let need = at_least_one(rule.consecutive_steps) as int;
    if rule.fires(steps) {
        let from = choose|from: int|
            0 <= from <= steps.len() - need && #[trigger] rule.passed_through(
                steps,
                from,
                from + need,
            );
        assert(all_pass(steps, from, need, rule.comparison, rule.threshold));
    }
    if passes_on_end(steps, rule.consecutive_steps, rule.comparison, rule.threshold) {
        let from = choose|from: int|
            0 <= from && from + need <= steps.len() && #[trigger] all_pass(
                steps,
                from,
                need,
                rule.comparison,
                rule.threshold,
            );
        assert(rule.passed_through(steps, from, from + need));
    }
}

/// The rules of the built-in policies: scaling up goes before the alert, and each rule names its
/// track, its threshold and its number of steps.
pub proof fn law_built_in_rules(
    p90_threshold: Single,
    consecutive_steps: usize,
    volatility_threshold: Single,
)
    ensures
        ({
            let p = autoscaling_model(p90_threshold, consecutive_steps, volatility_threshold);
            &&& p.rules.len() == 2
            &&& p.rules[0].action == "scale_up"@
            &&& p.rules[0].rule.metric == ForecastMetric::P90
            &&& p.rules[0].rule.comparison == ComparisonOp::GreaterThan
            &&& p.rules[0].rule.threshold == p90_threshold
            &&& p.rules[0].rule.consecutive_steps == if consecutive_steps == 0 {
                1
            } else {
                consecutive_steps
            }
            &&& p.rules[1].action == "alert"@
            &&& p.rules[1].rule.metric == ForecastMetric::Volatility
            &&& p.rules[1].rule.comparison == ComparisonOp::GreaterThan
            &&& p.rules[1].rule.threshold == volatility_threshold
            &&& p.rules[1].rule.consecutive_steps == 1
            &&& p.default_action == "maintain"@
        }),
        ({
            let p = alerting_model(p90_threshold, volatility_threshold);
            &&& p.rules.len() == 2
            &&& p.rules[0].action == "alert"@
            &&& p.rules[0].rule.metric == ForecastMetric::Volatility
            &&& p.rules[0].rule.comparison == ComparisonOp::GreaterThan
            &&& p.rules[0].rule.threshold == volatility_threshold
            &&& p.rules[0].rule.consecutive_steps == 1
            &&& p.rules[1].action == "alert"@
            &&& p.rules[1].rule.metric == ForecastMetric::P90
            &&& p.rules[1].rule.comparison == ComparisonOp::GreaterThan
            &&& p.rules[1].rule.threshold == p90_threshold
            &&& p.rules[1].rule.consecutive_steps == 1
            &&& p.default_action == "normal"@
        }),
{
}

/// A schema is read without the white space around it and, where it is a name, in any case: no text
/// and the names of scaling give the scaling policy at 100 for two steps and 50, the names of
/// alerting the alerting policy at 100 and 50; an object gives the policy it reads as, or an error;
/// any other text gives the scaling policy with that text as its instructions.
pub proof fn law_schema_names_a_policy(
    r: Result<ForecastPolicy, TimesfmError>,
    schema: Seq<char>,
    parsed: Option<ForecastPolicy>,
)
    requires
        is_resolution(r, schema, parsed),
    ensures
        ({
            let s = trimmed(schema);
            let hundred = Single { bits: 0x42c8_0000 };
            let fifty = Single { bits: 0x4248_0000 };
            let scaling = s.len() == 0 || same_ignoring_case(s, "scaling"@) || same_ignoring_case(
                s,
                "autoscaling"@,
            ) || same_ignoring_case(s, "capacity"@);
            let alerting = same_ignoring_case(s, "alert"@) || same_ignoring_case(s, "alerting"@);
            let object = s.len() > 0 && s[0] == '{';
            &&& scaling ==> (r matches Ok(p) && p@ == autoscaling_model(hundred, 2, fifty))
            &&& !scaling && alerting ==> (r matches Ok(p) && p@ == alerting_model(hundred, fifty))
            &&& !scaling && !alerting && object && parsed is Some ==> r == Ok::<
                ForecastPolicy,
                TimesfmError,
            >(parsed->Some_0)
            &&& !scaling && !alerting && object && parsed is None ==> r is Err
            &&& !scaling && !alerting && !object ==> (r matches Ok(p) && p@.rules
                == autoscaling_model(hundred, 2, fifty).rules && p@.default_action == "maintain"@
                && p@.instructions == s)
        }),
{
}

/// A rule is made of what it is given, and asks for at least one step.
pub proof fn law_rule_as_made(
    metric: ForecastMetric,
    comparison: ComparisonOp,
    threshold: Single,
    consecutive_steps: usize,
)
    ensures
        ({
            let r = ThresholdRule::made(metric, comparison, threshold, consecutive_steps);
            &&& r.metric == metric
            &&& r.comparison == comparison
            &&& r.threshold == threshold
            &&& consecutive_steps > 0 ==> r.consecutive_steps == consecutive_steps
            &&& consecutive_steps == 0 ==> r.consecutive_steps == 1
        }),
{
}

/// The names and texts of the built-in policies.
pub proof fn law_built_in_texts(
    p90_threshold: Single,
    consecutive_steps: usize,
    volatility_threshold: Single,
)
    ensures
        ({
            let p = autoscaling_model(p90_threshold, consecutive_steps, volatility_threshold);
            &&& p.name == "autoscaling_policy"@
            &&& p.rules[0].name == "scale_up_rule"@
            &&& p.rules[1].name == "volatility_alert_rule"@
            &&& p.instructions
                == "Determine operational scaling action based on forecast load and volatility."@
        }),
        ({
            let p = alerting_model(p90_threshold, volatility_threshold);
            &&& p.name == "alerting_policy"@
            &&& p.rules[0].name == "high_volatility_rule"@
            &&& p.rules[1].name == "high_p90_rule"@
            &&& p.instructions
                == "Determine whether to trigger an alert based on forecasted values and volatility."@
        }),
{
}

} // verus!
