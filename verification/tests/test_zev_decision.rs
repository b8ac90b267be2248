use std::time::Instant;
use timesfm::decide::policy::default_policy_instructions;
use timesfm::decide::policy::{default_consecutive_steps, default_fallback_action};
use timesfm::decide::request::{Decision, ForecastState, Question};
use timesfm::decide::{extract_quantiles, resolve_policy, ZevAnswer, ZevRequest};
use timesfm::{
    check_series_guardrails, check_series_guardrails_with_config, policy_answer, policy_decision,
    policy_request, ComparisonOp, Double, ForecastMetric, ForecastOutput, ForecastPolicy,
    ForecastPolicyRule, GuardrailConfig, Single, ThresholdRule, TimesfmError,
};

fn single(x: f32) -> Single {
    Single::from_bits(x.to_bits())
}

fn float(x: Single) -> f32 {
    f32::from_bits(x.to_bits())
}

fn singles(v: &[f32]) -> Vec<Single> {
    v.iter().map(|&x| single(x)).collect()
}

fn forecast_of(id: &str, median: &[f32], rows: &[Vec<f32>]) -> ForecastOutput {
    ForecastOutput {
        ts_id: Some(id.to_string()),
        forecast: vec![singles(median)],
        quantiles: Some(vec![rows.iter().map(|r| singles(r)).collect()]),
    }
}

fn recommended(r: &ZevRequest) -> String {
    match &r.state {
        ForecastState::Assessment { recommended_action, .. } => recommended_action.clone(),
        _ => panic!("not an assessment"),
    }
}

fn option_ids(r: &ZevRequest) -> Vec<String> {
    match &r.questions[0].1 {
        Question::Choice(c) => c.options.iter().map(|o| o.id.clone()).collect(),
        _ => panic!("not a choice"),
    }
}

#[test]
fn test_guardrails_valid_series() {
    let series: Vec<f32> = (0..100).map(|i| (i as f32 * 0.1).sin() * 10.0 + 20.0).collect();

    let res = check_series_guardrails(&singles(&series)).expect("Guardrail check should succeed");
    assert!(res.passed, "Valid sine wave should pass guardrails");
    assert!(!res.should_abstain);
    assert_eq!(res.abstention_code, None);
    assert_eq!(res.reason, None);
    assert_eq!(res.total_points, 100);
    assert_eq!(res.valid_points, 100);
    assert_eq!(res.nan_count, 0);
    assert_eq!(float(res.nan_ratio), 0.0);
    assert!(float(res.variance) > 1.0);
    assert!(!res.is_flatline);
    assert!(res.is_ok());
}

#[test]
fn test_guardrails_flatline_series() {
    let flat_series = vec![42.0f32; 100];
    let res =
        check_series_guardrails(&singles(&flat_series)).expect("Guardrail check should succeed");

    assert!(!res.passed, "Flatline series should not pass guardrails");
    assert!(res.should_abstain, "Flatline series should trigger abstention");
    assert_eq!(
        res.abstention_code.as_deref(),
        Some(timesfm::decide::UNKNOWN),
        "Abstention code should be __insufficient__"
    );
    assert!(res.is_flatline);
    assert!(float(res.variance) < 1e-7);
    assert!(res.reason.unwrap().contains("flatline"));
}

#[test]
fn test_guardrails_high_nan_ratio() {
    let mut nan_series = vec![10.0f32; 100];
    for i in 0..60 {
        nan_series[i] = f32::NAN;
    }

    let res =
        check_series_guardrails(&singles(&nan_series)).expect("Guardrail check should succeed");
    assert!(!res.passed, "High NaN ratio should fail");
    assert!(res.should_abstain);
    assert_eq!(res.abstention_code.as_deref(), Some(timesfm::decide::UNKNOWN));
    assert_eq!(res.nan_count, 60);
    assert!((float(res.nan_ratio) - 0.60).abs() < 1e-4);
    assert!(res.reason.unwrap().contains("High NaN ratio"));
}

#[test]
fn test_guardrails_empty_and_insufficient_points() {
    let empty: [Single; 0] = [];
    let res_empty = check_series_guardrails(&empty).expect("Guardrail check should succeed");
    assert!(!res_empty.passed);
    assert!(res_empty.should_abstain);
    assert_eq!(res_empty.abstention_code.as_deref(), Some(timesfm::decide::UNKNOWN));
    assert!(res_empty.reason.unwrap().contains("Empty series"));

    let short = singles(&[1.0f32, 2.0f32]);
    let res_short = check_series_guardrails(&short).expect("Guardrail check should succeed");
    assert!(!res_short.passed);
    assert!(res_short.should_abstain);
    assert_eq!(res_short.abstention_code.as_deref(), Some(timesfm::decide::UNKNOWN));
    assert!(res_short.reason.unwrap().contains("Insufficient valid data points"));
}

#[test]
fn test_guardrails_custom_config() {
    let custom_config = GuardrailConfig {
        min_length: 5,
        max_nan_ratio: single(0.10),
        min_variance: single(0.1),
    };

    let series = singles(&[1.0f32, 1.01, 1.0, 1.02, 1.01]);
    let res = check_series_guardrails_with_config(&series, &custom_config)
        .expect("Guardrail check should succeed");
    assert!(!res.passed);
    assert!(res.should_abstain);
}

#[test]
fn test_guardrails_execution_microseconds() {
    let series: Vec<f32> = (0..512).map(|i| (i as f32 * 0.05).cos() * 5.0 + 10.0).collect();
    let series = singles(&series);

    let _ = check_series_guardrails(&series);

    let iterations = 1000;
    let start = Instant::now();
    for _ in 0..iterations {
        let res = check_series_guardrails(&series).unwrap();
        assert!(res.passed);
    }
    let elapsed = start.elapsed();
    let per_op_micros = (elapsed.as_nanos() as f64 / iterations as f64) / 1000.0;

    assert!(
        per_op_micros < 50.0,
        "Guardrail sanity check took {:.2} us, expected < 50 us",
        per_op_micros
    );
}

#[test]
fn guardrail_numbers_match_plain_arithmetic() {
    let series = [3.5f32, f32::NAN, -1.25, 7.75, f32::INFINITY, 2.0, 0.1, 0.2, 0.3, 0.4];
    let res = check_series_guardrails(&singles(&series)).unwrap();
    let (mut sum, mut sq, mut n) = (0.0f64, 0.0f64, 0usize);
    for v in series.iter().filter(|v| v.is_finite()) {
        sum += *v as f64;
        sq += (*v as f64) * (*v as f64);
        n += 1;
    }
    let mean = sum / n as f64;
    let variance = (sq / n as f64 - mean * mean).max(0.0) as f32;
    assert_eq!(res.valid_points, 8);
    assert_eq!(res.nan_count, 2);
    assert_eq!(float(res.nan_ratio), 2.0f32 / 10.0);
    assert_eq!(float(res.mean_val), mean as f32);
    assert_eq!(float(res.variance), variance);
    assert_eq!(float(res.min_val), -1.25);
    assert_eq!(float(res.max_val), 7.75);
    assert!(res.passed);
}

#[test]
fn guardrail_reasons_are_exact() {
    let nan = f32::NAN;
    let res = check_series_guardrails(&singles(&[1.0, nan, 2.0, nan, 3.0])).unwrap();
    assert_eq!(
        res.reason.unwrap(),
        format!("High NaN ratio: {:.1}% exceeds allowed {:.1}%", 0.4f32 * 100.0, 0.3f32 * 100.0)
    );
    let res = check_series_guardrails(&singles(&[1.0, nan])).unwrap();
    assert_eq!(res.reason.unwrap(), "Insufficient valid data points (1 < required 3)");
    assert_eq!(float(res.mean_val), 1.0);
    let res = check_series_guardrails(&singles(&[nan, nan])).unwrap();
    assert_eq!(float(res.min_val), 0.0);
    assert_eq!(float(res.max_val), 0.0);
    assert_eq!(float(res.mean_val), 0.0);
    let res = check_series_guardrails(&[]).unwrap();
    assert_eq!(res.reason.unwrap(), "Empty series: no data points provided");
    assert_eq!(float(res.nan_ratio), 1.0);
}

#[test]
fn test_policy_autoscaling_scale_up() {
    let horizon = 8;
    let median = vec![80.0f32, 85.0, 110.0, 120.0, 125.0, 130.0, 95.0, 90.0];
    let rows: Vec<Vec<f32>> = (0..horizon)
        .map(|h| {
            let m = median[h];
            vec![
                m - 30.0,
                m - 20.0,
                m - 15.0,
                m - 10.0,
                m,
                m + 10.0,
                m + 15.0,
                m + 20.0,
                m + 30.0,
            ]
        })
        .collect();
    let forecast = forecast_of("cluster-workload-cpu", &median, &rows);

    let request = policy_request(&forecast, "scaling", false, None)
        .expect("Policy evaluation should succeed");

    assert!(matches!(request.questions[0].1, Question::Choice(_)), "choice");
    assert_eq!(request.questions[0].0, "decision");
    assert_eq!(
        recommended(&request),
        "scale_up",
        "P90 exceeding threshold should trigger scale_up decision"
    );
    assert_eq!(option_ids(&request), vec!["alert", "maintain", "scale_up"]);
    match &request.state {
        ForecastState::Assessment { assessment, triggered_rule, horizon, max_p90, .. } => {
            assert_eq!(triggered_rule.as_deref(), Some("scale_up_rule"));
            assert_eq!(*horizon, 8);
            assert_eq!(float(*max_p90), 160.0);
            assert_eq!(
                assessment,
                "Forecast Quantile Assessment: Horizon is 8 steps. P90 maximum reaches 160.00, P50 median mean is 104.38, volatility peak is 60.00. Condition met: rule 'scale_up_rule' triggered. Recommended action: scale_up. Scale up infrastructure capacity due to high forecasted workload exceeding p90 threshold. Strong affirmative evidence to scale up resources."
            );
        }
        _ => panic!("not an assessment"),
    }
}

#[test]
fn test_policy_autoscaling_volatility_alert() {
    let horizon = 6;
    let median = vec![50.0f32; horizon];
    let rows: Vec<Vec<f32>> = (0..horizon)
        .map(|_| vec![10.0f32, 20.0, 30.0, 40.0, 50.0, 70.0, 90.0, 110.0, 130.0])
        .collect();
    let forecast = forecast_of("volatile-stock-series", &median, &rows);

    let policy = ForecastPolicy::autoscaling(single(200.0), 2, single(50.0));
    let request = policy_request(&forecast, "{}", false, Some(policy.clone()))
        .expect("Policy decision evaluation should succeed");
    let answer = ZevAnswer {
        decision: Some(Decision::Text(recommended(&request))),
        confidence: Double::from_bits(0.75f64.to_bits()),
        status: "ok".to_string(),
    };
    let decision = policy_decision(&policy, policy_answer(vec![answer]).unwrap());

    assert_eq!(decision.action, "alert", "High volatility should trigger alert");
    assert!(f64::from_bits(decision.confidence.to_bits()) > 0.4);
    assert_eq!(
        decision.rationale,
        "Zev decision selected 'alert' with confidence 0.75 (status: ok)"
    );
    assert_eq!(decision.triggered_rule, None);
}

#[test]
fn test_policy_maintain_baseline() {
    let horizon = 6;
    let median = vec![40.0f32; horizon];
    let rows: Vec<Vec<f32>> = (0..horizon)
        .map(|_| vec![35.0f32, 37.0, 38.0, 39.0, 40.0, 41.0, 42.0, 43.0, 45.0])
        .collect();
    let forecast = forecast_of("stable-workload", &median, &rows);

    let request = policy_request(&forecast, "scaling", false, None)
        .expect("Policy evaluation should succeed");

    assert_eq!(
        recommended(&request),
        "maintain",
        "Normal baseline forecast should select maintain"
    );
    match &request.state {
        ForecastState::Assessment { assessment, triggered_rule, .. } => {
            assert_eq!(*triggered_rule, None);
            assert_eq!(
                assessment,
                "Forecast Quantile Assessment: Horizon is 6 steps. P90 maximum is 45.00, P50 median mean is 40.00, volatility is 10.00. All forecast quantiles are within normal operational limits. No threshold alerts triggered. Recommended action: maintain. Maintain normal operating capacity."
            );
        }
        _ => panic!("not an assessment"),
    }
}

#[test]
fn test_policy_custom_json_specification() {
    let custom_policy = ForecastPolicy {
        name: "custom_spillover_policy".into(),
        instructions: "Determine spillover routing action based on projected load.".into(),
        rules: vec![ForecastPolicyRule::new(
            "reroute_rule",
            "reroute",
            "Reroute traffic to secondary region due to high forecasted load exceeding p90 threshold.",
            ThresholdRule::new(ForecastMetric::P90, ComparisonOp::GreaterThan, single(80.0), 2),
        )],
        default_action: "keep_local".into(),
    };
    let policy_json = "{\"name\": \"custom_spillover_policy\"}";

    let horizon = 5;
    let median = vec![90.0f32; horizon];
    let rows: Vec<Vec<f32>> = (0..horizon)
        .map(|_| vec![70.0, 75.0, 80.0, 85.0, 90.0, 95.0, 100.0, 105.0, 110.0])
        .collect();
    let forecast = forecast_of("traffic-proxy", &median, &rows);

    let request = policy_request(&forecast, policy_json, false, Some(custom_policy))
        .expect("Custom policy JSON should evaluate successfully");

    assert_eq!(recommended(&request), "reroute", "Custom rule should be chosen by Zev");
    assert_eq!(option_ids(&request), vec!["keep_local", "reroute"]);
    match &request.questions[0].1 {
        Question::Choice(c) => {
            assert_eq!(
                c.instructions,
                "Determine spillover routing action based on projected load."
            );
            assert_eq!(
                c.options[0].description,
                "Maintain baseline operations (action: keep_local)."
            );
            assert!(c.policy.allow_abstain);
        }
        _ => panic!("not a choice"),
    }
}

#[test]
fn a_question_of_the_caller_is_put_as_it_stands() {
    let forecast = forecast_of("x", &[10.0, 20.0], &[vec![5.0, 15.0], vec![12.0, 30.0]]);
    let request = policy_request(&forecast, "  {\"type\": \"choice\"} ", true, None).unwrap();
    match (&request.state, &request.questions[0].1) {
        (ForecastState::Summary { summary, .. }, Question::Given(q)) => {
            assert_eq!(q, "{\"type\": \"choice\"}");
            assert_eq!(
                summary,
                "Forecast summary: horizon 2 steps. Mean p50 is 15.00, max p90 is 30.00, min p10 is 5.00, max volatility is 18.00."
            );
        }
        _ => panic!("not the caller's question"),
    }
}

#[test]
fn actions_are_offered_once_and_in_order() {
    let rule = ThresholdRule::new(ForecastMetric::P50, ComparisonOp::LessThan, single(0.0), 1);
    let policy = ForecastPolicy {
        name: "p".into(),
        instructions: "i".into(),
        rules: vec![
            ForecastPolicyRule::new("r1", "b", "first b", rule),
            ForecastPolicyRule::new("r2", "a", "an a", rule),
            ForecastPolicyRule::new("r3", "b", "second b", rule),
        ],
        default_action: "a".into(),
    };
    let forecast = forecast_of("x", &[1.0], &[vec![0.5, 1.5]]);
    let request = policy_request(&forecast, "{", false, Some(policy)).unwrap();
    match &request.questions[0].1 {
        Question::Choice(c) => {
            let shown: Vec<(String, String)> =
                c.options.iter().map(|o| (o.id.clone(), o.description.clone())).collect();
            assert_eq!(
                shown,
                vec![
                    ("a".to_string(), "an a".to_string()),
                    ("b".to_string(), "first b".to_string())
                ]
            );
        }
        _ => panic!("not a choice"),
    }
}

#[test]
fn schemas_name_policies() {
    for name in ["", "  ", "scaling", "AutoScaling", "CAPACITY", " capacity\n"] {
        let p = resolve_policy(name, None).unwrap();
        assert_eq!(p.name, "autoscaling_policy");
        assert_eq!(p.default_action, "maintain");
        assert_eq!(p.rules.len(), 2);
        assert_eq!(float(p.rules[0].rule.threshold), 100.0);
        assert_eq!(p.rules[0].rule.consecutive_steps, 2);
        assert_eq!(float(p.rules[1].rule.threshold), 50.0);
    }
    for name in ["alert", "Alerting"] {
        let p = resolve_policy(name, None).unwrap();
        assert_eq!(p.name, "alerting_policy");
        assert_eq!(p.default_action, "normal");
    }
    let p = resolve_policy("  watch the load ", None).unwrap();
    assert_eq!(p.instructions, "watch the load");
    assert_eq!(p.name, "autoscaling_policy");
    match resolve_policy(" {oops ", None) {
        Err(TimesfmError::Policy(m)) => assert_eq!(m, "Failed to parse policy JSON: {oops"),
        _ => panic!("expected a policy error"),
    }
    assert_eq!(default_consecutive_steps(), 1);
    assert_eq!(default_fallback_action(), "maintain");
    assert!(default_policy_instructions().starts_with("Evaluate forecast quantiles"));
}

#[test]
fn thresholds_ask_for_steps_on_end() {
    let steps = singles(&[1.0, 5.0, 5.0, 1.0, 5.0, 5.0, 5.0]);
    for (n, expected) in [(0usize, true), (1, true), (2, true), (3, true), (4, false)] {
        let rule = ThresholdRule {
            metric: ForecastMetric::P50,
            comparison: ComparisonOp::GreaterThan,
            threshold: single(4.0),
            consecutive_steps: n,
        };
        assert_eq!(rule.evaluate(&steps), expected, "{}", n);
    }
    let at = |op| ThresholdRule::new(ForecastMetric::P10, op, single(5.0), 0);
    assert_eq!(at(ComparisonOp::GreaterThan).consecutive_steps, 1);
    assert!(!at(ComparisonOp::GreaterThan).evaluate(&steps));
    assert!(at(ComparisonOp::GreaterThanOrEqual).evaluate(&steps));
    assert!(at(ComparisonOp::LessThan).evaluate(&steps));
    assert!(!at(ComparisonOp::LessThan).evaluate(&steps[4..]));
    assert!(at(ComparisonOp::LessThanOrEqual).evaluate(&steps[4..]));
    assert!(!at(ComparisonOp::LessThanOrEqual).evaluate(&[single(f32::NAN)]));
    assert!(!at(ComparisonOp::LessThanOrEqual).evaluate(&[]));
}

#[test]
fn quantiles_are_extracted() {
    let f = forecast_of("x", &[10.0, 20.0], &[vec![8.0, 9.0, 13.0], vec![25.0, 21.0]]);
    let e = extract_quantiles(&f, 0);
    assert_eq!(e.horizon, 2);
    assert_eq!(e.p10, singles(&[8.0, 25.0]));
    assert_eq!(e.p90, singles(&[13.0, 21.0]));
    assert_eq!(e.volatility, singles(&[5.0, 0.0]));
    assert_eq!(float(e.max_p90), 21.0);
    assert_eq!(float(e.min_p10), 8.0);
    assert_eq!(float(e.mean_p50), 15.0);
    assert_eq!(float(e.max_volatility), 5.0);
    assert_eq!(float(e.mean_volatility), 2.5);

    let short = forecast_of("x", &[10.0, 20.0], &[vec![8.0, 13.0]]);
    let e = extract_quantiles(&short, 0);
    assert_eq!(e.p10, singles(&[10.0, 20.0]));
    assert_eq!(e.volatility, singles(&[0.0, 0.0]));

    let e = extract_quantiles(&short, 3);
    assert_eq!(e.horizon, 0);
    assert_eq!(float(e.max_p90), 0.0);
    assert_eq!(float(e.min_p10), 0.0);
    assert_eq!(float(e.mean_p50), 0.0);
}

#[test]
fn no_answer_is_an_error() {
    match policy_answer(Vec::new()) {
        Err(TimesfmError::Inference(m)) => assert_eq!(m, "ZevEngine returned no answers"),
        _ => panic!("expected an error"),
    }
    let policy = resolve_policy("alert", None).unwrap();
    let none = ZevAnswer {
        decision: None,
        confidence: Double::from_bits(0.005f64.to_bits()),
        status: "abstained".to_string(),
    };
    assert_eq!(policy_decision(&policy, none).action, "normal");
    let other = ZevAnswer {
        decision: Some(Decision::Json("[1,2]".to_string())),
        confidence: Double::from_bits(1.0f64.to_bits()),
        status: "ok".to_string(),
    };
    assert_eq!(policy_decision(&policy, other).action, "[1,2]");
}

#[test]
fn errors_are_spelled_out() {
    let cases = [
        (TimesfmError::Candle("a".to_string()), "Candle error: a"),
        (TimesfmError::Io("a".to_string()), "IO error: a"),
        (TimesfmError::Json("a".to_string()), "JSON error: a"),
        (TimesfmError::HfHub("a".to_string()), "HuggingFace Hub error: a"),
        (TimesfmError::Config("a".to_string()), "Invalid configuration: a"),
        (TimesfmError::Shape("a".to_string()), "Invalid dimension or shape: a"),
        (TimesfmError::Inference("a".to_string()), "Inference error: a"),
        (TimesfmError::Load("a".to_string()), "Model load error: a"),
        (TimesfmError::Policy("a".to_string()), "Policy error: a"),
    ];
    for (e, text) in cases {
        assert_eq!(e.message(), text);
    }
}

#[test]
fn a_short_series_is_judged_by_its_points() {
    let r = check_series_guardrails(&singles(&[1.0, 2.0])).unwrap();
    assert!(!r.passed);
    assert!(r.should_abstain);
    assert_eq!(r.abstention_code.as_deref(), Some("__insufficient__"));
    assert!(r.reason.unwrap().contains("Insufficient valid data points"));
    assert!(!r.is_flatline);
    assert_eq!(float(r.variance), 0.25);
    let same = check_series_guardrails(&singles(&[5.0, f32::NAN, 5.0])).unwrap();
    assert!(same.reason.unwrap().contains("Insufficient valid data points"));
    assert!(same.is_flatline);
    assert_eq!(float(same.variance), 0.0);
    let none = check_series_guardrails(&singles(&[f32::NAN])).unwrap();
    assert!(none.is_flatline);
    assert_eq!(float(none.variance), 0.0);
}

#[test]
fn a_sparse_series_is_judged_by_its_points() {
    let with_gaps = |points: [f32; 3]| {
        let mut s = vec![f32::NAN; 7];
        s.extend(points);
        check_series_guardrails(&singles(&s)).unwrap()
    };
    let same = with_gaps([3.0, 3.0, 3.0]);
    assert!(same.reason.unwrap().starts_with("High NaN ratio: 70.0%"));
    assert!(same.is_flatline);
    assert_eq!(float(same.variance), 0.0);
    let rising = with_gaps([1.0, 2.0, 3.0]);
    assert!(rising.reason.unwrap().starts_with("High NaN ratio: 70.0%"));
    assert!(!rising.is_flatline);
    assert_eq!(float(rising.variance), (14.0f64 / 3.0 - 4.0) as f32);
}

#[test]
fn the_order_of_the_points_does_not_matter() {
    let (nan, inf) = (f32::NAN, f32::INFINITY);
    let a = check_series_guardrails(&singles(&[3.0, nan, -1.5, 2.0, inf, 7.25, 0.5])).unwrap();
    let b = check_series_guardrails(&singles(&[-inf, 7.25, 0.5, 3.0, 2.0, -1.5, inf])).unwrap();
    assert_eq!((a.total_points, a.valid_points, a.nan_count), (7, 5, 2));
    assert_eq!((b.total_points, b.valid_points, b.nan_count), (7, 5, 2));
    assert_eq!(a.nan_ratio, b.nan_ratio);
    assert_eq!((float(a.min_val), float(a.max_val)), (-1.5, 7.25));
    assert_eq!((float(b.min_val), float(b.max_val)), (-1.5, 7.25));
}

#[test]
fn test_forecaster_evaluate_policy_helper_method() {
    let test_series = vec![1.0f32, 2.0, 3.0, 2.0, 1.0, 4.0];
    let guard = check_series_guardrails(&singles(&test_series))
        .expect("Guardrail check via forecaster should succeed");
    assert!(guard.passed);

    let rows: Vec<Vec<f32>> = (0..5)
        .map(|_| vec![90.0, 95.0, 100.0, 110.0, 120.0, 130.0, 140.0, 150.0, 160.0])
        .collect();
    let forecast = forecast_of("forecaster-helper-test", &[120.0f32; 5], &rows);

    let request = policy_request(&forecast, "scaling", false, None)
        .expect("evaluate_policy helper on TimesFMForecaster should succeed");
    let answer = policy_answer(vec![ZevAnswer {
        decision: Some(Decision::Text(recommended(&request))),
        confidence: Double::from_bits(0.75f64.to_bits()),
        status: "ok".to_string(),
    }])
    .unwrap();

    assert!(matches!(&answer.decision, Some(Decision::Text(t)) if t == "scale_up"));
    assert!(option_ids(&request).contains(&"scale_up".to_string()));
}
