use serde_json::Value;
use timesfm::forecaster::{assemble, prepare};
use timesfm::model::decode::{decode_series, encode_series, Role};
use timesfm::model::plan::plan_decode;
use timesfm::model::window::Series;
use timesfm::narrative::{
    narrative_candidates, narrative_of_reply, narrative_request, parse_narrative_response,
    synthesize_narrative_from_stats,
};
use timesfm::{
    build_narrative_prompt, compute_summary_stats, Double, ForecastNarrative, ForecastOptions,
    ForecastOutput, ForecastSummaryStats, Single, TimesFM3Config, TimesfmError,
};

fn single(x: f32) -> Single {
    Single::from_bits(x.to_bits())
}

fn float(x: Single) -> f32 {
    f32::from_bits(x.to_bits())
}

fn singles(v: &[f32]) -> Vec<Single> {
    v.iter().map(|&x| single(x)).collect()
}

fn floats(v: &[Single]) -> Vec<f32> {
    v.iter().map(|&x| float(x)).collect()
}

fn forecast(median: &[f32], rows: Option<&[&[f32]]>) -> ForecastOutput {
    ForecastOutput {
        ts_id: None,
        forecast: vec![singles(median)],
        quantiles: rows.map(|r| vec![r.iter().map(|q| singles(q)).collect()]),
    }
}

/// What a text reads as, where it is a narrative in JSON notation.
fn read(text: &str) -> Option<ForecastNarrative> {
    let v: Value = serde_json::from_str(text).ok()?;
    let field = |name: &str| Some(v.get(name)?.as_str()?.to_string());
    let mut risk_alerts = Vec::new();
    for a in v.get("risk_alerts")?.as_array()? {
        risk_alerts.push(a.as_str()?.to_string());
    }
    Some(ForecastNarrative {
        summary: field("summary")?,
        trend_description: field("trend_description")?,
        volatility_analysis: field("volatility_analysis")?,
        risk_alerts,
    })
}

fn generate(f: &ForecastOutput, instruction: Option<&str>, reply: Option<&str>) -> ForecastNarrative {
    let (stats, request) = narrative_request(f, instruction).unwrap();
    assert_eq!(request.max_tokens, Some(512));
    assert!(request.permissive);
    assert_eq!(f64::from_bits(request.temperature.unwrap().to_bits()), 0.2);
    let readings = match reply {
        Some(r) => narrative_candidates(r).iter().map(|c| read(c)).collect(),
        None => Vec::new(),
    };
    narrative_of_reply(reply, readings, &stats)
}

#[test]
fn test_summary_metric_calculations_with_quantiles() {
    let f = forecast(
        &[100.0, 105.0, 110.0, 120.0],
        Some(&[
            &[95.0, 96.0, 97.0, 98.0, 100.0, 102.0, 103.0, 104.0, 105.0],
            &[98.0, 100.0, 102.0, 104.0, 105.0, 107.0, 108.0, 110.0, 112.0],
            &[100.0, 102.0, 105.0, 108.0, 110.0, 113.0, 115.0, 118.0, 122.0],
            &[90.0, 95.0, 100.0, 110.0, 120.0, 125.0, 130.0, 135.0, 140.0],
        ]),
    );

    let stats = compute_summary_stats(&f).unwrap();

    assert!((float(stats.starting_value) - 100.0).abs() < 1e-4);
    assert!((float(stats.final_median) - 120.0).abs() < 1e-4);
    assert!((float(stats.net_drift_percent) - 20.0).abs() < 1e-4);
    assert!((float(stats.max_spread) - 50.0).abs() < 1e-4);
    assert!((float(stats.min_bound) - 90.0).abs() < 1e-4);
    assert!((float(stats.max_bound) - 140.0).abs() < 1e-4);
}

#[test]
fn test_summary_metric_calculations_without_quantiles() {
    let f = forecast(&[50.0, 45.0, 40.0], None);

    let stats = compute_summary_stats(&f).unwrap();

    assert!((float(stats.starting_value) - 50.0).abs() < 1e-4);
    assert!((float(stats.final_median) - 40.0).abs() < 1e-4);
    assert!((float(stats.net_drift_percent) - (-20.0)).abs() < 1e-4);
    assert_eq!(float(stats.max_spread), 0.0);
    assert!((float(stats.min_bound) - 40.0).abs() < 1e-4);
    assert!((float(stats.max_bound) - 50.0).abs() < 1e-4);
}

#[test]
fn test_summary_metric_calculations_empty_error() {
    let empty_forecast = ForecastOutput { ts_id: None, forecast: vec![], quantiles: None };
    assert!(compute_summary_stats(&empty_forecast).is_err());

    let empty_series = ForecastOutput { ts_id: None, forecast: vec![vec![]], quantiles: None };
    match compute_summary_stats(&empty_series) {
        Err(TimesfmError::Inference(m)) => {
            assert_eq!(m, "Forecast series is empty; cannot compute summary statistics")
        }
        _ => panic!("expected an error"),
    }
}

#[test]
fn test_prompt_construction() {
    let f = forecast(
        &[200.0, 220.0, 250.0],
        Some(&[
            &[190.0, 195.0, 198.0, 199.0, 200.0, 202.0, 205.0, 208.0, 210.0],
            &[205.0, 210.0, 215.0, 218.0, 220.0, 225.0, 230.0, 235.0, 240.0],
            &[220.0, 230.0, 240.0, 245.0, 250.0, 260.0, 270.0, 280.0, 300.0],
        ]),
    );

    let stats = compute_summary_stats(&f).unwrap();

    let prompt_default = build_narrative_prompt(&stats, None);
    assert!(prompt_default.contains("Starting Value: 200.0000"));
    assert!(prompt_default.contains("Final Median Forecast: 250.0000"));
    assert!(prompt_default.contains("Net Drift: +25.00%"));
    assert!(prompt_default.contains("Maximum Uncertainty Spread (p90 - p10): 80.0000"));
    assert!(prompt_default.contains("Bounds: [190.0000, 300.0000]"));
    assert!(prompt_default.contains("summary"));
    assert!(prompt_default.contains("trend_description"));
    assert!(prompt_default.contains("volatility_analysis"));
    assert!(prompt_default.contains("risk_alerts"));

    let custom_instruction = "Highlight any potential server capacity breach above 280 units.";
    let prompt_custom = build_narrative_prompt(&stats, Some(custom_instruction));
    assert!(prompt_custom.contains(custom_instruction));
    assert_eq!(build_narrative_prompt(&stats, Some("  ")), prompt_default);

    let expected = format!(
        "You are an expert time-series analyst. Analyze the following time-series forecast and provide a structured narrative summary.\n\n\
        Forecast Metrics:\n\
        - Starting Value: {:.4}\n\
        - Final Median Forecast: {:.4}\n\
        - Net Drift: {:+.2}%\n\
        - Maximum Uncertainty Spread (p90 - p10): {:.4}\n\
        - Bounds: [{:.4}, {:.4}]\n\
        \nRespond strictly in valid JSON matching this schema:\n\
        ```json\n\
        {{\n\
          \"summary\": \"Executive summary of the forecast trajectory.\",\n\
          \"trend_description\": \"Detailed description of direction and velocity.\",\n\
          \"volatility_analysis\": \"Assessment of spread, uncertainty, and bounds.\",\n\
          \"risk_alerts\": [\"Alert 1\", \"Alert 2\"]\n\
        }}\n\
        ```\n",
        200.0f32, 250.0f32, 25.0f32, 80.0f32, 190.0f32, 300.0f32
    );
    assert_eq!(prompt_default, expected);
}

#[test]
fn test_narrative_generation_with_json_response() {
    let f = forecast(&[100.0, 120.0], None);

    let mock_json = r#"{
        "summary": "Projected demand increase of 20% over the planning horizon.",
        "trend_description": "Steady upward movement accelerating towards the end.",
        "volatility_analysis": "Low volatility observed within deterministic bounds [100.0, 120.0].",
        "risk_alerts": ["Potential inventory constraint if supplier lead times increase"]
    }"#;

    let narrative = generate(&f, None, Some(mock_json));

    assert_eq!(
        narrative.summary,
        "Projected demand increase of 20% over the planning horizon."
    );
    assert_eq!(
        narrative.trend_description,
        "Steady upward movement accelerating towards the end."
    );
    assert_eq!(
        narrative.volatility_analysis,
        "Low volatility observed within deterministic bounds [100.0, 120.0]."
    );
    assert_eq!(narrative.risk_alerts.len(), 1);
    assert_eq!(
        narrative.risk_alerts[0],
        "Potential inventory constraint if supplier lead times increase"
    );
}

#[test]
fn test_narrative_generation_with_markdown_fenced_json() {
    let f = forecast(&[50.0, 40.0], None);

    let fenced_response = "Here is the forecast analysis:\n```json\n{\n  \"summary\": \"Decline projected.\",\n  \"trend_description\": \"Negative drift of 20%.\",\n  \"volatility_analysis\": \"Tight bounds.\",\n  \"risk_alerts\": [\"Revenue impact\"]\n}\n```";

    let narrative = generate(&f, None, Some(fenced_response));

    assert_eq!(narrative.summary, "Decline projected.");
    assert_eq!(narrative.trend_description, "Negative drift of 20%.");
    assert_eq!(narrative.volatility_analysis, "Tight bounds.");
    assert_eq!(narrative.risk_alerts, vec!["Revenue impact".to_string()]);
}

#[test]
fn test_narrative_generation_fallback_synthesis() {
    let f = forecast(
        &[100.0, 130.0],
        Some(&[
            &[80.0, 85.0, 90.0, 95.0, 100.0, 105.0, 110.0, 115.0, 120.0],
            &[70.0, 80.0, 90.0, 110.0, 130.0, 140.0, 150.0, 160.0, 175.0],
        ]),
    );

    let narrative = generate(&f, None, Some("This is a response from the mock backend engine."));

    assert!(!narrative.summary.is_empty());
    assert!(narrative.summary.contains("+30.00%"));
    assert!(narrative.trend_description.contains("Upward trend"));
    assert!(narrative.volatility_analysis.contains("p90-p10 spread of 105.00"));
    assert!(!narrative.risk_alerts.is_empty());
    assert_eq!(
        narrative.risk_alerts,
        vec![
            "High drift magnitude: projected change of +30.00% exceeds standard volatility threshold.",
            "Elevated uncertainty: maximum spread (105.00) exceeds 50% of base value (100.00).",
        ]
    );
}

#[test]
fn test_generate_forecast_narrative_default_engine() {
    let f = forecast(&[10.0, 11.0, 12.0], None);

    let narrative = generate(&f, Some("Provide executive overview"), None);

    assert!(!narrative.summary.is_empty());
    assert!(!narrative.trend_description.is_empty());
    assert!(!narrative.volatility_analysis.is_empty());
    assert!(!narrative.risk_alerts.is_empty());
    assert_eq!(
        narrative.summary,
        "Forecast projects a net drift of +20.00% over the horizon, shifting from 10.00 to 12.00."
    );
}

#[test]
fn candidates_are_found_in_order() {
    assert_eq!(narrative_candidates("  plain "), vec!["plain"]);
    assert_eq!(
        narrative_candidates("see ```json\n{\"a\":1}\n``` {x} end"),
        vec!["see ```json\n{\"a\":1}\n``` {x} end", "{\"a\":1}", "{\"a\":1}\n``` {x}"]
    );
    assert_eq!(narrative_candidates("```\nbody\n```"), vec!["```\nbody\n```", "body"]);
    assert_eq!(narrative_candidates("``` open"), vec!["``` open"]);
    assert_eq!(narrative_candidates("} {"), vec!["} {"]);
    assert_eq!(narrative_candidates("{}"), vec!["{}", "{}"]);
}

#[test]
fn a_reading_without_alerts_gets_the_all_clear() {
    let stats = compute_summary_stats(&forecast(&[1.0], None)).unwrap();
    let bare = ForecastNarrative {
        summary: "s".to_string(),
        trend_description: "t".to_string(),
        volatility_analysis: "v".to_string(),
        risk_alerts: Vec::new(),
    };
    let n = parse_narrative_response("x", vec![None, Some(bare)], &stats);
    assert_eq!(n.summary, "s");
    assert_eq!(
        n.risk_alerts,
        vec!["No significant drift or volatility anomalies detected."]
    );
}

#[test]
fn freeform_text_gives_its_first_line() {
    let stats = compute_summary_stats(&forecast(&[0.0, -3.0], None)).unwrap();
    assert_eq!(float(stats.net_drift_percent), -100.0);
    let n = parse_narrative_response("\n \n  First line. \r\nSecond.", Vec::new(), &stats);
    assert_eq!(n.summary, "First line.");
    assert_eq!(
        n.trend_description,
        "Downward trend projected with a decline of -100.00% (starting at 0.00, reaching -3.00)."
    );
    assert_eq!(
        n.volatility_analysis,
        "Low or deterministic volatility with bounds [-3.00, 0.00]."
    );
    assert_eq!(
        n.risk_alerts[1],
        "Prediction interval lower bound breaches zero into negative territory."
    );
}

#[test]
fn drift_from_nothing() {
    let at = |first: f32, last: f32| {
        float(compute_summary_stats(&forecast(&[first, last], None)).unwrap().net_drift_percent)
    };
    assert_eq!(at(0.0, 5.0), 100.0);
    assert_eq!(at(0.0, -5.0), -100.0);
    assert_eq!(at(0.0, 0.0), 0.0);
    assert_eq!(at(3.0, 4.0), ((4.0f32 - 3.0) / 3.0) * 100.0);
    assert_eq!(at(-4.0, -3.0), ((-3.0f32 - -4.0) / -4.0) * 100.0);
}

#[test]
fn small_drift_is_stable() {
    let stats = ForecastSummaryStats {
        starting_value: single(100.0),
        final_median: single(100.5),
        net_drift_percent: single(0.5),
        max_spread: single(2.0),
        min_bound: single(99.0),
        max_bound: single(101.0),
    };
    let n = synthesize_narrative_from_stats("", &stats);
    assert_eq!(
        n.trend_description,
        "Relatively stable trend projected with negligible drift of +0.50% (starting at 100.00, ending at 100.50)."
    );
    assert_eq!(
        n.volatility_analysis,
        "Forecast uncertainty reflects a maximum p90-p10 spread of 2.00, with overall envelope bounded within [99.00, 101.00]."
    );
    assert_eq!(
        n.risk_alerts,
        vec!["No significant drift or volatility anomalies detected."]
    );
}

#[test]
fn spreads_of_short_rows() {
    let f = forecast(&[5.0, 6.0, 7.0], Some(&[&[1.0], &[4.0, 9.0, 2.0], &[]]));
    let s = compute_summary_stats(&f).unwrap();
    assert_eq!(float(s.max_spread), 2.0);
    assert_eq!(float(s.min_bound), 1.0);
    assert_eq!(float(s.max_bound), 9.0);
}

#[test]
fn bounds_cover_the_steps_without_quantiles() {
    let s = compute_summary_stats(&forecast(&[10.0, 5.0], Some(&[&[9.0, 11.0]]))).unwrap();
    assert_eq!(float(s.min_bound), 5.0);
    assert_eq!(float(s.max_bound), 11.0);
    assert_eq!(float(s.max_spread), 2.0);
    assert_eq!(float(s.net_drift_percent), -50.0);
}

#[test]
fn narratives_come_back_as_they_were_written() {
    let j = "{\"summary\":\"S ``` {}\",\"trend_description\":\"T\",\"volatility_analysis\":\"V\",\"risk_alerts\":[\"A\"]}";
    let f = forecast(&[10.0, 5.0], None);
    let replies = [
        j.to_string(),
        format!("  {}\n", j),
        format!("```json\n{}\n```", j),
        format!("Here it is:\n```json\n{}\n```\nThat is all.", j),
    ];
    for reply in &replies {
        assert!(narrative_candidates(reply).contains(&j.to_string()));
        let n = generate(&f, None, Some(reply));
        assert_eq!(n.summary, "S ``` {}");
        assert_eq!(n.trend_description, "T");
        assert_eq!(n.volatility_analysis, "V");
        assert_eq!(n.risk_alerts, vec!["A".to_string()]);
    }
    assert_eq!(narrative_candidates(j)[0], j);
    assert_eq!(narrative_candidates(&replies[2]).last().unwrap(), j);
    let stats = compute_summary_stats(&f).unwrap();
    let plain = generate(&f, None, Some("  Prices fall. \n"));
    let made = synthesize_narrative_from_stats("Prices fall.", &stats);
    assert_eq!(plain.summary, made.summary);
    assert_eq!(plain.risk_alerts, made.risk_alerts);
}

/// The forecast of a series by layers that say zero of every patch.
fn predict_univariate(context: &[f32], horizon: usize, options: &ForecastOptions) -> ForecastOutput {
    let mut c = TimesFM3Config::default();
    c.input_patch_len = 8;
    c.output_patch_len = 16;
    c.quantiles = [0.1f64, 0.2, 0.3, 0.4, 0.5, 0.6, 0.7, 0.8, 0.9]
        .iter()
        .map(|q| Double::from_bits(q.to_bits()))
        .collect();
    let p = prepare(&vec![singles(context)], horizon, &None, &None, options).unwrap();
    let plan = plan_decode(&c, context.len(), horizon, None).unwrap();
    let s = Series { values: p.target.clone(), mask: None };
    let e = encode_series(&s, &None, Role::Target, &plan, &c);
    let raw = vec![vec![Single::zero(); 16 * 9]; plan.total_patches];
    let logits = decode_series(&raw, &e, &plan, &c);
    assemble(&logits, horizon, 9, &p.scales, p.is_non_negative, options)
}

#[test]
fn test_forecaster_explain_with_apfel() {
    let context = vec![1.0f32; 32];
    let horizon = 8;
    let options = ForecastOptions::default();

    let output = predict_univariate(&context, horizon, &options);
    let narrative = generate(&output, Some("Focus on operational stability"), None);

    assert!(!narrative.summary.is_empty());
    assert!(!narrative.trend_description.is_empty());
    assert!(!narrative.volatility_analysis.is_empty());
    assert!(!narrative.risk_alerts.is_empty());
    assert_eq!(floats(&output.forecast[0]), vec![1.0f32; 8]);
    assert_eq!(narrative.risk_alerts.len(), 1);
}
