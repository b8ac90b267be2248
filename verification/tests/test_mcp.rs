use timesfm::forecaster::{assemble, average_symmetric, mirror, prepare, ForecastOptions};
use timesfm::json::{parse_json, Json};
use timesfm::mcp::server::answer;
use timesfm::mcp::tools::{univariate_reply, ToolContent};
use timesfm::mcp::{
    evaluate_trend, handle_line, handle_message, CallToolResult, Forecaster, JsonRpcResponse,
    MockForecaster, RpcResult,
};
use timesfm::model::decode::{decode_series, encode_series, Role};
use timesfm::model::plan::plan_decode;
use timesfm::model::window::Series;
use timesfm::{Double, ForecastOutput, Single, TimesFM3Config, TimesfmError};

fn single(x: f32) -> Single {
    Single::from_bits(x.to_bits())
}

fn float(x: Single) -> f32 {
    f32::from_bits(x.to_bits())
}

fn singles(v: &[f32]) -> Vec<Single> {
    v.iter().map(|&x| single(x)).collect()
}

fn value(r: &JsonRpcResponse) -> &Json {
    match &r.result {
        Some(RpcResult::Value(v)) => v,
        _ => panic!("no value"),
    }
}

fn tool(r: &JsonRpcResponse) -> &CallToolResult {
    match &r.result {
        Some(RpcResult::Tool(t)) => t,
        _ => panic!("no tool result"),
    }
}

fn at<'a>(j: &'a Json, path: &[&str]) -> &'a Json {
    let mut j = j;
    for name in path {
        j = j.get(name).expect("member");
    }
    j
}

fn text(j: &Json) -> &str {
    match j {
        Json::Text(s) => s,
        _ => panic!("not a text"),
    }
}

fn failure(r: &JsonRpcResponse) -> &str {
    let t = tool(r);
    assert!(t.is_error);
    assert_eq!(t.content.len(), 1);
    match &t.content[0] {
        ToolContent::Text { text } => text,
        _ => panic!("not a text"),
    }
}

fn error(r: &JsonRpcResponse) -> (i64, &str) {
    assert!(r.result.is_none());
    let e = r.error.as_ref().unwrap();
    assert!(e.data.is_none());
    (e.code, &e.message)
}

fn call(name: &str, arguments: &str) -> JsonRpcResponse {
    let msg = format!(
        "{{\"jsonrpc\":\"2.0\",\"id\":7,\"method\":\"tools/call\",\"params\":{{\"name\":\"{}\",\"arguments\":{}}}}}",
        name, arguments
    );
    handle_message(&msg, &MockForecaster::default()).unwrap()
}

#[test]
fn test_initialize_handshake() {
    let forecaster = MockForecaster::default();
    let req = r#"{
        "jsonrpc": "2.0",
        "id": 1,
        "method": "initialize",
        "params": {
            "protocolVersion": "2024-11-05",
            "capabilities": {},
            "clientInfo": {
                "name": "test-client",
                "version": "1.0.0"
            }
        }
    }"#;

    let resp = handle_message(req, &forecaster).expect("Expected response for initialize request");

    assert_eq!(resp.jsonrpc, "2.0");
    assert!(matches!(resp.id, Json::Unsigned(1)));
    let result = value(&resp);
    assert_eq!(text(at(result, &["protocolVersion"])), "2024-11-05");
    assert_eq!(text(at(result, &["serverInfo", "name"])), "timesfm-mcp");
    assert_eq!(text(at(result, &["serverInfo", "version"])), "0.1.0");
    assert!(matches!(at(result, &["capabilities", "tools"]), Json::Object(_)));
}

#[test]
fn test_ping() {
    let forecaster = MockForecaster::default();
    let req = r#"{"jsonrpc": "2.0", "id": "ping-test-42", "method": "ping"}"#;

    let resp = handle_message(req, &forecaster).expect("Expected response for ping");

    assert_eq!(resp.jsonrpc, "2.0");
    assert_eq!(text(&resp.id), "ping-test-42");
    match value(&resp) {
        Json::Object(members) => assert_eq!(members.len(), 0),
        _ => panic!("not an object"),
    }
}

#[test]
fn test_notification_no_response() {
    let forecaster = MockForecaster::default();
    let req = r#"{"jsonrpc": "2.0", "method": "notifications/initialized"}"#;

    let resp = handle_message(req, &forecaster);
    assert!(resp.is_none(), "Notifications must not produce a response");
}

#[test]
fn test_tools_list() {
    let forecaster = MockForecaster::default();
    let req = r#"{"jsonrpc": "2.0", "id": 2, "method": "tools/list"}"#;

    let resp = handle_message(req, &forecaster).expect("Expected response for tools/list");

    let tools = match at(value(&resp), &["tools"]) {
        Json::Array(items) => items,
        _ => panic!("tools array"),
    };
    assert_eq!(tools.len(), 3);

    let tool_names: Vec<&str> = tools.iter().map(|t| text(at(t, &["name"]))).collect();

    assert!(tool_names.contains(&"forecast_univariate"));
    assert!(tool_names.contains(&"forecast_multivariate"));
    assert!(tool_names.contains(&"evaluate_trend"));

    let named = |name: &str| tools.iter().find(|t| text(at(t, &["name"])) == name).unwrap();
    let is_object =
        |t: &Json, p: &str| matches!(at(t, &["inputSchema", "properties", p]), Json::Object(_));

    let uni = named("forecast_univariate");
    assert!(is_object(uni, "context"));
    assert!(is_object(uni, "horizon"));
    assert!(is_object(uni, "return_quantiles"));

    let multi = named("forecast_multivariate");
    assert!(is_object(multi, "contexts"));
    assert!(is_object(multi, "horizon"));
    assert!(is_object(multi, "past_only_covariates"));
    assert!(is_object(multi, "past_future_covariates"));

    let trend = named("evaluate_trend");
    assert!(is_object(trend, "series"));
}

#[test]
fn test_evaluate_trend_direct() {
    let series_up = singles(&[1.0, 2.0, 3.0, 4.0, 5.0]);
    let res_up = evaluate_trend(&series_up).unwrap();
    assert_eq!(res_up.count, 5);
    assert!((float(res_up.slope) - 1.0).abs() < 1e-4);
    assert_eq!(res_up.direction, "upward");
    assert!(res_up.has_strong_trend);
    assert!((float(res_up.r_squared) - 1.0).abs() < 1e-4);

    let series_down = singles(&[50.0, 40.0, 30.0, 20.0, 10.0]);
    let res_down = evaluate_trend(&series_down).unwrap();
    assert_eq!(res_down.direction, "downward");
    assert!(float(res_down.slope) < 0.0);
    assert!(res_down.has_strong_trend);

    let series_flat = singles(&[7.0, 7.0, 7.0, 7.0]);
    let res_flat = evaluate_trend(&series_flat).unwrap();
    assert_eq!(res_flat.direction, "flat");
    assert_eq!(float(res_flat.slope), 0.0);
    assert!(!res_flat.has_strong_trend);

    assert!(evaluate_trend(&[]).is_err());
}

#[test]
fn trend_matches_plain_arithmetic() {
    let s = [3.25f32, -1.5, 7.125, 0.1, 0.2, 12.75, 5.5];
    let t = evaluate_trend(&singles(&s)).unwrap();
    let n = s.len() as f32;
    let mean = s.iter().sum::<f32>() / n;
    let ss_tot: f32 = s.iter().map(|&y| (y - mean).powi(2)).sum();
    let t_mean = ((s.len() - 1) as f32) / 2.0;
    let (mut cov, mut var) = (0.0f32, 0.0f32);
    for (i, &y) in s.iter().enumerate() {
        let d = i as f32 - t_mean;
        cov += d * (y - mean);
        var += d.powi(2);
    }
    let slope = cov / var;
    let intercept = mean - slope * t_mean;
    let ss_res: f32 =
        s.iter().enumerate().map(|(i, &y)| (y - (slope * (i as f32) + intercept)).powi(2)).sum();
    assert_eq!(float(t.mean), mean);
    assert_eq!(float(t.std_dev), (ss_tot / n).sqrt());
    assert_eq!(float(t.slope), slope);
    assert_eq!(float(t.intercept), intercept);
    assert_eq!(float(t.r_squared), (1.0 - ss_res / ss_tot).clamp(0.0, 1.0));
    assert_eq!(float(t.min), -1.5);
    assert_eq!(float(t.max), 12.75);
    let zeros = evaluate_trend(&singles(&[-0.0, -0.0])).unwrap();
    let sum: f32 = [-0.0f32, -0.0].iter().sum();
    assert_eq!(zeros.mean.to_bits(), (sum / 2.0).to_bits());
}

#[test]
fn test_tools_call_evaluate_trend() {
    let forecaster = MockForecaster::default();
    let req = r#"{
        "jsonrpc": "2.0",
        "id": 10,
        "method": "tools/call",
        "params": {
            "name": "evaluate_trend",
            "arguments": {
                "series": [10.0, 20.0, 30.0, 40.0]
            }
        }
    }"#;

    let resp = handle_message(req, &forecaster).unwrap();

    assert!(matches!(resp.id, Json::Unsigned(10)));
    assert!(!tool(&resp).is_error);
    match &tool(&resp).content[0] {
        ToolContent::Trend(t) => {
            assert_eq!(t.direction, "upward");
            assert_eq!(t.count, 4);
            assert!((float(t.slope) - 10.0).abs() < 1e-3);
        }
        _ => panic!("not a trend"),
    }
}

#[test]
fn test_tools_call_forecast_univariate_mock() {
    let forecaster = MockForecaster::default();
    let req = r#"{
        "jsonrpc": "2.0",
        "id": 11,
        "method": "tools/call",
        "params": {
            "name": "forecast_univariate",
            "arguments": {
                "context": [1.0, 2.0, 3.0, 4.0, 5.0],
                "horizon": 4,
                "return_quantiles": true
            }
        }
    }"#;

    let resp = handle_message(req, &forecaster).unwrap();

    assert!(matches!(resp.id, Json::Unsigned(11)));
    assert!(!tool(&resp).is_error);

    match &tool(&resp).content[0] {
        ToolContent::Univariate(u) => {
            assert_eq!(u.point_forecast.len(), 4);
            assert_eq!(u.horizon, 4);
            let quantiles = u.quantiles.as_ref().unwrap();
            assert_eq!(quantiles.len(), 4);
            assert_eq!(quantiles[0].len(), 9);
            assert_eq!(u.quantile_levels.len(), 9);
            assert_eq!(u.point_forecast, singles(&[5.0, 5.0, 5.0, 5.0]));
            let levels = [0.1f64, 0.2, 0.3, 0.4, 0.5, 0.6, 0.7, 0.8, 0.9];
            for (i, &q) in levels.iter().enumerate() {
                assert_eq!(float(quantiles[0][i]), 5.0f32 + (q as f32 - 0.5) * 2.0);
                assert_eq!(f64::from_bits(u.quantile_levels[i].to_bits()), q);
            }
        }
        _ => panic!("not a forecast"),
    }
}

#[test]
fn test_tools_call_forecast_multivariate_mock() {
    let forecaster = MockForecaster::default();
    let req = r#"{
        "jsonrpc": "2.0",
        "id": 12,
        "method": "tools/call",
        "params": {
            "name": "forecast_multivariate",
            "arguments": {
                "contexts": [
                    [1.0, 2.0, 3.0],
                    [4.0, 5.0, 6.0]
                ],
                "horizon": 3,
                "return_quantiles": true
            }
        }
    }"#;

    let resp = handle_message(req, &forecaster).unwrap();

    assert!(matches!(resp.id, Json::Unsigned(12)));
    assert!(!tool(&resp).is_error);

    match &tool(&resp).content[0] {
        ToolContent::Multivariate(m) => {
            assert_eq!(m.forecasts.len(), 2);
            assert_eq!(m.forecasts[0].len(), 3);
            assert_eq!(m.forecasts[1].len(), 3);
            assert_eq!(m.num_variates, 2);
            assert_eq!(m.horizon, 3);
            assert_eq!(m.forecasts[1], singles(&[6.0, 6.0, 6.0]));
        }
        _ => panic!("not a forecast"),
    }
}

/// A model whose layers repeat the mean of each token.
struct Synthetic {
    config: TimesFM3Config,
}

impl Synthetic {
    fn decode(&self, target: &[Vec<Single>], horizon: usize, po: &[Vec<Single>], pf: &[Vec<Single>]) -> Vec<Single> {
        let context = target[0].len();
        let future = if pf.is_empty() { None } else { Some(pf[0].len()) };
        let plan = plan_decode(&self.config, context, horizon, future).unwrap();
        let width = self.config.output_patch_len * self.config.quantiles.len();
        let mut out = Vec::new();
        let encode = |s: &Vec<Single>, role| {
            let series = Series { values: s.clone(), mask: None };
            encode_series(&series, &None, role, &plan, &self.config)
        };
        for s in po {
            let _ = encode(s, Role::PastOnly);
        }
        for s in pf {
            let _ = encode(s, Role::PastFuture);
        }
        for s in target {
            let e = encode(s, Role::Target);
            let raw: Vec<Vec<Single>> = e
                .tokens
                .rows
                .iter()
                .map(|row| {
                    let mean = row.iter().map(|x| float(*x)).sum::<f32>() / row.len() as f32;
                    vec![single(mean); width]
                })
                .collect();
            out.extend(decode_series(&raw, &e, &plan, &self.config));
        }
        out
    }
}

impl Forecaster for Synthetic {
    fn forecast_univariate(&self, context: &Vec<Single>, horizon: usize, return_quantiles: bool) -> Result<ForecastOutput, TimesfmError> {
        self.forecast_multivariate(&vec![context.clone()], horizon, &None, &None, return_quantiles)
    }

    fn forecast_multivariate(
        &self,
        contexts: &Vec<Vec<Single>>,
        horizon: usize,
        past_only_covariates: &Option<Vec<Vec<Single>>>,
        past_future_covariates: &Option<Vec<Vec<Single>>>,
        return_quantiles: bool,
    ) -> Result<ForecastOutput, TimesfmError> {
        let options = ForecastOptions { return_quantiles, ..Default::default() };
        let p = prepare(contexts, horizon, past_only_covariates, past_future_covariates, &options)?;
        let rows: Vec<Vec<Single>> = p.target.chunks(p.context_len).map(|c| c.to_vec()).collect();
        let po: Vec<Vec<Single>> = match &p.past_only {
            Some((_, flat)) => flat.chunks(p.context_len).map(|c| c.to_vec()).collect(),
            None => Vec::new(),
        };
        let pf: Vec<Vec<Single>> = match &p.past_future {
            Some((_, flat)) => flat.chunks(p.total_len.unwrap()).map(|c| c.to_vec()).collect(),
            None => Vec::new(),
        };
        let logits = self.decode(&rows, horizon, &po, &pf);
        let q = self.config.quantiles.len();
        Ok(assemble(&logits, horizon, q, &p.scales, p.is_non_negative, &options))
    }

    fn quantile_levels(&self) -> Vec<Double> {
        self.config.quantiles.clone()
    }
}

#[test]
fn test_synthetic_timesfm_forecaster_tools() {
    let mut config = TimesFM3Config::default();
    config.input_patch_len = 8;
    config.output_patch_len = 16;
    let forecaster = Synthetic { config };

    let ones = vec!["1.0"; 32].join(",");
    let req_uni = format!(
        "{{\"jsonrpc\":\"2.0\",\"id\":20,\"method\":\"tools/call\",\"params\":{{\"name\":\"forecast_univariate\",\"arguments\":{{\"context\":[{}],\"horizon\":12,\"return_quantiles\":true}}}}}}",
        ones
    );
    let resp = handle_message(&req_uni, &forecaster).unwrap();
    assert!(matches!(resp.id, Json::Unsigned(20)));
    assert!(!tool(&resp).is_error);
    match &tool(&resp).content[0] {
        ToolContent::Univariate(u) => {
            assert_eq!(u.point_forecast.len(), 12);
            let quantiles = u.quantiles.as_ref().unwrap();
            assert_eq!(quantiles.len(), 12);
            assert_eq!(quantiles[0].len(), 9);
        }
        _ => panic!("not a forecast"),
    }

    let req_multi = format!(
        "{{\"jsonrpc\":\"2.0\",\"id\":21,\"method\":\"tools/call\",\"params\":{{\"name\":\"forecast_multivariate\",\"arguments\":{{\"contexts\":[[{}],[{}]],\"horizon\":6,\"past_only_covariates\":[[{}]],\"past_future_covariates\":[[{}]],\"return_quantiles\":true}}}}}}",
        vec!["1.0"; 24].join(","),
        vec!["2.0"; 24].join(","),
        vec!["0.5"; 24].join(","),
        vec!["0.8"; 24 + 6].join(",")
    );
    let resp = handle_message(&req_multi, &forecaster).unwrap();
    assert!(matches!(resp.id, Json::Unsigned(21)));
    assert!(!tool(&resp).is_error);
    match &tool(&resp).content[0] {
        ToolContent::Multivariate(m) => {
            assert_eq!(m.forecasts.len(), 2);
            assert_eq!(m.forecasts[0].len(), 6);
            assert_eq!(m.forecasts[1].len(), 6);
        }
        _ => panic!("not a forecast"),
    }
}

#[test]
fn test_error_handling() {
    let forecaster = MockForecaster::default();

    let resp = handle_message("not valid json", &forecaster).unwrap();
    assert_eq!(error(&resp), (-32700, "Parse error"));
    assert!(matches!(resp.id, Json::Null));

    let req_unknown = r#"{"jsonrpc": "2.0", "id": 99, "method": "unknown_method"}"#;
    let resp = handle_message(req_unknown, &forecaster).unwrap();
    assert_eq!(error(&resp), (-32601, "Method not found: unknown_method"));

    let req_bad_tool = r#"{
        "jsonrpc": "2.0",
        "id": 100,
        "method": "tools/call",
        "params": {
            "name": "non_existent_tool",
            "arguments": {}
        }
    }"#;
    let resp = handle_message(req_bad_tool, &forecaster).unwrap();
    assert!(tool(&resp).is_error);
    assert_eq!(failure(&resp), "Unknown tool: non_existent_tool");

    let req_bad_args = r#"{
        "jsonrpc": "2.0",
        "id": 101,
        "method": "tools/call",
        "params": {
            "name": "forecast_univariate",
            "arguments": {
                "context": []
            }
        }
    }"#;
    let resp = handle_message(req_bad_args, &forecaster).unwrap();
    assert!(tool(&resp).is_error);
    assert_eq!(
        failure(&resp),
        "Invalid arguments for forecast_univariate: missing field `horizon`"
    );
}

#[test]
fn requests_are_held_to_their_shape() {
    let f = MockForecaster::default();
    let cases = [
        ("[]", "invalid length 0, expected struct JsonRpcRequest with 4 elements"),
        ("[\"2.0\"]", "invalid length 1, expected struct JsonRpcRequest with 4 elements"),
        ("[\"2.0\",1,\"ping\",null,5]", "invalid length 5, expected fewer elements in array"),
        ("5", "invalid type: integer `5`, expected struct JsonRpcRequest"),
        ("-5", "invalid type: integer `-5`, expected struct JsonRpcRequest"),
        ("true", "invalid type: boolean `true`, expected struct JsonRpcRequest"),
        ("null", "invalid type: null, expected struct JsonRpcRequest"),
        ("1.5", "invalid type: floating point `1.5`, expected struct JsonRpcRequest"),
        ("\"a\\nb\"", "invalid type: string \"a\\nb\", expected struct JsonRpcRequest"),
        ("{}", "missing field `jsonrpc`"),
        ("{\"jsonrpc\":\"2.0\"}", "missing field `method`"),
        ("{\"jsonrpc\":[],\"method\":\"ping\"}", "invalid type: sequence, expected a string"),
        ("{\"jsonrpc\":\"2.0\",\"method\":{}}", "invalid type: map, expected a string"),
        ("{\"method\":5,\"jsonrpc\":6}", "invalid type: integer `6`, expected a string"),
    ];
    for (msg, complaint) in cases {
        let resp = handle_message(msg, &f).unwrap();
        assert_eq!(error(&resp), (-32600, format!("Invalid Request: {}", complaint).as_str()));
        assert!(matches!(resp.id, Json::Null));
    }
    let positional = handle_message("[\"2.0\",9,\"ping\"]", &f).unwrap();
    assert!(matches!(positional.id, Json::Unsigned(9)));
    assert!(handle_message("{\"jsonrpc\":\"2.0\",\"id\":null,\"method\":\"ping\"}", &f).is_none());
    let echoed = handle_message("{\"jsonrpc\":\"1\",\"id\":-2.5e3,\"method\":\"ping\"}", &f).unwrap();
    match &echoed.id {
        Json::Float { value, text } => {
            assert_eq!(f64::from_bits(value.to_bits()), -2500.0);
            assert_eq!(text, "-2500.0");
        }
        _ => panic!("not a number"),
    }
}

#[test]
fn tool_calls_are_held_to_their_shape() {
    let f = MockForecaster::default();
    let bare = |params: &str| {
        let msg = format!("{{\"jsonrpc\":\"2.0\",\"id\":1,\"method\":\"tools/call\"{}}}", params);
        handle_message(&msg, &f).unwrap()
    };
    assert_eq!(error(&bare("")), (-32602, "Missing params in tools/call"));
    assert_eq!(error(&bare(",\"params\":null")), (-32602, "Missing params in tools/call"));
    for params in [",\"params\":{}", ",\"params\":[1]", ",\"params\":{\"name\":3}"] {
        assert_eq!(error(&bare(params)), (-32602, "Missing 'name' in tools/call params"));
    }
    assert_eq!(
        failure(&bare(",\"params\":{\"name\":\"evaluate_trend\"}")),
        "Invalid arguments for evaluate_trend: missing field `series`"
    );

    let uni = "Invalid arguments for forecast_univariate: ";
    let cases = [
        ("null", format!("{}invalid type: null, expected struct ForecastUnivariateArgs", uni)),
        ("[[1]]", format!("{}invalid length 1, expected struct ForecastUnivariateArgs with 3 elements", uni)),
        ("{\"context\":3}", format!("{}invalid type: integer `3`, expected a sequence", uni)),
        ("{\"context\":[1,\"x\"]}", format!("{}invalid type: string \"x\", expected f32", uni)),
        ("{\"context\":[1],\"horizon\":-1}", format!("{}invalid value: integer `-1`, expected usize", uni)),
        ("{\"context\":[1],\"horizon\":2.0}", format!("{}invalid type: floating point `2.0`, expected usize", uni)),
        ("{\"context\":[1],\"horizon\":1,\"return_quantiles\":0}", format!("{}invalid type: integer `0`, expected a boolean", uni)),
        ("{\"context\":[],\"horizon\":1}", "Context cannot be empty".to_string()),
        ("{\"context\":[1],\"horizon\":0}", "Horizon must be greater than 0".to_string()),
    ];
    for (arguments, expected) in cases {
        assert_eq!(failure(&call("forecast_univariate", arguments)), expected);
    }

    let multi = "Invalid arguments for forecast_multivariate: ";
    let cases = [
        ("{\"contexts\":[1],\"horizon\":1}", format!("{}invalid type: integer `1`, expected a sequence", multi)),
        ("{\"contexts\":[[1]],\"horizon\":1,\"past_only_covariates\":7}", format!("{}invalid type: integer `7`, expected a sequence", multi)),
        ("{\"contexts\":[],\"horizon\":1}", "Contexts cannot be empty".to_string()),
        ("{\"contexts\":[[1]],\"horizon\":0}", "Horizon must be greater than 0".to_string()),
        ("{\"contexts\":[[]],\"horizon\":1}", "Context length cannot be 0".to_string()),
        ("{\"contexts\":[[1,2],[1]],\"horizon\":1}", "Variate at index 1 has length 1, expected 2".to_string()),
        ("{\"contexts\":[[1,2]],\"horizon\":1,\"past_only_covariates\":[[1,2],[1,2,3]]}", "Past-only covariate at index 1 has length 3, expected 2".to_string()),
        ("{\"contexts\":[[1,2]],\"horizon\":3,\"past_future_covariates\":[[1,2]]}", "Past-future covariate at index 0 has length 2, expected 5".to_string()),
    ];
    for (arguments, expected) in cases {
        assert_eq!(failure(&call("forecast_multivariate", arguments)), expected);
    }

    assert_eq!(failure(&call("evaluate_trend", "{\"series\":[]}")), "Series cannot be empty");
    assert_eq!(failure(&call("evaluate_trend", "[]")), "Invalid arguments for evaluate_trend: invalid length 0, expected struct EvaluateTrendArgs with 1 element");
}

#[test]
fn numbers_are_read_to_the_nearest() {
    let r = call("forecast_univariate", "{\"context\":[16777217,-3,0.1],\"horizon\":1}");
    match &tool(&r).content[0] {
        ToolContent::Univariate(u) => {
            assert_eq!(float(u.point_forecast[0]), 0.1f64 as f32);
            assert!(u.quantiles.is_some());
        }
        _ => panic!("not a forecast"),
    }
    let r = call("forecast_univariate", "{\"context\":[16777217],\"horizon\":1,\"return_quantiles\":false}");
    match &tool(&r).content[0] {
        ToolContent::Univariate(u) => {
            assert_eq!(float(u.point_forecast[0]), 16777217i64 as f32);
            assert!(u.quantiles.is_none());
        }
        _ => panic!("not a forecast"),
    }
}

#[test]
fn a_failed_forecast_is_reported() {
    let failed = univariate_reply(Err(TimesfmError::Shape("odd".to_string())), Vec::new(), 3);
    assert!(failed.is_error);
    match &failed.content[0] {
        ToolContent::Text { text } => {
            assert_eq!(text, "Forecast execution error: Invalid dimension or shape: odd")
        }
        _ => panic!("not a text"),
    }
    let empty = ForecastOutput { ts_id: None, forecast: Vec::new(), quantiles: Some(Vec::new()) };
    match &univariate_reply(Ok(empty), Vec::new(), 3).content[0] {
        ToolContent::Univariate(u) => {
            assert_eq!(u.point_forecast.len(), 0);
            assert!(u.quantiles.is_none());
        }
        _ => panic!("not a forecast"),
    }
}

#[test]
fn the_mock_refuses_empty_input() {
    let f = MockForecaster::default();
    let message = |r: Result<ForecastOutput, TimesfmError>| r.err().unwrap().message();
    assert_eq!(
        message(f.forecast_univariate(&Vec::new(), 1, true)),
        "Inference error: Context cannot be empty"
    );
    assert_eq!(
        message(f.forecast_univariate(&singles(&[1.0]), 0, true)),
        "Inference error: Horizon must be greater than 0"
    );
    assert_eq!(
        message(f.forecast_multivariate(&Vec::new(), 1, &None, &None, true)),
        "Inference error: Contexts cannot be empty"
    );
    let r = f.forecast_multivariate(&vec![Vec::new()], 2, &None, &None, false).unwrap();
    assert_eq!(r.forecast, vec![singles(&[0.0, 0.0])]);
    assert!(r.quantiles.is_none());
}

#[test]
fn lines_are_trimmed_and_blank_ones_skipped() {
    let f = MockForecaster::default();
    assert!(handle_line("  \t ", &f).is_none());
    let r = handle_line(" {\"jsonrpc\":\"2.0\",\"id\":1,\"method\":\"ping\"}\r", &f).unwrap();
    assert!(r.error.is_none());
    assert!(answer(None, &f).unwrap().error.is_some());
}

#[test]
fn json_is_read_level_by_level() {
    let j = parse_json("{\"b\":[1,-2,0.5,null,true,\"\\u00e9\"],\"a\":{}}").unwrap();
    match &j {
        Json::Object(members) => {
            assert_eq!(members[0].0, "a");
            assert_eq!(members[1].0, "b");
            match &members[1].1 {
                Json::Array(items) => {
                    assert!(matches!(items[0], Json::Unsigned(1)));
                    assert!(matches!(items[1], Json::Negative(-2)));
                    assert!(matches!(&items[2], Json::Float { text, .. } if text == "0.5"));
                    assert!(matches!(items[3], Json::Null));
                    assert!(matches!(items[4], Json::Bool(true)));
                    assert_eq!(text(&items[5]), "\u{e9}");
                }
                _ => panic!("not a list"),
            }
        }
        _ => panic!("not an object"),
    }
    assert!(parse_json("{").is_none());
    assert!(parse_json("{\"a\":1}x").is_none());
    match j.clone() {
        Json::Object(members) => assert_eq!(members.len(), 2),
        _ => panic!("not an object"),
    }
}

#[test]
fn symmetric_averages_are_halved_differences() {
    let a = singles(&[4.0, -1.0, 0.5]);
    let b = singles(&[2.0, 3.0, 0.5]);
    assert_eq!(average_symmetric(&a, &b), singles(&[1.0, -2.0, 0.0]));
    assert_eq!(mirror(&a), singles(&[-4.0, 1.0, -0.5]));
}

#[test]
fn lengths_are_added_without_a_limit() {
    let r = call(
        "forecast_multivariate",
        "{\"contexts\":[[1,2]],\"horizon\":18446744073709551615,\"past_future_covariates\":[[1]]}",
    );
    assert_eq!(
        failure(&r),
        "Past-future covariate at index 0 has length 1, expected 18446744073709551617"
    );
}

#[test]
fn lines_are_answered_in_order() {
    let f = MockForecaster::default();
    let lines = [
        "{\"jsonrpc\":\"2.0\",\"id\":1,\"method\":\"ping\"}",
        "",
        "{\"jsonrpc\":\"2.0\",\"method\":\"notifications/initialized\"}",
        "{",
        "{\"jsonrpc\":\"2.0\",\"id\":2,\"method\":\"nothing\"}",
    ];
    let sent: Vec<JsonRpcResponse> = lines.iter().filter_map(|l| handle_line(l, &f)).collect();
    assert_eq!(sent.len(), 3);
    assert!(matches!(sent[0].id, Json::Unsigned(1)) && sent[0].error.is_none());
    assert!(matches!(sent[1].id, Json::Null) && sent[1].error.is_some());
    assert!(matches!(sent[2].id, Json::Unsigned(2)) && sent[2].error.is_some());
}

#[test]
fn requests_are_answered_under_their_id() {
    let f = MockForecaster::default();
    let r = handle_message(
        "{\"id\":[7,\"x\"],\"jsonrpc\":\"2.0\",\"more\":1,\"method\":\"ping\"}",
        &f,
    )
    .unwrap();
    match &r.id {
        Json::Array(items) => {
            assert!(matches!(items[0], Json::Unsigned(7)));
            assert_eq!(text(&items[1]), "x");
        }
        _ => panic!("not a list"),
    }
    // of a name that comes twice the last value is kept
    match parse_json("{\"a\":1,\"b\":2,\"a\":3}").unwrap() {
        Json::Object(members) => {
            assert_eq!(members.len(), 2);
            assert!(matches!(members[0].1, Json::Unsigned(3)));
        }
        _ => panic!("not an object"),
    }
}
