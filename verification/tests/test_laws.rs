use timesfm::forecaster::average_symmetric;
use timesfm::json::Json;
use timesfm::mcp::catalogue::tool_list;
use timesfm::mcp::decode::type_complaint;
use timesfm::mcp::tools::{multivariate_args, trend_args, univariate_args};
use timesfm::mcp::{evaluate_trend, handle_message, MockForecaster};
use timesfm::model::running::revin;
use timesfm::util::linear_interpolation;
use timesfm::{check_series_guardrails, Single};

fn single(x: f32) -> Single {
    Single::from_bits(x.to_bits())
}

fn float(x: Single) -> f32 {
    f32::from_bits(x.to_bits())
}

fn singles(v: &[f32]) -> Vec<Single> {
    v.iter().map(|&x| single(x)).collect()
}

#[test]
fn differences_turn_with_their_sign() {
    for (a, b) in [(1.5f32, 0.1f32), (-3.0, 2.25), (1e38, -1e38), (3e38, -3e38), (1e-45, 3e-45)] {
        let (x, y) = (single(a), single(b));
        assert_eq!(x.minus(y), y.minus(x).negated());
        assert_eq!(x.negated().times(y), x.times(y).negated());
        assert_eq!(x.plus(Single::zero()), x);
        assert_eq!(x.minus(x), Single::zero());
    }
    assert_eq!(single(-0.0).plus(Single::zero()), Single::zero());
}

#[test]
fn symmetric_forecasts_are_odd() {
    let a = singles(&[4.0, -1.0, 0.3, 7.0]);
    let b = singles(&[1.0, 2.5, 0.1, -7.0]);
    let there = average_symmetric(&a, &b);
    let back = average_symmetric(&b, &a);
    for (x, y) in there.iter().zip(&back) {
        assert_eq!(*x, y.negated());
    }
    assert_eq!(float(average_symmetric(&a, &a)[0]), 0.0);
}

#[test]
fn constant_series_never_pass() {
    for c in [0.0f32, 1.0, -7.25, 3e38, 1e-40] {
        for n in [1usize, 3, 50] {
            let mut v = vec![c; n];
            v.push(f32::NAN);
            assert!(!check_series_guardrails(&singles(&v)).unwrap().passed);
        }
    }
}

#[test]
fn trends_keep_their_bounds() {
    let series: [&[f32]; 4] =
        [&[1.0, 9.0, 1.0, 9.0], &[0.1, 0.2, 0.30000001], &[5.0], &[1e30, -1e30, 1e30]];
    for s in series {
        let t = evaluate_trend(&singles(s)).unwrap();
        let r = float(t.r_squared);
        assert!(!(r < 0.0) && !(r > 1.0));
        assert!(!t.has_strong_trend || t.direction != "flat");
    }
}

#[test]
fn arguments_are_listed_as_they_are_read() {
    let tools = tool_list();
    let items = match tools.get("tools") {
        Some(Json::Array(items)) => items,
        _ => panic!("no list"),
    };
    for tool in items {
        let name = match tool.get("name") {
            Some(Json::Text(s)) => s.clone(),
            _ => panic!("no name"),
        };
        let schema = tool.get("inputSchema").unwrap();
        let required = match schema.get("required") {
            Some(Json::Array(items)) => items,
            _ => panic!("no list"),
        };
        let read = |j: &Json| match name.as_str() {
            "forecast_univariate" => univariate_args(j).err(),
            "forecast_multivariate" => multivariate_args(j).err(),
            _ => trend_args(j).err(),
        };
        let mut args = Json::object();
        for r in required {
            let field = match r {
                Json::Text(s) => s.clone(),
                _ => panic!("no name"),
            };
            assert_eq!(read(&args), Some(format!("missing field `{}`", field)));
            let value = if field == "horizon" { Json::Unsigned(1) } else { Json::list() };
            args = args.with(&field, value);
        }
        assert_eq!(read(&args), None);
        match schema.get("properties") {
            Some(Json::Object(members)) => {
                for (field, _) in members {
                    let doubled = Json::object().with(field, Json::list()).with(field, Json::list());
                    assert!(read(&doubled).is_some());
                }
            }
            _ => panic!("no properties"),
        }
        let twice = args.with("horizon", Json::Unsigned(2)).with("series", Json::list());
        assert!(read(&twice).unwrap().starts_with("duplicate field"));
    }
}

#[test]
fn every_answer_has_a_result_or_an_error() {
    let f = MockForecaster::default();
    for m in [
        "",
        "{}",
        "[1]",
        "{\"jsonrpc\":\"2.0\",\"id\":5,\"method\":\"ping\"}",
        "{\"jsonrpc\":\"2.0\",\"id\":5,\"method\":\"tools/call\"}",
        "{\"jsonrpc\":\"2.0\",\"id\":5,\"method\":\"x\"}",
    ] {
        let a = handle_message(m, &f).unwrap();
        assert_eq!(a.jsonrpc, "2.0");
        assert_eq!(a.result.is_some(), a.error.is_none());
    }
}

#[test]
fn complaints_are_worded() {
    assert_eq!(type_complaint("a", "b"), "invalid type: a, expected b");
}

#[test]
fn digits_read_back() {
    for n in [0usize, 9, 10, 101, 999_999, 1_000_000] {
        let mut t = String::new();
        timesfm::decimal::push_count(&mut t, n);
        assert_eq!(t.parse::<usize>().unwrap(), n);
    }
}

#[test]
fn turned_series_have_turned_trends() {
    let cases: [&[f32]; 5] = [
        &[1.0, 2.5, 3.0, 7.25],
        &[4.0, 1.0, -3.0, -3.5, -9.0],
        &[2.0, 2.0, 2.0],
        &[0.0, -5.0, 5.0, 0.1],
        &[-6.0],
    ];
    for c in cases {
        let turned: Vec<f32> = c.iter().map(|x| -x).collect();
        let r = evaluate_trend(&singles(c)).unwrap();
        let s = evaluate_trend(&singles(&turned)).unwrap();
        assert_eq!(s.count, r.count);
        assert_eq!(float(s.slope), -float(r.slope));
        assert_eq!(float(s.intercept), -float(r.intercept));
        assert_eq!(float(s.mean), -float(r.mean));
        assert_eq!(float(s.min), -float(r.max));
        assert_eq!(float(s.max), -float(r.min));
        assert_eq!(float(s.std_dev), float(r.std_dev));
        assert_eq!(float(s.r_squared), float(r.r_squared));
        assert_eq!(s.has_strong_trend, r.has_strong_trend);
        let other = match r.direction.as_str() {
            "upward" => "downward",
            "downward" => "upward",
            d => d,
        };
        assert_eq!(s.direction, other);
    }
}

#[test]
fn a_second_interpolation_changes_nothing() {
    let (nan, max) = (f32::NAN, f32::MAX);
    let cases: [&[f32]; 4] = [
        &[nan, 0.1, nan, nan, 0.7, f32::INFINITY, -3.0, nan],
        &[0.0, nan, nan, nan, nan, nan, nan, max],
        &[max, nan, max / 3.0, nan, nan, -max / 2.0],
        &[1e-45, nan, nan, 3e-45, nan, 0.0],
    ];
    for c in cases {
        let once = linear_interpolation(&singles(c));
        assert!(once.iter().all(|x| float(*x).is_finite()));
        assert_eq!(linear_interpolation(&once), once);
    }
    // the sides of this gap lie too far apart for their difference
    let wide = linear_interpolation(&singles(&[-max, nan, max]));
    assert_eq!(float(wide[1]), f32::INFINITY);
}

#[test]
fn a_row_taken_back_from_scale_is_nearly_the_row() {
    let x: [f32; 8] = [10.0, 0.1, -7.3, 1e-20, 0.0, 12345.678, 1e30, -1e-45];
    for (mu, sigma) in [(25.0f32, 10.0f32), (-0.3, 1e-6), (1e10, 3.7), (0.0, 1e-3)] {
        let there = revin(&singles(&x), single(mu), single(sigma), false);
        let back = revin(&there, single(mu), single(sigma), true);
        for (b, a) in back.iter().zip(&x) {
            let off = (float(*b) as f64 - *a as f64).abs();
            let least = f64::from_bits(0x36a0_0000_0000_0000);
            let bound = (a.abs() as f64 + mu.abs() as f64) / 2097152.0
                + (1.0 + 2.0 * sigma as f64) * least;
            assert!(!float(*b).is_finite() || off <= bound);
        }
    }
}
