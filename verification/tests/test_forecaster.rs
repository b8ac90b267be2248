use timesfm::forecaster::{assemble, average_symmetric, mirror, prepare, Scale};
use timesfm::model::decode::{decode_series, encode_series, Role};
use timesfm::model::plan::plan_decode;
use timesfm::model::window::Series;
use timesfm::{ForecastOptions, ForecastOutput, Single, TimesFM3Config, TimesfmError};

fn single(x: f32) -> Single {
    Single::from_bits(x.to_bits())
}

fn float(x: Single) -> f32 {
    f32::from_bits(x.to_bits())
}

fn singles(v: &[f32]) -> Vec<Single> {
    v.iter().map(|&x| single(x)).collect()
}

fn floats(v: &[Single]) -> Vec<f32> {
    v.iter().map(|&x| float(x)).collect()
}

fn config() -> TimesFM3Config {
    let mut c = TimesFM3Config::default();
    c.input_patch_len = 8;
    c.output_patch_len = 16;
    c
}

/// Layers that add up what they are given of each series.
fn decode(rows: &[Vec<Single>], horizon: usize, c: &TimesFM3Config, future: Option<usize>) -> Vec<Single> {
    let plan = plan_decode(c, rows[0].len(), horizon, future).unwrap();
    let width = c.output_patch_len * c.quantiles.len();
    let mut out = Vec::new();
    for row in rows {
        let s = Series { values: row.clone(), mask: None };
        let e = encode_series(&s, &None, Role::Target, &plan, c);
        let raw: Vec<Vec<Single>> = e
            .tokens
            .rows
            .iter()
            .map(|t| {
                let sum: f32 = t.iter().map(|x| float(*x)).sum();
                (0..width).map(|k| single(sum * 0.01 + (k % 9) as f32 * 0.1)).collect()
            })
            .collect();
        out.extend(decode_series(&raw, &e, &plan, c));
    }
    out
}

fn predict(
    contexts: &Vec<Vec<Single>>,
    horizon: usize,
    po: &Option<Vec<Vec<Single>>>,
    pf: &Option<Vec<Vec<Single>>>,
    options: &ForecastOptions,
) -> Result<ForecastOutput, TimesfmError> {
    let c = config();
    let p = prepare(contexts, horizon, po, pf, options)?;
    let future = p.total_len;
    let rows: Vec<Vec<Single>> = p.target.chunks(p.context_len).map(|r| r.to_vec()).collect();
    let mut logits = decode(&rows, horizon, &c, future);
    if options.use_symmetric_averaging {
        let turned: Vec<Vec<Single>> = rows.iter().map(|r| mirror(r)).collect();
        logits = average_symmetric(&logits, &decode(&turned, horizon, &c, future));
    }
    Ok(assemble(&logits, horizon, c.quantiles.len(), &p.scales, p.is_non_negative, options))
}

#[test]
fn test_forecaster_univariate() {
    let context = vec![1.0f32; 32];
    let horizon = 12;
    let options = ForecastOptions::default();

    let output = predict(&vec![singles(&context)], horizon, &None, &None, &options).unwrap();

    assert_eq!(output.forecast.len(), 1);
    assert_eq!(output.forecast[0].len(), horizon);

    let quantiles = output.quantiles.unwrap();
    assert_eq!(quantiles.len(), 1);
    assert_eq!(quantiles[0].len(), horizon);
    assert_eq!(quantiles[0][0].len(), 9);
}

#[test]
fn test_forecaster_multivariate_covariates() {
    let s1 = singles(&vec![1.0f32; 24]);
    let s2 = singles(&vec![2.0f32; 24]);
    let po = singles(&vec![0.5f32; 24]);
    let pf = singles(&vec![0.8f32; 24 + 10]);
    let horizon = 10;

    let options = ForecastOptions {
        return_quantiles: true,
        use_symmetric_averaging: true,
        make_positive: true,
        sort_quantiles: true,
        use_znorm: true,
    };

    let output =
        predict(&vec![s1, s2], horizon, &Some(vec![po]), &Some(vec![pf]), &options).unwrap();

    assert_eq!(output.forecast.len(), 2);
    assert_eq!(output.forecast[0].len(), horizon);
    assert_eq!(output.forecast[1].len(), horizon);
    for row in output.quantiles.unwrap().iter().flatten() {
        assert!(floats(row).windows(2).all(|w| w[0] <= w[1]));
        assert!(floats(row).iter().all(|x| *x >= 0.0));
    }
}

#[test]
fn inputs_are_checked() {
    let o = ForecastOptions::default();
    match prepare(&Vec::new(), 3, &None, &None, &o) {
        Err(TimesfmError::Inference(m)) => assert_eq!(m, "Contexts cannot be empty"),
        _ => panic!("expected an error"),
    }
    match prepare(&vec![singles(&[1.0]), singles(&[1.0, 2.0])], 3, &None, &None, &o) {
        Err(TimesfmError::Shape(m)) => {
            assert_eq!(m, "All variates in multivariate target must have equal context length")
        }
        _ => panic!("expected an error"),
    }
}

#[test]
fn inputs_are_filled_scaled_and_joined() {
    let nan = f32::NAN;
    let mut o = ForecastOptions::default();
    let a = singles(&[1.0, nan, 3.0]);
    let b = singles(&[4.0, 4.0, 7.0]);
    let po = Some(vec![singles(&[nan, 2.0, 2.0])]);
    let pf = Some(vec![singles(&[1.0, nan, nan, nan, 5.0])]);
    let p = prepare(&vec![a.clone(), b.clone()], 2, &po, &pf, &o).unwrap();
    assert_eq!(floats(&p.target), vec![1.0, 2.0, 3.0, 4.0, 4.0, 7.0]);
    assert_eq!(p.past_only.map(|(n, v)| (n, floats(&v))), Some((1, vec![2.0, 2.0, 2.0])));
    assert_eq!(
        p.past_future.map(|(n, v)| (n, floats(&v))),
        Some((1, vec![1.0, 2.0, 3.0, 4.0, 5.0]))
    );
    assert_eq!(p.total_len, Some(5));
    assert!(!p.is_non_negative);
    assert_eq!(float(p.scales[1].deviation), 1.0);

    o.use_znorm = true;
    o.make_positive = true;
    let p = prepare(&vec![a, b], 2, &None, &None, &o).unwrap();
    assert!(p.is_non_negative);
    let mean = (4.0f32 + 4.0 + 7.0) / 3.0;
    let var = ((4.0f32 - mean).powi(2) + (4.0f32 - mean).powi(2) + (7.0f32 - mean).powi(2)) / 3.0;
    assert_eq!(float(p.scales[1].mean), mean);
    assert_eq!(float(p.scales[1].deviation), var.sqrt());
    assert_eq!(float(p.target[5]), (7.0 - mean) / var.sqrt());
    let flat = prepare(&vec![singles(&[3.0, 3.0])], 2, &None, &None, &o).unwrap();
    assert_eq!(float(flat.scales[0].deviation), 1e-6);
    let below = prepare(&vec![singles(&[3.0, -3.0])], 2, &None, &None, &o).unwrap();
    assert!(!below.is_non_negative);
}

#[test]
fn answers_are_restored_clamped_and_sorted() {
    let mut o = ForecastOptions::default();
    o.use_znorm = true;
    let scales = vec![Scale { mean: single(10.0), deviation: single(2.0) }];
    let logits = singles(&[1.0, -1.0, 0.0, -9.0, -8.0, -7.0]);
    let out = assemble(&logits, 2, 3, &scales, true, &o);
    let q = out.quantiles.unwrap();
    assert_eq!(floats(&q[0][0]), vec![8.0, 10.0, 12.0]);
    assert_eq!(floats(&q[0][1]), vec![0.0, 0.0, 0.0]);
    assert_eq!(floats(&out.forecast[0]), vec![10.0, 0.0]);

    o.sort_quantiles = false;
    o.return_quantiles = false;
    o.use_znorm = false;
    let out = assemble(&logits, 2, 3, &scales, false, &o);
    assert!(out.quantiles.is_none());
    assert_eq!(floats(&out.forecast[0]), vec![-1.0, -8.0]);
}

#[test]
fn equal_quantiles_keep_their_order() {
    let o = ForecastOptions::default();
    let scales = vec![Scale { mean: single(0.0), deviation: single(1.0) }];
    let mut row = [0.0f32, 3.0, -0.0, -1.0, 0.0];
    let out = assemble(&singles(&row), 1, 5, &scales, false, &o);
    row.sort_by(|a, b| a.partial_cmp(b).unwrap());
    let bits: Vec<u32> = row.iter().map(|x| x.to_bits()).collect();
    let ours: Vec<u32> = out.quantiles.unwrap()[0][0].iter().map(|x| x.to_bits()).collect();
    assert_eq!(ours, bits);
}

#[test]
fn mirrored_series_have_mirrored_forecasts() {
    let nan = f32::NAN;
    let contexts: Vec<Vec<f32>> = vec![
        (0..32).map(|i| ((i * i) % 7) as f32 - 2.0).collect(),
        (0..32).map(|i| if i % 5 == 3 { nan } else { i as f32 * 0.5 }).collect(),
    ];
    let given: Vec<Vec<Single>> = contexts.iter().map(|c| singles(c)).collect();
    let turned: Vec<Vec<Single>> = given.iter().map(|c| mirror(c)).collect();
    for sort in [true, false] {
        for znorm in [true, false] {
            let options = ForecastOptions {
                return_quantiles: true,
                use_symmetric_averaging: true,
                make_positive: false,
                sort_quantiles: sort,
                use_znorm: znorm,
            };
            let a = predict(&given, 12, &None, &None, &options).unwrap();
            let b = predict(&turned, 12, &None, &None, &options).unwrap();
            let (p, q) = (a.quantiles.unwrap(), b.quantiles.unwrap());
            for v in 0..2 {
                for h in 0..12 {
                    assert_eq!(float(b.forecast[v][h]), -float(a.forecast[v][h]));
                    let n = p[v][h].len();
                    for k in 0..n {
                        let other = if sort { n - 1 - k } else { k };
                        assert_eq!(float(q[v][h][k]), -float(p[v][h][other]));
                    }
                }
            }
        }
    }
}

#[test]
fn positive_forecasts_are_raised_to_zero() {
    let scales = vec![Scale { mean: single(0.0), deviation: single(1.0) }];
    let mut options = ForecastOptions::default();
    let logits = singles(&[3.0, -1.0, 0.5, -4.0, -2.0, -3.0]);
    let plain = assemble(&logits, 2, 3, &scales, false, &options);
    options.make_positive = true;
    let raised = assemble(&logits, 2, 3, &scales, true, &options);
    assert_eq!(floats(&plain.forecast[0]), vec![0.5, -3.0]);
    assert_eq!(floats(&raised.forecast[0]), vec![0.5, 0.0]);
    let (p, r) = (plain.quantiles.unwrap(), raised.quantiles.unwrap());
    for h in 0..2 {
        for k in 0..3 {
            assert_eq!(float(r[0][h][k]), float(p[0][h][k]).max(0.0));
        }
    }
    // one negative point, and nothing is raised
    let mixed = vec![singles(&[1.0, -1.0, 2.0, 3.0])];
    let with = predict(&mixed, 4, &None, &None, &options).unwrap();
    let without = predict(&mixed, 4, &None, &None, &ForecastOptions::default()).unwrap();
    assert_eq!(with.forecast, without.forecast);
    assert_eq!(with.quantiles, without.quantiles);
}
