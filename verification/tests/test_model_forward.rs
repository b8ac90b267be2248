use timesfm::config::TimesFM3Config;
use timesfm::model::decode::{decode_series, encode_series, Encoded, Role};
use timesfm::model::layers::{
    attention_mask, check_rotary_inputs, head_dims, head_features, horizon_head_dims, positions,
    token_dims,
};
use timesfm::model::plan::{horizon_fits, mark_horizon, plan_decode, DecodePlan};
use timesfm::model::tokens::{postprocess, preprocess};
use timesfm::model::window::Series;
use timesfm::{Double, Single, TimesFM2p5Config, TimesfmError};

fn single(x: f32) -> Single {
    Single::from_bits(x.to_bits())
}

fn float(x: Single) -> f32 {
    f32::from_bits(x.to_bits())
}

fn singles(v: &[f32]) -> Vec<Single> {
    v.iter().map(|&x| single(x)).collect()
}

fn floats(v: &[Single]) -> Vec<f32> {
    v.iter().map(|&x| float(x)).collect()
}

fn config() -> TimesFM3Config {
    let mut c = TimesFM3Config::default();
    c.input_patch_len = 8;
    c.output_patch_len = 16;
    c.quantiles = [0.1f64, 0.5, 0.9].iter().map(|q| Double::from_bits(q.to_bits())).collect();
    c
}

fn noise(seed: u64, n: usize) -> Vec<f32> {
    let mut x = seed.wrapping_mul(0x9e37_79b9_7f4a_7c15) | 1;
    (0..n)
        .map(|_| {
            x = x.wrapping_mul(6364136223846793005).wrapping_add(1442695040888963407);
            ((x >> 40) as f32 / (1u64 << 24) as f32) * 2.0 - 1.0
        })
        .collect()
}

/// Layers that give the same numbers for every token.
fn layers(e: &Encoded, width: usize) -> Vec<Vec<Single>> {
    e.tokens.rows.iter().map(|_| (0..width).map(|k| single(k as f32)).collect()).collect()
}

fn encode(values: &[f32], role: Role, plan: &DecodePlan, c: &TimesFM3Config) -> Encoded {
    let s = Series { values: singles(values), mask: None };
    encode_series(&s, &None, role, plan, c)
}

#[test]
fn test_forward_pass_shapes() {
    let c = config();
    let (b, v, n, p) = (2, 3, 4, 8);
    let rolls = c.output_patch_len / c.input_patch_len;
    for lane in 0..b * v {
        let values: Vec<Vec<Single>> =
            (0..n).map(|i| singles(&noise((lane * n + i) as u64 + 1, p))).collect();
        let masks = vec![singles(&[0.0; 8]); n];
        let tokens = preprocess(&values, &masks, &singles(&[1.0; 4]), None, &None, rolls);
        assert_eq!(tokens.rows.len(), n);
        assert!(tokens.rows.iter().all(|r| r.len() == token_dims(&c)));
        assert_eq!(tokens.blank, vec![false; 4]);
        let raw: Vec<Vec<Single>> =
            tokens.rows.iter().map(|_| singles(&noise(7, head_dims(&c)))).collect();
        let logits = postprocess(&raw, &tokens.stats, &None, rolls, p, 3, c.value_clip);
        assert_eq!(logits.len(), 4);
        assert!(logits.iter().all(|r| r.len() == 16 * 3));
        for i in 0..n {
            for (x, y) in raw[i].iter().zip(&logits[i]) {
                let expected = float(*x) * float(tokens.stats[i].sigma) + float(tokens.stats[i].mu);
                assert_eq!(float(*y), expected);
            }
        }
    }
}

#[test]
fn test_decode_univariate() {
    let c = config();
    let (b, context_len) = (2, 32);
    let horizon = 32;
    let plan = plan_decode(&c, context_len, horizon, None).unwrap();
    let out: Vec<Vec<Single>> = (0..b)
        .map(|i| {
            let e = encode(&noise(i + 1, context_len), Role::Target, &plan, &c);
            decode_series(&layers(&e, head_dims(&c)), &e, &plan, &c)
        })
        .collect();

    assert_eq!(out.len(), 2);
    assert!(out.iter().all(|r| r.len() == 32 * 3));
    assert!(out.iter().all(|r| r.iter().all(|x| float(*x).is_finite())));
}

#[test]
fn test_decode_multivariate_with_covariates() {
    let c = config();
    let (b, v, context_len) = (2, 3, 32);
    let horizon = 16;
    let plan = plan_decode(&c, context_len, horizon, Some(context_len + horizon)).unwrap();
    for _ in 0..b {
        for i in 0..2 {
            let e = encode(&noise(i + 50, context_len), Role::PastOnly, &plan, &c);
            assert_eq!(e.tokens.rows.len(), plan.total_patches);
        }
        let e = encode(&noise(60, context_len + horizon), Role::PastFuture, &plan, &c);
        assert_eq!(e.tokens.rows.len(), plan.total_patches);
        let out: Vec<Vec<Single>> = (0..v)
            .map(|i| {
                let e = encode(&noise(i as u64 + 1, context_len), Role::Target, &plan, &c);
                decode_series(&layers(&e, head_dims(&c)), &e, &plan, &c)
            })
            .collect();
        assert_eq!(out.len(), 3);
        assert!(out.iter().all(|r| r.len() == 16 * 3));
    }
}

#[test]
fn plans_cover_context_and_horizon() {
    let mut c = config();
    for stitch in [true, false] {
        c.use_stitching = stitch;
        for context in 1..40usize {
            for horizon in 1..70usize {
                let plan = plan_decode(&c, context, horizon, None).unwrap();
                assert!(horizon_fits(&c, horizon));
                assert_eq!(plan.context % 8, 0);
                assert!(plan.context >= context && plan.context < context + 8);
                assert!(plan.padded_horizon >= horizon);
                assert_eq!(plan.padded_horizon % 8, 0);
                assert_eq!(plan.total_patches * 8, plan.context + plan.padded_horizon);
                let (p, o) = (8usize, 16usize);
                if stitch {
                    let overlap = (2 * p).min(o) - p;
                    let nfp =
                        (((horizon as f64 - overlap as f64) / (p as f64)).ceil() as usize).max(1);
                    assert_eq!(plan.num_forecast_patches, nfp);
                    assert_eq!(plan.padded_horizon, (nfp + o / p - 1) * p);
                } else {
                    let hp = (o - (horizon % o)) % o;
                    assert_eq!(plan.hor_padding, hp);
                    assert_eq!(plan.num_forecast_patches, (horizon + hp) / o);
                }
            }
        }
    }
    match plan_decode(&c, 8, 0, None) {
        Err(TimesfmError::Candle(m)) => assert_eq!(m, "Decode requires horizon > 0"),
        _ => panic!("expected an error"),
    }
    assert!(plan_decode(&c, 8, 5, Some(8)).is_err());
    assert_eq!(plan_decode(&c, 8, 5, Some(11)).unwrap().horizon, 3);
    c.use_frozen_running_stats = true;
    assert_eq!(plan_decode(&c, 17, 5, None).unwrap().freeze_after, Some(2));
    c.output_patch_len = 12;
    c.use_stitching = true;
    assert!(horizon_fits(&c, 4));
    assert!(!horizon_fits(&c, 11));
}

#[test]
fn the_horizon_of_a_target_is_hidden() {
    let c = config();
    let plan = plan_decode(&c, 12, 8, None).unwrap();
    let e = encode(&noise(3, 12), Role::Target, &plan, &c);
    let w = &e.window;
    assert_eq!(w.values.len(), plan.context + plan.padded_horizon);
    assert!(floats(&w.masks[..4]).iter().all(|m| *m == 1.0));
    assert!(floats(&w.masks[4..16]).iter().all(|m| *m == 0.0));
    assert!(floats(&w.masks[16..]).iter().all(|m| *m == 1.0));
    assert!(floats(&w.values[16..]).iter().all(|m| *m == 0.0));
    assert!(floats(&w.values[..4]).iter().all(|m| *m == 0.0));
    for (i, row) in e.tokens.rows.iter().enumerate() {
        assert!(floats(&row[8..24]).iter().all(|x| *x == 0.0), "looks ahead at {}", i);
    }
    assert_eq!(floats(&mark_horizon(&plan)), vec![0.0, 0.0, 1.0, 1.0]);
    assert_eq!(e.tokens.blank, vec![false; 4]);
}

#[test]
fn a_known_future_is_seen() {
    let mut c = config();
    c.use_linear_detrending = false;
    let plan = plan_decode(&c, 8, 8, Some(16)).unwrap();
    let values: Vec<f32> = (0..16).map(|i| i as f32).collect();
    let e = encode(&values, Role::PastFuture, &plan, &c);
    assert_eq!(floats(&e.window.values[..16]), values);
    assert!(floats(&e.window.masks[..16]).iter().all(|m| *m == 0.0));
    assert!(floats(&e.window.masks[16..]).iter().all(|m| *m == 1.0));
    // the first token looks one patch ahead, normalized as the first patch is
    let s = e.tokens.stats[0];
    let ahead = floats(&e.tokens.rows[0][8..16]);
    for (k, x) in ahead.iter().enumerate() {
        assert_eq!(*x, ((8 + k) as f32 - float(s.mu)) / float(s.sigma));
    }
}

#[test]
fn trends_go_back_onto_the_forecast() {
    let mut c = config();
    c.use_iterative_cpm_revin = false;
    let line: Vec<f32> = (0..16).map(|i| 3.0 * i as f32 + 1.0).collect();
    let plan = plan_decode(&c, 16, 8, None).unwrap();
    let e = encode(&line, Role::Target, &plan, &c);
    assert!(e.window.applied);
    let raw = vec![vec![Single::zero(); head_dims(&c)]; plan.total_patches];
    let out = decode_series(&raw, &e, &plan, &c);
    for h in 0..8 {
        assert!((float(out[h * 3]) - (3.0 * (16 + h) as f32 + 1.0)).abs() < 1e-2);
    }
}

#[test]
fn patches_laid_end_to_end() {
    let mut c = config();
    c.use_stitching = false;
    c.use_linear_detrending = false;
    c.use_iterative_cpm_revin = false;
    let plan = plan_decode(&c, 8, 20, None).unwrap();
    let mut e = encode(&noise(5, 8), Role::Target, &plan, &c);
    for s in e.tokens.stats.iter_mut() {
        s.mu = single(0.0);
        s.sigma = single(1.0);
    }
    let raw: Vec<Vec<Single>> = (0..plan.total_patches)
        .map(|i| (0..48).map(|k| single((100 * i + k) as f32)).collect())
        .collect();
    let out = decode_series(&raw, &e, &plan, &c);
    // 16 points of patch 0, then the first of patch 2
    assert_eq!(float(out[0]), 0.0);
    assert_eq!(float(out[15 * 3 + 2]), 47.0);
    assert_eq!(float(out[16 * 3 + 1]), 201.0);
    assert_eq!(out.len(), 60);
}

#[test]
fn frozen_statistics_stay() {
    let values = vec![singles(&[1.0, 3.0]), singles(&[5.0, 7.0]), singles(&[100.0, 200.0])];
    let masks = vec![singles(&[0.0, 0.0]); 3];
    let t = preprocess(&values, &masks, &singles(&[1.0; 3]), Some(0), &None, 1);
    assert_eq!(float(t.stats[0].mu), 2.0);
    assert_eq!(float(t.stats[2].mu), 2.0);
    assert_eq!(float(t.stats[2].n), 6.0);
    let u = preprocess(&values, &masks, &singles(&[1.0; 3]), Some(2), &None, 1);
    assert_eq!(float(u.stats[1].mu), 4.0);
    let hidden = Some(singles(&[1.0, 1.0, 0.0]));
    let h = preprocess(&values, &masks, &singles(&[1.0; 3]), None, &hidden, 1);
    assert_eq!(h.blank, vec![true, true, false]);
    assert_eq!(floats(&h.rows[0][..2]), vec![0.0, 0.0]);
}

#[test]
fn layers_are_sized_and_masked() {
    let c = config();
    assert_eq!(token_dims(&c), 48);
    assert_eq!(head_dims(&c), 48);
    assert_eq!(head_features(32, 4), 8);
    let d = TimesFM2p5Config::default();
    assert_eq!(horizon_head_dims(&d), d.horizon_length * d.quantiles.len());
    let far = -1e9f32;
    assert_eq!(
        floats(&attention_mask(3, true)),
        vec![0.0, far, far, 0.0, 0.0, far, 0.0, 0.0, 0.0]
    );
    assert_eq!(floats(&attention_mask(2, false)), vec![0.0; 4]);
    assert_eq!(floats(&positions(3)), vec![0.0, 1.0, 2.0]);
    assert!(check_rotary_inputs(3, 8, 8).is_ok());
    assert!(check_rotary_inputs(4, 8, 8).is_ok());
    let fault = |r: Result<(), TimesfmError>| r.err().unwrap().message();
    assert_eq!(
        fault(check_rotary_inputs(4, 6, 8)),
        "Candle error: Inputs last dim 6 does not match RoPE embedding_dims 8"
    );
    assert_eq!(
        fault(check_rotary_inputs(2, 8, 8)),
        "Candle error: RoPE inputs must be of rank 3 or 4, got rank 2"
    );
}

/// Layers that add up what they are given.
fn adding_layers(e: &Encoded, width: usize) -> Vec<Vec<Single>> {
    let sum = |t: &Vec<Single>| t.iter().map(|x| float(*x)).sum::<f32>();
    e.tokens.rows.iter().map(|t| (0..width).map(|k| single(sum(t) + k as f32)).collect()).collect()
}

#[test]
fn a_known_future_sets_the_horizon() {
    let c = config();
    let answers: Vec<Vec<Single>> = [1usize, 16, 1000]
        .iter()
        .map(|&h| {
            let plan = plan_decode(&c, 32, h, Some(48)).unwrap();
            assert_eq!(plan.horizon, 16);
            let e = encode(&noise(9, 32), Role::Target, &plan, &c);
            decode_series(&adding_layers(&e, head_dims(&c)), &e, &plan, &c)
        })
        .collect();
    assert_eq!(answers[0].len(), 16 * 3);
    assert_eq!(answers[0], answers[1]);
    assert_eq!(answers[0], answers[2]);
}

#[test]
fn padding_counts_as_masked() {
    let c = config();
    let values = noise(4, 13);
    let plan = plan_decode(&c, 13, 10, None).unwrap();
    assert_eq!(plan.ctx_padding, 3);
    let e = encode(&values, Role::Target, &plan, &c);
    let out = decode_series(&adding_layers(&e, head_dims(&c)), &e, &plan, &c);

    let mut longer = vec![0.0f32; 3];
    longer.extend(&values);
    let mut mask = vec![1.0f32; 3];
    mask.extend(vec![0.0f32; 13]);
    let longer_plan = plan_decode(&c, 16, 10, None).unwrap();
    let s = Series { values: singles(&longer), mask: None };
    let f = encode_series(&s, &Some(singles(&mask)), Role::Target, &longer_plan, &c);
    assert_eq!(e.tokens.rows, f.tokens.rows);
    assert_eq!(out, decode_series(&adding_layers(&f, head_dims(&c)), &f, &longer_plan, &c));
}

#[test]
fn the_sign_of_a_zero_does_not_matter() {
    let c = config();
    let plan = plan_decode(&c, 20, 12, None).unwrap();
    let mut values = noise(11, 20);
    for i in [0, 7, 8, 19] {
        values[i] = 0.0;
    }
    let mut turned = values.clone();
    for i in [0, 7, 8, 19] {
        turned[i] = -0.0;
    }
    let a = encode(&values, Role::Target, &plan, &c);
    let b = encode(&turned, Role::Target, &plan, &c);
    for (x, y) in a.tokens.rows.iter().zip(&b.tokens.rows) {
        assert_eq!(floats(x), floats(y));
    }
    let x = decode_series(&adding_layers(&a, head_dims(&c)), &a, &plan, &c);
    let y = decode_series(&adding_layers(&b, head_dims(&c)), &b, &plan, &c);
    assert_eq!(floats(&x), floats(&y));
}
