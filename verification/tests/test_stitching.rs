use timesfm::model::detrend::{apply_linear_detrending, future_time};
use timesfm::model::patches::{get_output_patch_via_roll, stitch_patches};
use timesfm::{Double, Single};

fn single(x: f32) -> Single {
    Single::from_bits(x.to_bits())
}

fn float(x: Single) -> f32 {
    f32::from_bits(x.to_bits())
}

fn singles(v: &[f32]) -> Vec<Single> {
    v.iter().map(|&x| single(x)).collect()
}

fn floats(v: &[Single]) -> Vec<f32> {
    v.iter().map(|&x| float(x)).collect()
}

#[test]
fn test_get_output_patch_via_roll() {
    let x = vec![singles(&[1.0f32, 2.0]), singles(&[3.0, 4.0]), singles(&[5.0, 6.0])];
    let rolls = 2;
    let (rolled, wrap_mask) = get_output_patch_via_roll(&x, rolls);

    assert_eq!(rolled.len(), 3);
    assert_eq!(rolled[0].len(), 4);
    assert_eq!(wrap_mask.len(), 3);
    assert_eq!(wrap_mask[0].len(), 4);

    assert_eq!(floats(&rolled[0]), vec![3.0, 4.0, 5.0, 6.0]);
    assert_eq!(floats(&rolled[2]), vec![1.0, 2.0, 3.0, 4.0]);
    assert_eq!(floats(&wrap_mask[0]), vec![0.0, 0.0, 0.0, 0.0]);
    assert_eq!(floats(&wrap_mask[1]), vec![0.0, 0.0, 1.0, 1.0]);
    assert_eq!(floats(&wrap_mask[2]), vec![1.0, 1.0, 1.0, 1.0]);
}

#[test]
fn test_stitch_patches_linear() {
    let p0 = singles(&[1.0f32, 2.0, 3.0, 4.0, 10.0, 10.0]);
    let p1 = singles(&[20.0f32, 20.0, 7.0, 8.0, 9.0, 10.0]);

    let stitched = stitch_patches(&vec![p0, p1], 4);
    assert_eq!(stitched.len(), 10);

    let vals = floats(&stitched);
    assert_eq!(vals[0], 1.0);
    assert_eq!(vals[3], 4.0);
    assert_eq!(vals[4], 10.0);
    assert_eq!(vals[5], 20.0);
    assert_eq!(vals[6], 7.0);
    assert_eq!(vals[9], 10.0);
}

#[test]
fn overlaps_are_mixed_by_weight() {
    let p0 = singles(&[0.0, 0.0, 0.0, 8.0, 8.0, 8.0]);
    let p1 = singles(&[4.0, 4.0, 4.0, 1.0, 2.0, 3.0]);
    let one = singles(&[5.0, 6.0]);
    assert_eq!(
        floats(&stitch_patches(&vec![p0, p1], 3)),
        vec![0.0, 0.0, 0.0, 8.0, 6.0, 4.0, 1.0, 2.0, 3.0]
    );
    assert_eq!(floats(&stitch_patches(&vec![one.clone()], 1)), vec![5.0, 6.0]);
    // an overlap of one point keeps the earlier patch
    assert_eq!(
        floats(&stitch_patches(&vec![singles(&[1.0, 2.0, 9.0]), singles(&[7.0, 3.0, 4.0])], 2)),
        vec![1.0, 2.0, 9.0, 3.0, 4.0]
    );
    // none at all lays them end to end
    assert_eq!(floats(&stitch_patches(&vec![one.clone(), one], 2)), vec![5.0, 6.0, 5.0, 6.0]);
}

#[test]
fn test_linear_detrending_slope() {
    let n = 16;
    let mut y_vec = Vec::with_capacity(n);
    for i in 0..n {
        let y = 2.0 * (i as f32) + 5.0;
        y_vec.push(y);
    }
    let ctx_vals = singles(&y_vec);
    let ctx_masks = singles(&[0.0; 16]);

    let d = apply_linear_detrending(&ctx_vals, &ctx_masks, Double::from_bits(0.5f64.to_bits()));

    assert!(d.applied, "Perfect line must be detrended");

    let det_var = floats(&d.values).iter().map(|v| v * v).sum::<f32>() / n as f32;
    assert!(det_var < 1e-4, "Detrended variance should be close to 0, got {}", det_var);
    // one unit of time is the whole context
    assert!((float(d.line.slope) - 32.0).abs() < 1e-3);
    assert!((float(d.line.level) - 35.0).abs() < 1e-3);
    let next = d.line.at(future_time(0, 16));
    assert!((float(next) - 37.0).abs() < 1e-3);
}

#[test]
fn noise_is_not_detrended() {
    let v: Vec<f32> = (0..16).map(|i| if i % 2 == 0 { 1.0 } else { -1.0 }).collect();
    let half = Double::from_bits(0.5f64.to_bits());
    let d = apply_linear_detrending(&singles(&v), &singles(&[0.0; 16]), half);
    assert!(!d.applied);
    assert_eq!(floats(&d.values), v);
    let blind = apply_linear_detrending(&singles(&v), &singles(&[1.0; 16]), half);
    assert_eq!(float(blind.line.slope), 0.0);
    assert!(!blind.applied);
}
