use timesfm::model::running::{
    get_running_stats, make_safe_for_division, revin, update_running_stats, RunningStats,
};
use timesfm::util::linear_interpolation;
use timesfm::Single;

fn single(x: f32) -> Single {
    Single::from_bits(x.to_bits())
}

fn float(x: Single) -> f32 {
    f32::from_bits(x.to_bits())
}

fn singles(v: &[f32]) -> Vec<Single> {
    v.iter().map(|&x| single(x)).collect()
}

fn floats(v: &[Single]) -> Vec<f32> {
    v.iter().map(|&x| float(x)).collect()
}

#[test]
fn test_revin_roundtrip() {
    let x = singles(&[10.0f32, 20.0, 30.0, 40.0]);
    let mu = single(25.0);
    let sigma = single(10.0);

    let norm = revin(&x, mu, sigma, false);
    let denorm = revin(&norm, mu, sigma, true);

    let diff = denorm
        .iter()
        .zip(&x)
        .map(|(a, b)| (float(*a) - float(*b)).abs())
        .fold(0.0f32, f32::max);
    assert!(diff < 1e-5, "RevIN roundtrip diff must be < 1e-5, got {}", diff);
    assert_eq!(floats(&norm), vec![-1.5, -0.5, 0.5, 1.5]);
    assert_eq!(floats(&revin(&x, mu, single(1e-7), false)), vec![-15.0, -5.0, 5.0, 15.0]);
}

#[test]
fn test_running_stats() {
    let values = vec![singles(&[1.0f32, 2.0, 3.0, 4.0]), singles(&[5.0, 6.0, 7.0, 8.0])];
    let masks = vec![singles(&[0.0; 4]), singles(&[0.0; 4])];

    let stats = get_running_stats(&values, &masks);

    assert_eq!(stats.len(), 2);

    let mu0 = float(stats[0].mu);
    assert!((mu0 - 2.5).abs() < 1e-4, "Expected 2.5, got {}", mu0);

    let mu1 = float(stats[1].mu);
    assert!((mu1 - 4.5).abs() < 1e-4, "Expected 4.5, got {}", mu1);
    assert_eq!(float(stats[1].n), 8.0);
    assert!((float(stats[1].sigma) - (21.0f32 / 4.0).sqrt()).abs() < 1e-5);
}

#[test]
fn masked_points_leave_the_statistics_alone() {
    let start = RunningStats { n: single(2.0), mu: single(3.0), sigma: single(1.0) };
    let all = update_running_stats(start, &singles(&[100.0, -7.0]), &singles(&[1.0, 1.0]));
    assert_eq!(float(all.n), 2.0);
    assert_eq!(float(all.mu), 3.0);
    assert_eq!(float(all.sigma), 1.0);
    let none = RunningStats { n: single(0.0), mu: single(0.0), sigma: single(0.0) };
    let part = update_running_stats(none, &singles(&[100.0, 4.0, 6.0]), &singles(&[1.0, 0.0, -0.0]));
    assert_eq!(float(part.n), 2.0);
    assert_eq!(float(part.mu), 5.0);
    assert_eq!(float(part.sigma), 1.0);
    let empty = update_running_stats(none, &singles(&[9.0]), &singles(&[1.0]));
    assert_eq!(float(empty.mu), 0.0);
    assert_eq!(float(empty.sigma), 0.0);
}

#[test]
fn small_divisors_become_one() {
    let r = make_safe_for_division(&singles(&[0.0, 1e-7, 1e-6, 0.5, -3.0]));
    assert_eq!(floats(&r), vec![1.0, 1.0, 1e-6, 0.5, 1.0]);
}

#[test]
fn gaps_are_interpolated() {
    let nan = f32::NAN;
    let fill = |v: &[f32]| floats(&linear_interpolation(&singles(v)));
    assert_eq!(fill(&[nan, 1.0, nan, nan, 4.0, f32::INFINITY]), vec![1.0, 1.0, 2.0, 3.0, 4.0, 4.0]);
    assert_eq!(fill(&[nan, nan]), vec![0.0, 0.0]);
    assert_eq!(fill(&[2.0, 5.0]), vec![2.0, 5.0]);
    assert_eq!(fill(&[]), Vec::<f32>::new());
    let (a, b) = (0.1f32, 0.7f32);
    let step = (b - a) / 3.0f32;
    assert_eq!(fill(&[a, nan, nan, b]), vec![a, a + step * 1.0, a + step * 2.0, b]);
    assert_eq!(fill(&[f32::MAX, nan, -f32::MAX])[1], f32::NEG_INFINITY);
}
