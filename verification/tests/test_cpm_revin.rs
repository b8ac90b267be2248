use timesfm::model::cpm::cpm_iterative_revin_refine;
use timesfm::model::running::RunningStats;
use timesfm::{Double, Single};

fn single(x: f32) -> Single {
    Single::from_bits(x.to_bits())
}

fn float(x: Single) -> f32 {
    f32::from_bits(x.to_bits())
}

fn clip(x: f64) -> Double {
    Double::from_bits(x.to_bits())
}

fn stats(n: f32, mu: f32, sigma: f32) -> RunningStats {
    RunningStats { n: single(n), mu: single(mu), sigma: single(sigma) }
}

#[test]
fn test_cpm_revin_refine_shapes() {
    let (b, v, n) = (2, 3, 8);
    let (rolls, patch_len) = (2, 2);
    let mut refined_mu = Vec::new();
    let mut refined_sigma = Vec::new();
    for _ in 0..b * v {
        let medians = vec![vec![vec![Single::zero(); patch_len]; rolls]; n];
        let actual: Vec<RunningStats> = (0..n).map(|_| stats(1.0, 0.0, 1.0)).collect();
        let hidden = vec![false; n];
        let refined =
            cpm_iterative_revin_refine(&medians, &actual, &hidden, rolls, patch_len, clip(1e9));
        refined_mu.push(refined.iter().map(|s| s.mu).collect::<Vec<_>>());
        refined_sigma.push(refined.iter().map(|s| s.sigma).collect::<Vec<_>>());
    }

    assert_eq!(refined_mu.len(), b * v);
    assert_eq!(refined_sigma.len(), b * v);
    for (mu, sigma) in refined_mu.iter().zip(&refined_sigma) {
        assert_eq!(mu.len(), n);
        assert_eq!(sigma.len(), n);
        assert!(mu.iter().all(|x| float(*x) == 0.0));
        assert!(sigma.iter().all(|x| float(*x) == 1.0));
    }
}

#[test]
fn hidden_patches_take_in_what_was_predicted() {
    // at the one known patch the next two patches are predicted as 5, 5 and 7, 7
    let one = vec![vec![single(2.0); 2], vec![single(3.0); 2]];
    let zero = vec![vec![Single::zero(); 2]; 2];
    let medians = vec![one, zero.clone(), zero.clone(), zero];
    let actual = vec![stats(2.0, 1.0, 2.0), stats(2.0, 1.0, 2.0), stats(2.0, 1.0, 2.0), stats(2.0, 1.0, 2.0)];
    let hidden = vec![false, true, true, true];
    let r = cpm_iterative_revin_refine(&medians, &actual, &hidden, 2, 2, clip(1e9));
    assert_eq!(float(r[0].mu), 1.0);
    assert_eq!(float(r[1].n), 4.0);
    assert_eq!(float(r[1].mu), 3.0);
    assert_eq!(float(r[2].n), 6.0);
    assert!((float(r[2].mu) - 26.0 / 6.0).abs() < 1e-5);
    // the prediction is used up, and a new one taken up at the second hidden patch
    assert!((float(r[3].mu) - 26.0 / 6.0).abs() < 1e-5);
    assert_eq!(float(r[3].n), 8.0);
}

#[test]
fn predictions_are_clipped() {
    let medians = vec![vec![vec![single(100.0)]], vec![vec![single(0.0)]]];
    let actual = vec![stats(1.0, 0.0, 1.0), stats(1.0, 0.0, 1.0)];
    let r = cpm_iterative_revin_refine(&medians, &actual, &vec![false, true], 1, 1, clip(10.0));
    assert_eq!(float(r[1].mu), 5.0);
}

#[test]
fn statistics_of_hidden_patches_do_not_matter() {
    let block = |a: f32, b: f32| vec![vec![single(a); 2], vec![single(b); 2]];
    let medians = vec![block(2.0, 3.0), block(-1.0, 0.5), block(4.0, 4.0), block(0.0, 9.0)];
    let hidden = vec![false, true, false, true];
    let known = stats(2.0, 1.0, 2.0);
    let later = stats(4.0, -3.0, 0.5);
    let odd = stats(77.0, f32::NAN, 1e30);
    let a = vec![known, known, later, later];
    let b = vec![known, odd, later, odd];
    let x = cpm_iterative_revin_refine(&medians, &a, &hidden, 2, 2, clip(1e9));
    let y = cpm_iterative_revin_refine(&medians, &b, &hidden, 2, 2, clip(1e9));
    for (s, t) in x.iter().zip(&y) {
        assert_eq!((s.n, s.mu, s.sigma), (t.n, t.mu, t.sigma));
    }
    assert_eq!((float(x[2].n), float(x[2].mu), float(x[2].sigma)), (4.0, -3.0, 0.5));
}
