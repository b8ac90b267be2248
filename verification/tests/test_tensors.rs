//! The library's rows against the same computations on tensors.

use candle_core::{DType, Device, IndexOp, Result, Tensor, D};
use timesfm::model::cpm::cpm_iterative_revin_refine;
use timesfm::model::decode::{decode_series, encode_series, Encoded, Role};
use timesfm::model::detrend::apply_linear_detrending;
use timesfm::model::patches::{get_output_patch_via_roll, stitch_patches};
use timesfm::model::plan::plan_decode;
use timesfm::model::running::{get_running_stats, revin, RunningStats};
use timesfm::model::window::Series;
use timesfm::{Double, Single, TimesFM3Config};

fn single(x: f32) -> Single {
    Single::from_bits(x.to_bits())
}

fn float(x: Single) -> f32 {
    f32::from_bits(x.to_bits())
}

fn singles(v: &[f32]) -> Vec<Single> {
    v.iter().map(|&x| single(x)).collect()
}

fn floats(v: &[Single]) -> Vec<f32> {
    v.iter().map(|&x| float(x)).collect()
}

fn noise(seed: u64, n: usize) -> Vec<f32> {
    let mut x = seed.wrapping_mul(0x9e37_79b9_7f4a_7c15) | 1;
    (0..n)
        .map(|_| {
            x = x.wrapping_mul(6364136223846793005).wrapping_add(1442695040888963407);
            ((x >> 40) as f32 / (1u64 << 24) as f32) * 20.0 - 7.0
        })
        .collect()
}

fn close(a: f32, b: f32) -> bool {
    (a - b).abs() <= 1e-4 * (1.0 + a.abs().max(b.abs()))
}

fn all_close(ours: &[f32], theirs: &[f32], what: &str) {
    assert_eq!(ours.len(), theirs.len(), "{}", what);
    for (i, (a, b)) in ours.iter().zip(theirs).enumerate() {
        assert!(close(*a, *b), "{} at {}: {} {}", what, i, a, b);
    }
}

fn safe(t: &Tensor) -> Result<Tensor> {
    t.lt(1e-6)?.where_cond(&Tensor::ones_like(t)?, t)
}

fn t_update(n: &Tensor, mu: &Tensor, sigma: &Tensor, x: &Tensor, mask: &Tensor) -> Result<(Tensor, Tensor, Tensor)> {
    let is_legit = mask.eq(0.0)?;
    let inc_n = is_legit.to_dtype(DType::F32)?.sum(D::Minus1)?;
    let x_zeros = Tensor::zeros_like(x)?;
    let inc_sum = is_legit.where_cond(x, &x_zeros)?.sum(D::Minus1)?;
    let safe_inc_n = safe(&inc_n)?;
    let inc_n_is_zero = inc_n.eq(0.0)?;
    let zero_bv = Tensor::zeros_like(&inc_sum)?;
    let inc_mu = inc_n_is_zero.where_cond(&zero_bv, &inc_sum.div(&safe_inc_n)?)?;
    let diff_sq = x.broadcast_sub(&inc_mu.unsqueeze(D::Minus1)?)?.sqr()?;
    let inc_var_raw = is_legit.where_cond(&diff_sq, &x_zeros)?.sum(D::Minus1)?.div(&safe_inc_n)?;
    let inc_sigma = inc_n_is_zero.where_cond(&zero_bv, &inc_var_raw)?.sqrt()?;
    let new_n = n.add(&inc_n)?;
    let safe_new_n = safe(&new_n)?;
    let new_n_is_zero = new_n.eq(0.0)?;
    let new_mu_raw = n.mul(mu)?.add(&inc_n.mul(&inc_mu)?)?.div(&safe_new_n)?;
    let new_mu = new_n_is_zero.where_cond(&zero_bv, &new_mu_raw)?;
    let part1 = n.mul(&sigma.sqr()?)?.add(&inc_n.mul(&inc_sigma.sqr()?)?)?;
    let part2 = n.mul(&mu.sub(&new_mu)?.sqr()?)?;
    let part3 = inc_n.mul(&inc_mu.sub(&new_mu)?.sqr()?)?;
    let new_var_raw = part1.add(&part2)?.add(&part3)?.div(&safe_new_n)?;
    let new_sigma = new_n_is_zero.where_cond(&zero_bv, &new_var_raw)?.sqrt()?;
    Ok((new_n, new_mu, new_sigma))
}

fn t_running(values: &Tensor, masks: &Tensor) -> Result<(Tensor, Tensor, Tensor)> {
    let (b, v, n, _) = values.dims4()?;
    let zero = Tensor::zeros((b, v), DType::F32, values.device())?;
    let mut cur = (zero.clone(), zero.clone(), zero);
    let (mut ns, mut mus, mut sigmas) = (Vec::new(), Vec::new(), Vec::new());
    for i in 0..n {
        cur = t_update(&cur.0, &cur.1, &cur.2, &values.i((.., .., i, ..))?, &masks.i((.., .., i, ..))?)?;
        ns.push(cur.0.unsqueeze(2)?);
        mus.push(cur.1.unsqueeze(2)?);
        sigmas.push(cur.2.unsqueeze(2)?);
    }
    Ok((Tensor::cat(&ns, 2)?, Tensor::cat(&mus, 2)?, Tensor::cat(&sigmas, 2)?))
}

fn t_revin(x: &Tensor, mu: &Tensor, sigma: &Tensor, reverse: bool) -> Result<Tensor> {
    let mut mu = mu.clone();
    let mut sigma = sigma.clone();
    while mu.dims().len() < x.dims().len() {
        mu = mu.unsqueeze(D::Minus1)?;
        sigma = sigma.unsqueeze(D::Minus1)?;
    }
    if reverse {
        x.broadcast_mul(&sigma)?.broadcast_add(&mu)
    } else {
        x.broadcast_sub(&mu)?.broadcast_div(&safe(&sigma)?)
    }
}

fn t_roll(x: &Tensor, rolls: usize) -> Result<(Tensor, Tensor)> {
    let (_, _, n, p) = x.dims4()?;
    let mut slices = Vec::new();
    for r in 1..=rolls {
        let a = x.narrow(2, r % n, n - (r % n))?;
        let b = x.narrow(2, 0, r % n)?;
        slices.push(Tensor::cat(&[&a, &b], 2)?);
    }
    let res = Tensor::cat(&slices, 3)?;
    let mut mask = vec![0.0f32; n * rolls * p];
    for i in 0..n {
        for k in 0..rolls * p {
            if i + 1 + k / p >= n {
                mask[i * (rolls * p) + k] = 1.0;
            }
        }
    }
    Ok((res, Tensor::from_vec(mask, (1, 1, n, rolls * p), x.device())?))
}

fn t_stitch(preds: &Tensor, patch_len: usize) -> Result<Tensor> {
    let (b, v, num, total, q) = preds.dims5()?;
    let overlap = total - patch_len;
    if num == 1 {
        return preds.i((.., .., 0, .., ..));
    }
    let w: Vec<f32> = if overlap == 1 {
        vec![1.0]
    } else {
        (0..overlap).map(|i| 1.0f32 - (i as f32) / ((overlap - 1) as f32)).collect()
    };
    let w = Tensor::from_vec(w, (1, 1, 1, overlap, 1), preds.device())?;
    let rest = Tensor::ones_like(&w)?.sub(&w)?;
    let first = preds.i((.., .., 0, ..patch_len, ..))?;
    let prev = preds.narrow(2, 0, num - 1)?;
    let next = preds.narrow(2, 1, num - 1)?;
    let a = prev.narrow(3, patch_len, overlap)?;
    let c = next.narrow(3, 0, overlap)?;
    let mixed = a.broadcast_mul(&w)?.add(&c.broadcast_mul(&rest)?)?;
    let middles = next.narrow(3, overlap, patch_len - overlap)?;
    let mid = Tensor::cat(&[&mixed, &middles], 3)?.reshape((b, v, (num - 1) * patch_len, q))?;
    let tail = preds.i((.., .., num - 1, patch_len.., ..))?;
    Tensor::cat(&[&first, &mid, &tail], 2)
}

fn t_detrend(vals: &Tensor, masks: &Tensor, threshold: f64) -> Result<(Tensor, Tensor, Tensor, Tensor)> {
    let (b, v, context) = vals.dims3()?;
    let device = vals.device();
    let t: Vec<f32> = (0..context).map(|i| -((context - 1 - i) as f32) / context as f32).collect();
    let t = Tensor::from_vec(t, (1, 1, context), device)?.broadcast_as(vals.shape())?;
    let ok = masks.eq(0.0)?;
    let zeros = Tensor::zeros_like(vals)?;
    let sum = |x: &Tensor| ok.where_cond(x, &zeros)?.sum(D::Minus1)?.unsqueeze(D::Minus1);
    let n = ok.to_dtype(DType::F32)?.sum(D::Minus1)?.unsqueeze(D::Minus1)?;
    let safe_n = safe(&n)?;
    let sum_t = sum(&t.contiguous()?)?;
    let sum_t2 = sum(&t.sqr()?)?;
    let sum_y = sum(vals)?;
    let sum_ty = sum(&t.mul(vals)?)?;
    let det = n.mul(&sum_t2)?.sub(&sum_t.sqr()?)?;
    let m_raw = n.mul(&sum_ty)?.sub(&sum_t.mul(&sum_y)?)?.div(&safe(&det)?)?;
    let m = det.eq(0.0)?.where_cond(&Tensor::zeros((b, v, 1), DType::F32, device)?, &m_raw)?;
    let c = sum_y.sub(&m.mul(&sum_t)?)?.div(&safe_n)?;
    let rest = vals.sub(&m.broadcast_mul(&t)?.broadcast_add(&c)?)?;
    let deviation = |y: &Tensor| -> Result<Tensor> {
        let mean = sum(y)?.div(&safe_n)?;
        let var = sum(&y.sqr()?)?.div(&safe_n)?.sub(&mean.sqr()?)?;
        var.maximum(&Tensor::zeros_like(&var)?)?.sqrt()
    };
    let before = deviation(vals)?;
    let bound = before.mul(&Tensor::full(threshold as f32, before.shape(), device)?)?;
    let cond = deviation(&rest)?.lt(&bound)?;
    let out = cond.broadcast_as(vals.shape())?.where_cond(&rest, vals)?;
    Ok((out, m, c, cond))
}

fn t_clip(x: &Tensor, clip: f32) -> Result<Tensor> {
    let hi = Tensor::full(clip, x.shape(), x.device())?;
    let lo = Tensor::full(-clip, x.shape(), x.device())?;
    x.maximum(&lo)?.minimum(&hi)
}

#[allow(clippy::too_many_arguments)]
fn t_refine(raw: &Tensor, n: &Tensor, mu: &Tensor, sigma: &Tensor, cpm: &Tensor, rolls: usize, p: usize, q: usize, clip: f32) -> Result<(Tensor, Tensor)> {
    let (b, v, patches, _) = raw.dims4()?;
    let device = raw.device();
    let shaped = raw.reshape(vec![b, v, patches, rolls, p, q])?;
    let medians = shaped.narrow(5, q / 2, 1)?.squeeze(5)?;
    let zero = Tensor::zeros((b, v), DType::F32, device)?;
    let mut carry = (zero.clone(), zero.clone(), zero);
    let mut anchor = Tensor::zeros((b, v, rolls, p), DType::F32, device)?;
    let mut offset = vec![0usize; b];
    let step_masks = Tensor::zeros((b, v, p), DType::F32, device)?;
    let (mut mus, mut sigmas) = (Vec::new(), Vec::new());
    for i in 0..patches {
        let is_cpm = cpm.i((.., i))?.unsqueeze(1)?;
        let mut slices = Vec::new();
        for k in 0..b {
            slices.push(anchor.i((k, .., offset[k], ..))?.unsqueeze(0)?);
        }
        let predicted = Tensor::cat(&slices, 0)?;
        let new = t_update(&carry.0, &carry.1, &carry.2, &predicted, &step_masks)?;
        let actual = (n.i((.., .., i))?, mu.i((.., .., i))?, sigma.i((.., .., i))?);
        let pick = is_cpm.gt(0.5)?.broadcast_as(actual.0.shape())?;
        carry = (
            pick.where_cond(&new.0, &actual.0)?,
            pick.where_cond(&new.1, &actual.1)?,
            pick.where_cond(&new.2, &actual.2)?,
        );
        let said = medians.narrow(2, i, 1)?.squeeze(2)?;
        let clamped = t_clip(&t_revin(&said, &carry.1, &carry.2, true)?, clip)?;
        let mut anchors = Vec::new();
        for k in 0..b {
            let hidden = cpm.i((k, i))?.to_scalar::<f32>()? > 0.5;
            offset[k] = if hidden { (offset[k] + 1) % rolls } else { 0 };
            let from = if offset[k] == 0 { &clamped } else { &anchor };
            anchors.push(from.i(k)?.unsqueeze(0)?);
        }
        anchor = Tensor::cat(&anchors, 0)?;
        mus.push(carry.1.unsqueeze(2)?);
        sigmas.push(carry.2.unsqueeze(2)?);
    }
    Ok((Tensor::cat(&mus, 2)?, Tensor::cat(&sigmas, 2)?))
}

struct Stub {
    config: TimesFM3Config,
}

/// What the stand-in layers make of the first number of a token.
fn stub_gain(k: usize) -> (f32, f32) {
    (0.5 + (k % 7) as f32 * 0.125, (k % 5) as f32 * 0.25 - 0.5)
}

impl Stub {
    fn forward(&self, values: &Tensor, masks: &Tensor, is_target: &Tensor, freeze: Option<usize>, cpm: &Tensor) -> Result<(Tensor, Tensor, Tensor)> {
        let c = &self.config;
        let (p, o, q) = (c.input_patch_len, c.output_patch_len, c.quantiles.len());
        let clip = float(c.value_clip.narrowed());
        let values = t_clip(values, clip)?;
        let (b, v, n, _) = values.dims4()?;
        let (run_n, mut mean, mut std) = t_running(&values, masks)?;
        if let Some(fa) = freeze {
            if fa < n - 1 {
                let rem = n - 1 - fa;
                let fm = mean.i((.., .., fa..fa + 1))?.repeat((1, 1, rem))?;
                let fs = std.i((.., .., fa..fa + 1))?.repeat((1, 1, rem))?;
                mean = Tensor::cat(&[&mean.i((.., .., ..=fa))?, &fm], 2)?;
                std = Tensor::cat(&[&std.i((.., .., ..=fa))?, &fs], 2)?;
            }
        }
        let cpm_target = cpm.unsqueeze(1)?.unsqueeze(3)?.broadcast_mul(&is_target.unsqueeze(3)?)?;
        let eff = masks.maximum(&cpm_target.broadcast_as(masks.shape())?)?;
        let own = t_revin(&values, &mean, &std, false)?;
        let own = eff.gt(0.5)?.where_cond(&Tensor::zeros_like(&own)?, &own)?;
        let rolls = o / p;
        let (ahead, wrap) = t_roll(&values, rolls)?;
        let ahead = t_revin(&ahead, &mean, &std, false)?;
        let (ahead_masks, _) = t_roll(&eff, rolls)?;
        let shape = ahead_masks.shape().clone();
        let ahead_masks = ahead_masks
            .maximum(&is_target.unsqueeze(3)?.broadcast_as(&shape)?)?
            .maximum(&wrap.broadcast_as(&shape)?)?;
        let ahead = ahead_masks.gt(0.5)?.where_cond(&Tensor::zeros_like(&ahead)?, &ahead)?;
        let all_masks = Tensor::cat(&[&eff, &ahead_masks], D::Minus1)?;
        let token = Tensor::cat(&[&own, &ahead, &all_masks], D::Minus1)?;
        let blank = all_masks.min(D::Minus1)?.gt(0.5)?.to_dtype(DType::F32)?;

        let mut gain = Vec::new();
        let mut shift = Vec::new();
        for k in 0..o * q {
            gain.push(stub_gain(k).0);
            shift.push(stub_gain(k).1);
        }
        let gain = Tensor::from_vec(gain, (1, 1, 1, o * q), values.device())?;
        let shift = Tensor::from_vec(shift, (1, 1, 1, o * q), values.device())?;
        let raw = token.narrow(3, 0, 1)?.broadcast_mul(&gain)?.broadcast_add(&shift)?;

        if c.use_iterative_cpm_revin {
            let (rm, rs) = t_refine(&raw, &run_n, &mean, &std, cpm, rolls, p, q, clip)?;
            let pick = cpm.unsqueeze(1)?.gt(0.5)?.broadcast_as(mean.shape())?;
            mean = pick.where_cond(&rm, &mean)?;
            std = pick.where_cond(&rs, &std)?;
        }
        let logits = t_clip(&t_revin(&raw, &mean, &std, true)?, clip)?;
        Ok((logits.reshape((b, v, n, o, q))?, token, blank))
    }

    #[allow(clippy::too_many_arguments)]
    fn decode(&self, target: &Tensor, horizon: usize, po: Option<&Tensor>, pf: Option<&Tensor>, target_mask: Option<&Tensor>, mask: Option<&Tensor>) -> Result<(Tensor, Tensor, Tensor)> {
        let c = &self.config;
        let (b, num_target, mut context) = target.dims3()?;
        let device = target.device();
        let mut horizon = horizon;
        if let Some(pf) = pf {
            horizon = pf.dim(D::Minus1)? - context;
        }
        let (p, o) = (c.input_patch_len, c.output_patch_len);
        let pad = (p - (context % p)) % p;
        let front = |x: &Tensor, fill: f32| -> Result<Tensor> {
            if pad == 0 {
                return Ok(x.clone());
            }
            let (xb, xv, _) = x.dims3()?;
            Tensor::cat(&[&Tensor::full(fill, (xb, xv, pad), device)?, x], 2)
        };
        let mask = match mask {
            Some(m) => m.clone(),
            None => Tensor::zeros((b, context), DType::F32, device)?,
        };
        let mask = front(&mask.unsqueeze(1)?, 1.0)?;
        let target = front(target, 0.0)?;
        let tm = match target_mask {
            Some(m) => front(m, 1.0)?,
            None => Tensor::zeros_like(&target)?,
        };
        context += pad;
        let rolls = o / p;
        let (ph, hp, nfp) = if c.use_stitching {
            let overlap = (2 * p).min(o) - p;
            let nfp = (((horizon as f64 - overlap as f64) / (p as f64)).ceil() as usize).max(1);
            let ph = (nfp + rolls - 1) * p;
            (ph, ph - horizon, nfp)
        } else {
            let hp = (o - (horizon % o)) % o;
            (horizon + hp, hp, (horizon + hp) / o)
        };
        let (ncp, nhp) = (context / p, ph / p);
        let joined = |m: &Tensor| m.maximum(&mask.broadcast_as(m.shape())?);
        let mut vals = vec![target.clone()];
        let mut masks = vec![joined(&tm)?];
        let mut num_po = 0;
        if let Some(po) = po {
            num_po = po.dim(1)?;
            let po = front(po, 0.0)?;
            masks.push(joined(&Tensor::zeros_like(&po)?)?);
            vals.push(po);
        }
        let pf = match pf {
            Some(pf) => Some(front(pf, 0.0)?),
            None => None,
        };
        if let Some(pf) = &pf {
            let ctx = pf.narrow(2, 0, context)?;
            masks.push(joined(&Tensor::zeros_like(&ctx)?)?);
            vals.push(ctx);
        }
        let mut ctx_vals = Tensor::cat(&vals, 1)?;
        let ctx_masks = Tensor::cat(&masks, 1)?;
        let nv = ctx_vals.dim(1)?;
        let (m, cc, cond) = if c.use_linear_detrending {
            let th = f64::from_bits(c.linear_detrending_threshold.to_bits());
            let (d, m, cc, cond) = t_detrend(&ctx_vals, &ctx_masks, th)?;
            ctx_vals = d;
            (m, cc, cond)
        } else {
            let z = Tensor::zeros((b, nv, 1), DType::F32, device)?;
            (z.clone(), z, Tensor::zeros((b, nv, 1), DType::U8, device)?)
        };
        ctx_vals = ctx_masks.gt(0.5)?.where_cond(&Tensor::zeros_like(&ctx_vals)?, &ctx_vals)?;
        let hidden = num_target + num_po;
        let mut hor_vals = vec![Tensor::zeros((b, hidden, ph), DType::F32, device)?];
        let mut hor_masks = vec![Tensor::ones((b, hidden, ph), DType::F32, device)?];
        let times: Vec<f32> = (1..=horizon).map(|i| i as f32 / context as f32).collect();
        if let Some(pf) = &pf {
            let k = pf.dim(1)?;
            let mut future = pf.narrow(2, context, horizon)?;
            if c.use_linear_detrending {
                let t = Tensor::from_vec(times.clone(), (1, 1, horizon), device)?;
                let trend = m.narrow(1, hidden, k)?.broadcast_mul(&t)?.broadcast_add(&cc.narrow(1, hidden, k)?)?;
                let on = cond.narrow(1, hidden, k)?.broadcast_as(future.shape())?;
                future = on.where_cond(&future.sub(&trend)?, &future)?;
            }
            let mut future_mask = Tensor::zeros_like(&future)?;
            if hp > 0 {
                future = Tensor::cat(&[&future, &Tensor::zeros((b, k, hp), DType::F32, device)?], 2)?;
                future_mask = Tensor::cat(&[&future_mask, &Tensor::ones((b, k, hp), DType::F32, device)?], 2)?;
            }
            hor_vals.push(future);
            hor_masks.push(future_mask);
        }
        let all_vals = Tensor::cat(&[&ctx_vals, &Tensor::cat(&hor_vals, 1)?], 2)?;
        let all_masks = Tensor::cat(&[&ctx_masks, &Tensor::cat(&hor_masks, 1)?], 2)?;
        let total = ncp + nhp;
        let mut flags = vec![0.0f32; b * nv * total];
        for i in 0..b {
            for v in 0..hidden {
                for k in 0..total {
                    flags[i * (nv * total) + v * total + k] = 1.0;
                }
            }
        }
        let flags = Tensor::from_vec(flags, (b, nv, total), device)?;
        let mut cpm = vec![0.0f32; b * total];
        for i in 0..b {
            for k in ncp..total {
                cpm[i * total + k] = 1.0;
            }
        }
        let cpm = Tensor::from_vec(cpm, (b, total), device)?;
        let freeze = if c.use_frozen_running_stats { Some(ncp.saturating_sub(1)) } else { None };
        let values = all_vals.reshape((b, nv, total, p))?;
        let masks = all_masks.reshape((b, nv, total, p))?;
        let (logits, token, blank) = self.forward(&values, &masks, &flags, freeze, &cpm)?;
        let mut out = if c.use_stitching {
            let e = (2 * p).min(o);
            let mut preds = Vec::new();
            for i in 0..nfp {
                preds.push(logits.i((.., .., ncp - 1 + i, ..e, ..))?.unsqueeze(2)?);
            }
            t_stitch(&Tensor::cat(&preds, 2)?, p)?.narrow(2, 0, horizon)?
        } else {
            let mut chunks = Vec::new();
            for i in 0..ph / o {
                chunks.push(logits.i((.., .., (ncp - 1) + i * rolls, .., ..))?);
            }
            Tensor::cat(&chunks, 2)?.narrow(2, 0, horizon)?
        };
        if c.use_linear_detrending {
            let t = Tensor::from_vec(times, (1, 1, horizon, 1), device)?;
            let trend = m.unsqueeze(3)?.broadcast_mul(&t)?.broadcast_add(&cc.unsqueeze(3)?)?;
            let on = cond.unsqueeze(3)?.broadcast_as(trend.shape())?;
            let add = on.where_cond(&trend, &Tensor::zeros_like(&trend)?)?;
            out = out.add(&add.broadcast_as(out.shape())?)?;
        }
        Ok((out.narrow(1, 0, num_target)?, token, blank))
    }
}

fn layers(e: &Encoded, width: usize) -> Vec<Vec<Single>> {
    e.tokens
        .rows
        .iter()
        .map(|row| {
            (0..width)
                .map(|k| {
                    let (g, s) = stub_gain(k);
                    single(float(row[0]) * g + s)
                })
                .collect()
        })
        .collect()
}

#[test]
fn running_statistics_agree() -> Result<()> {
    let (n, p) = (5, 4);
    for seed in 1..6 {
        let v = noise(seed, n * p);
        let m: Vec<f32> = noise(seed + 100, n * p).iter().map(|x| if *x > 6.0 { 1.0 } else { 0.0 }).collect();
        let tv = Tensor::from_vec(v.clone(), (1, 1, n, p), &Device::Cpu)?;
        let tm = Tensor::from_vec(m.clone(), (1, 1, n, p), &Device::Cpu)?;
        let (tn, tmu, tsigma) = t_running(&tv, &tm)?;
        let rows: Vec<Vec<Single>> = v.chunks(p).map(singles).collect();
        let masks: Vec<Vec<Single>> = m.chunks(p).map(singles).collect();
        let r = get_running_stats(&rows, &masks);
        let pick = |f: fn(&RunningStats) -> Single| r.iter().map(|s| float(f(s))).collect::<Vec<_>>();
        all_close(&pick(|s| s.n), &tn.flatten_all()?.to_vec1::<f32>()?, "n");
        all_close(&pick(|s| s.mu), &tmu.flatten_all()?.to_vec1::<f32>()?, "mu");
        all_close(&pick(|s| s.sigma), &tsigma.flatten_all()?.to_vec1::<f32>()?, "sigma");
        let x = Tensor::from_vec(v.clone(), (1, 1, n * p), &Device::Cpu)?;
        let mu = Tensor::from_vec(vec![2.5f32], (1, 1), &Device::Cpu)?;
        let sigma = Tensor::from_vec(vec![0.7f32], (1, 1), &Device::Cpu)?;
        for reverse in [true, false] {
            let theirs = t_revin(&x, &mu, &sigma, reverse)?.flatten_all()?.to_vec1::<f32>()?;
            let ours = floats(&revin(&singles(&v), single(2.5), single(0.7), reverse));
            assert_eq!(ours, theirs);
        }
    }
    Ok(())
}

#[test]
fn rolls_and_stitches_agree() -> Result<()> {
    for (n, p, rolls) in [(4usize, 3usize, 2usize), (3, 2, 5), (1, 4, 3)] {
        let v = noise(n as u64, n * p);
        let t = Tensor::from_vec(v.clone(), (1, 1, n, p), &Device::Cpu)?;
        let (a, b) = t_roll(&t, rolls)?;
        let rows: Vec<Vec<Single>> = v.chunks(p).map(singles).collect();
        let (x, y) = get_output_patch_via_roll(&rows, rolls);
        assert_eq!(floats(&x.concat()), a.flatten_all()?.to_vec1::<f32>()?);
        assert_eq!(floats(&y.concat()), b.flatten_all()?.to_vec1::<f32>()?);
    }
    for (num, patch_len, total) in [(1usize, 4usize, 7usize), (3, 4, 8), (4, 4, 6), (2, 5, 6)] {
        let v = noise(num as u64 + 9, num * total);
        let t = Tensor::from_vec(v.clone(), (1, 1, num, total, 1), &Device::Cpu)?;
        let rows: Vec<Vec<Single>> = v.chunks(total).map(singles).collect();
        let ours = floats(&stitch_patches(&rows, patch_len));
        assert_eq!(ours, t_stitch(&t, patch_len)?.flatten_all()?.to_vec1::<f32>()?);
    }
    Ok(())
}

#[test]
fn detrending_agrees() -> Result<()> {
    for seed in 1..8u64 {
        let n = 24;
        let slope = seed as f32 - 4.0;
        let v: Vec<f32> = noise(seed, n).iter().enumerate().map(|(i, x)| x * 0.3 + slope * i as f32).collect();
        let m: Vec<f32> = noise(seed + 50, n).iter().map(|x| if *x > 9.0 { 1.0 } else { 0.0 }).collect();
        let tv = Tensor::from_vec(v.clone(), (1, 1, n), &Device::Cpu)?;
        let tm = Tensor::from_vec(m.clone(), (1, 1, n), &Device::Cpu)?;
        let (out, slope, level, cond) = t_detrend(&tv, &tm, 0.5)?;
        let d = apply_linear_detrending(&singles(&v), &singles(&m), Double::from_bits(0.5f64.to_bits()));
        assert_eq!(d.applied, cond.flatten_all()?.to_vec1::<u8>()?[0] > 0);
        assert!(close(float(d.line.slope), slope.flatten_all()?.to_vec1::<f32>()?[0]));
        assert!(close(float(d.line.level), level.flatten_all()?.to_vec1::<f32>()?[0]));
        all_close(&floats(&d.values), &out.flatten_all()?.to_vec1::<f32>()?, "values");
    }
    Ok(())
}

#[test]
fn refinement_agrees() -> Result<()> {
    let (n, rolls, p, q) = (7usize, 2usize, 3usize, 3usize);
    for seed in 1..6u64 {
        let raw = noise(seed, n * rolls * p * q);
        let hidden: Vec<bool> = noise(seed + 7, n).iter().map(|x| *x > 2.0).collect();
        let cpm: Vec<f32> = hidden.iter().map(|h| if *h { 1.0 } else { 0.0 }).collect();
        let counts: Vec<f32> = (0..n).map(|i| (i + 1) as f32).collect();
        let mu = noise(seed + 1, n);
        let sigma: Vec<f32> = noise(seed + 2, n).iter().map(|x| x.abs() + 0.1).collect();
        let t = |v: &Vec<f32>| Tensor::from_vec(v.clone(), (1, 1, n), &Device::Cpu);
        let traw = Tensor::from_vec(raw.clone(), (1, 1, n, rolls * p * q), &Device::Cpu)?;
        let tcpm = Tensor::from_vec(cpm, (1, n), &Device::Cpu)?;
        let (rm, rs) = t_refine(&traw, &t(&counts)?, &t(&mu)?, &t(&sigma)?, &tcpm, rolls, p, q, 30.0)?;
        let medians: Vec<Vec<Vec<Single>>> = raw
            .chunks(rolls * p * q)
            .map(|row| {
                (0..rolls)
                    .map(|r| (0..p).map(|k| single(row[(r * p + k) * q + q / 2])).collect())
                    .collect()
            })
            .collect();
        let actual: Vec<RunningStats> = (0..n)
            .map(|i| RunningStats { n: single(counts[i]), mu: single(mu[i]), sigma: single(sigma[i]) })
            .collect();
        let clip = Double::from_bits(30.0f64.to_bits());
        let r = cpm_iterative_revin_refine(&medians, &actual, &hidden, rolls, p, clip);
        let ours: Vec<f32> = r.iter().map(|s| float(s.mu)).collect();
        all_close(&ours, &rm.flatten_all()?.to_vec1::<f32>()?, "mu");
        let ours: Vec<f32> = r.iter().map(|s| float(s.sigma)).collect();
        all_close(&ours, &rs.flatten_all()?.to_vec1::<f32>()?, "sigma");
    }
    Ok(())
}

#[test]
fn whole_forecasts_agree() -> Result<()> {
    let mut case = 0u64;
    for (context, horizon, p, o) in [(13usize, 9usize, 4usize, 8usize), (16, 5, 4, 8), (7, 20, 4, 12), (5, 3, 4, 4)] {
        for bits in 0..16u32 {
            case += 1;
            let mut c = TimesFM3Config::default();
            c.input_patch_len = p;
            c.output_patch_len = o;
            c.quantiles = [0.1f64, 0.5, 0.9].iter().map(|q| Double::from_bits(q.to_bits())).collect();
            c.use_stitching = bits & 1 == 0;
            c.use_linear_detrending = bits & 2 == 0;
            c.use_iterative_cpm_revin = bits & 4 == 0;
            c.use_frozen_running_stats = bits & 8 != 0;
            let q = 3;
            let stub = Stub { config: c.clone() };
            let trend = |v: Vec<f32>, k: f32| -> Vec<f32> {
                v.iter().enumerate().map(|(i, x)| x + k * i as f32).collect()
            };
            let target = [trend(noise(case, context), 3.0), noise(case + 31, context)];
            let tmask: Vec<f32> = noise(case + 5, 2 * context).iter().map(|x| if *x > 10.0 { 1.0 } else { 0.0 }).collect();
            let common: Vec<f32> = (0..context).map(|i| if i == 1 { 1.0 } else { 0.0 }).collect();
            let po = noise(case + 77, context);
            let pf = trend(noise(case + 99, context + horizon), 2.0);
            let t3 = |v: Vec<f32>, n: usize| {
                let len = v.len() / n;
                Tensor::from_vec(v, (1, n, len), &Device::Cpu)
            };
            let (out, token, blank) = stub.decode(
                &t3(target.concat(), 2)?,
                horizon,
                Some(&t3(po.clone(), 1)?),
                Some(&t3(pf.clone(), 1)?),
                Some(&t3(tmask.clone(), 2)?),
                Some(&Tensor::from_vec(common.clone(), (1, context), &Device::Cpu)?),
            )?;
            let plan = plan_decode(&c, context, horizon, Some(context + horizon)).unwrap();
            let shared = Some(singles(&common));
            let encode = |v: &[f32], mask: Option<&[f32]>, role| {
                let s = Series { values: singles(v), mask: mask.map(singles) };
                encode_series(&s, &shared, role, &plan, &c)
            };
            let lanes = [
                encode(&target[0], Some(&tmask[..context]), Role::Target),
                encode(&target[1], Some(&tmask[context..]), Role::Target),
                encode(&po, None, Role::PastOnly),
                encode(&pf, None, Role::PastFuture),
            ];
            let mut tokens = Vec::new();
            let mut seen = Vec::new();
            for e in &lanes {
                for row in &e.tokens.rows {
                    tokens.extend(floats(row));
                }
                seen.extend(e.tokens.blank.iter().copied());
            }
            all_close(&tokens, &token.flatten_all()?.to_vec1::<f32>()?, "tokens");
            // a patch is out of view while all patches up to it are blank
            let blank = blank.flatten_all()?.to_vec1::<f32>()?;
            let total = plan.total_patches;
            for (v, lane) in blank.chunks(total).enumerate() {
                let mut product = 1.0f32;
                for (i, x) in lane.iter().enumerate() {
                    product *= x;
                    assert_eq!(seen[v * total + i], product > 0.5);
                }
            }
            let mut ours = Vec::new();
            for e in &lanes[..2] {
                ours.extend(floats(&decode_series(&layers(e, o * q), e, &plan, &c)));
            }
            all_close(&ours, &out.flatten_all()?.to_vec1::<f32>()?, "forecast");
        }
    }
    Ok(())
}
