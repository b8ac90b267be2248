//! What the layers are given of a series, and what is made of what they give back.

use vstd::arithmetic::mul::*;
use vstd::prelude::*;

use super::cpm::{carry_after, cpm_iterative_revin_refine, medians_view};
use super::patches::{behind, beyond, get_output_patch_via_roll, is_even, lemma_behind_length};
use super::running::{
    get_running_stats, normalized_row, revin, same_shape, stats_after, RunningStats,
};
use crate::ieee::scalar::{law_one_times_one, law_order, Double, Single};
use crate::rows::{
    append_row, clip_row, clipped_row, is_masked, larger, one, rows_view, silence, silenced,
};
use crate::stats::copy_of;
use super::patches::law_rolled_points;

verus! {

/// The statistics at patch `i`. After the patch `freeze_after` mean and deviation stay as they are
/// there.
pub open spec fn frozen(stats: Seq<RunningStats>, freeze_after: Option<usize>, i: int) -> RunningStats {
    match freeze_after {
        Some(last) => if last < stats.len() - 1 && i > last {
            RunningStats {
                n: stats[i].n,
                mu: stats[last as int].mu,
                sigma: stats[last as int].sigma,
            }
        } else {
            stats[i]
        },
        None => stats[i],
    }
}

/// The mask of a patch: where the patch is hidden and the series is one to forecast, all of it is
/// masked.
pub open spec fn full_mask(mask: Seq<Single>, target: Single, hidden: Option<Single>) -> Seq<Single> {
    match hidden {
        Some(h) => mask.map_values(|m: Single| larger(m, h.times(target))),
        None => mask,
    }
}

/// The masks of all patches.
pub open spec fn full_masks(
    masks: Seq<Seq<Single>>,
    targets: Seq<Single>,
    hidden: Option<Seq<Single>>,
) -> Seq<Seq<Single>> {
    Seq::new(
        masks.len(),
        |i: int|
            full_mask(
                masks[i],
                targets[i],
                match hidden {
                    Some(h) => Some(h[i]),
                    None => None,
                },
            ),
    )
}

/// The mask of the points behind patch `i`: masked there, part of a series to forecast, or beyond
/// the end.
pub open spec fn mask_behind(
    masks: Seq<Seq<Single>>,
    targets: Seq<Single>,
    rolls: int,
    p: int,
    i: int,
) -> Seq<Single> {
    let raw = behind(masks, i, rolls);
    let ends = beyond(masks.len() as int, i, rolls, p);
    Seq::new(raw.len(), |k: int| larger(larger(raw[k], targets[i]), ends[k]))
}

/// What a layer is given of a series: its patches, masks and flags, and how it is normalized.
pub struct Lane {
    pub values: Seq<Seq<Single>>,
    pub masks: Seq<Seq<Single>>,
    pub targets: Seq<Single>,
    pub hidden: Option<Seq<Single>>,
    pub freeze_after: Option<usize>,
    pub rolls: int,
    pub p: int,
}

impl Lane {
    /// The running statistics after each patch.
    pub open spec fn running(self) -> Seq<RunningStats> {
        Seq::new(self.values.len(), |i: int| stats_after(self.values, self.masks, i + 1))
    }

    /// The statistics that patch `i` is normalized by.
    pub open spec fn stats(self, i: int) -> RunningStats {
        frozen(self.running(), self.freeze_after, i)
    }

    pub open spec fn all_masks(self) -> Seq<Seq<Single>> {
        full_masks(self.masks, self.targets, self.hidden)
    }

    /// Patch `i`, normalized, zero where it is masked.
    pub open spec fn own_points(self, i: int) -> Seq<Single> {
        silenced(
            normalized_row(self.values[i], self.stats(i).mu, self.stats(i).sigma, false),
            self.all_masks()[i],
        )
    }

    /// The points behind patch `i`, normalized as it is, zero where they are masked.
    pub open spec fn points_behind(self, i: int) -> Seq<Single> {
        silenced(
            normalized_row(
                behind(self.values, i, self.rolls),
                self.stats(i).mu,
                self.stats(i).sigma,
                false,
            ),
            self.masks_behind(i),
        )
    }

    pub open spec fn masks_behind(self, i: int) -> Seq<Single> {
        mask_behind(self.all_masks(), self.targets, self.rolls, self.p, i)
    }

    /// What the layers are given of patch `i`: its points, the points behind it, and the masks of
    /// both.
    pub open spec fn token(self, i: int) -> Seq<Single> {
        self.own_points(i) + self.points_behind(i) + self.all_masks()[i] + self.masks_behind(i)
    }

    /// Nothing can be seen of patch `i`.
    pub open spec fn is_blank(self, i: int) -> bool {
        let m = self.all_masks()[i] + self.masks_behind(i);
        forall|k: int| 0 <= k < m.len() ==> is_masked(#[trigger] m[k])
    }

    /// Nothing can be seen of the patches up to `i`.
    pub open spec fn is_blank_up_to(self, i: int) -> bool {
        forall|j: int| 0 <= j <= i ==> self.is_blank(j)
    }
}

/// The tokens of a series, which of them nothing can be seen of, and the statistics that they are
/// normalized by.
#[derive(Debug, Clone)]
pub struct Tokens {
    pub rows: Vec<Vec<Single>>,
    pub blank: Vec<bool>,
    pub stats: Vec<RunningStats>,
}

pub open spec fn optional_row(o: Option<Vec<Single>>) -> Option<Seq<Single>> {
    match o {
        Some(v) => Some(v@),
        None => None,
    }
}

pub open spec fn lane_of(
    values: Seq<Vec<Single>>,
    masks: Seq<Vec<Single>>,
    targets: Seq<Single>,
    freeze_after: Option<usize>,
    hidden: Option<Seq<Single>>,
    rolls: int,
) -> Lane {
    Lane {
        values: rows_view(values),
        masks: rows_view(masks),
        targets,
        hidden,
        freeze_after,
        rolls,
        p: values[0]@.len() as int,
    }
}

fn freeze(stats: Vec<RunningStats>, freeze_after: Option<usize>) -> (r: Vec<RunningStats>)
    ensures
        r@ == Seq::new(stats@.len(), |i: int| frozen(stats@, freeze_after, i)),
{
    let mut r: Vec<RunningStats> = Vec::new();
    let mut i: usize = 0;
    while i < stats.len()
        invariant
            i <= stats@.len(),
            r@.len() == i,
            forall|k: int| 0 <= k < i ==> r@[k] == frozen(stats@, freeze_after, k),
        decreases stats@.len() - i,
    {
        let own = stats[i];
        let s = match freeze_after {
            Some(last) => if last < stats.len() - 1 && i > last {
                RunningStats { n: own.n, mu: stats[last].mu, sigma: stats[last].sigma }
            } else {
                own
            },
            None => own,
        };
        r.push(s);
        i = i + 1;
    }
    assert(r@ =~= Seq::new(stats@.len(), |i: int| frozen(stats@, freeze_after, i)));
    r
}

fn fill_masks(masks: &Vec<Vec<Single>>, targets: &Vec<Single>, hidden: &Option<Vec<Single>>) -> (r: Vec<
    Vec<Single>,
>)
    requires
        targets@.len() == masks@.len(),
        hidden matches Some(h) ==> h@.len() == masks@.len(),
    ensures
        rows_view(r@) == full_masks(rows_view(masks@), targets@, optional_row(*hidden)),
{
    let ghost views = rows_view(masks@);
    let ghost model = full_masks(views, targets@, optional_row(*hidden));
    let mut r: Vec<Vec<Single>> = Vec::new();
    let mut i: usize = 0;
    while i < masks.len()
        invariant
            i <= masks@.len(),
            targets@.len() == masks@.len(),
            hidden matches Some(h) ==> h@.len() == masks@.len(),
            views == rows_view(masks@),
            model == full_masks(views, targets@, optional_row(*hidden)),
            r@.len() == i,
            forall|k: int| 0 <= k < i ==> (#[trigger] r@[k])@ == model[k],
        decreases masks@.len() - i,
    {
        assert(views[i as int] == masks@[i as int]@);
        match hidden {
            Some(h) => {
                let mark = h[i].times(targets[i]);
                let mut row: Vec<Single> = Vec::new();
                let mut k: usize = 0;
                while k < masks[i].len()
                    invariant
                        i < masks@.len(),
                        k <= masks@[i as int]@.len(),
                        row@.len() == k,
                        forall|j: int|
                            0 <= j < k ==> row@[j] == larger(masks@[i as int]@[j], mark),
                    decreases masks@[i as int]@.len() - k,
                {
                    row.push(larger(masks[i][k], mark));
                    k = k + 1;
                }
                assert(row@ =~= model[i as int]);
                r.push(row);
            },
            None => {
                r.push(copy_of(&masks[i]));
            },
        }
        i = i + 1;
    }
    assert(rows_view(r@) =~= model);
    r
}

fn mark_behind(raw: &Vec<Single>, target: Single, ends: &Vec<Single>) -> (r: Vec<Single>)
    requires
        raw@.len() == ends@.len(),
    ensures
        r@ == Seq::new(raw@.len(), |k: int| larger(larger(raw@[k], target), ends@[k])),
{
    let mut r: Vec<Single> = Vec::new();
    let mut k: usize = 0;
    while k < raw.len()
        invariant
            k <= raw@.len() == ends@.len(),
            r@.len() == k,
            forall|j: int| 0 <= j < k ==> r@[j] == larger(larger(raw@[j], target), ends@[j]),
        decreases raw@.len() - k,
    {
        r.push(larger(larger(raw[k], target), ends[k]));
        k = k + 1;
    }
    assert(r@ =~= Seq::new(raw@.len(), |k: int| larger(larger(raw@[k], target), ends@[k])));
    r
}

fn all_masked(s: &Vec<Single>) -> (r: bool)
    ensures
        r == forall|k: int| 0 <= k < s@.len() ==> is_masked(#[trigger] s@[k]),
{
    let mut k: usize = 0;
    while k < s.len()
        invariant
            k <= s@.len(),
            forall|j: int| 0 <= j < k ==> is_masked(#[trigger] s@[j]),
        decreases s@.len() - k,
    {
        if !is_masked(s[k]) {
            return false;
        }
        k = k + 1;
    }
    true
}

/// Turns the patches of one series into tokens: each patch, normalized by the statistics up to it,
/// with the `rolls` patches behind it and the masks of both.
pub fn preprocess(
    values: &Vec<Vec<Single>>,
    masks: &Vec<Vec<Single>>,
    patch_is_target: &Vec<Single>,
    freeze_after: Option<usize>,
    patch_cpm_mask: &Option<Vec<Single>>,
    rolls: usize,
) -> (r: Tokens)
    requires
        values@.len() > 0,
        same_shape(values@, masks@),
        is_even(rows_view(values@), values@[0]@.len() as int),
        patch_is_target@.len() == values@.len(),
        patch_cpm_mask matches Some(h) ==> h@.len() == values@.len(),
        values@.len() + rolls + 1 <= usize::MAX,
        rolls * values@[0]@.len() <= usize::MAX,
    ensures
        ({
            let lane = lane_of(
                values@,
                masks@,
                patch_is_target@,
                freeze_after,
                optional_row(*patch_cpm_mask),
                rolls as int,
            );
            &&& rows_view(r.rows@) == Seq::new(values@.len(), |i: int| lane.token(i))
            &&& r.blank@ == Seq::new(values@.len(), |i: int| lane.is_blank_up_to(i))
            &&& r.stats@ == Seq::new(values@.len(), |i: int| lane.stats(i))
        }),
{
    let ghost lane = lane_of(
        values@,
        masks@,
        patch_is_target@,
        freeze_after,
        optional_row(*patch_cpm_mask),
        rolls as int,
    );
    let ghost p = values@[0]@.len() as int;
    let stats = freeze(get_running_stats(values, masks), freeze_after);
    assert(stats@ =~= Seq::new(values@.len(), |i: int| lane.stats(i)));
    let own_masks = fill_masks(masks, patch_is_target, patch_cpm_mask);
    proof {
        assert(rows_view(own_masks@).len() == rows_view(masks@).len());
        assert(own_masks@.len() == values@.len());
        assert forall|i: int| 0 <= i < values@.len() implies (#[trigger] rows_view(
            own_masks@,
        )[i]).len() == p by {
            assert(rows_view(values@)[i].len() == p);
            assert(values@[i]@.len() == masks@[i]@.len());
            assert(rows_view(masks@)[i] == masks@[i]@);
        }
        assert(rows_view(own_masks@)[0] == own_masks@[0]@);
    }
    let (ahead, ends) = get_output_patch_via_roll(values, rolls);
    let (ahead_masks, _) = get_output_patch_via_roll(&own_masks, rolls);
    let mut rows: Vec<Vec<Single>> = Vec::new();
    let mut blank: Vec<bool> = Vec::new();
    let mut blank_so_far = true;
    let mut i: usize = 0;
    while i < values.len()
        invariant
            i <= values@.len(),
            values@.len() > 0,
            p == values@[0]@.len(),
            same_shape(values@, masks@),
            is_even(rows_view(values@), p),
            is_even(rows_view(own_masks@), p),
            own_masks@.len() == values@.len(),
            patch_is_target@.len() == values@.len(),
            lane == lane_of(
                values@,
                masks@,
                patch_is_target@,
                freeze_after,
                optional_row(*patch_cpm_mask),
                rolls as int,
            ),
            rows_view(own_masks@) == lane.all_masks(),
            rows_view(ahead@) == Seq::new(
                values@.len(),
                |k: int| behind(rows_view(values@), k, rolls as int),
            ),
            rows_view(ahead_masks@) == Seq::new(
                values@.len(),
                |k: int| behind(lane.all_masks(), k, rolls as int),
            ),
            rows_view(ends@) == Seq::new(
                values@.len(),
                |k: int| beyond(values@.len() as int, k, rolls as int, p),
            ),
            stats@ == Seq::new(values@.len(), |k: int| lane.stats(k)),
            rows@.len() == i,
            blank@.len() == i,
            blank_so_far == lane.is_blank_up_to(i - 1),
            forall|k: int| 0 <= k < i ==> (#[trigger] rows@[k])@ == lane.token(k),
            forall|k: int| 0 <= k < i ==> blank@[k] == lane.is_blank_up_to(k),
        decreases values@.len() - i,
    {
        let ghost n = i as int;
        proof {
            assert(rows_view(own_masks@)[n] == own_masks@[n]@);
            assert(rows_view(values@)[n] == values@[n]@);
            assert(rows_view(values@)[n].len() == p);
            assert(rows_view(own_masks@)[n].len() == p);
            assert(rows_view(ahead@).len() == ahead@.len());
            assert(rows_view(ahead_masks@).len() == ahead_masks@.len());
            assert(rows_view(ends@).len() == ends@.len());
            assert(rows_view(ahead@)[n] == ahead@[n]@);
            assert(rows_view(ahead_masks@)[n] == ahead_masks@[n]@);
            assert(rows_view(ends@)[n] == ends@[n]@);
            lemma_behind_length(rows_view(values@), n, rolls as int, p);
            lemma_behind_length(rows_view(own_masks@), n, rolls as int, p);
            lemma_mul_nonnegative(rolls as int, p);
        }
        let s = stats[i];
        let own = silence(&revin(&values[i], s.mu, s.sigma, false), &own_masks[i]);
        let far_masks = mark_behind(&ahead_masks[i], patch_is_target[i], &ends[i]);
        assert(far_masks@ =~= lane.masks_behind(n));
        let far = silence(&revin(&ahead[i], s.mu, s.sigma, false), &far_masks);
        let mut all_masks = copy_of(&own_masks[i]);
        append_row(&mut all_masks, &far_masks);
        let mut row = own;
        append_row(&mut row, &far);
        let ghost points = row@;
        append_row(&mut row, &all_masks);
        assert(row@ =~= lane.token(n));
        rows.push(row);
        blank_so_far = blank_so_far && all_masked(&all_masks);
        proof {
            assert(all_masks@ == lane.all_masks()[n] + lane.masks_behind(n));
            assert(lane.is_blank_up_to(n) == (lane.is_blank_up_to(n - 1) && lane.is_blank(n)));
        }
        blank.push(blank_so_far);
        i = i + 1;
    }
    assert(rows_view(rows@) =~= Seq::new(values@.len(), |k: int| lane.token(k)));
    assert(blank@ =~= Seq::new(values@.len(), |k: int| lane.is_blank_up_to(k)));
    Tokens { rows, blank, stats }
}

/// The middle quantile of what the layers say of the patches behind patch `i`.
pub open spec fn median_block(raw: Seq<Single>, rolls: int, p: int, q: int) -> Seq<Seq<Single>> {
    Seq::new(
        rolls as nat,
        |r: int| Seq::new(p as nat, |k: int| raw[(r * p + k) * q + q / 2]),
    )
}

pub open spec fn median_blocks(raw: Seq<Seq<Single>>, rolls: int, p: int, q: int) -> Seq<
    Seq<Seq<Single>>,
> {
    raw.map_values(|row: Seq<Single>| median_block(row, rolls, p, q))
}

/// The statistics that what the layers say of patch `i` is taken back to scale by: its own, or,
/// where it is hidden, the refined ones.
pub open spec fn output_stats(
    raw: Seq<Seq<Single>>,
    stats: Seq<RunningStats>,
    hidden: Option<Seq<bool>>,
    rolls: int,
    p: int,
    q: int,
    bound: Single,
    i: int,
) -> RunningStats {
    match hidden {
        Some(h) => carry_after(
            median_blocks(raw, rolls, p, q),
            stats,
            h,
            rolls,
            p,
            bound,
            i + 1,
        ).stats,
        None => stats[i],
    }
}

pub proof fn lemma_block_index(r: int, k: int, rolls: int, p: int, q: int)
    requires
        0 <= r < rolls,
        0 <= k < p,
        q > 0,
    ensures
        0 <= r * p,
        0 <= (r * p + k) * q,
        (r * p + k) * q + q / 2 < rolls * p * q,
{
    assert(0 <= r * p && r * p + k < rolls * p) by (nonlinear_arith)
        requires
            0 <= r < rolls,
            0 <= k < p,
    ;
    let a = r * p + k;
    let b = rolls * p;
    assert(0 <= a * q && a * q + q <= b * q) by (nonlinear_arith)
        requires
            0 <= a < b,
            q > 0,
    ;
}

fn take_medians(raw: &Vec<Single>, rolls: usize, p: usize, q: usize) -> (r: Vec<Vec<Single>>)
    requires
        q > 0,
        raw@.len() == rolls * p * q,
    ensures
        rows_view(r@) == median_block(raw@, rolls as int, p as int, q as int),
        r@.len() == rolls,
        forall|t: int| 0 <= t < rolls ==> (#[trigger] r@[t])@.len() == p,
{
    let ghost model = median_block(raw@, rolls as int, p as int, q as int);
    let length = raw.len();
    let mut r: Vec<Vec<Single>> = Vec::new();
    let mut t: usize = 0;
    while t < rolls
        invariant
            t <= rolls,
            q > 0,
            length == raw@.len() == rolls * p * q,
            model == median_block(raw@, rolls as int, p as int, q as int),
            r@.len() == t,
            forall|j: int| 0 <= j < t ==> (#[trigger] r@[j])@ == model[j],
            forall|j: int| 0 <= j < t ==> (#[trigger] r@[j])@.len() == p,
        decreases rolls - t,
    {
        let mut row: Vec<Single> = Vec::new();
        let mut k: usize = 0;
        while k < p
            invariant
                t < rolls,
                k <= p,
                q > 0,
                length == raw@.len() == rolls * p * q,
                model == median_block(raw@, rolls as int, p as int, q as int),
                row@.len() == k,
                forall|j: int| 0 <= j < k ==> row@[j] == model[t as int][j],
            decreases p - k,
        {
            proof {
                lemma_block_index(t as int, k as int, rolls as int, p as int, q as int);
                let a = t * p + k;
                assert(a <= a * q) by (nonlinear_arith)
                    requires
                        a >= 0,
                        q >= 1,
                ;
            }
            row.push(raw[(t * p + k) * q + q / 2]);
            k = k + 1;
        }
        assert(row@ =~= model[t as int]);
        r.push(row);
        t = t + 1;
    }
    assert(rows_view(r@) =~= model);
    r
}

pub open spec fn optional_flags(o: Option<Vec<bool>>) -> Option<Seq<bool>> {
    match o {
        Some(v) => Some(v@),
        None => None,
    }
}

/// Takes what the layers say of each patch back to scale and keeps it within bounds. `hidden` marks
/// the patches whose statistics are refined from what the layers say; without it none are.
pub fn postprocess(
    raw_logits: &Vec<Vec<Single>>,
    stats: &Vec<RunningStats>,
    hidden: &Option<Vec<bool>>,
    rolls: usize,
    patch_len: usize,
    num_quantiles: usize,
    value_clip: Double,
) -> (r: Vec<Vec<Single>>)
    requires
        rolls > 0,
        num_quantiles > 0,
        stats@.len() == raw_logits@.len(),
        hidden matches Some(h) ==> h@.len() == raw_logits@.len(),
        is_even(rows_view(raw_logits@), rolls * patch_len * num_quantiles),
    ensures
        rows_view(r@) == Seq::new(
            raw_logits@.len(),
            |i: int|
                {
                    let s = output_stats(
                        rows_view(raw_logits@),
                        stats@,
                        optional_flags(*hidden),
                        rolls as int,
                        patch_len as int,
                        num_quantiles as int,
                        value_clip.narrowed(),
                        i,
                    );
                    clipped_row(
                        normalized_row(rows_view(raw_logits@)[i], s.mu, s.sigma, true),
                        value_clip.narrowed(),
                    )
                },
        ),
{
    let bound = value_clip.narrowed();
    let ghost raw = rows_view(raw_logits@);
    let ghost marks = optional_flags(*hidden);
    let ghost model = |i: int|
        output_stats(
            raw,
            stats@,
            marks,
            rolls as int,
            patch_len as int,
            num_quantiles as int,
            bound,
            i,
        );
    let refined: Vec<RunningStats> = match hidden {
        Some(h) => {
            let mut medians: Vec<Vec<Vec<Single>>> = Vec::new();
            let mut i: usize = 0;
            while i < raw_logits.len()
                invariant
                    i <= raw_logits@.len(),
                    num_quantiles > 0,
                    raw == rows_view(raw_logits@),
                    is_even(raw, rolls * patch_len * num_quantiles),
                    medians@.len() == i,
                    forall|k: int|
                        0 <= k < i ==> rows_view((#[trigger] medians@[k])@) == median_block(
                            raw[k],
                            rolls as int,
                            patch_len as int,
                            num_quantiles as int,
                        ),
                    forall|k: int|
                        0 <= k < i ==> (#[trigger] medians@[k])@.len() == rolls && forall|t: int|
                            0 <= t < rolls ==> (#[trigger] medians@[k]@[t])@.len() == patch_len,
                decreases raw_logits@.len() - i,
            {
                assert(raw[i as int] == raw_logits@[i as int]@);
                assert(raw[i as int].len() == rolls * patch_len * num_quantiles);
                medians.push(take_medians(&raw_logits[i], rolls, patch_len, num_quantiles));
                i = i + 1;
            }
            assert(medians_view(medians@) =~= median_blocks(
                raw,
                rolls as int,
                patch_len as int,
                num_quantiles as int,
            ));
            cpm_iterative_revin_refine(&medians, stats, h, rolls, patch_len, value_clip)
        },
        None => {
            let mut same: Vec<RunningStats> = Vec::new();
            let mut i: usize = 0;
            while i < stats.len()
                invariant
                    i <= stats@.len(),
                    same@ =~= stats@.take(i as int),
                decreases stats@.len() - i,
            {
                same.push(stats[i]);
                i = i + 1;
            }
            same
        },
    };
    assert(refined@.len() == raw_logits@.len());
    assert forall|i: int| 0 <= i < raw.len() implies refined@[i] == model(i) by {}
    let mut r: Vec<Vec<Single>> = Vec::new();
    let mut i: usize = 0;
    while i < raw_logits.len()
        invariant
            i <= raw_logits@.len() == refined@.len(),
            raw == rows_view(raw_logits@),
            forall|k: int| 0 <= k < raw.len() ==> refined@[k] == model(k),
            r@.len() == i,
            forall|k: int|
                0 <= k < i ==> (#[trigger] r@[k])@ == clipped_row(
                    normalized_row(raw[k], model(k).mu, model(k).sigma, true),
                    bound,
                ),
        decreases raw_logits@.len() - i,
    {
        assert(raw[i as int] == raw_logits@[i as int]@);
        let s = refined[i];
        assert(s == model(i as int));
        r.push(clip_row(&revin(&raw_logits[i], s.mu, s.sigma, true), bound));
        i = i + 1;
    }
    assert(rows_view(r@) =~= Seq::new(
        raw_logits@.len(),
        |i: int|
            {
                let s = output_stats(
                    raw,
                    stats@,
                    marks,
                    rolls as int,
                    patch_len as int,
                    num_quantiles as int,
                    bound,
                    i,
                );
                clipped_row(normalized_row(raw[i], s.mu, s.sigma, true), bound)
            },
    ));
    r
}

/// The patches of a lane all have the lane's patch length, with a flag for each.
pub open spec fn is_regular(lane: Lane) -> bool {
    &&& lane.values.len() > 0
    &&& lane.rolls >= 0
    &&& lane.p >= 0
    &&& lane.masks.len() == lane.values.len()
    &&& lane.targets.len() == lane.values.len()
    &&& (lane.hidden matches Some(h) ==> h.len() == lane.values.len())
    &&& is_even(lane.values, lane.p)
    &&& is_even(lane.masks, lane.p)
}

/// Every token has as many numbers as the first layer takes: the points of a patch and of an output
/// patch, and their masks.
pub proof fn law_token_length(lane: Lane, i: int)
    requires
        is_regular(lane),
        0 <= i < lane.values.len(),
    ensures
        lane.token(i).len() == 2 * (lane.p + lane.rolls * lane.p),
{
    lemma_masks_even(lane);
    lemma_behind_length(lane.values, i, lane.rolls, lane.p);
    lemma_behind_length(lane.all_masks(), i, lane.rolls, lane.p);
    assert(lane.values[i].len() == lane.p);
    assert(lane.all_masks()[i].len() == lane.p);
}

proof fn lemma_masks_even(lane: Lane)
    requires
        is_regular(lane),
    ensures
        is_even(lane.all_masks(), lane.p),
        lane.all_masks().len() == lane.values.len(),
{
    assert forall|i: int| 0 <= i < lane.values.len() implies (#[trigger] lane.all_masks()[i]).len()
        == lane.p by {
        assert(lane.masks[i].len() == lane.p);
    }
}

/// A series that is to be forecast never looks ahead: whatever stands behind a patch of it reads as
/// zero and is masked, where the masks are numbers.
pub proof fn law_targets_do_not_look_ahead(lane: Lane, i: int)
    requires
        is_regular(lane),
        0 <= i < lane.values.len(),
        is_masked(lane.targets[i]),
        forall|k: int|
            0 <= k < behind(lane.all_masks(), i, lane.rolls).len() ==> !(#[trigger] behind(
                lane.all_masks(),
                i,
                lane.rolls,
            )[k]).is_nan(),
    ensures
        forall|k: int|
            0 <= k < lane.points_behind(i).len() ==> (#[trigger] lane.points_behind(i)[k])
                == Single::zero() && is_masked(lane.masks_behind(i)[k]),
{
    lemma_masks_even(lane);
    lemma_behind_length(lane.values, i, lane.rolls, lane.p);
    lemma_behind_length(lane.all_masks(), i, lane.rolls, lane.p);
    let raw = behind(lane.all_masks(), i, lane.rolls);
    let ends = beyond(lane.all_masks().len() as int, i, lane.rolls, lane.p);
    let t = lane.targets[i];
    let half = Single { bits: 0x3f00_0000 };
    assert forall|k: int| 0 <= k < lane.points_behind(i).len() implies (
    #[trigger] lane.points_behind(i)[k]) == Single::zero() && is_masked(
        lane.masks_behind(i)[k],
    ) by {
        assert(!raw[k].is_nan());
        let first = larger(raw[k], t);
        law_order(half, t, raw[k]);
        law_order(half, first, ends[k]);
    }
}

/// A hidden patch of a series that is to be forecast reads as zeros, where its masks are numbers.
pub proof fn law_hidden_patches_read_as_zero(lane: Lane, i: int)
    requires
        is_regular(lane),
        0 <= i < lane.values.len(),
        lane.targets[i] == one(),
        lane.hidden matches Some(h) && h[i] == one(),
        forall|k: int| 0 <= k < lane.p ==> !(#[trigger] lane.masks[i][k]).is_nan(),
    ensures
        forall|k: int|
            0 <= k < lane.p ==> (#[trigger] lane.own_points(i)[k]) == Single::zero() && is_masked(
                lane.all_masks()[i][k],
            ),
{
    law_one_times_one();
    assert(lane.values[i].len() == lane.p);
    assert(lane.masks[i].len() == lane.p);
    let half = Single { bits: 0x3f00_0000 };
    assert(half.lt(one())) by {
        reveal(Single::lt_spec);
    }
    assert forall|k: int| 0 <= k < lane.p implies (#[trigger] lane.own_points(i)[k])
        == Single::zero() && is_masked(lane.all_masks()[i][k]) by {
        assert(!lane.masks[i][k].is_nan());
        law_order(half, one(), lane.masks[i][k]);
    }
}

/// Once something of a series can be seen, the patches behind it stay in view.
pub proof fn law_view_stays_open(lane: Lane, i: int, j: int)
    requires
        i <= j,
        !lane.is_blank_up_to(i),
    ensures
        !lane.is_blank_up_to(j),
{
}

/// What the layers are given of a patch, number by number: its own points, brought to scale by the
/// statistics up to it, zero where they are masked; then the points of the patches behind it, brought
/// to the same scale, zero where they are masked, part of a series to forecast, or beyond the end; then
/// the masks of both. A patch that is hidden in a series to forecast is masked all over.
pub proof fn law_token_numbers(lane: Lane, i: int, k: int)
    requires
        is_regular(lane),
        lane.p > 0,
        0 <= i < lane.values.len(),
        0 <= k < lane.rolls * lane.p,
    ensures
        ({
            let (p, far, n) = (lane.p, lane.rolls * lane.p, lane.values.len() as int);
            let s = lane.stats(i);
            let half = Single { bits: 0x3f00_0000 };
            let zero = Single { bits: 0 };
            let unit = Single { bits: 0x3f80_0000 };
            let by = if s.sigma.lt(Single { bits: 0x3586_37bd }) {
                unit
            } else {
                s.sigma
            };
            let greater = |a: Single, b: Single|
                if a.lt(b) {
                    b
                } else {
                    a
                };
            let mark = |j: int, m: int|
                match lane.hidden {
                    Some(h) => greater(lane.masks[j][m], h[j].times(lane.targets[j])),
                    None => lane.masks[j][m],
                };
            let token = lane.token(i);
            // a point of the patch itself
            &&& k < p ==> token[p + far + k] == mark(i, k) && token[k] == if half.lt(mark(i, k)) {
                zero
            } else {
                lane.values[i][k].minus(s.mu).over(by)
            }
            // a point of a patch behind it
            &&& ({
                let j = (i + 1 + k / p) % n;
                let end = if i + 1 + k / p >= n {
                    unit
                } else {
                    zero
                };
                let m = greater(greater(mark(j, k % p), lane.targets[i]), end);
                token[2 * p + far + k] == m && token[p + k] == if half.lt(m) {
                    zero
                } else {
                    lane.values[j][k % p].minus(s.mu).over(by)
                }
            })
            &&& token.len() == 2 * (p + far)
        }),
{
    law_token_length(lane, i);
    lemma_masks_even(lane);
    let (p, far, n) = (lane.p, lane.rolls * lane.p, lane.values.len() as int);
    lemma_behind_length(lane.values, i, lane.rolls, p);
    lemma_behind_length(lane.all_masks(), i, lane.rolls, p);
    law_rolled_points(lane.values, i, lane.rolls, p, k);
    law_rolled_points(lane.all_masks(), i, lane.rolls, p, k);
    assert(lane.values[i].len() == p);
    assert(lane.masks[i].len() == p);
    assert(lane.all_masks()[i].len() == p);
    let j = (i + 1 + k / p) % n;
    vstd::arithmetic::div_mod::lemma_mod_bound(i + 1 + k / p, n);
    vstd::arithmetic::div_mod::lemma_mod_bound(k, p);
    vstd::arithmetic::div_mod::lemma_div_pos_is_pos(k, p);
    assert(lane.masks[j].len() == p);
    assert(lane.all_masks()[j].len() == p);
    assert(lane.own_points(i).len() == p);
    assert(lane.points_behind(i).len() == far);
    assert(lane.masks_behind(i).len() == far);
    let token = lane.token(i);
    assert(token[p + k] == lane.points_behind(i)[k]);
    assert(token[2 * p + far + k] == lane.masks_behind(i)[k]);
    if k < p {
        assert(token[k] == lane.own_points(i)[k]);
        assert(token[p + far + k] == lane.all_masks()[i][k]);
    }
}

/// The statistics that a patch is brought to scale by are the running ones up to it; behind the patch
/// after which they are frozen, its mean and deviation stay.
pub proof fn law_statistics_of_tokens(lane: Lane, i: int)
    requires
        0 <= i < lane.values.len(),
    ensures
        lane.stats(i).n == stats_after(lane.values, lane.masks, i + 1).n,
        lane.freeze_after is None ==> lane.stats(i) == stats_after(lane.values, lane.masks, i + 1),
        lane.freeze_after matches Some(last) ==> {
            let at = if last < lane.values.len() - 1 && i > last {
                last + 1
            } else {
                i + 1
            };
            lane.stats(i).mu == stats_after(lane.values, lane.masks, at).mu && lane.stats(i).sigma
                == stats_after(lane.values, lane.masks, at).sigma
        },
{
}

/// Nothing can be seen up to a patch exactly where every mask of every token up to it is above one
/// half.
pub proof fn law_blank_tokens(lane: Lane, i: int)
    requires
        is_regular(lane),
        0 <= i < lane.values.len(),
    ensures
        lane.is_blank_up_to(i) <==> forall|j: int, k: int|
            0 <= j <= i && lane.p + lane.rolls * lane.p <= k < 2 * (lane.p + lane.rolls * lane.p)
                ==> (Single { bits: 0x3f00_0000 }).lt(#[trigger] lane.token(j)[k]),
{
    lemma_masks_even(lane);
    let w = lane.p + lane.rolls * lane.p;
    assert forall|j: int| 0 <= j <= i implies (#[trigger] lane.is_blank(j) <==> forall|k: int|
        w <= k < 2 * w ==> (Single { bits: 0x3f00_0000 }).lt(#[trigger] lane.token(j)[k])) by {
        law_token_length(lane, j);
        lemma_behind_length(lane.values, j, lane.rolls, lane.p);
        lemma_behind_length(lane.all_masks(), j, lane.rolls, lane.p);
        assert(lane.values[j].len() == lane.p);
        assert(lane.all_masks()[j].len() == lane.p);
        let m = lane.all_masks()[j] + lane.masks_behind(j);
        let t = lane.token(j);
        assert(m.len() == w);
        assert forall|k: int| 0 <= k < w implies m[k] == t[w + k] by {}
        if lane.is_blank(j) {
            assert forall|k: int| w <= k < 2 * w implies (Single { bits: 0x3f00_0000 }).lt(
                #[trigger] lane.token(j)[k],
            ) by {
                assert(is_masked(m[k - w]));
            }
        }
        if forall|k: int|
            w <= k < 2 * w ==> (Single { bits: 0x3f00_0000 }).lt(#[trigger] lane.token(j)[k]) {
            assert forall|k: int| 0 <= k < m.len() implies is_masked(#[trigger] m[k]) by {
                assert(m[k] == lane.token(j)[w + k]);
            }
        }
    }
    if lane.is_blank_up_to(i) {
        assert forall|j: int, k: int| 0 <= j <= i && w <= k < 2 * w implies (Single {
            bits: 0x3f00_0000,
        }).lt(#[trigger] lane.token(j)[k]) by {
            assert(lane.is_blank(j));
        }
    }
}

/// A lane holds the patches, masks and flags that it is made of, each as it is.
pub proof fn law_lane_holds_what_it_is_given(
    values: Seq<Vec<Single>>,
    masks: Seq<Vec<Single>>,
    targets: Seq<Single>,
    freeze_after: Option<usize>,
    hidden: Option<Vec<Single>>,
    rolls: int,
    i: int,
)
    requires
        0 <= i < values.len(),
        values.len() == masks.len(),
    ensures
        ({
            let lane = lane_of(values, masks, targets, freeze_after, optional_row(hidden), rolls);
            &&& lane.values.len() == values.len()
            &&& lane.values[i] == values[i]@
            &&& lane.masks[i] == masks[i]@
            &&& lane.targets == targets
            &&& lane.freeze_after == freeze_after
            &&& lane.rolls == rolls
            &&& lane.p == values[0]@.len()
            &&& hidden is Some ==> lane.hidden == Some(hidden->Some_0@)
            &&& hidden is None ==> lane.hidden is None
        }),
{
}

/// The statistics that what the layers say is taken back to scale by: without refinement the given ones;
/// with it the refined ones, found from the middle level of what the layers say.
pub proof fn law_statistics_taken_back_by(
    raw: Seq<Seq<Single>>,
    stats: Seq<RunningStats>,
    hidden: Option<Vec<bool>>,
    rolls: int,
    p: int,
    q: int,
    bound: Single,
    i: int,
)
    ensures
        hidden is None ==> output_stats(
            raw,
            stats,
            optional_flags(hidden),
            rolls,
            p,
            q,
            bound,
            i,
        ) == stats[i],
        hidden matches Some(h) ==> ({
            let medians = raw.map_values(
                |row: Seq<Single>|
                    Seq::new(
                        rolls as nat,
                        |r: int| Seq::new(p as nat, |m: int| row[(r * p + m) * q + q / 2]),
                    ),
            );
            output_stats(raw, stats, optional_flags(hidden), rolls, p, q, bound, i) == carry_after(
                medians,
                stats,
                h@,
                rolls,
                p,
                bound,
                i + 1,
            ).stats
        }),
{
    let medians = raw.map_values(
        |row: Seq<Single>|
            Seq::new(
                rolls as nat,
                |r: int| Seq::new(p as nat, |m: int| row[(r * p + m) * q + q / 2]),
            ),
    );
    let given = median_blocks(raw, rolls, p, q);
    assert forall|j: int| 0 <= j < raw.len() implies medians[j] == given[j] by {
        assert forall|r: int| 0 <= r < medians[j].len() implies medians[j][r] == given[j][r] by {
            assert(medians[j][r] =~= given[j][r]);
        }
        assert(medians[j] =~= given[j]);
    }
    assert(medians =~= given);
}

} // verus!
