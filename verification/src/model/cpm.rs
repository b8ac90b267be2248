//! Statistics for the patches that lie ahead, from what the model says of them.

use vstd::prelude::*;

use super::running::{no_stats, normalized_row, revin, update_running_stats, updated, RunningStats};
use crate::ieee::scalar::{Double, Single};
use crate::rows::{clip_row, clipped_row, constant, repeated, rows_view};
use crate::stats::copy_of;

verus! {

/// What the model says of the patches behind a patch, and how it is carried along: the statistics
/// so far, the last prediction that was taken up, and how many of its patches are used up.
pub struct Carry {
    pub stats: RunningStats,
    pub anchor: Seq<Seq<Single>>,
    pub offset: int,
}

/// Before the first patch: no statistics, and a prediction of zeros.
pub open spec fn first_carry(rolls: int, patch_len: int) -> Carry {
    Carry {
        stats: no_stats(),
        anchor: Seq::new(rolls as nat, |r: int| constant(patch_len, Single::zero())),
        offset: 0,
    }
}

/// How many patches of the prediction are used up after a patch: one more while patches are hidden,
/// starting over when all are used up, and none after a patch that is known.
pub open spec fn next_offset(offset: int, hidden: bool, rolls: int) -> int {
    if hidden {
        (offset + 1) % rolls
    } else {
        0
    }
}

/// The statistics at a patch: its own where it is known; where it is hidden, the ones carried along
/// with the predicted patch taken in.
pub open spec fn stats_at(carry: Carry, actual: RunningStats, hidden: bool, patch_len: int) -> RunningStats {
    if hidden {
        updated(carry.stats, carry.anchor[carry.offset], constant(patch_len, Single::zero()))
    } else {
        actual
    }
}

/// What the model says of the patches behind, taken back to scale and kept within bounds.
pub open spec fn prediction(medians: Seq<Seq<Single>>, stats: RunningStats, bound: Single) -> Seq<
    Seq<Single>,
> {
    medians.map_values(
        |row: Seq<Single>|
            clipped_row(normalized_row(row, stats.mu, stats.sigma, true), bound),
    )
}

/// The carry after the first `n` patches.
pub open spec fn carry_after(
    medians: Seq<Seq<Seq<Single>>>,
    actual: Seq<RunningStats>,
    hidden: Seq<bool>,
    rolls: int,
    patch_len: int,
    bound: Single,
    n: int,
) -> Carry
    decreases n,
{
    if n <= 0 {
        first_carry(rolls, patch_len)
    } else {
        let carry = carry_after(medians, actual, hidden, rolls, patch_len, bound, n - 1);
        let stats = stats_at(carry, actual[n - 1], hidden[n - 1], patch_len);
        let offset = next_offset(carry.offset, hidden[n - 1], rolls);
        Carry {
            stats,
            anchor: if offset == 0 {
                prediction(medians[n - 1], stats, bound)
            } else {
                carry.anchor
            },
            offset,
        }
    }
}

/// What the model's medians hold: for each patch, the patches behind it, point by point.
pub open spec fn medians_view(medians: Seq<Vec<Vec<Single>>>) -> Seq<Seq<Seq<Single>>> {
    medians.map_values(|m: Vec<Vec<Single>>| rows_view(m@))
}

/// For each patch `rolls` patches of `patch_len` points.
pub open spec fn is_block(medians: Seq<Vec<Vec<Single>>>, rolls: int, patch_len: int) -> bool {
    forall|i: int|
        0 <= i < medians.len() ==> (#[trigger] medians[i])@.len() == rolls && forall|r: int|
            0 <= r < rolls ==> (#[trigger] medians[i]@[r])@.len() == patch_len
}

fn predict(medians: &Vec<Vec<Single>>, stats: RunningStats, bound: Single) -> (r: Vec<Vec<Single>>)
    ensures
        rows_view(r@) == prediction(rows_view(medians@), stats, bound),
{
    let mut r: Vec<Vec<Single>> = Vec::new();
    let mut i: usize = 0;
    while i < medians.len()
        invariant
            i <= medians@.len(),
            r@.len() == i,
            forall|k: int|
                0 <= k < i ==> (#[trigger] r@[k])@ == clipped_row(
                    normalized_row(medians@[k]@, stats.mu, stats.sigma, true),
                    bound,
                ),
        decreases medians@.len() - i,
    {
        let row = revin(&medians[i], stats.mu, stats.sigma, true);
        r.push(clip_row(&row, bound));
        i = i + 1;
    }
    assert(rows_view(r@) =~= prediction(rows_view(medians@), stats, bound));
    r
}

/// Finds the statistics of hidden patches by going through the patches in order: each hidden patch
/// is taken to be what the model predicted for it at the last patch where its prediction was taken
/// up. `medians` is that prediction at every patch, `actual` the statistics of the known points.
pub fn cpm_iterative_revin_refine(
    medians: &Vec<Vec<Vec<Single>>>,
    actual: &Vec<RunningStats>,
    hidden: &Vec<bool>,
    rolls: usize,
    patch_len: usize,
    value_clip: Double,
) -> (r: Vec<RunningStats>)
    requires
        rolls > 0,
        actual@.len() == medians@.len(),
        hidden@.len() == medians@.len(),
        is_block(medians@, rolls as int, patch_len as int),
    ensures
        r@ == Seq::new(
            medians@.len(),
            |i: int|
                carry_after(
                    medians_view(medians@),
                    actual@,
                    hidden@,
                    rolls as int,
                    patch_len as int,
                    value_clip.narrowed(),
                    i + 1,
                ).stats,
        ),
{
    let bound = value_clip.narrowed();
    let ghost m = medians_view(medians@);
    let mut stats = RunningStats { n: Single::zero(), mu: Single::zero(), sigma: Single::zero() };
    let zeros = repeated(patch_len, Single::zero());
    let mut anchor: Vec<Vec<Single>> = Vec::new();
    let mut t: usize = 0;
    while t < rolls
        invariant
            t <= rolls,
            zeros@ == constant(patch_len as int, Single::zero()),
            anchor@.len() == t,
            forall|k: int| 0 <= k < t ==> (#[trigger] anchor@[k])@ == zeros@,
        decreases rolls - t,
    {
        anchor.push(copy_of(&zeros));
        t = t + 1;
    }
    assert(rows_view(anchor@) =~= first_carry(rolls as int, patch_len as int).anchor);
    let mut offset: usize = 0;
    let mut r: Vec<RunningStats> = Vec::new();
    let mut i: usize = 0;
    while i < medians.len()
        invariant
            i <= medians@.len(),
            rolls > 0,
            actual@.len() == medians@.len(),
            hidden@.len() == medians@.len(),
            is_block(medians@, rolls as int, patch_len as int),
            m == medians_view(medians@),
            bound == value_clip.narrowed(),
            zeros@ == constant(patch_len as int, Single::zero()),
            offset < rolls,
            anchor@.len() == rolls,
            forall|k: int| 0 <= k < rolls ==> (#[trigger] anchor@[k])@.len() == patch_len,
            ({
                let carry = carry_after(
                    m,
                    actual@,
                    hidden@,
                    rolls as int,
                    patch_len as int,
                    bound,
                    i as int,
                );
                stats == carry.stats && rows_view(anchor@) == carry.anchor && offset == carry.offset
            }),
            r@.len() == i,
            forall|k: int|
                0 <= k < i ==> r@[k] == carry_after(
                    m,
                    actual@,
                    hidden@,
                    rolls as int,
                    patch_len as int,
                    bound,
                    k + 1,
                ).stats,
        decreases medians@.len() - i,
    {
        assert(rows_view(anchor@)[offset as int] == anchor@[offset as int]@);
        assert(m[i as int] == rows_view(medians@[i as int]@));
        if hidden[i] {
            stats = update_running_stats(stats, &anchor[offset], &zeros);
            offset = (offset + 1) % rolls;
        } else {
            stats = actual[i];
            offset = 0;
        }
        if offset == 0 {
            anchor = predict(&medians[i], stats, bound);
            assert(rows_view(anchor@).len() == rows_view(medians@[i as int]@).len());
            assert forall|k: int| 0 <= k < rolls implies (#[trigger] anchor@[k])@.len()
                == patch_len by {
                assert(medians@[i as int]@[k]@.len() == patch_len);
                assert(rows_view(anchor@)[k] == anchor@[k]@);
                assert(rows_view(anchor@)[k].len() == rows_view(medians@[i as int]@)[k].len());
            }
        }
        r.push(stats);
        i = i + 1;
    }
    assert(r@ =~= Seq::new(
        medians@.len(),
        |k: int|
            carry_after(
                m,
                actual@,
                hidden@,
                rolls as int,
                patch_len as int,
                bound,
                k + 1,
            ).stats,
    ));
    r
}

/// Where a patch is known, its own statistics stand; nothing hidden changes them.
pub proof fn law_known_patches_keep_their_statistics(
    medians: Seq<Seq<Seq<Single>>>,
    actual: Seq<RunningStats>,
    hidden: Seq<bool>,
    rolls: int,
    patch_len: int,
    bound: Single,
    i: int,
)
    requires
        0 <= i < actual.len(),
        !hidden[i],
    ensures
        carry_after(medians, actual, hidden, rolls, patch_len, bound, i + 1).stats == actual[i],
        carry_after(medians, actual, hidden, rolls, patch_len, bound, i + 1).offset == 0,
{
}

/// What the statistics of hidden patches are changes nothing at all: two runs that agree on the
/// known patches have the same statistics at every patch.
pub proof fn law_hidden_statistics_do_not_matter(
    medians: Seq<Seq<Seq<Single>>>,
    actual: Seq<RunningStats>,
    other: Seq<RunningStats>,
    hidden: Seq<bool>,
    rolls: int,
    patch_len: int,
    bound: Single,
    n: int,
)
    requires
        n <= hidden.len(),
        forall|i: int| 0 <= i < n && !hidden[i] ==> #[trigger] actual[i] == #[trigger] other[i],
    ensures
        carry_after(medians, actual, hidden, rolls, patch_len, bound, n) == carry_after(
            medians,
            other,
            hidden,
            rolls,
            patch_len,
            bound,
            n,
        ),
    decreases n,
{
    if n > 0 {
        law_hidden_statistics_do_not_matter(
            medians,
            actual,
            other,
            hidden,
            rolls,
            patch_len,
            bound,
            n - 1,
        );
        assert(hidden[n - 1] || actual[n - 1] == other[n - 1]);
    }
}

/// What is used up of a prediction is always less than all of it.
pub proof fn law_offset_in_range(
    medians: Seq<Seq<Seq<Single>>>,
    actual: Seq<RunningStats>,
    hidden: Seq<bool>,
    rolls: int,
    patch_len: int,
    bound: Single,
    n: int,
)
    requires
        rolls > 0,
    ensures
        0 <= carry_after(medians, actual, hidden, rolls, patch_len, bound, n).offset < rolls,
    decreases n,
{
    if n > 0 {
        law_offset_in_range(medians, actual, hidden, rolls, patch_len, bound, n - 1);
        let before = carry_after(medians, actual, hidden, rolls, patch_len, bound, n - 1).offset;
        vstd::arithmetic::div_mod::lemma_mod_bound(before + 1, rolls);
    }
}

/// Hidden patches take in what was said of them at the last known patch: behind a known patch `i`, the
/// statistics at the `m`th hidden patch, as long as the prediction reaches, are those at the patch
/// before it with the `m`th patch of the prediction taken in, all of its points seen. The prediction is
/// what was said at patch `i`, times the deviation there and the mean put on, kept within the bound.
pub proof fn law_hidden_patches_take_in_the_prediction(
    medians: Seq<Seq<Seq<Single>>>,
    actual: Seq<RunningStats>,
    hidden: Seq<bool>,
    rolls: int,
    patch_len: int,
    bound: Single,
    i: int,
    m: int,
)
    requires
        0 <= i,
        1 <= m <= rolls,
        !hidden[i],
        medians[i].len() == rolls,
        forall|k: int| i < k <= i + m ==> #[trigger] hidden[k],
    ensures
        ({
            let s = actual[i];
            let said = medians[i][m - 1];
            let taken = Seq::new(
                said.len(),
                |k: int|
                    {
                        let x = said[k].times(s.sigma).plus(s.mu);
                        let y = if x.lt(bound.negated()) {
                            bound.negated()
                        } else {
                            x
                        };
                        if bound.lt(y) {
                            bound
                        } else {
                            y
                        }
                    },
            );
            carry_after(medians, actual, hidden, rolls, patch_len, bound, i + m + 1).stats == updated(
                carry_after(medians, actual, hidden, rolls, patch_len, bound, i + m).stats,
                taken,
                Seq::new(patch_len as nat, |k: int| Single { bits: 0 }),
            )
        }),
        carry_after(medians, actual, hidden, rolls, patch_len, bound, i + 1).stats == actual[i],
{
    let c = carry_after(medians, actual, hidden, rolls, patch_len, bound, i + 1);
    lemma_carried(medians, actual, hidden, rolls, patch_len, bound, i, m - 1);
    let before = carry_after(medians, actual, hidden, rolls, patch_len, bound, i + m);
    assert(hidden[i + m]);
    let s = actual[i];
    let said = medians[i][m - 1];
    let p = prediction(medians[i], s, bound);
    assert(before.anchor[before.offset] == p[m - 1]);
    let taken = Seq::new(
        said.len(),
        |k: int|
            {
                let x = said[k].times(s.sigma).plus(s.mu);
                let y = if x.lt(bound.negated()) {
                    bound.negated()
                } else {
                    x
                };
                if bound.lt(y) {
                    bound
                } else {
                    y
                }
            },
    );
    assert(p[m - 1] =~= taken);
    assert(constant(patch_len, Single::zero()) =~= Seq::new(
        patch_len as nat,
        |k: int| Single { bits: 0 },
    ));
}

proof fn lemma_carried(
    medians: Seq<Seq<Seq<Single>>>,
    actual: Seq<RunningStats>,
    hidden: Seq<bool>,
    rolls: int,
    patch_len: int,
    bound: Single,
    i: int,
    m: int,
)
    requires
        0 <= i,
        0 <= m < rolls,
        !hidden[i],
        forall|k: int| i < k <= i + m ==> #[trigger] hidden[k],
    ensures
        ({
            let c = carry_after(medians, actual, hidden, rolls, patch_len, bound, i + m + 1);
            c.offset == m && c.anchor == prediction(medians[i], actual[i], bound)
        }),
    decreases m,
{
    if m > 0 {
        lemma_carried(medians, actual, hidden, rolls, patch_len, bound, i, m - 1);
        assert(hidden[i + m]);
        vstd::arithmetic::div_mod::lemma_small_mod(m as nat, rolls as nat);
    }
}

/// Once the whole prediction is used up, the next one is taken up at the last patch that used it: the
/// refined statistics there take its place.
pub proof fn law_used_up_prediction_is_replaced(
    medians: Seq<Seq<Seq<Single>>>,
    actual: Seq<RunningStats>,
    hidden: Seq<bool>,
    rolls: int,
    patch_len: int,
    bound: Single,
    i: int,
)
    requires
        0 <= i,
        rolls >= 1,
        !hidden[i],
        forall|k: int| i < k <= i + rolls ==> #[trigger] hidden[k],
        medians[i + rolls].len() >= 1,
        hidden[i + rolls + 1],
    ensures
        ({
            let s = carry_after(medians, actual, hidden, rolls, patch_len, bound, i + rolls + 1).stats;
            let said = medians[i + rolls][0];
            let taken = Seq::new(
                said.len(),
                |k: int|
                    {
                        let x = said[k].times(s.sigma).plus(s.mu);
                        let y = if x.lt(bound.negated()) {
                            bound.negated()
                        } else {
                            x
                        };
                        if bound.lt(y) {
                            bound
                        } else {
                            y
                        }
                    },
            );
            carry_after(medians, actual, hidden, rolls, patch_len, bound, i + rolls + 2).stats
                == updated(s, taken, Seq::new(patch_len as nat, |k: int| Single { bits: 0 }))
        }),
{
    lemma_carried(medians, actual, hidden, rolls, patch_len, bound, i, rolls - 1);
    assert(hidden[i + rolls]);
    vstd::arithmetic::div_mod::lemma_mod_self_0(rolls);
    let c = carry_after(medians, actual, hidden, rolls, patch_len, bound, i + rolls + 1);
    assert(c.offset == 0);
    let p = prediction(medians[i + rolls], c.stats, bound);
    assert(c.anchor == p);
    let s = c.stats;
    let said = medians[i + rolls][0];
    let taken = Seq::new(
        said.len(),
        |k: int|
            {
                let x = said[k].times(s.sigma).plus(s.mu);
                let y = if x.lt(bound.negated()) {
                    bound.negated()
                } else {
                    x
                };
                if bound.lt(y) {
                    bound
                } else {
                    y
                }
            },
    );
    assert(p[0] =~= taken);
    assert(constant(patch_len, Single::zero()) =~= Seq::new(
        patch_len as nat,
        |k: int| Single { bits: 0 },
    ));
}

/// One patch after another: a known patch brings its own statistics and its own prediction; a hidden one
/// takes in the next patch of the prediction that is carried, all of its points seen, and once that is
/// used up the prediction at the hidden patch takes its place, at the statistics reached there. Before
/// the first patch there are no statistics, and the prediction is all zeros.
pub proof fn law_one_patch_after_another(
    medians: Seq<Seq<Seq<Single>>>,
    actual: Seq<RunningStats>,
    hidden: Seq<bool>,
    rolls: int,
    patch_len: int,
    bound: Single,
    n: int,
    r: int,
    k: int,
)
    requires
        n >= 0,
        rolls > 0,
        0 <= r < medians[n].len(),
        0 <= k < medians[n][r].len(),
    ensures
        ({
            let first = carry_after(medians, actual, hidden, rolls, patch_len, bound, 0);
            &&& first.offset == 0
            &&& first.stats.n == Single { bits: 0 }
            &&& first.stats.mu == Single { bits: 0 }
            &&& first.stats.sigma == Single { bits: 0 }
            &&& first.anchor.len() == rolls
            &&& r < rolls ==> first.anchor[r] == Seq::new(
                patch_len as nat,
                |i: int| Single { bits: 0 },
            )
        }),
        ({
            let a = carry_after(medians, actual, hidden, rolls, patch_len, bound, n);
            let b = carry_after(medians, actual, hidden, rolls, patch_len, bound, n + 1);
            let x = medians[n][r][k].times(b.stats.sigma).plus(b.stats.mu);
            let y = if x.lt(bound.negated()) {
                bound.negated()
            } else {
                x
            };
            let kept = if bound.lt(y) {
                bound
            } else {
                y
            };
            &&& !hidden[n] ==> b.stats == actual[n] && b.offset == 0
            &&& hidden[n] ==> b.stats == updated(
                a.stats,
                a.anchor[a.offset],
                Seq::new(patch_len as nat, |i: int| Single { bits: 0 }),
            )
            &&& hidden[n] ==> b.offset == (if a.offset + 1 == rolls {
                0
            } else {
                a.offset + 1
            })
            &&& b.offset == 0 ==> b.anchor.len() == medians[n].len() && b.anchor[r].len()
                == medians[n][r].len() && b.anchor[r][k] == kept
            &&& b.offset != 0 ==> b.anchor == a.anchor
        }),
{
    law_offset_in_range(medians, actual, hidden, rolls, patch_len, bound, n);
    let a = carry_after(medians, actual, hidden, rolls, patch_len, bound, n);
    if a.offset + 1 == rolls {
        vstd::arithmetic::div_mod::lemma_mod_self_0(rolls);
    } else {
        vstd::arithmetic::div_mod::lemma_small_mod((a.offset + 1) as nat, rolls as nat);
    }
    let zeros = Seq::new(patch_len as nat, |i: int| Single { bits: 0 });
    assert(constant(patch_len, Single::zero()) =~= zeros);
}

/// What medians hold is what each of them holds, row by row.
pub proof fn law_medians_hold_their_rows(medians: Seq<Vec<Vec<Single>>>, i: int, r: int)
    requires
        0 <= i < medians.len(),
        0 <= r < medians[i]@.len(),
    ensures
        medians_view(medians).len() == medians.len(),
        medians_view(medians)[i].len() == medians[i]@.len(),
        medians_view(medians)[i][r] == medians[i]@[r]@,
{
}

} // verus!
