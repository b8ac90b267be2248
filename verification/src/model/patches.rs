//! Patches that look ahead, and patches that overlap.

use vstd::arithmetic::div_mod::*;
use vstd::arithmetic::mul::*;
use vstd::prelude::*;

use crate::ieee::nearest::{law_one_less_zero, law_plus_zero, law_times_one, law_times_zero};
use crate::ieee::scalar::{law_count_over_itself, law_one_less_one, Single};
use crate::rows::{append_part, append_row, one, rows_view};

verus! {

/// All rows have the same length.
pub open spec fn is_even(rows: Seq<Seq<Single>>, len: int) -> bool {
    forall|i: int| 0 <= i < rows.len() ==> (#[trigger] rows[i]).len() == len
}

/// The `rolls` patches behind patch `i`, one after another, going round at the end.
pub open spec fn behind(x: Seq<Seq<Single>>, i: int, rolls: int) -> Seq<Single>
    decreases rolls,
{
    if rolls <= 0 {
        seq![]
    } else {
        behind(x, i, rolls - 1) + x[(i + rolls) % (x.len() as int)]
    }
}

/// One where a point that was taken from behind patch `i` lies beyond the last patch.
pub open spec fn beyond(n: int, i: int, rolls: int, p: int) -> Seq<Single> {
    Seq::new(
        (rolls * p) as nat,
        |k: int|
            if i + 1 + k / p >= n {
                one()
            } else {
                Single::zero()
            },
    )
}

/// For each patch, the `rolls` patches behind it, and which of their points went round at the end.
pub fn get_output_patch_via_roll(x: &Vec<Vec<Single>>, rolls: usize) -> (r: (
    Vec<Vec<Single>>,
    Vec<Vec<Single>>,
))
    requires
        x@.len() > 0,
        is_even(rows_view(x@), x@[0]@.len() as int),
        x@.len() + rolls + 1 <= usize::MAX,
        rolls * x@[0]@.len() <= usize::MAX,
    ensures
        rows_view(r.0@) == Seq::new(
            x@.len(),
            |i: int| behind(rows_view(x@), i, rolls as int),
        ),
        rows_view(r.1@) == Seq::new(
            x@.len(),
            |i: int| beyond(x@.len() as int, i, rolls as int, x@[0]@.len() as int),
        ),
{
    let ghost views = rows_view(x@);
    let n = x.len();
    let p = x[0].len();
    let mut rolled: Vec<Vec<Single>> = Vec::new();
    let mut wrapped: Vec<Vec<Single>> = Vec::new();
    let mut i: usize = 0;
    while i < n
        invariant
            i <= n == x@.len(),
            n > 0,
            p == x@[0]@.len(),
            views == rows_view(x@),
            n + rolls + 1 <= usize::MAX,
            rolls * p <= usize::MAX,
            rolled@.len() == i,
            wrapped@.len() == i,
            forall|k: int| 0 <= k < i ==> (#[trigger] rolled@[k])@ == behind(views, k, rolls as int),
            forall|k: int|
                0 <= k < i ==> (#[trigger] wrapped@[k])@ == beyond(
                    n as int,
                    k,
                    rolls as int,
                    p as int,
                ),
        decreases n - i,
    {
        let mut row: Vec<Single> = Vec::new();
        let mut t: usize = 0;
        while t < rolls
            invariant
                t <= rolls,
                i < n == x@.len(),
                views == rows_view(x@),
                n + rolls + 1 <= usize::MAX,
                row@ == behind(views, i as int, t as int),
            decreases rolls - t,
        {
            append_row(&mut row, &x[(i + t + 1) % n]);
            t = t + 1;
        }
        rolled.push(row);
        let mut mask: Vec<Single> = Vec::new();
        let mut k: usize = 0;
        while k < rolls * p
            invariant
                i < n,
                n + rolls + 1 <= usize::MAX,
                rolls * p <= usize::MAX,
                k <= rolls * p,
                mask@.len() == k,
                forall|j: int|
                    0 <= j < k ==> mask@[j] == beyond(n as int, i as int, rolls as int, p as int)[j],
            decreases rolls * p - k,
        {
            proof {
                assert(p > 0) by (nonlinear_arith)
                    requires
                        rolls * p > k,
                        k >= 0,
                        p >= 0,
                ;
                lemma_mul_is_commutative(rolls as int, p as int);
                lemma_multiply_divide_lt(k as int, p as int, rolls as int);
            }
            mask.push(
                if i + 1 + k / p >= n {
                    one()
                } else {
                    Single::zero()
                },
            );
            k = k + 1;
        }
        assert(mask@ =~= beyond(n as int, i as int, rolls as int, p as int));
        wrapped.push(mask);
        i = i + 1;
    }
    assert(rows_view(rolled@) =~= Seq::new(n as nat, |k: int| behind(views, k, rolls as int)));
    assert(rows_view(wrapped@) =~= Seq::new(
        n as nat,
        |k: int| beyond(n as int, k, rolls as int, p as int),
    ));
    (rolled, wrapped)
}

/// The weight of the earlier of two patches at point `j` of their overlap: from one down to zero.
pub open spec fn weight_spec(j: int, overlap: int) -> Single {
    if overlap == 1 {
        one()
    } else {
        one().minus(Single::from_count(j as usize).over(Single::from_count((overlap - 1) as usize)))
    }
}

fn weight(j: usize, overlap: usize) -> (r: Single)
    requires
        j < overlap,
    ensures
        r == weight_spec(j as int, overlap as int),
{
    if overlap == 1 {
        one()
    } else {
        one().minus(Single::from_count(j).over(Single::from_count(overlap - 1)))
    }
}

/// Two numbers mixed, the first by a weight and the second by what is left of one.
pub open spec fn mixed(a: Single, b: Single, w: Single) -> Single {
    a.times(w).plus(b.times(one().minus(w)))
}

/// Where patch `i` takes over from the one before: the points in which they overlap, mixed, and
/// its own up to the next overlap.
pub open spec fn transition(
    preds: Seq<Seq<Single>>,
    i: int,
    patch_len: int,
    overlap: int,
) -> Seq<Single> {
    Seq::new(
        patch_len as nat,
        |j: int|
            if j < overlap {
                mixed(preds[i - 1][patch_len + j], preds[i][j], weight_spec(j, overlap))
            } else {
                preds[i][j]
            },
    )
}

/// The first patch up to its end, then the transitions to the first `n` patches behind it.
pub open spec fn stitched_head(
    preds: Seq<Seq<Single>>,
    patch_len: int,
    overlap: int,
    n: int,
) -> Seq<Single>
    decreases n,
{
    if n <= 0 {
        preds[0].take(patch_len)
    } else {
        stitched_head(preds, patch_len, overlap, n - 1) + transition(preds, n, patch_len, overlap)
    }
}

/// Patches that overlap, put together: each goes over into the next, the last one runs to its end.
pub open spec fn stitched(preds: Seq<Seq<Single>>, patch_len: int) -> Seq<Single> {
    let n = preds.len() - 1;
    let overlap = preds[0].len() - patch_len;
    stitched_head(preds, patch_len, overlap, n) + preds[n].skip(patch_len)
}

/// Puts patches together that each go on `patch_len` points behind the one before.
pub fn stitch_patches(patch_preds: &Vec<Vec<Single>>, patch_len: usize) -> (r: Vec<Single>)
    requires
        patch_preds@.len() > 0,
        is_even(rows_view(patch_preds@), patch_preds@[0]@.len() as int),
        patch_len <= patch_preds@[0]@.len(),
        patch_preds@.len() > 1 ==> patch_preds@[0]@.len() <= 2 * patch_len,
    ensures
        r@ == stitched(rows_view(patch_preds@), patch_len as int),
{
    let ghost views = rows_view(patch_preds@);
    let n = patch_preds.len();
    let total_len = patch_preds[0].len();
    let overlap = total_len - patch_len;
    let mut out: Vec<Single> = Vec::new();
    append_part(&mut out, &patch_preds[0], 0, patch_len);
    assert(views[0] == patch_preds@[0]@);
    assert(out@ =~= views[0].take(patch_len as int));
    let mut i: usize = 1;
    while i < n
        invariant
            1 <= i <= n == patch_preds@.len(),
            views == rows_view(patch_preds@),
            is_even(views, total_len as int),
            overlap == total_len - patch_len,
            n > 1 ==> total_len <= 2 * patch_len,
            patch_len <= total_len,
            out@ == stitched_head(views, patch_len as int, overlap as int, i - 1),
        decreases n - i,
    {
        let ghost start = out@;
        let ghost part = transition(views, i as int, patch_len as int, overlap as int);
        assert(views[i - 1].len() == total_len);
        assert(views[i as int].len() == total_len);
        let mut j: usize = 0;
        while j < patch_len
            invariant
                1 <= i < n == patch_preds@.len(),
                views == rows_view(patch_preds@),
                views[i - 1].len() == total_len,
                views[i as int].len() == total_len,
                overlap == total_len - patch_len,
                total_len <= 2 * patch_len,
                patch_len <= total_len,
                j <= patch_len,
                part == transition(views, i as int, patch_len as int, overlap as int),
                out@ =~= start + part.take(j as int),
            decreases patch_len - j,
        {
            let v = if j < overlap {
                let w = weight(j, overlap);
                let a = patch_preds[i - 1][patch_len + j];
                let b = patch_preds[i][j];
                a.times(w).plus(b.times(one().minus(w)))
            } else {
                patch_preds[i][j]
            };
            assert(v == part[j as int]);
            out.push(v);
            j = j + 1;
        }
        assert(part.take(j as int) =~= part);
        i = i + 1;
    }
    assert(views[n - 1].len() == total_len);
    append_part(&mut out, &patch_preds[n - 1], patch_len, total_len);
    assert(patch_preds@[n - 1]@.subrange(patch_len as int, total_len as int) =~= views[n
        - 1].skip(patch_len as int));
    out
}

proof fn lemma_head_length(preds: Seq<Seq<Single>>, patch_len: int, overlap: int, n: int)
    requires
        0 <= n < preds.len(),
        0 <= patch_len <= preds[0].len(),
    ensures
        stitched_head(preds, patch_len, overlap, n).len() == (n + 1) * patch_len,
    decreases n,
{
    lemma_mul_basics(patch_len);
    if n > 0 {
        lemma_head_length(preds, patch_len, overlap, n - 1);
        assert((n + 1) * patch_len == n * patch_len + patch_len) by (nonlinear_arith);
    }
}

/// Stitched patches cover one patch length each and the overlap of the last.
pub proof fn law_stitched_length(preds: Seq<Seq<Single>>, patch_len: int)
    requires
        preds.len() > 0,
        is_even(preds, preds[0].len() as int),
        0 <= patch_len <= preds[0].len(),
    ensures
        stitched(preds, patch_len).len() == preds.len() * patch_len + (preds[0].len() - patch_len),
{
    lemma_head_length(preds, patch_len, preds[0].len() - patch_len, preds.len() - 1);
    assert(preds[preds.len() - 1].len() == preds[0].len());
}

/// A single patch is left as it is.
pub proof fn law_stitched_single(preds: Seq<Seq<Single>>, patch_len: int)
    requires
        preds.len() == 1,
        0 <= patch_len <= preds[0].len(),
    ensures
        stitched(preds, patch_len) == preds[0],
{
    assert(preds[0].take(patch_len) + preds[0].skip(patch_len) =~= preds[0]);
}

/// Where patches overlap in more than one point, the mix goes from the earlier patch alone to the
/// later one alone.
pub proof fn law_weights(overlap: int)
    requires
        1 < overlap <= usize::MAX,
    ensures
        weight_spec(0, overlap) == one(),
        weight_spec(overlap - 1, overlap) == Single::zero(),
{
    law_count_over_itself((overlap - 1) as usize);
    law_one_less_one((overlap - 1) as usize);
}

/// Every point that was taken from behind a patch without going round is the point that stands
/// there.
pub proof fn law_rolled_points(x: Seq<Seq<Single>>, i: int, rolls: int, p: int, k: int)
    requires
        x.len() > 0,
        is_even(x, p),
        p > 0,
        0 <= i < x.len(),
        0 <= k < rolls * p,
    ensures
        behind(x, i, rolls).len() == rolls * p,
        behind(x, i, rolls)[k] == x[(i + 1 + k / p) % (x.len() as int)][k % p],
        beyond(x.len() as int, i, rolls, p)[k] == Single::zero() ==> behind(x, i, rolls)[k] == x[i + 1 + k
            / p][k % p],
    decreases rolls,
{
    assert(rolls > 0) by (nonlinear_arith)
        requires
            0 <= k < rolls * p,
            p > 0,
    ;
    lemma_behind_length(x, i, rolls - 1, p);
    lemma_behind_length(x, i, rolls, p);
    assert(rolls * p == (rolls - 1) * p + p) by (nonlinear_arith);
    lemma_mul_is_commutative(rolls - 1, p);
    if k < (rolls - 1) * p {
        law_rolled_points(x, i, rolls - 1, p, k);
    } else {
        let j = k - (rolls - 1) * p;
        lemma_fundamental_div_mod_converse(k, p, rolls - 1, j);
    }
    lemma_div_pos_is_pos(k, p);
    if beyond(x.len() as int, i, rolls, p)[k] == Single::zero() {
        lemma_small_mod((i + 1 + k / p) as nat, x.len());
    }
}

pub proof fn lemma_behind_length(x: Seq<Seq<Single>>, i: int, rolls: int, p: int)
    requires
        x.len() > 0,
        is_even(x, p),
        rolls >= 0,
        i >= 0,
    ensures
        behind(x, i, rolls).len() == rolls * p,
    decreases rolls,
{
    lemma_mul_basics(p);
    if rolls > 0 {
        lemma_behind_length(x, i, rolls - 1, p);
        lemma_mod_bound(i + rolls, x.len() as int);
        assert(x[(i + rolls) % (x.len() as int)].len() == p);
        assert(rolls * p == (rolls - 1) * p + p) by (nonlinear_arith);
    }
}

proof fn lemma_head_at(preds: Seq<Seq<Single>>, patch_len: int, overlap: int, n: int, i: int, j: int)
    requires
        0 <= i <= n < preds.len(),
        0 <= j < patch_len <= preds[0].len(),
    ensures
        0 <= i * patch_len + j < (n + 1) * patch_len,
        stitched_head(preds, patch_len, overlap, n)[i * patch_len + j] == if i == 0 {
            preds[0][j]
        } else {
            transition(preds, i, patch_len, overlap)[j]
        },
    decreases n,
{
    lemma_head_length(preds, patch_len, overlap, n);
    assert(0 <= i * patch_len && i * patch_len + j < (i + 1) * patch_len && (i + 1) * patch_len <= (
    n + 1) * patch_len) by (nonlinear_arith)
        requires
            0 <= i <= n,
            0 <= j < patch_len,
    ;
    if n > 0 {
        lemma_head_length(preds, patch_len, overlap, n - 1);
        if i < n {
            lemma_head_at(preds, patch_len, overlap, n - 1, i, j);
        } else {
            assert(n * patch_len == (n - 1 + 1) * patch_len);
        }
    }
}

/// Every point of stitched patches: up to the first overlap it is the first patch's own; in the
/// overlap of two patches it is the earlier patch's point, weighted from one down to zero in even
/// steps, and the later patch's point, weighted by the rest; from there to the next overlap it is the
/// later patch's own; and behind the last overlap the last patch runs to its end.
pub proof fn law_stitched_points(preds: Seq<Seq<Single>>, patch_len: int, i: int, j: int)
    requires
        preds.len() > 0,
        is_even(preds, preds[0].len() as int),
        0 < patch_len <= preds[0].len(),
        0 <= i < preds.len(),
    ensures
        ({
            let overlap = preds[0].len() - patch_len;
            let out = stitched(preds, patch_len);
            let here = i * patch_len + j;
            let unit = Single { bits: 0x3f80_0000 };
            let w = if overlap == 1 {
                unit
            } else {
                unit.minus(
                    Single::from_count(j as usize).over(Single::from_count((overlap - 1) as usize)),
                )
            };
            &&& i == 0 && 0 <= j < patch_len ==> out[here] == preds[0][j]
            &&& i > 0 && 0 <= j < patch_len && j < overlap ==> out[here] == preds[i - 1][patch_len
                + j].times(w).plus(preds[i][j].times(unit.minus(w)))
            &&& i > 0 && overlap <= j < patch_len ==> out[here] == preds[i][j]
            &&& i == preds.len() - 1 && patch_len <= j < preds[i].len() ==> out[here]
                == preds[i][j]
        }),
{
    let overlap = preds[0].len() - patch_len;
    let n = preds.len() - 1;
    lemma_head_length(preds, patch_len, overlap, n);
    if 0 <= j < patch_len {
        lemma_head_at(preds, patch_len, overlap, n, i, j);
    } else if i == n && patch_len <= j < preds[i].len() {
        assert((n + 1) * patch_len == n * patch_len + patch_len) by (nonlinear_arith);
        assert(stitched(preds, patch_len)[i * patch_len + j] == preds[n].skip(patch_len)[j
            - patch_len]);
    }
}

/// Stitched patches meet without a jump: where two patches overlap in more than one point, the first
/// point of the overlap has the value of the earlier patch's own point there, and the last one the
/// value of the later patch's own point.
pub proof fn law_stitched_without_a_jump(preds: Seq<Seq<Single>>, patch_len: int, i: int)
    requires
        is_even(preds, preds[0].len() as int),
        0 < patch_len < preds[0].len() - 1,
        preds[0].len() <= 2 * patch_len,
        preds[0].len() - patch_len <= usize::MAX,
        0 < i < preds.len(),
        preds[i - 1][patch_len].is_finite(),
        preds[i][0].is_finite(),
        preds[i - 1][preds[0].len() - 1].is_finite(),
        preds[i][preds[0].len() - patch_len - 1].is_finite(),
    ensures
        stitched(preds, patch_len)[i * patch_len].same(preds[i - 1][patch_len], false),
        stitched(preds, patch_len)[i * patch_len + (preds[0].len() - patch_len) - 1].same(
            preds[i][preds[0].len() - patch_len - 1],
            false,
        ),
{
    let overlap = preds[0].len() - patch_len;
    let unit = Single::from_bits(0x3f80_0000);
    law_stitched_points(preds, patch_len, i, 0);
    law_stitched_points(preds, patch_len, i, overlap - 1);
    law_count_over_itself((overlap - 1) as usize);
    law_one_less_one((overlap - 1) as usize);
    law_one_less_zero();
    let (a, b) = (preds[i - 1][patch_len], preds[i][0]);
    law_times_one(a);
    law_times_zero(b, Single::zero());
    law_plus_zero(a, b.times(Single::zero()));
    let (c, d) = (preds[i - 1][patch_len + overlap - 1], preds[i][overlap - 1]);
    law_times_one(d);
    law_times_zero(c, Single::zero());
    law_plus_zero(d, c.times(Single::zero()));
}

/// Later patches never reach back: what the first `n` patches are stitched to, up to the end of the
/// last one's patch length, stays as it is when more patches follow.
pub proof fn law_stitched_prefix(preds: Seq<Seq<Single>>, patch_len: int, n: int, k: int)
    requires
        is_even(preds, preds[0].len() as int),
        0 < patch_len <= preds[0].len(),
        0 < n <= preds.len(),
        0 <= k < n * patch_len,
    ensures
        stitched(preds.take(n), patch_len)[k] == stitched(preds, patch_len)[k],
{
    let i = k / patch_len;
    let j = k % patch_len;
    lemma_fundamental_div_mod(k, patch_len);
    lemma_mod_bound(k, patch_len);
    assert(0 <= i < n) by (nonlinear_arith)
        requires
            k == patch_len * i + j,
            0 <= j < patch_len,
            0 <= k < n * patch_len,
    ;
    lemma_mul_is_commutative(patch_len, i);
    let part = preds.take(n);
    assert forall|m: int| 0 <= m < part.len() implies (#[trigger] part[m]).len()
        == part[0].len() by {
        assert(preds[m].len() == preds[0].len());
    }
    law_stitched_points(part, patch_len, i, j);
    law_stitched_points(preds, patch_len, i, j);
}

} // verus!
