//! Rows of numbers, and what is done to each number of a row.

use vstd::prelude::*;

use crate::ieee::scalar::Single;

verus! {

/// What rows of numbers hold.
pub open spec fn rows_view(rows: Seq<Vec<Single>>) -> Seq<Seq<Single>> {
    rows.map_values(|row: Vec<Single>| row@)
}

/// `n` times the same number.
pub open spec fn constant(n: int, x: Single) -> Seq<Single> {
    Seq::new(n as nat, |i: int| x)
}

/// Zero, of either sign.
pub open spec fn is_zero_spec(x: Single) -> bool {
    x.number().magnitude == 0
}

/// Whether a number is zero, of either sign.
#[verifier::when_used_as_spec(is_zero_spec)]
pub fn is_zero(x: Single) -> (r: bool)
    ensures
        r == is_zero_spec(x),
{
    x.split().magnitude == 0
}

/// One.
pub open spec fn one_spec() -> Single {
    Single { bits: 0x3f80_0000 }
}

#[verifier::when_used_as_spec(one_spec)]
pub fn one() -> (r: Single)
    ensures
        r == one_spec(),
{
    Single::from_bits(0x3f80_0000)
}

/// A mask marks a point where it is above one half.
pub open spec fn is_masked_spec(m: Single) -> bool {
    (Single { bits: 0x3f00_0000 }).lt(m)
}

/// Whether a mask marks a point.
#[verifier::when_used_as_spec(is_masked_spec)]
pub fn is_masked(m: Single) -> (r: bool)
    ensures
        r == is_masked_spec(m),
{
    Single::from_bits(0x3f00_0000).lt(m)
}

/// The second number where it is greater, else the first.
pub open spec fn larger_spec(a: Single, b: Single) -> Single {
    if a.lt(b) {
        b
    } else {
        a
    }
}

#[verifier::when_used_as_spec(larger_spec)]
pub fn larger(a: Single, b: Single) -> (r: Single)
    ensures
        r == larger_spec(a, b),
{
    if a.lt(b) {
        b
    } else {
        a
    }
}

/// A number kept between `-bound` and `bound`.
pub open spec fn clipped_spec(x: Single, bound: Single) -> Single {
    let y = larger(x, bound.negated());
    if bound.lt(y) {
        bound
    } else {
        y
    }
}

#[verifier::when_used_as_spec(clipped_spec)]
pub fn clipped(x: Single, bound: Single) -> (r: Single)
    ensures
        r == clipped_spec(x, bound),
{
    let y = larger(x, bound.negated());
    if bound.lt(y) {
        bound
    } else {
        y
    }
}

/// A row of the same number.
pub fn repeated(n: usize, x: Single) -> (r: Vec<Single>)
    ensures
        r@ == constant(n as int, x),
{
    let mut r: Vec<Single> = Vec::new();
    let mut i: usize = 0;
    while i < n
        invariant
            i <= n,
            r@ =~= constant(i as int, x),
        decreases n - i,
    {
        r.push(x);
        i = i + 1;
    }
    r
}

/// Puts a row at the end of another.
pub fn append_row(out: &mut Vec<Single>, s: &Vec<Single>)
    ensures
        final(out)@ == old(out)@ + s@,
{
    append_part(out, s, 0, s.len());
    assert(s@.subrange(0, s@.len() as int) =~= s@);
}

/// Puts part of a row at the end of another.
pub fn append_part(out: &mut Vec<Single>, s: &Vec<Single>, from: usize, to: usize)
    requires
        from <= to <= s@.len(),
    ensures
        final(out)@ == old(out)@ + s@.subrange(from as int, to as int),
{
    let ghost start = out@;
    let mut i = from;
    while i < to
        invariant
            from <= i <= to <= s@.len(),
            out@ =~= start + s@.subrange(from as int, i as int),
        decreases to - i,
    {
        out.push(s[i]);
        i = i + 1;
    }
}

/// Each number kept between `-bound` and `bound`.
pub open spec fn clipped_row(s: Seq<Single>, bound: Single) -> Seq<Single> {
    s.map_values(|x: Single| clipped(x, bound))
}

pub fn clip_row(s: &Vec<Single>, bound: Single) -> (r: Vec<Single>)
    ensures
        r@ == clipped_row(s@, bound),
{
    let mut r: Vec<Single> = Vec::new();
    let mut i: usize = 0;
    while i < s.len()
        invariant
            i <= s@.len(),
            r@.len() == i,
            forall|k: int| 0 <= k < i ==> r@[k] == clipped(s@[k], bound),
        decreases s@.len() - i,
    {
        r.push(clipped(s[i], bound));
        i = i + 1;
    }
    assert(r@ =~= clipped_row(s@, bound));
    r
}

/// The masks of a row joined with others: a point that either marks is marked.
pub open spec fn joint_mask(a: Seq<Single>, b: Seq<Single>) -> Seq<Single> {
    Seq::new(a.len(), |i: int| larger(a[i], b[i]))
}

pub fn join_masks(a: &Vec<Single>, b: &Vec<Single>) -> (r: Vec<Single>)
    requires
        a@.len() == b@.len(),
    ensures
        r@ == joint_mask(a@, b@),
{
    let mut r: Vec<Single> = Vec::new();
    let mut i: usize = 0;
    while i < a.len()
        invariant
            i <= a@.len() == b@.len(),
            r@.len() == i,
            forall|k: int| 0 <= k < i ==> r@[k] == larger(a@[k], b@[k]),
        decreases a@.len() - i,
    {
        r.push(larger(a[i], b[i]));
        i = i + 1;
    }
    assert(r@ =~= joint_mask(a@, b@));
    r
}

/// The row with zeros where the mask marks a point.
pub open spec fn silenced(s: Seq<Single>, mask: Seq<Single>) -> Seq<Single> {
    Seq::new(
        s.len(),
        |i: int|
            if is_masked(mask[i]) {
                Single::zero()
            } else {
                s[i]
            },
    )
}

pub fn silence(s: &Vec<Single>, mask: &Vec<Single>) -> (r: Vec<Single>)
    requires
        s@.len() == mask@.len(),
    ensures
        r@ == silenced(s@, mask@),
{
    let mut r: Vec<Single> = Vec::new();
    let mut i: usize = 0;
    while i < s.len()
        invariant
            i <= s@.len() == mask@.len(),
            r@.len() == i,
            forall|k: int| 0 <= k < i ==> r@[k] == silenced(s@, mask@)[k],
        decreases s@.len() - i,
    {
        r.push(
            if is_masked(mask[i]) {
                Single::zero()
            } else {
                s[i]
            },
        );
        i = i + 1;
    }
    assert(r@ =~= silenced(s@, mask@));
    r
}

/// A number that is kept within a bound: one between the bound and its opposite stays, one above becomes
/// the bound, one below its opposite.
pub proof fn law_kept_within_bounds(x: Single, bound: Single)
    requires
        !x.is_nan(),
        Single::zero().le(bound),
    ensures
        bound.negated().le(x) && x.le(bound) ==> clipped(x, bound) == x,
        bound.lt(x) ==> clipped(x, bound) == bound,
        x.lt(bound.negated()) ==> clipped(x, bound) == bound.negated(),
        bound.negated().le(clipped(x, bound)) && clipped(x, bound).le(bound),
{
    reveal(Single::lt_spec);
    crate::ieee::scalar::law_negated_twice(bound);
}

/// Masks joined mark a point where either does; a row that is silenced reads zero where its mask marks a
/// point and as it stands elsewhere. A mask marks a point where it is above one half.
pub proof fn law_masked_rows(s: Seq<Single>, a: Seq<Single>, b: Seq<Single>, i: int)
    requires
        s.len() == a.len() == b.len(),
        0 <= i < s.len(),
        !a[i].is_nan() && !b[i].is_nan(),
    ensures
        (Single { bits: 0x3f00_0000 }).lt(joint_mask(a, b)[i]) <==> (Single {
            bits: 0x3f00_0000,
        }).lt(a[i]) || (Single { bits: 0x3f00_0000 }).lt(b[i]),
        (Single { bits: 0x3f00_0000 }).lt(a[i]) ==> silenced(s, a)[i] == Single::zero(),
        !(Single { bits: 0x3f00_0000 }).lt(a[i]) ==> silenced(s, a)[i] == s[i],
        silenced(s, a).len() == s.len(),
{
    reveal(Single::lt_spec);
}

/// What rows hold is what each of them holds, in order, and a constant row holds one number throughout.
pub proof fn law_rows_hold_their_numbers(rows: Seq<Vec<Single>>, n: int, x: Single, i: int)
    ensures
        rows_view(rows).len() == rows.len(),
        0 <= i < rows.len() ==> rows_view(rows)[i] == rows[i]@,
        n >= 0 ==> constant(n, x).len() == n,
        0 <= i < n ==> constant(n, x)[i] == x,
        is_zero(x) <==> x.number().magnitude == 0,
{
}

} // verus!
