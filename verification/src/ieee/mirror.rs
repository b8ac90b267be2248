//! Numbers that are equal in value, and numbers that are each other's opposites.

use vstd::prelude::*;

use super::number::{
    lemma_format, lemma_nearest_zero, lemma_units_zero, nan_of, number_of, product_of, quotient_of,
    rank_of, root_of, single_format_spec, sum_of, Number,
};
use super::scalar::{law_negated_twice, Single};

verus! {

impl Single {
    /// Equal in value, or, where `turned`, opposite in value. Neither the sign of a zero nor the
    /// pattern of what is not a number matters.
    pub open spec fn same(self, other: Single, turned: bool) -> bool {
        ||| self.is_nan() && other.is_nan()
        ||| !self.is_nan() && !other.is_nan() && rank_of(other.number()) == if turned {
            -rank_of(self.number())
        } else {
            rank_of(self.number())
        }
    }
}

/// Two runs of numbers, point by point equal or opposite in value.
pub open spec fn same_run(a: Seq<Single>, b: Seq<Single>, turned: bool) -> bool {
    a.len() == b.len() && forall|i: int|
        0 <= i < a.len() ==> (#[trigger] a[i]).same(b[i], turned)
}

spec fn alike(a: Number, b: Number, turned: bool) -> bool {
    let f = single_format_spec();
    ||| a.is_nan_in(f) && b.is_nan_in(f)
    ||| !a.is_nan_in(f) && !b.is_nan_in(f) && rank_of(b) == if turned {
        -rank_of(a)
    } else {
        rank_of(a)
    }
}

/// Being equal in value passes on, and being opposite twice is being equal.
pub proof fn law_same(a: Single, b: Single, c: Single, t: bool, u: bool)
    ensures
        a.same(a, false),
        a.same(a.negated(), true),
        a.same(b, t) ==> b.same(a, t),
        a.same(b, t) && b.same(c, u) ==> a.same(c, t != u),
        a.same(b, t) ==> a.is_nan() == b.is_nan() && a.is_finite() == b.is_finite(),
        a.same(b, t) && !a.is_nan() ==> a.number().magnitude == b.number().magnitude,
{
    law_negated_twice(a);
}

proof fn lemma_packed(n: Number, m: Number, t: bool)
    requires
        n.magnitude < 0x8000_0000u32,
        m.magnitude < 0x8000_0000u32,
        alike(n, m, t),
    ensures
        Single::pack_spec(n).same(Single::pack_spec(m), t),
{
    assert(Single::pack_spec(n).number() == n);
    assert(Single::pack_spec(m).number() == m);
}

proof fn lemma_nan()
    ensures
        nan_of(single_format_spec()).magnitude == 0x7fc0_0000,
{
    lemma_format(single_format_spec());
}

/// Sums and differences of numbers that are equal, or opposite, in value are so too.
pub proof fn law_same_sum(a: Single, b: Single, c: Single, d: Single, t: bool)
    requires
        a.same(c, t),
        b.same(d, t),
    ensures
        a.plus(b).same(c.plus(d), t),
        a.minus(b).same(c.minus(d), t),
{
    lemma_same_plus(a, b, c, d, t);
    law_negated_twice(b);
    law_negated_twice(d);
    lemma_same_plus(a, b.negated(), c, d.negated(), t);
}

proof fn lemma_same_plus(a: Single, b: Single, c: Single, d: Single, t: bool)
    requires
        a.same(c, t),
        b.same(d, t),
    ensures
        a.plus(b).same(c.plus(d), t),
{
    reveal(Single::plus_spec);
    lemma_nan();
    let f = single_format_spec();
    let (x, y, z, w) = (a.number(), b.number(), c.number(), d.number());
    lemma_format(f);
    lemma_units_zero(x.magnitude as nat, f.w());
    lemma_units_zero(y.magnitude as nat, f.w());
    lemma_units_zero(z.magnitude as nat, f.w());
    lemma_units_zero(w.magnitude as nat, f.w());
    let n = sum_of(f, x, y);
    let m = sum_of(f, z, w);
    if a.is_finite() && b.is_finite() {
        let v = x.value(f) + y.value(f);
        assert(z.value(f) + w.value(f) == if t {
            -v
        } else {
            v
        });
        assert(number_of(f, v).magnitude <= f.infinity);
        assert(number_of(f, -v).magnitude <= f.infinity);
    }
    assert(alike(n, m, t));
    lemma_packed(n, m, t);
}

/// The order of the two terms of a sum does not matter.
pub proof fn law_sum_commutes(a: Single, b: Single)
    ensures
        a.plus(b).same(b.plus(a), false),
{
    reveal(Single::plus_spec);
    lemma_nan();
    let f = single_format_spec();
    let (x, y) = (a.number(), b.number());
    let v = x.value(f) + y.value(f);
    assert(number_of(f, v).magnitude <= f.infinity);
    lemma_packed(sum_of(f, x, y), sum_of(f, y, x), false);
}

/// The product of numbers that are equal or opposite in value: the signs multiply.
pub proof fn law_same_product(a: Single, b: Single, c: Single, d: Single, t: bool, u: bool)
    requires
        a.same(c, t),
        b.same(d, u),
    ensures
        a.times(b).same(c.times(d), t != u),
{
    reveal(Single::times_spec);
    lemma_nan();
    let f = single_format_spec();
    let (x, y, z, w) = (a.number(), b.number(), c.number(), d.number());
    lemma_format(f);
    let n = product_of(f, x, y);
    let m = product_of(f, z, w);
    if a.is_finite() && b.is_finite() {
        lemma_units_zero(x.magnitude as nat, f.w());
        lemma_units_zero(y.magnitude as nat, f.w());
        assert(x.size(f) == z.size(f) && y.size(f) == w.size(f));
        assert(f.nearest(x.size(f) * y.size(f), f.one()) <= f.infinity);
        if x.magnitude == 0 || y.magnitude == 0 {
            assert(x.size(f) * y.size(f) == 0) by (nonlinear_arith)
                requires
                    x.size(f) == 0 || y.size(f) == 0,
            ;
            lemma_nearest_zero(f, f.one());
        }
    }
    assert(alike(n, m, t != u));
    lemma_packed(n, m, t != u);
}

/// The quotient of numbers that are equal or opposite in value, by one that is not zero or is the
/// same to the bit.
pub proof fn law_same_quotient(a: Single, b: Single, c: Single, d: Single, t: bool, u: bool)
    requires
        a.same(c, t),
        b.same(d, u),
        b.number().magnitude > 0 || (b == d && !u),
    ensures
        a.over(b).same(c.over(d), t != u),
{
    reveal(Single::over_spec);
    lemma_nan();
    let f = single_format_spec();
    let (x, y, z, w) = (a.number(), b.number(), c.number(), d.number());
    lemma_format(f);
    let n = quotient_of(f, x, y);
    let m = quotient_of(f, z, w);
    if a.is_finite() && b.is_finite() && y.magnitude > 0 {
        lemma_units_zero(x.magnitude as nat, f.w());
        lemma_units_zero(y.magnitude as nat, f.w());
        assert(x.size(f) == z.size(f) && y.size(f) == w.size(f));
        assert(f.nearest(x.size(f) * f.one(), y.size(f)) <= f.infinity);
        if x.magnitude == 0 {
            assert(x.size(f) * f.one() == 0) by (nonlinear_arith)
                requires
                    x.size(f) == 0,
            ;
            lemma_nearest_zero(f, y.size(f));
        }
    }
    assert(alike(n, m, t != u));
    lemma_packed(n, m, t != u);
}

/// Roots of numbers that are equal in value are so too.
pub proof fn law_same_root(a: Single, b: Single)
    requires
        a.same(b, false),
    ensures
        a.root().same(b.root(), false),
{
    reveal(Single::root_spec);
    lemma_nan();
    let f = single_format_spec();
    let n = root_of(f, a.number());
    let m = root_of(f, b.number());
    assert(n.magnitude < 0x8000_0000u32 && m.magnitude < 0x8000_0000u32);
    assert(alike(n, m, false));
    lemma_packed(n, m, false);
}

/// The magnitudes of numbers that are equal or opposite in value are equal.
pub proof fn law_same_abs(a: Single, b: Single, t: bool)
    requires
        a.same(b, t),
    ensures
        a.abs().same(b.abs(), false),
{
}

/// Numbers that are equal in value are ordered alike, and opposite ones the other way round.
pub proof fn law_same_order(a: Single, b: Single, c: Single, d: Single, t: bool)
    requires
        a.same(c, t),
        b.same(d, t),
    ensures
        !t ==> a.lt(b) == c.lt(d) && a.le(b) == c.le(d),
        t ==> a.lt(b) == d.lt(c) && a.le(b) == d.le(c),
{
    reveal(Single::lt_spec);
}

} // verus!
