//! What the arithmetic gives, told by the values of its operands: nothing representable lies nearer
//! to the exact result, and greater operands never give lesser results.

use vstd::arithmetic::div_mod::*;
use vstd::arithmetic::mul::*;
use vstd::arithmetic::power2::*;
use vstd::prelude::*;

use super::bounds::{magnitude, size, value};
use super::number::{
    converted_of, double_format_spec, lemma_format, lemma_nearest_zero, lemma_root_exists,
    lemma_rounded_exact, lemma_units_monotone, lemma_units_zero, number_of, product_of, quotient_of,
    rank_of, root_floor, root_of, single_format_spec, sum_of, Number,
};
use super::rounding::{law_rounded_is_nearest, lemma_rounded_scale, rounded, units};
use super::scalar::{law_negated_twice, lemma_from_count, lemma_pack, Double, Single};

verus! {

/// A greater quantity never rounds to a lesser pattern.
pub proof fn law_rounding_is_monotone(n: nat, m: nat, d: nat, w: nat, inf: nat)
    requires
        d > 0,
        n <= m,
    ensures
        rounded(n, d, w, inf) <= rounded(m, d, w, inf),
{
    let big = lemma_unbounded(n, m, d, w, inf);
    let (r, s) = (rounded(n, d, w, big), rounded(m, d, w, big));
    if r > s {
        law_rounded_is_nearest(n, d, w, big, s);
        law_rounded_is_nearest(m, d, w, big, r);
        lemma_units_monotone(s, r, w);
        let (x, y) = ((units(s, w) * d) as int, (units(r, w) * d) as int);
        assert(x < y) by (nonlinear_arith)
            requires
                x == units(s, w) * d,
                y == units(r, w) * d,
                units(s, w) < units(r, w),
                d > 0,
        ;
        assert(n == m);
    }
}

/// A bound that neither quantity reaches.
proof fn lemma_unbounded(n: nat, m: nat, d: nat, w: nat, inf: nat) -> (big: nat)
    requires
        d > 0,
    ensures
        rounded(n, d, w, big) < big,
        rounded(m, d, w, big) < big,
        rounded(n, d, w, inf) == if rounded(n, d, w, big) < inf {
            rounded(n, d, w, big)
        } else {
            inf
        },
        rounded(m, d, w, inf) == if rounded(m, d, w, big) < inf {
            rounded(m, d, w, big)
        } else {
            inf
        },
{
    let k = super::rounding::excess(n / d, w + 1);
    let l = super::rounding::excess(m / d, w + 1);
    let a = k * pow2(w) + super::rounding::nearest_even(n, d * pow2(k));
    let b = l * pow2(w) + super::rounding::nearest_even(m, d * pow2(l));
    a + b + 1
}

/// The sum of finite numbers, where it is finite, is the number nearest to the exact sum.
pub proof fn law_sum_is_nearest(a: Single, b: Single, c: Single)
    requires
        a.is_finite(),
        b.is_finite(),
        c.is_finite(),
        a.plus(b).is_finite(),
    ensures
        magnitude(value(a.plus(b)) - (value(a) + value(b))) <= magnitude(
            value(c) - (value(a) + value(b)),
        ),
{
    reveal(Single::plus_spec);
    let f = single_format_spec();
    lemma_format(f);
    let v = value(a) + value(b);
    let m = sum_of(f, a.number(), b.number());
    lemma_units_zero(0, 23);
    if v != 0 {
        let d = magnitude(v) as nat;
        assert(m == number_of(f, v));
        assert(m.magnitude == rounded(d, 1, 23, 0x7f80_0000));
        lemma_pack(m);
        law_rounded_is_nearest(d, 1, 23, 0x7f80_0000, c.number().magnitude as nat);
        law_rounded_is_nearest(d, 1, 23, 0x7f80_0000, 0);
        lemma_mul_basics(units(m.magnitude as nat, 23) as int);
        lemma_mul_basics(size(c) as int);
    } else {
        lemma_pack(m);
    }
}

/// The product of finite numbers, where it is finite, is the number nearest to the exact product. A
/// product of two values is counted in units of the square of the unit.
pub proof fn law_product_is_nearest(a: Single, b: Single, c: Single)
    requires
        a.is_finite(),
        b.is_finite(),
        c.is_finite(),
        a.times(b).is_finite(),
    ensures
        magnitude(value(a.times(b)) * pow2(149) - value(a) * value(b)) <= magnitude(
            value(c) * pow2(149) - value(a) * value(b),
        ),
{
    reveal(Single::times_spec);
    let f = single_format_spec();
    lemma_format(f);
    let e = pow2(149);
    lemma_pow2_pos(149);
    let m = product_of(f, a.number(), b.number());
    lemma_pack(m);
    let n = size(a) * size(b);
    assert(m.magnitude == rounded(n, e, 23, 0x7f80_0000));
    law_rounded_is_nearest(n, e, 23, 0x7f80_0000, c.number().magnitude as nat);
    law_rounded_is_nearest(n, e, 23, 0x7f80_0000, 0);
    lemma_units_zero(0, 23);
    let (x, y, z) = (size(a) as int, size(b) as int, size(c) as int);
    let r = units(m.magnitude as nat, 23) as int;
    lemma_signed(x, y, a.number().negative, b.number().negative);
    lemma_signed(r, e as int, m.negative, false);
    lemma_signed(z, e as int, c.number().negative, false);
    assert(0 <= x * y && 0 <= r * e && 0 <= z * e) by (nonlinear_arith)
        requires
            x >= 0,
            y >= 0,
            z >= 0,
            r >= 0,
            e >= 0,
    ;
    assert(0 * e == 0);
}

proof fn lemma_signed(x: int, y: int, s: bool, t: bool)
    ensures
        (if s {
            -x
        } else {
            x
        }) * (if t {
            -y
        } else {
            y
        }) == if s != t {
            -(x * y)
        } else {
            x * y
        },
{
    assert((-x) * y == -(x * y) && x * (-y) == -(x * y) && (-x) * (-y) == x * y)
        by (nonlinear_arith);
}

/// The quotient of finite numbers, where it is finite, is the number nearest to the exact quotient:
/// times the divisor it comes nearest to the dividend.
pub proof fn law_quotient_is_nearest(a: Single, b: Single, c: Single)
    requires
        a.is_finite(),
        b.is_finite(),
        c.is_finite(),
        value(b) != 0,
        a.over(b).is_finite(),
    ensures
        magnitude(value(a.over(b)) * value(b) - value(a) * pow2(149)) <= magnitude(
            value(c) * value(b) - value(a) * pow2(149),
        ),
{
    reveal(Single::over_spec);
    let f = single_format_spec();
    lemma_format(f);
    let e = pow2(149);
    lemma_pow2_pos(149);
    lemma_units_zero(b.number().magnitude as nat, 23);
    lemma_units_zero(0, 23);
    let m = quotient_of(f, a.number(), b.number());
    lemma_pack(m);
    let n = size(a) * e;
    assert(m.magnitude == rounded(n, size(b), 23, 0x7f80_0000));
    law_rounded_is_nearest(n, size(b), 23, 0x7f80_0000, c.number().magnitude as nat);
    law_rounded_is_nearest(n, size(b), 23, 0x7f80_0000, 0);
    let (x, y, z) = (size(a) as int, size(b) as int, size(c) as int);
    let r = units(m.magnitude as nat, 23) as int;
    lemma_signed(x, e as int, a.number().negative, false);
    lemma_signed(r, y, m.negative, b.number().negative);
    lemma_signed(z, y, c.number().negative, b.number().negative);
    assert(0 <= x * e && 0 <= r * y && 0 <= z * y) by (nonlinear_arith)
        requires
            x >= 0,
            y >= 0,
            z >= 0,
            r >= 0,
            e >= 0,
    ;
    assert(0 * y == 0);
}

/// A count is exact as long as it fits in 24 bits.
pub proof fn law_count_is_exact(n: usize)
    requires
        n < 0x100_0000,
    ensures
        value(Single::from_count(n)) == n * pow2(149),
        Single::from_count(n).is_finite(),
{
    lemma_from_count(n);
    super::bounds::lemma_count_size(n);
}

/// A number times one is the number.
pub proof fn law_times_one(a: Single)
    requires
        !a.is_nan(),
    ensures
        a.times(Single::from_bits(0x3f80_0000)) == a,
{
    reveal(Single::times_spec);
    let f = single_format_spec();
    lemma_format(f);
    super::scalar::lemma_one_units();
    let x = a.number();
    if a.is_finite() {
        lemma_rounded_scale(size(a), 1, f.one(), 23, f.infinity as nat);
        lemma_mul_basics(f.one() as int);
        lemma_rounded_exact(x.magnitude as nat, 23, f.infinity as nat);
    }
    lemma_pack(x);
}

/// A finite number times zero is zero.
pub proof fn law_times_zero(a: Single, z: Single)
    requires
        a.is_finite(),
        z.number().magnitude == 0,
    ensures
        a.times(z).number().magnitude == 0,
{
    reveal(Single::times_spec);
    let f = single_format_spec();
    lemma_format(f);
    lemma_units_zero(0, 23);
    lemma_mul_basics(size(a) as int);
    lemma_nearest_zero(f, f.one());
    lemma_pack(product_of(f, a.number(), z.number()));
}

/// A number and a zero add up to the number, in value, whichever comes first.
pub proof fn law_plus_zero(a: Single, z: Single)
    requires
        a.is_finite(),
        z.number().magnitude == 0,
    ensures
        a.plus(z).same(a, false),
        z.plus(a).same(a, false),
        a.number().magnitude > 0 ==> a.plus(z) == a && z.plus(a) == a,
{
    reveal(Single::plus_spec);
    let f = single_format_spec();
    lemma_format(f);
    lemma_units_zero(0, 23);
    let x = a.number();
    lemma_units_zero(x.magnitude as nat, 23);
    lemma_rounded_exact(x.magnitude as nat, 23, f.infinity as nat);
    lemma_pack(sum_of(f, x, z.number()));
    lemma_pack(sum_of(f, z.number(), x));
}

/// One less zero is one.
pub proof fn law_one_less_zero()
    ensures
        Single::from_bits(0x3f80_0000).minus(Single::zero()) == Single::from_bits(0x3f80_0000),
{
    law_negated_twice(Single::zero());
    law_plus_zero(Single::from_bits(0x3f80_0000), Single::zero().negated());
}

/// Finite numbers are ordered as their values are.
proof fn lemma_order_of_values(a: Single, b: Single)
    requires
        a.is_finite(),
        b.is_finite(),
    ensures
        a.le(b) <==> value(a) <= value(b),
        a.lt(b) <==> value(a) < value(b),
{
    super::scalar::law_order_by_value(a, b);
    super::scalar::law_order_by_value(b, a);
}

/// A greater number added gives no lesser sum.
pub proof fn law_sum_is_monotone(a: Single, b: Single, c: Single)
    requires
        a.is_finite(),
        b.is_finite(),
        c.is_finite(),
        b.le(c),
    ensures
        a.plus(b).le(a.plus(c)),
{
    lemma_order_of_values(b, c);
    reveal(Single::plus_spec);
    reveal(Single::lt_spec);
    let f = single_format_spec();
    lemma_format(f);
    let (x, y) = (value(a) + value(b), value(a) + value(c));
    let (m, n) = (sum_of(f, a.number(), b.number()), sum_of(f, a.number(), c.number()));
    assert(number_of(f, x).magnitude <= f.infinity && number_of(f, y).magnitude <= f.infinity);
    lemma_pack(m);
    lemma_pack(n);
    lemma_nearest_zero(f, 1);
    if 0 <= x {
        law_rounding_is_monotone(x as nat, y as nat, 1, 23, 0x7f80_0000);
    }
    if y <= 0 {
        law_rounding_is_monotone((-y) as nat, (-x) as nat, 1, 23, 0x7f80_0000);
    }
}

/// A greater number times a number that is not negative gives no lesser product.
pub proof fn law_product_is_monotone(a: Single, b: Single, k: Single)
    requires
        a.is_finite(),
        b.is_finite(),
        k.is_finite(),
        !k.number().negative,
        a.le(b),
    ensures
        a.times(k).le(b.times(k)),
{
    lemma_order_of_values(a, b);
    reveal(Single::times_spec);
    reveal(Single::lt_spec);
    let f = single_format_spec();
    lemma_format(f);
    let e = f.one();
    let (m, n) = (product_of(f, a.number(), k.number()), product_of(f, b.number(), k.number()));
    assert(f.nearest(size(a) * size(k), e) <= f.infinity);
    assert(f.nearest(size(b) * size(k), e) <= f.infinity);
    lemma_pack(m);
    lemma_pack(n);
    let (x, y, z) = (size(a), size(b), size(k));
    lemma_units_zero(a.number().magnitude as nat, 23);
    lemma_units_zero(b.number().magnitude as nat, 23);
    if x <= y {
        lemma_mul_inequality(x as int, y as int, z as int);
        law_rounding_is_monotone(x * z, y * z, e, 23, 0x7f80_0000);
    } else {
        lemma_mul_inequality(y as int, x as int, z as int);
        law_rounding_is_monotone(y * z, x * z, e, 23, 0x7f80_0000);
    }
    if x == 0 {
        lemma_mul_basics(z as int);
        lemma_nearest_zero(f, e);
    }
    if y == 0 {
        lemma_mul_basics(z as int);
        lemma_nearest_zero(f, e);
    }
}

/// A positive number times a greater factor gives no lesser product, a negative one no greater.
pub proof fn law_factor_is_monotone(a: Single, k: Single, l: Single)
    requires
        a.is_finite(),
        k.is_finite(),
        l.is_finite(),
        !k.number().negative,
        !l.number().negative,
        k.le(l),
    ensures
        !a.number().negative ==> a.times(k).le(a.times(l)),
        a.number().negative ==> a.times(l).le(a.times(k)),
{
    lemma_order_of_values(k, l);
    reveal(Single::times_spec);
    reveal(Single::lt_spec);
    let f = single_format_spec();
    lemma_format(f);
    let e = f.one();
    let (m, n) = (product_of(f, a.number(), k.number()), product_of(f, a.number(), l.number()));
    assert(f.nearest(size(a) * size(k), e) <= f.infinity);
    assert(f.nearest(size(a) * size(l), e) <= f.infinity);
    lemma_pack(m);
    lemma_pack(n);
    let (x, y, z) = (size(k), size(l), size(a));
    lemma_mul_inequality(x as int, y as int, z as int);
    lemma_mul_is_commutative(x as int, z as int);
    lemma_mul_is_commutative(y as int, z as int);
    law_rounding_is_monotone(z * x, z * y, e, 23, 0x7f80_0000);
}

/// Counts are ordered as they are.
proof fn lemma_counts_ordered(m: usize, n: usize)
    requires
        m <= n < 0x100_0000,
    ensures
        Single::from_count(m).le(Single::from_count(n)),
        !Single::from_count(m).number().negative,
{
    lemma_from_count(m);
    lemma_from_count(n);
    law_count_is_exact(m);
    law_count_is_exact(n);
    lemma_pow2_pos(149);
    let e = pow2(149);
    assert(m * e <= n * e) by (nonlinear_arith)
        requires
            m <= n,
            e > 0,
    ;
    lemma_order_of_values(Single::from_count(m), Single::from_count(n));
}

/// On the way from one number to another, in equal steps, nothing turns back.
pub proof fn law_way_runs_one_way(a: Single, b: Single, n: usize, i: usize, j: usize)
    requires
        a.is_finite(),
        b.is_finite(),
        b.minus(a).is_finite(),
        0 < i <= j < n < 0x100_0000,
        a.plus(
            b.minus(a).over(Single::from_count(n)).times(Single::from_count(i)),
        ).is_finite(),
        a.plus(
            b.minus(a).over(Single::from_count(n)).times(Single::from_count(j)),
        ).is_finite(),
    ensures
        ({
            let slope = b.minus(a).over(Single::from_count(n));
            let x = a.plus(slope.times(Single::from_count(i)));
            let y = a.plus(slope.times(Single::from_count(j)));
            &&& a.le(b) ==> a.le(x) && x.le(y)
            &&& b.le(a) ==> x.le(a) && y.le(x)
        }),
{
    let rise = b.minus(a);
    let width = Single::from_count(n);
    let slope = rise.over(width);
    let (k, l) = (Single::from_count(i), Single::from_count(j));
    lemma_counts_ordered(i, j);
    lemma_counts_ordered(0, i);
    lemma_counts_ordered(j, n);
    lemma_from_count(n);
    lemma_from_count(i);
    lemma_from_count(j);
    lemma_from_count(0);
    lemma_order_of_values(a, b);
    lemma_order_of_values(b, a);
    super::bounds::lemma_slope(a, b, n);
    let (p, q) = (slope.times(k), slope.times(l));
    lemma_finite_terms(a, p);
    lemma_finite_terms(a, q);
    law_factor_is_monotone(slope, k, l);
    let zero = Single::from_count(0);
    assert(zero == Single::zero()) by {
        reveal(Single::from_count_spec);
        let f = single_format_spec();
        lemma_format(f);
        lemma_mul_basics(f.one() as int);
        lemma_nearest_zero(f, 1);
    }
    law_factor_is_monotone(slope, zero, k);
    law_times_zero(slope, zero);
    let z = slope.times(zero);
    law_plus_zero(a, z);
    let x = a.plus(p);
    let y = a.plus(q);
    if value(b) > value(a) {
        law_sum_is_monotone(a, p, q);
        law_sum_is_monotone(a, z, p);
    } else if value(b) < value(a) {
        law_sum_is_monotone(a, q, p);
        law_sum_is_monotone(a, p, z);
    } else {
        // no rise at all
        law_times_zero_first(slope, k);
        law_times_zero_first(slope, l);
        law_plus_zero(a, p);
        law_plus_zero(a, q);
    }
    lemma_le_same(a, a.plus(z), x);
    lemma_le_same(a, a, x);
    lemma_le_same(x, a, y);
    reveal(Single::lt_spec);
}

/// Zero times a finite number is zero.
proof fn law_times_zero_first(z: Single, a: Single)
    requires
        a.is_finite(),
        z.number().magnitude == 0,
    ensures
        z.times(a).number().magnitude == 0,
{
    reveal(Single::times_spec);
    let f = single_format_spec();
    lemma_format(f);
    lemma_units_zero(0, 23);
    lemma_mul_basics(size(a) as int);
    lemma_nearest_zero(f, f.one());
    lemma_pack(product_of(f, z.number(), a.number()));
}

/// Of a finite sum both terms are finite, where the first is.
pub proof fn lemma_finite_terms(a: Single, b: Single)
    requires
        a.is_finite(),
        a.plus(b).is_finite(),
    ensures
        b.is_finite(),
{
    reveal(Single::plus_spec);
    let f = single_format_spec();
    lemma_format(f);
    lemma_pack(sum_of(f, a.number(), b.number()));
}

proof fn lemma_le_same(a: Single, b: Single, c: Single)
    requires
        !a.is_nan(),
        !b.is_nan(),
        !c.is_nan(),
    ensures
        a.same(b, false) && b.le(c) ==> a.le(c),
        a.same(b, false) && c.le(b) ==> c.le(a),
        a.same(b, false) ==> a.le(b) && b.le(a),
{
    reveal(Single::lt_spec);
}

/// A whole number of 64 bits is read as the number nearest to it.
pub proof fn law_integer_is_nearest(n: int, c: Single)
    requires
        -0x1_0000_0000_0000_0000 < n < 0x1_0000_0000_0000_0000,
        c.is_finite(),
    ensures
        Single::from_integer_spec(n).is_finite(),
        magnitude(value(Single::from_integer_spec(n)) - n * pow2(149)) <= magnitude(
            value(c) - n * pow2(149),
        ),
{
    reveal(Single::from_integer_spec);
    let f = single_format_spec();
    lemma_format(f);
    lemma2_to64();
    lemma2_to64_rest();
    let m = magnitude(n) as nat;
    let x = m * f.one();
    lemma_pow2_pos(149);
    lemma_pow2_adds(64, 149);
    lemma_pow2_strictly_increases(213, 252);
    assert(x < pow2(213)) by (nonlinear_arith)
        requires
            x == m * f.one(),
            m < 0x1_0000_0000_0000_0000,
            f.one() > 0,
            pow2(213) == 0x1_0000_0000_0000_0000 * f.one(),
    ;
    lemma_mul_basics(super::bounds::overflow() as int);
    super::bounds::lemma_below_overflow(x, 1);
    let r = super::number::integer_of(f, m);
    assert(r.magnitude == rounded(x, 1, 23, 0x7f80_0000));
    lemma_pack(super::number::Number { negative: n < 0, magnitude: r.magnitude });
    law_rounded_is_nearest(x, 1, 23, 0x7f80_0000, c.number().magnitude as nat);
    law_rounded_is_nearest(x, 1, 23, 0x7f80_0000, 0);
    lemma_units_zero(0, 23);
    lemma_mul_basics(units(r.magnitude as nat, 23) as int);
    lemma_mul_basics(size(c) as int);
    let e = pow2(149) as int;
    assert(n < 0 ==> (-n) * e == -(n * e)) by (nonlinear_arith);
}

/// A number of the wider format is narrowed to the number nearest to it, where that is finite.
pub proof fn law_narrowed_is_nearest(x: Double, c: Single)
    requires
        x.is_finite(),
        x.narrowed().is_finite(),
        c.is_finite(),
    ensures
        ({
            let exact = x.number().value(double_format_spec()) * pow2(149);
            magnitude(value(x.narrowed()) * pow2(1074) - exact) <= magnitude(
                value(c) * pow2(1074) - exact,
            )
        }),
{
    reveal(Double::narrowed_spec);
    let (f, g) = (double_format_spec(), single_format_spec());
    lemma_format(g);
    let m = converted_of(f, g, x.number());
    let (d, e) = (pow2(1074), pow2(149));
    lemma_pow2_pos(1074);
    lemma_pow2_pos(149);
    let size_x = x.number().size(f);
    let n = size_x * e;
    lemma_pack(m);
    assert(m.magnitude == rounded(n, d, 23, 0x7f80_0000));
    law_rounded_is_nearest(n, d, 23, 0x7f80_0000, c.number().magnitude as nat);
    law_rounded_is_nearest(n, d, 23, 0x7f80_0000, 0);
    lemma_units_zero(0, 23);
    let (r, z) = (units(m.magnitude as nat, 23) as int, size(c) as int);
    lemma_signed(size_x as int, e as int, x.number().negative, false);
    lemma_signed(r, d as int, m.negative, false);
    lemma_signed(z, d as int, c.number().negative, false);
    assert(0 <= r * d && 0 <= z * d && 0 <= size_x * e) by (nonlinear_arith)
        requires
            r >= 0,
            z >= 0,
            size_x >= 0,
            d >= 0,
            e >= 0,
    ;
    assert(0 * d == 0);
}

/// Sums of numbers that are not all finite: what is not a number stays so, opposite infinities give no
/// number, and an infinity swallows anything else.
pub proof fn law_sums_beyond(a: Single, b: Single)
    ensures
        a.is_nan() || b.is_nan() ==> a.plus(b).is_nan(),
        !a.is_nan() && !b.is_nan() && !a.is_finite() && !b.is_finite() && a != b ==> a.plus(
            b,
        ).is_nan(),
        !a.is_nan() && !a.is_finite() && (b.is_finite() || a == b) ==> a.plus(b) == a,
        a.is_finite() && !b.is_nan() && !b.is_finite() ==> a.plus(b) == b,
        a.minus(b) == a.plus(b.negated()),
{
    reveal(Single::plus_spec);
    let f = single_format_spec();
    lemma_format(f);
    lemma_pack(sum_of(f, a.number(), b.number()));
}

/// Products of numbers that are not all finite, and the sign of products.
pub proof fn law_products_beyond(a: Single, b: Single)
    ensures
        a.is_nan() || b.is_nan() ==> a.times(b).is_nan(),
        !a.is_nan() && !b.is_nan() && (!a.is_finite() && b.number().magnitude == 0
            || !b.is_finite() && a.number().magnitude == 0) ==> a.times(b).is_nan(),
        !a.is_nan() && !b.is_nan() && (!a.is_finite() || !b.is_finite()) && a.number().magnitude > 0
            && b.number().magnitude > 0 ==> !a.times(b).is_nan() && !a.times(b).is_finite(),
        !a.times(b).is_nan() ==> a.times(b).number().negative == (a.number().negative
            != b.number().negative),
{
    reveal(Single::times_spec);
    let f = single_format_spec();
    lemma_format(f);
    let m = product_of(f, a.number(), b.number());
    assert(f.nearest(size(a) * size(b), f.one()) <= f.infinity);
    lemma_pack(m);
}

/// Quotients of numbers that are not all finite or by zero, and the sign of quotients.
pub proof fn law_quotients_beyond(a: Single, b: Single)
    ensures
        a.is_nan() || b.is_nan() ==> a.over(b).is_nan(),
        !a.is_nan() && !a.is_finite() && !b.is_nan() && !b.is_finite() ==> a.over(b).is_nan(),
        a.number().magnitude == 0 && b.number().magnitude == 0 ==> a.over(b).is_nan(),
        a.is_finite() && !b.is_nan() && !b.is_finite() ==> a.over(b).number().magnitude == 0,
        !a.is_nan() && !a.is_finite() && b.is_finite() ==> !a.over(b).is_nan() && !a.over(
            b,
        ).is_finite(),
        a.is_finite() && a.number().magnitude > 0 && b.number().magnitude == 0 ==> !a.over(
            b,
        ).is_nan() && !a.over(b).is_finite(),
        !a.over(b).is_nan() ==> a.over(b).number().negative == (a.number().negative
            != b.number().negative),
{
    reveal(Single::over_spec);
    let f = single_format_spec();
    lemma_format(f);
    let m = quotient_of(f, a.number(), b.number());
    assert(f.nearest(size(a) * f.one(), size(b)) <= f.infinity);
    lemma_pack(m);
}

/// Comparisons: what is not a number is neither below nor above anything, of numbers the one with the
/// lesser value is below the other, infinities included; the greater of two is one of them and not below
/// the other, and a number is preferred to what is none.
pub proof fn law_comparisons(a: Single, b: Single)
    ensures
        a.is_nan() || b.is_nan() ==> !a.lt(b) && !a.le(b),
        !a.is_nan() && !b.is_nan() ==> (a.lt(b) <==> rank_of(a.number()) < rank_of(b.number())) && (
        a.le(b) <==> rank_of(a.number()) <= rank_of(b.number())),
        a.max(b) == a || a.max(b) == b,
        !a.is_nan() && !b.is_nan() ==> a.le(a.max(b)) && b.le(a.max(b)),
        a.is_nan() ==> a.max(b) == b,
        b.is_nan() && !a.is_nan() ==> a.max(b) == a,
        a.abs().number().magnitude == a.number().magnitude && !a.abs().number().negative,
        a.negated().number().magnitude == a.number().magnitude && a.negated().number().negative
            == !a.number().negative,
{
    reveal(Single::lt_spec);
}

/// The square root of a positive number: no representable number lies nearer to it, up to one unit.
pub proof fn law_root_is_nearest(a: Single, c: Single)
    requires
        a.is_finite(),
        value(a) > 0,
        c.is_finite(),
        a.root().is_finite(),
    ensures
        ({
            let r = size(a.root()) as int;
            let n = size(a) * pow2(149);
            let z = size(c) as int;
            &&& !a.root().number().negative
            &&& z > r ==> (r + z + 1) * (r + z + 1) > 4 * n
            &&& z < r ==> (r + z - 1) * (r + z - 1) <= 4 * n
        }),
{
    reveal(Single::root_spec);
    let f = single_format_spec();
    lemma_format(f);
    lemma_units_zero(a.number().magnitude as nat, 23);
    let n = size(a) * f.one();
    let r = root_floor(n);
    lemma_root_exists(n);
    assert(r * r <= n < (r + 1) * (r + 1));
    let m = if r * r == n {
        2 * r
    } else {
        2 * r + 1
    };
    let p = root_of(f, a.number());
    lemma_pack(p);
    assert(p.magnitude == rounded(m, 2, 23, 0x7f80_0000));
    law_rounded_is_nearest(m, 2, 23, 0x7f80_0000, c.number().magnitude as nat);
    let (x, z) = (size(a.root()) as int, size(c) as int);
    let ri = r as int;
    if z > x {
        assert(x + z >= m);
        let y = x + z + 1;
        if r * r == n {
            assert(y * y > 4 * (ri * ri)) by (nonlinear_arith)
                requires
                    y >= 2 * ri + 1,
                    ri >= 0,
            ;
        } else {
            assert(y * y >= 4 * ((ri + 1) * (ri + 1))) by (nonlinear_arith)
                requires
                    y >= 2 * (ri + 1),
                    ri >= 0,
            ;
        }
    }
    if z < x {
        assert(x + z <= m);
        let y = x + z - 1;
        assert(y * y <= 4 * (ri * ri)) by (nonlinear_arith)
            requires
                0 <= y <= 2 * ri,
        ;
    }
}

/// Roots of zeros, of infinity and of what has none.
pub proof fn law_roots_beyond(a: Single)
    ensures
        a.is_nan() ==> a.root().is_nan(),
        a.number().negative && a.number().magnitude > 0 ==> a.root().is_nan(),
        a.number().magnitude == 0 ==> a.root() == a,
        a == Single::from_bits(0x7f80_0000) ==> a.root() == a,
{
    reveal(Single::root_spec);
    let f = single_format_spec();
    lemma_format(f);
    lemma_pack(root_of(f, a.number()));
}

/// The value of a number of the wider format in its own units.
pub open spec fn wide_value(a: Double) -> int {
    a.number().value(double_format_spec())
}

proof fn lemma_pack_wide(n: Number)
    requires
        n.magnitude < 0x8000_0000_0000_0000u64,
    ensures
        Double::pack_spec(n).number() == n,
{
}

/// Sums of the wider format are nearest to the exact sums.
#[verifier::rlimit(40)]
pub proof fn law_wide_sum_is_nearest(a: Double, b: Double, c: Double)
    requires
        a.is_finite(),
        b.is_finite(),
        c.is_finite(),
        a.plus(b).is_finite(),
    ensures
        magnitude(wide_value(a.plus(b)) - (wide_value(a) + wide_value(b))) <= magnitude(
            wide_value(c) - (wide_value(a) + wide_value(b)),
        ),
{
    let f = double_format_spec();
    let v = wide_value(a) + wide_value(b);
    let m = sum_of(f, a.number(), b.number());
    let inf = f.infinity as nat;
    lemma_wide_sum(a, b);
    lemma_units_zero(0, 52);
    if v != 0 {
        let d = magnitude(v) as nat;
        law_rounded_is_nearest(d, 1, 52, inf, c.number().magnitude as nat);
        law_rounded_is_nearest(d, 1, 52, inf, 0);
        lemma_mul_basics(units(m.magnitude as nat, 52) as int);
        lemma_mul_basics(c.number().size(f) as int);
    }
}

/// Taking a number off is adding it with its sign turned.
pub proof fn law_wide_difference(a: Double, b: Double)
    ensures
        a.minus(b) == a.plus(b.negated()),
        wide_value(b.negated()) == -wide_value(b),
{
}

proof fn lemma_wide_sum(a: Double, b: Double)
    requires
        a.is_finite(),
        b.is_finite(),
    ensures
        ({
            let f = double_format_spec();
            let v = wide_value(a) + wide_value(b);
            let m = sum_of(f, a.number(), b.number());
            &&& a.plus(b).number() == m
            &&& v != 0 ==> m.magnitude == rounded(magnitude(v) as nat, 1, 52, f.infinity as nat)
                && m.negative == (v < 0)
            &&& v == 0 ==> m.magnitude == 0
        }),
{
    reveal(Double::plus_spec);
    let f = double_format_spec();
    lemma_format(f);
    let v = wide_value(a) + wide_value(b);
    let m = sum_of(f, a.number(), b.number());
    if v != 0 {
        assert(m == number_of(f, v));
    }
    lemma_pack_wide(m);
}

/// Products of the wider format are nearest to the exact products.
pub proof fn law_wide_product_is_nearest(a: Double, b: Double, c: Double)
    requires
        a.is_finite(),
        b.is_finite(),
        c.is_finite(),
        a.times(b).is_finite(),
    ensures
        magnitude(wide_value(a.times(b)) * pow2(1074) - wide_value(a) * wide_value(b)) <= magnitude(
            wide_value(c) * pow2(1074) - wide_value(a) * wide_value(b),
        ),
{
    reveal(Double::times_spec);
    let f = double_format_spec();
    lemma_format(f);
    let e = pow2(1074);
    lemma_pow2_pos(1074);
    let m = product_of(f, a.number(), b.number());
    lemma_pack_wide(m);
    let (x, y, z) = (a.number().size(f), b.number().size(f), c.number().size(f));
    let n = x * y;
    let inf = f.infinity as nat;
    assert(m.magnitude == rounded(n, e, 52, inf));
    law_rounded_is_nearest(n, e, 52, inf, c.number().magnitude as nat);
    law_rounded_is_nearest(n, e, 52, inf, 0);
    lemma_units_zero(0, 52);
    let r = units(m.magnitude as nat, 52) as int;
    lemma_signed(x as int, y as int, a.number().negative, b.number().negative);
    lemma_signed(r, e as int, m.negative, false);
    lemma_signed(z as int, e as int, c.number().negative, false);
    assert(0 <= x * y && 0 <= r * e && 0 <= z * e) by (nonlinear_arith)
        requires
            x >= 0,
            y >= 0,
            z >= 0,
            r >= 0,
            e >= 0,
    ;
    assert(0 * e == 0);
}

/// Quotients of the wider format are nearest to the exact quotients.
pub proof fn law_wide_quotient_is_nearest(a: Double, b: Double, c: Double)
    requires
        a.is_finite(),
        b.is_finite(),
        c.is_finite(),
        wide_value(b) != 0,
        a.over(b).is_finite(),
    ensures
        magnitude(wide_value(a.over(b)) * wide_value(b) - wide_value(a) * pow2(1074)) <= magnitude(
            wide_value(c) * wide_value(b) - wide_value(a) * pow2(1074),
        ),
{
    reveal(Double::over_spec);
    let f = double_format_spec();
    lemma_format(f);
    let e = pow2(1074);
    lemma_pow2_pos(1074);
    lemma_units_zero(b.number().magnitude as nat, 52);
    lemma_units_zero(0, 52);
    let m = quotient_of(f, a.number(), b.number());
    lemma_pack_wide(m);
    let (x, y, z) = (a.number().size(f), b.number().size(f), c.number().size(f));
    let n = x * e;
    let inf = f.infinity as nat;
    assert(m.magnitude == rounded(n, y, 52, inf));
    law_rounded_is_nearest(n, y, 52, inf, c.number().magnitude as nat);
    law_rounded_is_nearest(n, y, 52, inf, 0);
    let r = units(m.magnitude as nat, 52) as int;
    lemma_signed(x as int, e as int, a.number().negative, false);
    lemma_signed(r, y as int, m.negative, b.number().negative);
    lemma_signed(z as int, y as int, c.number().negative, b.number().negative);
    assert(0 <= x * e && 0 <= r * y && 0 <= z * y) by (nonlinear_arith)
        requires
            x >= 0,
            y >= 0,
            z >= 0,
            r >= 0,
            e >= 0,
    ;
    assert(0 * y == 0);
}

/// Widening finite numbers comes as near as the wider format can.
pub proof fn law_widened_is_nearest(a: Single, c: Double)
    requires
        a.is_finite(),
        a.widened().is_finite(),
        c.is_finite(),
    ensures
        ({
            let exact = value(a) * pow2(1074);
            magnitude(wide_value(a.widened()) * pow2(149) - exact) <= magnitude(
                wide_value(c) * pow2(149) - exact,
            )
        }),
{
    reveal(Single::widened_spec);
    let (f, g) = (single_format_spec(), double_format_spec());
    lemma_format(g);
    let m = converted_of(f, g, a.number());
    let (d, e) = (pow2(149), pow2(1074));
    lemma_pow2_pos(1074);
    lemma_pow2_pos(149);
    let n = size(a) * e;
    let inf = g.infinity as nat;
    lemma_pack_wide(m);
    assert(m.magnitude == rounded(n, d, 52, inf));
    law_rounded_is_nearest(n, d, 52, inf, c.number().magnitude as nat);
    law_rounded_is_nearest(n, d, 52, inf, 0);
    lemma_units_zero(0, 52);
    let (r, z) = (units(m.magnitude as nat, 52) as int, c.number().size(g) as int);
    let x = size(a) as int;
    lemma_signed(x, e as int, a.number().negative, false);
    lemma_signed(r, d as int, m.negative, false);
    lemma_signed(z, d as int, c.number().negative, false);
    assert(0 <= r * d && 0 <= z * d && 0 <= x * e) by (nonlinear_arith)
        requires
            r >= 0,
            z >= 0,
            x >= 0,
            d >= 0,
            e >= 0,
    ;
    assert(0 * d == 0);
}

/// A count is read as the whole number that it is.
pub proof fn law_count_is_its_number(n: usize)
    ensures
        Single::from_count(n) == Single::from_integer_spec(n as int),
{
    reveal(Single::from_count_spec);
    reveal(Single::from_integer_spec);
}

/// A count of 53 bits is exact in the wider format.
pub proof fn law_wide_count_is_exact(n: usize)
    requires
        n < 0x20_0000_0000_0000,
    ensures
        Double::from_count(n).is_finite(),
        wide_value(Double::from_count(n)) == n * pow2(1074),
{
    reveal(Double::from_count_spec);
    let f = double_format_spec();
    lemma_format(f);
    lemma2_to64();
    lemma2_to64_rest();
    let inf = f.infinity as nat;
    let x = n as nat * pow2(1074);
    let b: nat = 0x43f0_0000_0000_0000;
    lemma_pow2_adds(52, 1086);
    lemma_pow2_adds(64, 1074);
    assert(b / 0x10_0000_0000_0000nat == 1087 && b % 0x10_0000_0000_0000nat == 0);
    assert(units(b, 52) == pow2(1138));
    lemma_pow2_pos(1074);
    let e = pow2(1074);
    assert(x <= pow2(1138)) by (nonlinear_arith)
        requires
            x == n * e,
            n < 0x20_0000_0000_0000,
            pow2(1138) == 0x1_0000_0000_0000_0000 * e,
            e > 0,
    ;
    lemma_rounded_exact(b, 52, inf);
    law_rounding_is_monotone(x, pow2(1138), 1, 52, inf);
    let m = super::number::integer_of(f, n as nat);
    assert(m.magnitude == rounded(x, 1, 52, inf));
    lemma_pack_wide(m);
    super::rounding::lemma_rounded_whole(n as nat, 1074, 52, inf);
}

} // verus!
