//! Where arithmetic on finite numbers stays finite.

use vstd::arithmetic::div_mod::*;
use vstd::arithmetic::mul::*;
use vstd::arithmetic::power2::*;
use vstd::prelude::*;

use super::number::{
    integer_of, lemma_format, lemma_units_monotone, lemma_units_zero, number_of,
    product_of, quotient_of, single_format_spec, sum_of,
};
use super::rounding::{
    distance, excess, law_rounding_error, lemma_rounded_scale, lemma_rounded_whole, nearest_even,
    rounded, units,
};
use super::scalar::{law_negated_twice, lemma_excess_bound, lemma_from_count, lemma_pack, Single};

verus! {

/// The least quantity that rounds to infinity, in units: half a step beyond the greatest finite number.
pub open spec fn overflow() -> nat {
    0x1ff_ffff * pow2(252)
}

/// The magnitude of a number in units.
pub open spec fn size(a: Single) -> nat {
    a.number().size(single_format_spec())
}

/// Whatever lies below the overflow rounds to a finite number.
#[verifier::rlimit(40)]
pub proof fn lemma_below_overflow(n: nat, d: nat)
    requires
        d > 0,
        n < overflow() * d,
    ensures
        rounded(n, d, 23, 0x7f80_0000) < 0x7f80_0000,
{
    let k = excess(n / d, 24);
    lemma_pow2_adds(25, 252);
    lemma_pow2_adds(1, 252);
    lemma2_to64();
    lemma2_to64_rest();
    lemma_pow2_pos(252);
    lemma_mul_is_commutative(overflow() as int, d as int);
    lemma_multiply_divide_lt(n as int, d as int, overflow() as int);
    assert(n / d < pow2(277));
    lemma_excess_bound(n / d, 24, 277);
    let step = d * pow2(k);
    let q = nearest_even(n, step);
    lemma_pow2_pos(k);
    lemma_mul_strictly_positive(d as int, pow2(k) as int);
    lemma_div_denominator(n as int, d as int, pow2(k) as int);
    lemma_pow2_adds(24, k);
    lemma_mul_is_commutative(pow2(24) as int, pow2(k) as int);
    lemma_multiply_divide_lt((n / d) as int, pow2(k) as int, pow2(24) as int);
    assert(n / step < pow2(24));
    if k == 253 {
        let f = (n / step) as int;
        lemma_fundamental_div_mod(n as int, step as int);
        lemma_mod_bound(n as int, step as int);
        if f == 0xff_ffff {
            let r = (n % step) as int;
            let x = pow2(252) as int;
            assert(2 * r < step) by (nonlinear_arith)
                requires
                    n == step * f + r,
                    f == 0xff_ffff,
                    step == d * (2 * x),
                    n < (0x1ff_ffff * x) * d,
            ;
        }
        assert(q <= 0xff_ffff);
    } else {
        assert(k * pow2(23) <= 252 * pow2(23)) by (nonlinear_arith)
            requires
                k <= 252,
        ;
        assert(q <= pow2(24));
    }
}

/// A finite number has a magnitude of half a step less than the overflow at most.
pub proof fn lemma_finite_size(a: Single)
    requires
        a.is_finite(),
    ensures
        size(a) + pow2(252) <= overflow(),
{
    lemma2_to64();
    lemma2_to64_rest();
    lemma_pow2_adds(1, 252);
    assert(0x7f7f_ffffnat / 0x80_0000nat == 254);
    assert(0x7f7f_ffffnat % 0x80_0000nat == 0x7f_ffff);
    let top = units(0x7f7f_ffff, 23);
    let x = pow2(252) as int;
    assert(top == 0xff_ffff * (2 * x));
    if a.number().magnitude < 0x7f7f_ffff {
        lemma_units_monotone(a.number().magnitude as nat, 0x7f7f_ffff, 23);
    }
}

/// Counts of 24 bits are exact, and others nearly.
pub proof fn lemma_count_size(n: usize)
    ensures
        n < 0x100_0000 ==> size(Single::from_count(n)) == n * pow2(149),
        size(Single::from_count(n)) <= 2 * (n * pow2(149)),
        n * pow2(149) <= 2 * size(Single::from_count(n)),
{
    reveal(Single::from_count_spec);
    lemma_from_count(n);
    let f = single_format_spec();
    lemma_format(f);
    lemma2_to64();
    lemma2_to64_rest();
    let x = (n * pow2(149)) as nat;
    let m = integer_of(f, n as nat);
    assert(m.magnitude == rounded(x, 1, 23, 0x7f80_0000));
    lemma_pack(m);
    if n < 0x100_0000 {
        lemma_rounded_whole(n as nat, 149, 23, 0x7f80_0000);
    }
    law_rounding_error(x, 1, 23, 0x7f80_0000);
    lemma_mul_basics(units(m.magnitude as nat, 23) as int);
}

/// The value of a number in units.
pub open spec fn value(a: Single) -> int {
    a.number().value(single_format_spec())
}

/// The magnitude of a whole number.
pub open spec fn magnitude(v: int) -> int {
    if v < 0 {
        -v
    } else {
        v
    }
}

/// A finite sum of finite numbers is off by one part in `2^24` of its exact value at most, and on
/// the same side of zero.
pub proof fn law_sum_error(a: Single, b: Single)
    requires
        a.is_finite(),
        b.is_finite(),
        a.plus(b).is_finite(),
    ensures
        magnitude(value(a.plus(b)) - (value(a) + value(b))) * 0x100_0000 <= magnitude(
            value(a) + value(b),
        ),
        value(a) + value(b) < 0 ==> a.plus(b).number().negative,
        value(a) + value(b) > 0 ==> !a.plus(b).number().negative,
{
    reveal(Single::plus_spec);
    let f = single_format_spec();
    lemma_format(f);
    lemma2_to64();
    let x = a.number();
    let y = b.number();
    let v = x.value(f) + y.value(f);
    lemma_units_zero(0, 23);
    let m = sum_of(f, x, y);
    if v != 0 {
        let d = magnitude(v) as nat;
        assert(m == number_of(f, v));
        assert(m.magnitude == rounded(d, 1, 23, 0x7f80_0000));
        lemma_pack(m);
        law_rounding_error(d, 1, 23, 0x7f80_0000);
        lemma_mul_basics(units(m.magnitude as nat, 23) as int);
    } else {
        lemma_pack(m);
    }
}

/// The value of a number with its sign turned.
proof fn lemma_negated_value(a: Single)
    ensures
        value(a.negated()) == -value(a),
        a.negated().is_finite() == a.is_finite(),
{
    law_negated_twice(a);
}

/// The size and the sign of a quotient by a positive number.
proof fn lemma_quotient_size(a: Single, b: Single)
    requires
        a.is_finite(),
        b.is_finite(),
        !b.number().negative,
        b.number().magnitude > 0,
        size(a) * pow2(149) < overflow() * size(b),
    ensures
        a.over(b).is_finite(),
        a.over(b).number().negative == a.number().negative,
        a.over(b).number().magnitude == rounded(size(a) * pow2(149), size(b), 23, 0x7f80_0000),
        size(b) > 0,
{
    reveal(Single::over_spec);
    let f = single_format_spec();
    lemma_format(f);
    lemma_units_zero(b.number().magnitude as nat, 23);
    lemma_below_overflow(size(a) * pow2(149), size(b));
    lemma_pack(quotient_of(f, a.number(), b.number()));
}

/// The size and the sign of a product by a positive number.
proof fn lemma_product_size(a: Single, b: Single)
    requires
        a.is_finite(),
        b.is_finite(),
        !b.number().negative,
        size(a) * size(b) < overflow() * pow2(149),
    ensures
        a.times(b).is_finite(),
        a.times(b).number().negative == a.number().negative,
        a.times(b).number().magnitude == rounded(size(a) * size(b), pow2(149), 23, 0x7f80_0000),
{
    reveal(Single::times_spec);
    let f = single_format_spec();
    lemma_format(f);
    lemma_pow2_pos(149);
    lemma_below_overflow(size(a) * size(b), pow2(149));
    lemma_pack(product_of(f, a.number(), b.number()));
}

/// A sum is finite where its exact value lies below the overflow.
proof fn lemma_sum_finite(a: Single, b: Single)
    requires
        a.is_finite(),
        b.is_finite(),
        -overflow() < value(a) + value(b) < overflow(),
    ensures
        a.plus(b).is_finite(),
{
    reveal(Single::plus_spec);
    let f = single_format_spec();
    let v = a.number().value(f) + b.number().value(f);
    let m = sum_of(f, a.number(), b.number());
    if v != 0 {
        let d = if v < 0 {
            (-v) as nat
        } else {
            v as nat
        };
        lemma_mul_basics(overflow() as int);
        lemma_below_overflow(d, 1);
        assert(m == number_of(f, v));
    }
    lemma_pack(m);
}

/// The point a part of the way from `a` to `b`: `k` of `n` steps.
pub open spec fn on_the_way(a: Single, b: Single, n: usize, k: usize) -> Single {
    a.plus(b.minus(a).over(Single::from_count(n)).times(Single::from_count(k)))
}

/// The greatest magnitude, two to the power of 121, of the ends of a way with any number of steps.
pub open spec fn is_moderate(a: Single) -> bool {
    a.is_finite() && a.abs().le(Single::from_bits(0x7c00_0000))
}

/// A point on the way between two numbers whose difference is finite is finite, if there are no
/// more than `2^22` steps or the two are moderate.
pub proof fn law_way_is_finite(a: Single, b: Single, n: usize, k: usize)
    requires
        a.is_finite(),
        b.is_finite(),
        b.minus(a).is_finite(),
        0 < k < n,
        n <= 0x40_0000 || (is_moderate(a) && is_moderate(b)),
    ensures
        on_the_way(a, b, n, k).is_finite(),
{
    if n <= 0x40_0000 {
        lemma_short_way(a, b, n, k);
    } else {
        lemma_moderate_way(a, b, n, k);
    }
}

/// Of the exact way, three roundings and one step left over: the rounded way is no longer.
proof fn lemma_three_roundings(d: int, r: int, s: int, p: int, n: int, k: int)
    requires
        0 <= d,
        0 <= r,
        0 <= s,
        0 <= p,
        0 < k < n <= 0x40_0000,
        r * 0x100_0000 <= d * 0x100_0001,
        (s * n) * 0x100_0000 <= r * 0x100_0001,
        p * 0x100_0000 <= (s * k) * 0x100_0001,
    ensures
        p <= d,
{
    let c: int = 0x1_000003_000003_000001int;
    let e: int = 0x1_000000_000000_000000int;
    assert((p * n) * 0x100_0000 <= ((s * n) * k) * 0x100_0001) by (nonlinear_arith)
        requires
            p * 0x100_0000 <= (s * k) * 0x100_0001,
            n > 0,
    ;
    assert(((s * n) * k) * 0x100_0000 <= (r * k) * 0x100_0001) by (nonlinear_arith)
        requires
            (s * n) * 0x100_0000 <= r * 0x100_0001,
            k > 0,
    ;
    assert((r * k) * 0x100_0000 <= (d * k) * 0x100_0001) by (nonlinear_arith)
        requires
            r * 0x100_0000 <= d * 0x100_0001,
            k > 0,
    ;
    let (w, x, y, z) = (p * n, (s * n) * k, r * k, d * k);
    assert(w * e <= z * c);
    assert((d * k) * c <= d * ((n - 1) * c)) by (nonlinear_arith)
        requires
            0 <= d,
            k <= n - 1,
            c > 0,
    ;
    assert((n - 1) * c <= n * e);
    assert(d * ((n - 1) * c) <= d * (n * e)) by (nonlinear_arith)
        requires
            0 <= d,
            (n - 1) * c <= n * e,
    ;
    assert(p <= d) by (nonlinear_arith)
        requires
            (p * n) * e <= d * (n * e),
            n > 0,
            e > 0,
    ;
}

#[verifier::rlimit(40)]
proof fn lemma_short_way(a: Single, b: Single, n: usize, k: usize)
    requires
        a.is_finite(),
        b.is_finite(),
        b.minus(a).is_finite(),
        0 < k < n,
        n <= 0x40_0000,
    ensures
        on_the_way(a, b, n, k).is_finite(),
{
    let e = pow2(149);
    lemma_pow2_pos(149);
    lemma2_to64();
    lemma2_to64_rest();
    let v = value(b) - value(a);
    let d = magnitude(v);
    lemma_finite_size(a);
    lemma_finite_size(b);
    // the difference
    let rise = b.minus(a);
    let r = size(rise);
    lemma_finite_size(rise);
    lemma_negated_value(a);
    law_sum_error(b, a.negated());
    // the slope
    let width = Single::from_count(n);
    lemma_count_size(n);
    lemma_from_count(n);
    lemma_pow2_pos(252);
    assert(r * e < overflow() * (n * e)) by (nonlinear_arith)
        requires
            r < overflow(),
            n >= 1,
            e > 0,
    ;
    lemma_quotient_size(rise, width);
    let slope = rise.over(width);
    let s = size(slope);
    lemma_rounded_scale(r, n as nat, e, 23, 0x7f80_0000);
    assert(slope.number().magnitude == rounded(r, n as nat, 23, 0x7f80_0000));
    law_rounding_error(r, n as nat, 23, 0x7f80_0000);
    let off = distance(s * n as nat, r);
    assert(2 * off <= n || off * 0x100_0000 <= r);
    // the product
    let offset = Single::from_count(k);
    lemma_count_size(k);
    lemma_from_count(k);
    let sk = s * k as nat;
    assert(s * (k * e) == sk * e) by (nonlinear_arith)
        requires
            sk == s * k,
    ;
    let steep = r >= n * 0x100_0000;
    if steep {
        assert((s * n) * 0x100_0000 <= r * 0x100_0001);
        assert(sk <= r) by (nonlinear_arith)
            requires
                (s * n) * 0x100_0000 <= r * 0x100_0001,
                sk == s * k,
                0 < k < n <= 0x40_0000,
        ;
    } else {
        assert(s <= 2 * r + 1) by (nonlinear_arith)
            requires
                s * n <= 2 * r + n,
                n >= 1,
                r >= 0,
        ;
        assert(sk <= (2 * r + 1) * n) by (nonlinear_arith)
            requires
                s <= 2 * r + 1,
                sk == s * k,
                0 <= k <= n,
        ;
        assert((2 * r + 1) * n <= 0x8000_0000_0001 * 0x40_0000) by (nonlinear_arith)
            requires
                2 * r + 1 <= 0x8000_0000_0001,
                0 <= n <= 0x40_0000,
        ;
    }
    lemma_wide();
    assert(sk < overflow());
    assert(sk * e < overflow() * e) by (nonlinear_arith)
        requires
            sk < overflow(),
            e > 0,
    ;
    lemma_product_size(slope, offset);
    let way = slope.times(offset);
    let p = size(way);
    lemma_rounded_scale(sk, 1, e, 23, 0x7f80_0000);
    lemma_mul_basics(e as int);
    assert(way.number().magnitude == rounded(sk, 1, 23, 0x7f80_0000));
    law_rounding_error(sk, 1, 23, 0x7f80_0000);
    lemma_mul_basics(p as int);
    assert(p * 0x100_0000 <= sk * 0x100_0001);
    if steep {
        lemma_three_roundings(d, r as int, s as int, p as int, n as int, k as int);
    }
    lemma_sum_finite(a, way);
}

proof fn lemma_wide()
    ensures
        pow2(252) >= 0x4000_0000_0000_0000 * 0x4000_0000_0000_0000,
{
    lemma2_to64();
    lemma2_to64_rest();
    lemma_pow2_adds(62, 62);
    lemma_pow2_strictly_increases(124, 252);
}

proof fn lemma_moderate_size(a: Single)
    requires
        is_moderate(a),
    ensures
        size(a) <= pow2(270),
{
    reveal(Single::lt_spec);
    lemma2_to64();
    lemma2_to64_rest();
    lemma_pow2_adds(23, 247);
    assert(0x7c00_0000nat / 0x80_0000nat == 248);
    assert(0x7c00_0000nat % 0x80_0000nat == 0);
    assert(units(0x7c00_0000, 23) == pow2(270));
    if a.number().magnitude < 0x7c00_0000 {
        lemma_units_monotone(a.number().magnitude as nat, 0x7c00_0000, 23);
    }
}

#[verifier::rlimit(40)]
proof fn lemma_moderate_way(a: Single, b: Single, n: usize, k: usize)
    requires
        is_moderate(a),
        is_moderate(b),
        b.minus(a).is_finite(),
        0 < k < n,
    ensures
        on_the_way(a, b, n, k).is_finite(),
{
    let e = pow2(149);
    let t = pow2(252) as int;
    lemma_pow2_pos(149);
    lemma2_to64();
    lemma2_to64_rest();
    lemma_pow2_adds(18, 252);
    lemma_wide();
    lemma_moderate_size(a);
    lemma_moderate_size(b);
    // the difference
    let rise = b.minus(a);
    let r = size(rise) as int;
    lemma_negated_value(a);
    law_sum_error(b, a.negated());
    assert(r <= 0x10_0000 * t);
    // the slope
    let width = Single::from_count(n);
    let w = size(width) as int;
    lemma_count_size(n);
    lemma_from_count(n);
    assert(e <= n * e) by (nonlinear_arith)
        requires
            n >= 1,
            e > 0,
    ;
    assert(e <= 2 * w);
    assert(r * e < overflow() * w) by (nonlinear_arith)
        requires
            r <= 0x10_0000 * t,
            overflow() == 0x1ff_ffff * t,
            e <= 2 * w,
            e > 0,
            r >= 0,
            t > 0,
    ;
    lemma_quotient_size(rise, width);
    let slope = rise.over(width);
    let s = size(slope) as int;
    law_rounding_error((r * e) as nat, w as nat, 23, 0x7f80_0000);
    assert(s * w <= 2 * (r * e) + w) by {
        let off = distance((s * w) as nat, (r * e) as nat);
        assert(2 * off <= w || off * 0x100_0000 <= r * e);
        assert(r * e >= 0) by (nonlinear_arith)
            requires
                r >= 0,
                e > 0,
        ;
    }
    // the product
    let offset = Single::from_count(k);
    let o = size(offset) as int;
    lemma_count_size(k);
    lemma_from_count(k);
    assert(k * e <= n * e) by (nonlinear_arith)
        requires
            k <= n,
            e > 0,
    ;
    assert(o <= 4 * w);
    assert(w <= 2 * (n * e));
    let so = s * o;
    assert(so <= 4 * (s * w)) by (nonlinear_arith)
        requires
            so == s * o,
            o <= 4 * w,
            s >= 0,
    ;
    assert(n * e <= 0x1_0000_0000_0000_0000 * e) by (nonlinear_arith)
        requires
            n <= 0x1_0000_0000_0000_0000,
            e > 0,
    ;
    let bound = 8 * r + 0x10_0000_0000_0000_0000;
    assert(so <= bound * e) by (nonlinear_arith)
        requires
            so <= 8 * (r * e) + 4 * w,
            w <= 2 * (0x1_0000_0000_0000_0000 * e),
            bound == 8 * r + 0x10_0000_0000_0000_0000,
    ;
    assert(so >= 0) by (nonlinear_arith)
        requires
            so == s * o,
            s >= 0,
            o >= 0,
    ;
    assert(bound < overflow());
    assert(so < overflow() * e) by (nonlinear_arith)
        requires
            so <= bound * e,
            bound < overflow(),
            e > 0,
    ;
    lemma_product_size(slope, offset);
    let way = slope.times(offset);
    let p = size(way) as int;
    law_rounding_error(so as nat, e, 23, 0x7f80_0000);
    assert(p * e <= 2 * so + e) by {
        let off = distance((p * e) as nat, so as nat);
        assert(2 * off <= e || off * 0x100_0000 <= so);
    }
    assert(p <= 2 * bound + 1) by (nonlinear_arith)
        requires
            p * e <= 2 * so + e,
            so <= bound * e,
            e > 0,
    ;
    lemma_sum_finite(a, way);
}

/// Dividing by a positive number and multiplying by it again: what was taken off is put back up to
/// two roundings, or, near zero, up to the least steps.
#[verifier::rlimit(40)]
proof fn lemma_scaling_error(a: Single, b: Single)
    requires
        a.is_finite(),
        b.is_finite(),
        !b.number().negative,
        b.number().magnitude > 0,
        a.over(b).is_finite(),
        a.over(b).times(b).is_finite(),
    ensures
        ({
            let e = pow2(149);
            let q = a.over(b);
            let off = magnitude(value(q.times(b)) - value(a));
            2 * ((off * e) * 0x100_0000) <= 6 * (size(a) * e) + 0x200_0000 * size(b) + 0x100_0000 * e
        }),
{
    let f = single_format_spec();
    let e = pow2(149);
    let q = a.over(b);
    let p = q.times(b);
    lemma_pow2_pos(149);
    lemma2_to64();
    lemma_format(f);
    lemma_units_zero(b.number().magnitude as nat, 23);
    assert(q.number() == quotient_of(f, a.number(), b.number())) by {
        reveal(Single::over_spec);
        lemma_pack(quotient_of(f, a.number(), b.number()));
    }
    assert(p.number() == product_of(f, q.number(), b.number())) by {
        reveal(Single::times_spec);
        lemma_pack(product_of(f, q.number(), b.number()));
    }
    let n = size(a) * e;
    let m = size(q) * size(b);
    law_rounding_error(n, size(b), 23, 0x7f80_0000);
    law_rounding_error(m, e, 23, 0x7f80_0000);
    let off1 = distance(m, n);
    let off2 = distance(size(p) * e, m);
    assert(2 * off1 <= size(b) || off1 * 0x100_0000 <= n);
    assert(2 * off2 <= e || off2 * 0x100_0000 <= m);
    let off = magnitude(value(p) - value(a));
    assert(off == distance(size(p), size(a)));
    let (x, y) = (size(p) as int, size(a) as int);
    assert(off * e == distance(size(p) * e, n)) by (nonlinear_arith)
        requires
            off == (if x >= y {
                x - y
            } else {
                y - x
            }),
            n == y * e,
            size(p) == x,
            distance(size(p) * e, n) == (if x * e >= y * e {
                x * e - y * e
            } else {
                y * e - x * e
            }),
            e > 0,
    ;
    assert(distance(size(p) * e, n) <= off1 + off2);
}

/// Within one part in `2^21` of the magnitudes of the number and the mean and, near zero, within one
/// least step and as many more as twice the deviation.
pub open spec fn is_near(back: Single, x: Single, mean: Single, deviation: Single) -> bool {
    magnitude(value(back) - value(x)) * (0x20_0000 * pow2(149)) <= (size(x) + size(mean)) * pow2(149)
        + 0x20_0000 * (pow2(149) + 2 * size(deviation))
}

/// Taking a mean off a number, dividing by a deviation, multiplying by it and putting the mean back
/// on gives the number back nearly, where it gives a finite number.
#[verifier::rlimit(40)]
pub proof fn law_scaling_undone(x: Single, mean: Single, deviation: Single)
    requires
        x.is_finite(),
        mean.is_finite(),
        deviation.is_finite(),
        Single::zero().lt(deviation),
        x.minus(mean).over(deviation).times(deviation).plus(mean).is_finite(),
    ensures
        is_near(
            x.minus(mean).over(deviation).times(deviation).plus(mean),
            x,
            mean,
            deviation,
        ),
{
    let e = pow2(149);
    lemma_pow2_pos(149);
    let r = x.minus(mean);
    let q = r.over(deviation);
    let p = q.times(deviation);
    let back = p.plus(mean);
    assert(!deviation.number().negative && deviation.number().magnitude > 0) by {
        reveal(Single::lt_spec);
    }
    lemma_finite_back(r, deviation, mean);
    lemma_negated_value(mean);
    law_sum_error(x, mean.negated());
    lemma_scaling_error(r, deviation);
    law_sum_error(p, mean);
    // the exact difference, and how far each rounding leads away from it
    let d = value(x) - value(mean);
    let off1 = magnitude(value(r) - d);
    let off2 = magnitude(value(p) - value(r));
    let off3 = magnitude(value(back) - (value(p) + value(mean)));
    let off = magnitude(value(back) - value(x));
    assert(off <= off1 + off2 + off3);
    assert(off3 * 0x100_0000 <= size(x) + off1 + off2);
    assert(off1 * 0x100_0000 <= size(x) + size(mean));
    assert(size(r) <= size(x) + size(mean) + off1);
    let s = (size(x) + size(mean)) as int;
    let t = size(deviation) as int;
    let (o1, o2, o3, se, re) = (off1 * e, off2 * e, off3 * e, s * e, size(r) * e);
    assert(o1 * 0x100_0000 <= se) by (nonlinear_arith)
        requires
            off1 * 0x100_0000 <= s,
            o1 == off1 * e,
            se == s * e,
            e > 0,
    ;
    assert(o3 * 0x100_0000 <= se + o1 + o2) by (nonlinear_arith)
        requires
            off3 * 0x100_0000 <= s + off1 + off2,
            o1 == off1 * e,
            o2 == off2 * e,
            o3 == off3 * e,
            se == s * e,
            e > 0,
    ;
    assert(re <= se + o1) by (nonlinear_arith)
        requires
            size(r) <= s + off1,
            re == size(r) * e,
            o1 == off1 * e,
            se == s * e,
            e > 0,
    ;
    assert(2 * (o2 * 0x100_0000) <= 6 * re + 0x200_0000 * t + 0x100_0000 * e);
    assert(off * e <= o1 + o2 + o3) by (nonlinear_arith)
        requires
            off <= off1 + off2 + off3,
            o1 == off1 * e,
            o2 == off2 * e,
            o3 == off3 * e,
            e > 0,
    ;
    let oe = off * e;
    assert(oe * 0x20_0000 <= se + 0x20_0000 * (e + 2 * t));
    assert(off * (0x20_0000 * e) == oe * 0x20_0000) by (nonlinear_arith)
        requires
            oe == off * e,
    ;
}

proof fn lemma_finite_back(r: Single, deviation: Single, mean: Single)
    requires
        deviation.is_finite(),
        deviation.number().magnitude > 0,
        mean.is_finite(),
        r.over(deviation).times(deviation).plus(mean).is_finite(),
    ensures
        r.is_finite(),
        r.over(deviation).is_finite(),
        r.over(deviation).times(deviation).is_finite(),
{
    reveal(Single::over_spec);
    reveal(Single::times_spec);
    reveal(Single::plus_spec);
    let f = single_format_spec();
    lemma_format(f);
    let q = r.over(deviation);
    let p = q.times(deviation);
    lemma_pack(sum_of(f, p.number(), mean.number()));
    lemma_pack(product_of(f, q.number(), deviation.number()));
    lemma_pack(quotient_of(f, r.number(), deviation.number()));
}

/// The slope of a way in 24-bit steps: finite, with the sign of the difference of the ends.
pub proof fn lemma_slope(a: Single, b: Single, n: usize)
    requires
        a.is_finite(),
        b.is_finite(),
        b.minus(a).is_finite(),
        0 < n < 0x100_0000,
    ensures
        b.minus(a).over(Single::from_count(n)).is_finite(),
        value(b) > value(a) ==> !b.minus(a).over(Single::from_count(n)).number().negative,
        value(b) < value(a) ==> b.minus(a).over(Single::from_count(n)).number().negative,
        value(b) == value(a) ==> b.minus(a).over(Single::from_count(n)).number().magnitude == 0,
{
    let rise = b.minus(a);
    let width = Single::from_count(n);
    let e = pow2(149);
    lemma_pow2_pos(149);
    lemma_pow2_pos(252);
    lemma_negated_value(a);
    law_sum_error(b, a.negated());
    lemma_finite_size(rise);
    lemma_count_size(n);
    lemma_from_count(n);
    let r = size(rise);
    assert(r * e < overflow() * (n * e)) by (nonlinear_arith)
        requires
            r < overflow(),
            n >= 1,
            e > 0,
    ;
    lemma_quotient_size(rise, width);
    if value(b) == value(a) {
        assert(size(rise) == 0);
        lemma_mul_basics(e as int);
        super::number::lemma_nearest_zero(single_format_spec(), size(width));
    }
}

/// The sizes on a short way, each nearly the exact one.
proof fn lemma_way_sizes(a: Single, b: Single, n: usize, k: usize)
    requires
        a.is_finite(),
        b.is_finite(),
        b.minus(a).is_finite(),
        0 < k < n,
        n <= 0x40_0000,
    ensures
        ({
            let r = size(b.minus(a)) as int;
            let s = size(b.minus(a).over(Single::from_count(n))) as int;
            let way = b.minus(a).over(Single::from_count(n)).times(Single::from_count(k));
            let p = size(way) as int;
            let d = magnitude(value(b) - value(a));
            &&& magnitude(r - d) * 0x100_0000 <= d
            &&& magnitude(s * n - r) * 0x100_0000 <= r + n * 0x80_0000
            &&& magnitude(p - s * k) * 0x100_0000 <= s * k
            &&& way.is_finite()
            &&& value(b) > value(a) ==> !way.number().negative
            &&& value(b) < value(a) ==> way.number().negative
            &&& value(b) == value(a) ==> p == 0
        }),
{
    let e = pow2(149);
    lemma_pow2_pos(149);
    lemma2_to64();
    lemma2_to64_rest();
    let rise = b.minus(a);
    let r = size(rise);
    lemma_finite_size(rise);
    lemma_negated_value(a);
    law_sum_error(b, a.negated());
    lemma_slope(a, b, n);
    let width = Single::from_count(n);
    lemma_count_size(n);
    lemma_from_count(n);
    lemma_pow2_pos(252);
    assert(r * e < overflow() * (n * e)) by (nonlinear_arith)
        requires
            r < overflow(),
            n >= 1,
            e > 0,
    ;
    lemma_quotient_size(rise, width);
    let slope = rise.over(width);
    let s = size(slope);
    lemma_rounded_scale(r, n as nat, e, 23, 0x7f80_0000);
    law_rounding_error(r, n as nat, 23, 0x7f80_0000);
    let off = distance(s * n as nat, r);
    assert(2 * off <= n || off * 0x100_0000 <= r);
    let offset = Single::from_count(k);
    lemma_count_size(k);
    lemma_from_count(k);
    let sk = s * k as nat;
    assert(s * (k * e) == sk * e) by (nonlinear_arith)
        requires
            sk == s * k,
    ;
    lemma_product_of_slope(r as int, s as int, n as int, k as int);
    lemma_wide();
    assert(sk * e < overflow() * e) by (nonlinear_arith)
        requires
            sk < overflow(),
            e > 0,
    ;
    lemma_product_size(slope, offset);
    let way = slope.times(offset);
    lemma_rounded_scale(sk, 1, e, 23, 0x7f80_0000);
    lemma_mul_basics(e as int);
    law_rounding_error(sk, 1, 23, 0x7f80_0000);
    lemma_mul_basics(size(way) as int);
    if value(b) == value(a) {
        lemma_units_zero(0, 23);
        assert(s == 0);
        lemma_mul_basics(k as int);
        super::number::lemma_nearest_zero(single_format_spec(), 1);
    }
}

/// A slope that is rounded, times fewer steps than there are, stays below the overflow.
proof fn lemma_product_of_slope(r: int, s: int, n: int, k: int)
    requires
        0 <= r,
        r + pow2(252) <= overflow(),
        0 <= s,
        0 < k < n <= 0x40_0000,
        magnitude(s * n - r) * 0x100_0000 <= r || 2 * magnitude(s * n - r) <= n,
    ensures
        s * k < overflow(),
{
    let sk = s * k;
    lemma_wide();
    if magnitude(s * n - r) * 0x100_0000 <= r {
        assert(sk <= r) by (nonlinear_arith)
            requires
                (s * n) * 0x100_0000 <= r * 0x100_0001,
                sk == s * k,
                0 < k < n <= 0x40_0000,
                r >= 0,
        ;
    } else {
        assert(sk <= r + n) by (nonlinear_arith)
            requires
                s * n <= r + n,
                sk == s * k,
                0 < k < n,
                s >= 0,
        ;
    }
}

/// A point on a short way lies on the straight line between the ends: with `d` their difference, it is
/// the first end and `k / n` of `d`, up to 16 parts in `2^24` of `d`, one part of the first end and,
/// near zero, `n` least steps.
#[verifier::rlimit(60)]
pub proof fn law_way_is_near(a: Single, b: Single, n: usize, k: usize)
    requires
        a.is_finite(),
        b.is_finite(),
        b.minus(a).is_finite(),
        0 < k < n,
        n <= 0x40_0000,
    ensures
        ({
            let d = value(b) - value(a);
            let x = a.plus(
                b.minus(a).over(Single::from_count(n)).times(Single::from_count(k)),
            );
            magnitude(value(x) * n - (value(a) * n + d * k)) * 0x100_0000 <= n * (magnitude(
                value(a),
            ) + 16 * magnitude(d)) + 0x100_0000 * (n * n)
        }),
{
    let dv = value(b) - value(a);
    let d = magnitude(dv);
    let way = b.minus(a).over(Single::from_count(n)).times(Single::from_count(k));
    let x = a.plus(way);
    lemma_way_sizes(a, b, n, k);
    law_way_is_finite(a, b, n, k);
    assert(x == on_the_way(a, b, n, k));
    law_sum_error(a, way);
    let r = size(b.minus(a)) as int;
    let s = size(b.minus(a).over(Single::from_count(n))) as int;
    let p = size(way) as int;
    let (ni, ki) = (n as int, k as int);
    lemma_way_total(d, r, s, p, ni, ki);
    // the last rounding
    let w = value(way);
    let va = value(a);
    let off = magnitude(value(x) - (va + w));
    assert(off * 0x100_0000 <= magnitude(va) + p);
    // with signs
    assert(magnitude(w * ni - dv * ki) == magnitude(p * ni - d * ki)) by {
        lemma_signs(w, p, dv, d, ni, ki);
    }
    let vx = value(x);
    assert(vx * ni - (va * ni + dv * ki) == (vx - (va + w)) * ni + (w * ni - dv * ki))
        by (nonlinear_arith);
    assert(magnitude((vx - (va + w)) * ni) == off * ni) by {
        let y = vx - (va + w);
        assert((-y) * ni == -(y * ni)) by (nonlinear_arith);
        assert(y >= 0 ==> y * ni >= 0) by (nonlinear_arith)
            requires
                ni > 0,
        ;
        assert(y < 0 ==> y * ni < 0) by (nonlinear_arith)
            requires
                ni > 0,
        ;
    }
    assert((off * ni) * 0x100_0000 <= (magnitude(va) + p) * ni) by (nonlinear_arith)
        requires
            off * 0x100_0000 <= magnitude(va) + p,
            ni > 0,
    ;
    assert((magnitude(va) + p) * ni == ni * magnitude(va) + p * ni) by (nonlinear_arith);
    assert(ni * (magnitude(va) + 16 * d) == ni * magnitude(va) + 16 * (ni * d))
        by (nonlinear_arith);
}

proof fn lemma_signs(w: int, p: int, dv: int, d: int, n: int, k: int)
    requires
        d == magnitude(dv),
        p == magnitude(w),
        dv > 0 ==> w >= 0,
        dv < 0 ==> w <= 0,
        dv == 0 ==> w == 0,
    ensures
        magnitude(w * n - dv * k) == magnitude(p * n - d * k),
{
    assert((-w) * n == -(w * n) && (-dv) * k == -(dv * k)) by (nonlinear_arith);
}

/// The errors of the difference, the slope and the product, taken together.
proof fn lemma_way_total(d: int, r: int, s: int, p: int, n: int, k: int)
    requires
        0 <= d,
        0 <= r,
        0 <= s,
        0 <= p,
        0 < k < n <= 0x40_0000,
        magnitude(r - d) * 0x100_0000 <= d,
        magnitude(s * n - r) * 0x100_0000 <= r + n * 0x80_0000,
        magnitude(p - s * k) * 0x100_0000 <= s * k,
    ensures
        magnitude(p * n - d * k) * 0x100_0000 <= 8 * (n * d) + 0xc0_0000 * (n * n),
        p * n <= 4 * (n * d) + n * n,
{
    let sn = s * n;
    let sk = s * k;
    assert(sn * k == sk * n) by (nonlinear_arith)
        requires
            sn == s * n,
            sk == s * k,
    ;
    let e1 = magnitude(r - d);
    let e2 = magnitude(sn - r);
    let e3 = magnitude(p - sk);
    assert(magnitude(p * n - sk * n) == e3 * n) by {
        lemma_scaled_magnitude(p - sk, n);
        assert((p - sk) * n == p * n - sk * n) by (nonlinear_arith);
    }
    assert(magnitude(sn * k - r * k) == e2 * k) by {
        lemma_scaled_magnitude(sn - r, k);
        assert((sn - r) * k == sn * k - r * k) by (nonlinear_arith);
    }
    assert(magnitude(r * k - d * k) == e1 * k) by {
        lemma_scaled_magnitude(r - d, k);
        assert((r - d) * k == r * k - d * k) by (nonlinear_arith);
    }
    let m: int = 0x100_0000;
    assert((e3 * n) * m <= sk * n) by (nonlinear_arith)
        requires
            e3 * m <= sk,
            n > 0,
    ;
    assert((e2 * k) * m <= r * k + (n * k) * 0x80_0000) by (nonlinear_arith)
        requires
            e2 * m <= r + n * 0x80_0000,
            k > 0,
    ;
    assert((e1 * k) * m <= d * k) by (nonlinear_arith)
        requires
            e1 * m <= d,
            k > 0,
    ;
    assert(d * k <= n * d && n * k <= n * n && 0 <= d * k && 0 <= n * k && 0 <= r * k)
        by (nonlinear_arith)
        requires
            0 < k < n,
            d >= 0,
            r >= 0,
    ;
}

proof fn lemma_scaled_magnitude(x: int, n: int)
    requires
        n > 0,
    ensures
        magnitude(x * n) == magnitude(x) * n,
{
    assert((-x) * n == -(x * n)) by (nonlinear_arith);
    assert(x >= 0 ==> x * n >= 0) by (nonlinear_arith)
        requires
            n > 0,
    ;
    assert(x < 0 ==> x * n < 0) by (nonlinear_arith)
        requires
            n > 0,
    ;
}

} // verus!
