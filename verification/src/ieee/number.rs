//! Signed binary floating-point numbers of either format and their arithmetic.

use vstd::arithmetic::div_mod::*;
use vstd::arithmetic::mul::*;
use vstd::arithmetic::power2::*;
use vstd::bits::*;
use vstd::prelude::*;

use super::rounding::{
    bit_length, doubled, lemma_bits_monotone, lemma_excess, power_of_two, round_pack,
};
use super::rounding::{nearest_even, rounded, truncates, units};

verus! {

/// A binary interchange format: the width of its fraction field, the pattern of its infinity and
/// the power of two by which its least positive number lies below one.
#[derive(Clone, Copy, PartialEq, Eq, Structural, Debug)]
pub struct Format {
    pub width: u32,
    pub infinity: u64,
    pub scale: u32,
}

impl Format {
    /// One of the two formats in use.
    pub open spec fn wf(self) -> bool {
        ||| self == single_format_spec()
        ||| self == double_format_spec()
    }

    pub open spec fn w(self) -> nat {
        self.width as nat
    }

    /// The number of units in one.
    pub open spec fn one(self) -> nat {
        pow2(self.scale as nat)
    }

    /// The magnitude pattern nearest to `n / d` units.
    pub open spec fn nearest(self, n: nat, d: nat) -> u64 {
        rounded(n, d, self.w(), self.infinity as nat) as u64
    }
}

pub open spec fn single_format_spec() -> Format {
    Format { width: 23, infinity: 0x7f80_0000, scale: 149 }
}

pub open spec fn double_format_spec() -> Format {
    Format { width: 52, infinity: 0x7ff0_0000_0000_0000, scale: 1074 }
}

/// The 32-bit format.
pub fn single_format() -> (f: Format)
    ensures
        f == single_format_spec(),
{
    Format { width: 23, infinity: 0x7f80_0000, scale: 149 }
}

/// The 64-bit format.
pub fn double_format() -> (f: Format)
    ensures
        f == double_format_spec(),
{
    Format { width: 52, infinity: 0x7ff0_0000_0000_0000, scale: 1074 }
}

/// A sign and a magnitude pattern.
#[derive(Clone, Copy, PartialEq, Eq, Structural, Debug)]
pub struct Number {
    pub negative: bool,
    pub magnitude: u64,
}

impl Number {
    pub open spec fn is_nan_in(self, f: Format) -> bool {
        self.magnitude > f.infinity
    }

    pub open spec fn is_finite_in(self, f: Format) -> bool {
        self.magnitude < f.infinity
    }

    /// The magnitude in units.
    pub open spec fn size(self, f: Format) -> nat {
        units(self.magnitude as nat, f.w())
    }

    /// The value in units.
    pub open spec fn value(self, f: Format) -> int {
        if self.negative {
            -(self.size(f) as int)
        } else {
            self.size(f) as int
        }
    }
}

/// The quiet pattern that stands for every result that is not a number.
pub open spec fn nan_of(f: Format) -> Number {
    Number {
        negative: false,
        magnitude: (f.infinity + pow2((f.width - 1) as nat)) as u64,
    }
}

/// The number nearest to `v` units, `v` not being zero.
pub open spec fn number_of(f: Format, v: int) -> Number {
    if v < 0 {
        Number { negative: true, magnitude: f.nearest((-v) as nat, 1) }
    } else {
        Number { negative: false, magnitude: f.nearest(v as nat, 1) }
    }
}

pub open spec fn sum_of(f: Format, a: Number, b: Number) -> Number {
    if a.is_nan_in(f) || b.is_nan_in(f) {
        nan_of(f)
    } else if !a.is_finite_in(f) {
        if !b.is_finite_in(f) && a.negative != b.negative {
            nan_of(f)
        } else {
            a
        }
    } else if !b.is_finite_in(f) {
        b
    } else if a.value(f) + b.value(f) == 0 {
        Number { negative: a.negative && b.negative, magnitude: 0 }
    } else {
        number_of(f, a.value(f) + b.value(f))
    }
}

pub open spec fn product_of(f: Format, a: Number, b: Number) -> Number {
    let negative = a.negative != b.negative;
    if a.is_nan_in(f) || b.is_nan_in(f) {
        nan_of(f)
    } else if !a.is_finite_in(f) || !b.is_finite_in(f) {
        if a.magnitude == 0 || b.magnitude == 0 {
            nan_of(f)
        } else {
            Number { negative, magnitude: f.infinity }
        }
    } else {
        Number { negative, magnitude: f.nearest(a.size(f) * b.size(f), f.one()) }
    }
}

pub open spec fn quotient_of(f: Format, a: Number, b: Number) -> Number {
    let negative = a.negative != b.negative;
    if a.is_nan_in(f) || b.is_nan_in(f) {
        nan_of(f)
    } else if !a.is_finite_in(f) {
        if !b.is_finite_in(f) {
            nan_of(f)
        } else {
            Number { negative, magnitude: f.infinity }
        }
    } else if !b.is_finite_in(f) {
        Number { negative, magnitude: 0 }
    } else if b.magnitude == 0 {
        if a.magnitude == 0 {
            nan_of(f)
        } else {
            Number { negative, magnitude: f.infinity }
        }
    } else {
        Number { negative, magnitude: f.nearest(a.size(f) * f.one(), b.size(f)) }
    }
}

/// The whole part of the square root.
pub open spec fn root_floor(n: nat) -> nat {
    choose|r: nat| #[trigger] (r * r) <= n < (r + 1) * (r + 1)
}

/// The root is irrational or whole; of an irrational one, which lies strictly between two
/// neighbouring whole numbers of units, the midpoint is rounded in its stead.
pub open spec fn root_of(f: Format, a: Number) -> Number {
    if a.is_nan_in(f) || (a.negative && a.magnitude != 0) {
        nan_of(f)
    } else if a.magnitude == 0 || !a.is_finite_in(f) {
        a
    } else {
        let n = a.size(f) * f.one();
        let r = root_floor(n);
        Number {
            negative: false,
            magnitude: f.nearest(
                if r * r == n {
                    2 * r
                } else {
                    2 * r + 1
                },
                2,
            ),
        }
    }
}

/// Whether `a` lies below `b`. Patterns grow with what they stand for.
pub open spec fn below(f: Format, a: Number, b: Number) -> bool {
    !a.is_nan_in(f) && !b.is_nan_in(f) && rank_of(a) < rank_of(b)
}

pub open spec fn rank_of(a: Number) -> int {
    if a.negative {
        -(a.magnitude as int)
    } else {
        a.magnitude as int
    }
}

/// The whole number `n`, rounded.
pub open spec fn integer_of(f: Format, n: nat) -> Number {
    Number { negative: false, magnitude: f.nearest(n * f.one(), 1) }
}

/// `a`, a number of the format `f`, in the format `g`.
pub open spec fn converted_of(f: Format, g: Format, a: Number) -> Number {
    if a.is_nan_in(f) {
        nan_of(g)
    } else if !a.is_finite_in(f) {
        Number { negative: a.negative, magnitude: g.infinity }
    } else {
        Number { negative: a.negative, magnitude: g.nearest(a.size(f) * g.one(), f.one()) }
    }
}

/// The constants of both formats.
pub proof fn lemma_format(f: Format)
    requires
        f.wf(),
    ensures
        f.w() == 23 || f.w() == 52,
        pow2(23) == 0x80_0000,
        pow2(52) == 0x10_0000_0000_0000,
        pow2(22) == 0x40_0000,
        pow2(51) == 0x8_0000_0000_0000,
        f.one() > 0,
        f.infinity <= 2047 * pow2(f.w()),
        f.infinity + pow2((f.width - 1) as nat) <= u64::MAX,
{
    lemma2_to64();
    lemma2_to64_rest();
    lemma_pow2_pos(f.scale as nat);
}

pub proof fn lemma_units_zero(b: nat, w: nat)
    ensures
        units(0, w) == 0,
        b > 0 ==> units(b, w) > 0,
{
    lemma_pow2_pos(w);
    lemma_fundamental_div_mod(b as int, pow2(w) as int);
    lemma_div_of0(pow2(w) as int);
    lemma_small_mod(0, pow2(w));
    if b > 0 && b / pow2(w) != 0 {
        let k = (b / pow2(w) - 1) as nat;
        lemma_pow2_pos(k);
        lemma_mul_strictly_positive((pow2(w) + b % pow2(w)) as int, pow2(k) as int);
    }
}

/// Patterns are ordered as the magnitudes they stand for.
pub proof fn lemma_units_monotone(a: nat, b: nat, w: nat)
    requires
        a < b,
    ensures
        units(a, w) < units(b, w),
    decreases b,
{
    let p = pow2(w);
    lemma_pow2_pos(w);
    lemma_fundamental_div_mod(a as int, p as int);
    lemma_fundamental_div_mod(b as int, p as int);
    let fa = a / p;
    let fb = b / p;
    let ra = a % p;
    let rb = b % p;
    lemma_div_is_ordered(a as int, b as int, p as int);
    if fa == fb {
        if fa > 0 {
            let k = (fa - 1) as nat;
            lemma_pow2_pos(k);
            lemma_mul_strict_inequality((p + ra) as int, (p + rb) as int, pow2(k) as int);
        }
    } else {
        let kb = (fb - 1) as nat;
        lemma_pow2_pos(kb);
        lemma_mul_inequality(p as int, (p + rb) as int, pow2(kb) as int);
        if fa == 0 {
            lemma_mul_inequality(1, pow2(kb) as int, p as int);
            lemma_mul_is_commutative(p as int, pow2(kb) as int);
        } else {
            let ka = (fa - 1) as nat;
            lemma_pow2_pos(ka);
            // (p + ra) * 2^ka < 2 p * 2^ka = p * 2^(ka + 1) <= p * 2^kb
            lemma_mul_strict_inequality((p + ra) as int, (2 * p) as int, pow2(ka) as int);
            lemma_pow2_unfold(fa);
            lemma_bits_monotone(fa, kb);
            let x = pow2(ka) as int;
            let y = pow2(fa) as int;
            let z = pow2(kb) as int;
            assert((2 * p) * x <= p * z) by (nonlinear_arith)
                requires
                    y == 2 * x,
                    y <= z,
                    p > 0,
            ;
        }
    }
}

/// A number of the format is the number nearest to itself.
pub proof fn lemma_rounded_exact(b: nat, w: nat, inf: nat)
    requires
        b < inf,
    ensures
        rounded(units(b, w), 1, w, inf) == b,
{
    let p = pow2(w);
    lemma_pow2_pos(w);
    lemma_fundamental_div_mod(b as int, p as int);
    let f = b / p;
    let m = b % p;
    let u = units(b, w);
    lemma_div_basics(u as int);
    lemma2_to64();
    if f == 0 {
        lemma_bits_monotone(w, w + 1);
        lemma_excess(u, w + 1, 0);
        assert(nearest_even(u, 1 * pow2(0)) == u);
        lemma_mul_by_zero_is_zero(p as int);
    } else {
        let k = (f - 1) as nat;
        let x = pow2(k) as int;
        lemma_pow2_pos(k);
        lemma_pow2_unfold(w + 1);
        lemma_pow2_adds(w + 1, k);
        lemma_pow2_adds(w, k);
        lemma_mul_strict_inequality((p + m) as int, (2 * p) as int, x);
        lemma_mul_inequality(p as int, (p + m) as int, x);
        lemma_excess(u, w + 1, k);
        lemma_fundamental_div_mod_converse(u as int, x, (p + m) as int, 0);
        assert(nearest_even(u, 1 * pow2(k)) == p + m);
        assert(k * p + p + m == b) by (nonlinear_arith)
            requires
                b == p * f + m,
                k == f - 1,
        ;
    }
}

/// The significand and exponent of a finite magnitude.
pub fn unpack(f: Format, b: u64) -> (r: (u64, u32))
    requires
        f.wf(),
        0 < b < f.infinity,
    ensures
        r.0 > 0,
        r.0 < pow2(f.w() + 1),
        r.1 <= 2045,
        r.1 > 0 ==> r.0 >= pow2(f.w()),
        units(b as nat, f.w()) == r.0 * pow2(r.1 as nat),
        r.1 == 0 || r.1 == b as nat / pow2(f.w()) - 1,
        r.1 == 0 ==> b as nat / pow2(f.w()) <= 1,
{
    proof {
        lemma_format(f);
        lemma2_to64();
        lemma_pow2_unfold(f.w() + 1);
        lemma_units_zero(b as nat, f.w());
    }
    let p: u64 = power_of_two(f.width) as u64;
    let e = b >> f.width;
    proof {
        let w = f.width as u64;
        assert(b >> w == b >> f.width);
        lemma_u64_shr_is_div(b, w);
        lemma_fundamental_div_mod(b as int, p as int);
        lemma_mul_is_commutative(p as int, e as int);
    }
    let m = b - e * p;
    proof {
        assert(e <= 2046) by (nonlinear_arith)
            requires
                b == p * e + m,
                b < 2047 * p,
                m >= 0,
                p > 0,
        ;
    }
    if e == 0 {
        proof {
            lemma_mul_basics(m as int);
        }
        (m, 0)
    } else {
        (p + m, (e - 1) as u32)
    }
}

/// The sum of two positive finite magnitudes.
fn add_sizes(f: Format, a: u64, b: u64) -> (r: u64)
    requires
        f.wf(),
        0 < b <= a < f.infinity,
    ensures
        r == f.nearest(units(a as nat, f.w()) + units(b as nat, f.w()), 1),
{
    let (ma, sa) = unpack(f, a);
    let (mb, sb) = unpack(f, b);
    let ghost n = units(a as nat, f.w()) + units(b as nat, f.w());
    proof {
        lemma_format(f);
        lemma_ordered_exponents(f, a, b);
        lemma2_to64();
        lemma2_to64_rest();
        lemma_bits_monotone(f.w() + 1, 53);
        lemma_pow2_adds(53, 64);
        lemma_bits_monotone(118, 127);
        lemma_pow2_unfold(118);
    }
    let gap: u32 = sa - sb;
    if gap <= 64 {
        proof {
            lemma_bits_monotone(gap as nat, 64);
            lemma_scaled_le(ma as nat, 53, gap as nat, 64);
        }
        let big = doubled(ma as u128, gap);
        let m = big + mb as u128;
        proof {
            lemma_pow2_adds(gap as nat, sb as nat);
            let x = pow2(gap as nat) as int;
            let y = pow2(sb as nat) as int;
            assert(n == m * y) by (nonlinear_arith)
                requires
                    n == ma * (x * y) + mb * y,
                    m == ma * x + mb,
            ;
            lemma_truncates_exact(n, m as nat, sb as nat);
        }
        round_pack(m, sb as i32, false, f.width, f.infinity, Ghost(n), Ghost(1))
    } else {
        let m = doubled(ma as u128, 10);
        proof {
            lemma_far(f, ma as nat, sa as nat, mb as nat, sb as nat);
            let t = (sa - 10) as nat;
            let ub = mb * pow2(sb as nat);
            let z = pow2(t) as int;
            assert(n == m * z + ub);
            assert(m * (1 * z) <= n * 1 < (m + 1) * (1 * z) && m * (1 * z) != n) by (nonlinear_arith)
                requires
                    n == m * z + ub,
                    0 < ub < z,
            ;
        }
        round_pack(m, sa as i32 - 10, true, f.width, f.infinity, Ghost(n), Ghost(1))
    }
}

/// The difference of two positive finite magnitudes, the greater one first.
fn subtract_sizes(f: Format, a: u64, b: u64) -> (r: u64)
    requires
        f.wf(),
        0 < b < a < f.infinity,
    ensures
        units(a as nat, f.w()) > units(b as nat, f.w()),
        r == f.nearest((units(a as nat, f.w()) - units(b as nat, f.w())) as nat, 1),
{
    let (ma, sa) = unpack(f, a);
    let (mb, sb) = unpack(f, b);
    let ghost n = (units(a as nat, f.w()) - units(b as nat, f.w())) as nat;
    proof {
        lemma_units_monotone(b as nat, a as nat, f.w());
        lemma_format(f);
        lemma_ordered_exponents(f, a, b);
        lemma2_to64();
        lemma2_to64_rest();
        lemma_bits_monotone(f.w() + 1, 53);
        lemma_pow2_adds(53, 64);
        lemma_bits_monotone(117, 127);
    }
    let gap: u32 = sa - sb;
    if gap <= 64 {
        proof {
            lemma_bits_monotone(gap as nat, 64);
            lemma_scaled_le(ma as nat, 53, gap as nat, 64);
        }
        let big = doubled(ma as u128, gap);
        proof {
            lemma_pow2_adds(gap as nat, sb as nat);
            lemma_pow2_pos(sb as nat);
            let x = pow2(gap as nat) as int;
            let y = pow2(sb as nat) as int;
            assert(big > mb) by (nonlinear_arith)
                requires
                    ma * (x * y) > mb * y,
                    big == ma * x,
                    y > 0,
            ;
        }
        let m = big - mb as u128;
        proof {
            let x = pow2(gap as nat) as int;
            let y = pow2(sb as nat) as int;
            assert(n == m * y) by (nonlinear_arith)
                requires
                    n == ma * (x * y) - mb * y,
                    m == ma * x - mb,
            ;
            lemma_truncates_exact(n, m as nat, sb as nat);
        }
        round_pack(m, sb as i32, false, f.width, f.infinity, Ghost(n), Ghost(1))
    } else {
        proof {
            lemma_far(f, ma as nat, sa as nat, mb as nat, sb as nat);
        }
        let m = doubled(ma as u128, 10) - 1;
        proof {
            let t = (sa - 10) as nat;
            let ub = mb * pow2(sb as nat);
            let z = pow2(t) as int;
            assert(n == (m + 1) * z - ub);
            assert(m * (1 * z) <= n * 1 < (m + 1) * (1 * z) && m * (1 * z) != n) by (nonlinear_arith)
                requires
                    n == (m + 1) * z - ub,
                    0 < ub < z,
            ;
        }
        round_pack(m, sa as i32 - 10, true, f.width, f.infinity, Ghost(n), Ghost(1))
    }
}

proof fn lemma_scaled_le(m: nat, p: nat, s: nat, t: nat)
    requires
        m < pow2(p),
        s <= t,
    ensures
        m * pow2(s) < pow2(p + t),
{
    lemma_pow2_adds(p, t);
    lemma_bits_monotone(s, t);
    let x = pow2(s) as int;
    let y = pow2(t) as int;
    let z = pow2(p) as int;
    assert(m * x < z * y) by (nonlinear_arith)
        requires
            m < z,
            0 < x <= y,
    ;
}

proof fn lemma_ordered_exponents(f: Format, a: u64, b: u64)
    requires
        f.wf(),
        b <= a,
    ensures
        b as nat / pow2(f.w()) <= a as nat / pow2(f.w()),
{
    lemma_format(f);
    lemma_div_is_ordered(b as int, a as int, pow2(f.w()) as int);
}

/// Two magnitudes so far apart that the lesser one is only a remainder.
proof fn lemma_far(f: Format, ma: nat, sa: nat, mb: nat, sb: nat)
    requires
        f.wf(),
        pow2(f.w()) <= ma < pow2(f.w() + 1),
        0 < mb < pow2(f.w() + 1),
        sa >= sb + 65,
    ensures
        0 < mb * pow2(sb) < pow2((sa - 10) as nat),
        ma * pow2(sa) == (ma * pow2(10)) * pow2((sa - 10) as nat),
        ma * pow2(10) < pow2(63),
        ma * pow2(10) >= 2 * pow2(f.w() + 1),
{
    lemma_format(f);
    lemma_bits_monotone(f.w() + 1, 53);
    lemma_scaled_le(mb, 53, sb, sb);
    lemma_bits_monotone(53 + sb, (sa - 10) as nat);
    lemma_pow2_pos(sb);
    lemma_mul_strictly_positive(mb as int, pow2(sb) as int);
    lemma_pow2_adds(10, (sa - 10) as nat);
    lemma_mul_is_associative(ma as int, pow2(10) as int, pow2((sa - 10) as nat) as int);
    lemma_scaled_le(ma, 53, 10, 10);
    lemma_pow2_unfold(f.w() + 1);
    lemma2_to64();
}

proof fn lemma_truncates_exact(n: nat, m: nat, s: nat)
    requires
        n == m * pow2(s),
    ensures
        truncates(n, 1, m, s as int, false),
{
    lemma2_to64();
    lemma_pow2_pos(s);
    let z = pow2(s) as int;
    assert(m * (1 * z) == n * 1 && n * 1 < (m + 1) * (1 * z)) by (nonlinear_arith)
        requires
            n == m * z,
            z > 0,
    ;
}

proof fn lemma_truncates_scaled(n: nat, d: nat, x: nat, y: nat, m: nat, t: int, sticky: bool, c: nat)
    requires
        y > 0,
        c > 0,
        d > 0,
        m * y <= x < (m + 1) * y,
        sticky <==> m * y != x,
        t >= 0 ==> n == x * c && d * pow2(t as nat) == y * c,
        t < 0 ==> n * pow2((-t) as nat) == x * c && d == y * c,
    ensures
        truncates(n, d, m, t, sticky),
{
    lemma2_to64();
    assert(m * (y * c) <= x * c < (m + 1) * (y * c)) by (nonlinear_arith)
        requires
            m * y <= x < (m + 1) * y,
            c > 0,
    ;
    assert(m * (y * c) != x * c <==> m * y != x) by (nonlinear_arith)
        requires
            c > 0,
    ;
}

/// The product of two positive finite magnitudes.
fn multiply_sizes(f: Format, a: u64, b: u64) -> (r: u64)
    requires
        f.wf(),
        0 < a < f.infinity,
        0 < b < f.infinity,
    ensures
        r == f.nearest(units(a as nat, f.w()) * units(b as nat, f.w()), f.one()),
{
    let (ma, sa) = unpack(f, a);
    let (mb, sb) = unpack(f, b);
    proof {
        lemma_format(f);
        lemma_bits_monotone(f.w() + 1, 53);
        lemma_pow2_adds(53, 53);
        lemma_bits_monotone(106, 127);
        lemma2_to64_rest();
        assert(0 < ma * mb < pow2(53) * pow2(53)) by (nonlinear_arith)
            requires
                0 < ma < pow2(53),
                0 < mb < pow2(53),
        ;
    }
    let m: u128 = ma as u128 * mb as u128;
    let t: i32 = sa as i32 + sb as i32 - f.scale as i32;
    let ghost n = units(a as nat, f.w()) * units(b as nat, f.w());
    proof {
        let e = (sa + sb) as nat;
        let x = pow2(sa as nat) as int;
        let y = pow2(sb as nat) as int;
        lemma_pow2_adds(sa as nat, sb as nat);
        lemma_pow2_pos(e);
        assert(n == m * pow2(e)) by (nonlinear_arith)
            requires
                n == (ma * x) * (mb * y),
                m == ma * mb,
                pow2(e) == x * y,
        ;
        lemma_mul_basics(m as int);
        if t >= 0 {
            lemma_pow2_adds(f.scale as nat, t as nat);
            lemma_truncates_scaled(n, f.one(), m as nat, 1, m as nat, t as int, false, pow2(e));
        } else {
            lemma_pow2_adds(e, (-t) as nat);
            lemma_mul_is_associative(m as int, pow2(e) as int, pow2((-t) as nat) as int);
            lemma_truncates_scaled(n, f.one(), m as nat, 1, m as nat, t as int, false, f.one());
        }
    }
    round_pack(m, t, false, f.width, f.infinity, Ghost(n), Ghost(f.one()))
}

/// The quotient of two positive finite magnitudes.
fn divide_sizes(f: Format, a: u64, b: u64) -> (r: u64)
    requires
        f.wf(),
        0 < a < f.infinity,
        0 < b < f.infinity,
    ensures
        r == f.nearest(units(a as nat, f.w()) * f.one(), units(b as nat, f.w())),
{
    let (ma, sa) = unpack(f, a);
    let (mb, sb) = unpack(f, b);
    let l = bit_length(ma as u128);
    proof {
        lemma_format(f);
        lemma_bits_monotone(f.w() + 1, 53);
        lemma_units_zero(b as nat, f.w());
        if l > 53 {
            lemma_bits_monotone(53, (l - 1) as nat);
        }
    }
    let shift: u32 = 117 - l;
    let ghost ps = pow2(shift as nat) as int;
    proof {
        lemma_pow2_adds(l as nat, shift as nat);
        lemma_pow2_adds((l - 1) as nat, shift as nat);
        lemma_pow2_pos(shift as nat);
        lemma_mul_strict_inequality(ma as int, pow2(l as nat) as int, ps);
        lemma_mul_inequality(pow2((l - 1) as nat) as int, ma as int, ps);
        assert(l + shift == 117 && (l - 1) as nat + shift == 116);
        lemma_bits_monotone(117, 127);
        lemma_pow2_unfold(128);
        lemma2_to64();
        lemma_pow2_adds(64, 64);
    }
    let x: u128 = doubled(ma as u128, shift);
    let q: u128 = x / mb as u128;
    let rem: u128 = x % mb as u128;
    let t: i32 = sa as i32 + f.scale as i32 - shift as i32 - sb as i32;
    let ghost n = units(a as nat, f.w()) * f.one();
    let ghost d = units(b as nat, f.w());
    proof {
        lemma_fundamental_div_mod(x as int, mb as int);
        assert(q * mb <= x < (q + 1) * mb && (rem != 0 <==> q * mb != x)) by (nonlinear_arith)
            requires
                x == mb * q + rem,
                0 <= rem < mb,
        ;
        lemma_pow2_adds(53, 63);
        assert(q >= pow2(63)) by (nonlinear_arith)
            requires
                x >= pow2(53) * pow2(63),
                x < (q + 1) * mb,
                mb <= pow2(53),
                pow2(53) > 0,
        ;
        lemma_bits_monotone(f.w() + 1, 63);
        assert(q <= x) by (nonlinear_arith)
            requires
                q * mb <= x,
                mb > 0,
                q >= 0,
        ;
        let e = (sa + f.scale) as nat;
        lemma_pow2_adds(sa as nat, f.scale as nat);
        lemma_mul_is_associative(ma as int, pow2(sa as nat) as int, f.one() as int);
        assert(n == ma * pow2(e));
        if t >= 0 {
            let c = pow2((sb + t) as nat);
            lemma_pow2_pos((sb + t) as nat);
            lemma_pow2_adds(sb as nat, t as nat);
            lemma_pow2_adds(shift as nat, (sb + t) as nat);
            assert(shift + (sb + t) == e);
            lemma_mul_is_associative(ma as int, ps, c as int);
            lemma_mul_is_associative(mb as int, pow2(sb as nat) as int, pow2(t as nat) as int);
            lemma_truncates_scaled(n, d, x as nat, mb as nat, q as nat, t as int, rem != 0, c);
        } else {
            let c = pow2(sb as nat);
            lemma_pow2_pos(sb as nat);
            lemma_pow2_adds(e, (-t) as nat);
            lemma_pow2_adds(shift as nat, sb as nat);
            assert(e + (-t) as nat == shift + sb);
            lemma_mul_is_associative(ma as int, pow2(e) as int, pow2((-t) as nat) as int);
            lemma_mul_is_associative(ma as int, ps, c as int);
            lemma_truncates_scaled(n, d, x as nat, mb as nat, q as nat, t as int, rem != 0, c);
        }
    }
    round_pack(q, t, rem != 0, f.width, f.infinity, Ghost(n), Ghost(d))
}

pub proof fn lemma_root_floor(n: nat, r: nat)
    requires
        r * r <= n < (r + 1) * (r + 1),
    ensures
        root_floor(n) == r,
{
    let c = root_floor(n);
    assert(c * c <= n < (c + 1) * (c + 1));
    assert(c == r) by (nonlinear_arith)
        requires
            r * r <= n < (r + 1) * (r + 1),
            c * c <= n < (c + 1) * (c + 1),
    ;
}

/// The whole part of the square root of a number of less than 86 bits.
fn whole_root(v: u128) -> (r: u128)
    requires
        v < pow2(86),
    ensures
        r * r <= v < (r + 1) * (r + 1),
        r < pow2(43),
{
    let mut r: u128 = 0;
    let mut b: u32 = 43;
    proof {
        lemma_pow2_adds(43, 43);
    }
    while b > 0
        invariant
            b <= 43,
            r * r <= v,
            v < (r + pow2(b as nat)) * (r + pow2(b as nat)),
            r + pow2(b as nat) <= pow2(43),
        decreases b,
    {
        let ghost r0 = r as int;
        let ghost b0 = b as nat;
        b = b - 1;
        let step = power_of_two(b);
        proof {
            lemma_pow2_unfold(b0);
            lemma_pow2_pos(b as nat);
            lemma2_to64_rest();
            let c = r0 + step;
            assert(c < pow2(43));
            assert(c * c < pow2(43) * pow2(43)) by (nonlinear_arith)
                requires
                    0 <= c < pow2(43),
            ;
        }
        let c = r + step;
        if c * c <= v {
            r = c;
        }
    }
    proof {
        lemma2_to64();
    }
    r
}

/// The square root of a positive finite magnitude of the 32-bit format.
fn root_size(f: Format, a: u64) -> (r: u64)
    requires
        f == single_format_spec(),
        0 < a < f.infinity,
    ensures
        (Number { negative: false, magnitude: r }) == root_of(
            f,
            Number { negative: false, magnitude: a },
        ),
{
    let (ma, sa) = unpack(f, a);
    let e: u32 = sa + f.scale;
    let j: u32 = 60 + e % 2;
    let t: u32 = (e - j) / 2;
    proof {
        lemma_format(f);
        lemma2_to64();
        lemma2_to64_rest();
        lemma_scaled_le(ma as nat, 24, j as nat, 61);
        lemma_bits_monotone(85, 86);
        lemma_bits_monotone(86, 127);
        lemma_pow2_adds(64, 64);
        lemma_pow2_unfold(128);
        lemma_bits_monotone(60, j as nat);
    }
    let v = doubled(ma as u128, j);
    let m = whole_root(v);
    proof {
        assert(m * m < pow2(43) * pow2(43)) by (nonlinear_arith)
            requires
                0 <= m < pow2(43),
        ;
        lemma_bits_monotone(43, 127);
    }
    let sticky = m * m != v;
    let ghost n = units(a as nat, f.w()) * f.one();
    let ghost r = root_floor(n);
    let ghost x = if r * r == n {
        2 * r
    } else {
        2 * r + 1
    };
    proof {
        let z = pow2(t as nat) as int;
        lemma_pow2_pos(t as nat);
        lemma_pow2_adds(sa as nat, f.scale as nat);
        lemma_pow2_adds(t as nat, t as nat);
        lemma_pow2_adds(j as nat, (t + t) as nat);
        assert(e as nat == j + (t + t));
        let pj = pow2(j as nat) as int;
        assert(n == v * (z * z)) by (nonlinear_arith)
            requires
                n == (ma * pow2(sa as nat)) * pow2(f.scale as nat),
                pow2(sa as nat) * pow2(f.scale as nat) == pj * (z * z),
                v == ma * pj,
        ;
        lemma_root_exists(n);
        // m z <= sqrt(n) < (m + 1) z
        assert((m * z) * (m * z) <= n) by (nonlinear_arith)
            requires
                n == v * (z * z),
                m * m <= v,
        ;
        assert(n < ((m + 1) * z) * ((m + 1) * z)) by (nonlinear_arith)
            requires
                n == v * (z * z),
                v < (m + 1) * (m + 1),
                z > 0,
        ;
        assert(m * z <= r) by (nonlinear_arith)
            requires
                (m * z) * (m * z) <= n,
                n < (r + 1) * (r + 1),
                r >= 0,
        ;
        assert(r < (m + 1) * z) by (nonlinear_arith)
            requires
                n < ((m + 1) * z) * ((m + 1) * z),
                r * r <= n,
                m >= 0,
                z > 0,
        ;
        assert(m * (2 * z) == 2 * (m * z)) by (nonlinear_arith);
        assert((m + 1) * (2 * z) == 2 * ((m + 1) * z)) by (nonlinear_arith);
        if !sticky {
            assert(n == (m * z) * (m * z)) by (nonlinear_arith)
                requires
                    n == v * (z * z),
                    m * m == v,
            ;
            assert(m * z >= 0) by (nonlinear_arith)
                requires
                    m >= 0,
                    z > 0,
            ;
            let mz = m * z;
            assert(n < (mz + 1) * (mz + 1)) by (nonlinear_arith)
                requires
                    n == mz * mz,
                    mz >= 0,
            ;
            lemma_root_floor(n, mz as nat);
        } else {
            assert(n != (m * z) * (m * z)) by (nonlinear_arith)
                requires
                    n == v * (z * z),
                    m * m != v,
                    z > 0,
            ;
        }
        lemma_mul_basics(x as int);
        assert(sticky <==> m * (2 * z) != x) by {
            if sticky && r == m * z {
                assert(r * r == (m * z) * (m * z));
            }
        }
        assert(m * (2 * z) <= x < (m + 1) * (2 * z));
        assert(truncates(x, 2, m as nat, t as int, sticky));
        // the root of at least 2^60 has at least 31 bits
        lemma_pow2_adds(30, 30);
        assert(v >= pow2(60)) by (nonlinear_arith)
            requires
                v == ma * pj,
                ma >= 1,
                pj >= pow2(60),
        ;
        assert(m >= pow2(30)) by (nonlinear_arith)
            requires
                v >= pow2(30) * pow2(30),
                v < (m + 1) * (m + 1),
                m >= 0,
        ;
    }
    round_pack(m, t as i32, sticky, f.width, f.infinity, Ghost(x), Ghost(2))
}

pub proof fn lemma_root_exists(n: nat)
    ensures
        root_floor(n) * root_floor(n) <= n < (root_floor(n) + 1) * (root_floor(n) + 1),
{
    let r = lemma_root_witness(n);
    lemma_root_floor(n, r);
}

proof fn lemma_root_witness(n: nat) -> (r: nat)
    ensures
        r * r <= n < (r + 1) * (r + 1),
    decreases n,
{
    if n == 0 {
        assert(0nat * 0nat <= n < (0nat + 1) * (0nat + 1)) by (nonlinear_arith)
            requires
                n == 0,
        ;
        0
    } else {
        let r = lemma_root_witness((n - 1) as nat);
        if n < (r + 1) * (r + 1) {
            r
        } else {
            let c: nat = r + 1;
            assert(c * c <= n < (c + 1) * (c + 1)) by (nonlinear_arith)
                requires
                    n - 1 < c * c,
                    n >= c * c,
                    c >= 1,
            ;
            c
        }
    }
}

pub proof fn lemma_nearest_zero(f: Format, d: nat)
    requires
        f.wf(),
        d > 0,
    ensures
        f.nearest(0, d) == 0,
{
    lemma_pow2_pos(f.w() + 1);
    lemma_div_of0(d as int);
    lemma_excess(0, f.w() + 1, 0);
    lemma2_to64();
    lemma_div_of0((d * pow2(0)) as int);
    lemma_small_mod(0, d * pow2(0));
    lemma_mul_by_zero_is_zero(pow2(f.w()) as int);
}

proof fn lemma_nearest_self(f: Format, b: u64)
    requires
        f.wf(),
        b < f.infinity,
    ensures
        f.nearest(units(b as nat, f.w()), 1) == b,
{
    lemma_rounded_exact(b as nat, f.w(), f.infinity as nat);
}

fn not_a_number(f: Format) -> (r: Number)
    requires
        f.wf(),
    ensures
        r == nan_of(f),
{
    proof {
        lemma_format(f);
    }
    Number { negative: false, magnitude: f.infinity + power_of_two(f.width - 1) as u64 }
}

/// The sum of two numbers.
pub fn sum(f: Format, a: Number, b: Number) -> (r: Number)
    requires
        f.wf(),
    ensures
        r == sum_of(f, a, b),
{
    if a.magnitude > f.infinity || b.magnitude > f.infinity {
        return not_a_number(f);
    }
    if a.magnitude == f.infinity {
        if b.magnitude == f.infinity && a.negative != b.negative {
            return not_a_number(f);
        }
        return a;
    }
    if b.magnitude == f.infinity {
        return b;
    }
    proof {
        lemma_units_zero(a.magnitude as nat, f.w());
        lemma_units_zero(b.magnitude as nat, f.w());
        lemma_nearest_self(f, a.magnitude);
        lemma_nearest_self(f, b.magnitude);
    }
    if a.magnitude == 0 && b.magnitude == 0 {
        return Number { negative: a.negative && b.negative, magnitude: 0 };
    }
    if b.magnitude == 0 {
        return a;
    }
    if a.magnitude == 0 {
        return b;
    }
    if a.negative == b.negative {
        let magnitude = if a.magnitude >= b.magnitude {
            add_sizes(f, a.magnitude, b.magnitude)
        } else {
            add_sizes(f, b.magnitude, a.magnitude)
        };
        Number { negative: a.negative, magnitude }
    } else if a.magnitude == b.magnitude {
        Number { negative: false, magnitude: 0 }
    } else if a.magnitude > b.magnitude {
        Number {
            negative: a.negative,
            magnitude: subtract_sizes(f, a.magnitude, b.magnitude),
        }
    } else {
        Number {
            negative: b.negative,
            magnitude: subtract_sizes(f, b.magnitude, a.magnitude),
        }
    }
}

/// The product of two numbers.
pub fn product(f: Format, a: Number, b: Number) -> (r: Number)
    requires
        f.wf(),
    ensures
        r == product_of(f, a, b),
{
    let negative = a.negative != b.negative;
    if a.magnitude > f.infinity || b.magnitude > f.infinity {
        return not_a_number(f);
    }
    if a.magnitude == f.infinity || b.magnitude == f.infinity {
        if a.magnitude == 0 || b.magnitude == 0 {
            return not_a_number(f);
        }
        return Number { negative, magnitude: f.infinity };
    }
    if a.magnitude == 0 || b.magnitude == 0 {
        proof {
            lemma_units_zero(a.magnitude as nat, f.w());
            lemma_units_zero(b.magnitude as nat, f.w());
            lemma_mul_basics(a.size(f) as int);
            lemma_mul_basics(b.size(f) as int);
            lemma_format(f);
            lemma_nearest_zero(f, f.one());
        }
        return Number { negative, magnitude: 0 };
    }
    Number { negative, magnitude: multiply_sizes(f, a.magnitude, b.magnitude) }
}

/// The quotient of two numbers.
pub fn quotient(f: Format, a: Number, b: Number) -> (r: Number)
    requires
        f.wf(),
    ensures
        r == quotient_of(f, a, b),
{
    let negative = a.negative != b.negative;
    if a.magnitude > f.infinity || b.magnitude > f.infinity {
        return not_a_number(f);
    }
    if a.magnitude == f.infinity {
        if b.magnitude == f.infinity {
            return not_a_number(f);
        }
        return Number { negative, magnitude: f.infinity };
    }
    if b.magnitude == f.infinity {
        return Number { negative, magnitude: 0 };
    }
    if b.magnitude == 0 {
        if a.magnitude == 0 {
            return not_a_number(f);
        }
        return Number { negative, magnitude: f.infinity };
    }
    if a.magnitude == 0 {
        proof {
            lemma_units_zero(a.magnitude as nat, f.w());
            lemma_units_zero(b.magnitude as nat, f.w());
            lemma_mul_basics(f.one() as int);
            lemma_nearest_zero(f, b.size(f));
        }
        return Number { negative, magnitude: 0 };
    }
    Number { negative, magnitude: divide_sizes(f, a.magnitude, b.magnitude) }
}

/// The square root of a number of the 32-bit format.
pub fn root(f: Format, a: Number) -> (r: Number)
    requires
        f == single_format_spec(),
    ensures
        r == root_of(f, a),
{
    if a.magnitude > f.infinity || (a.negative && a.magnitude != 0) {
        return not_a_number(f);
    }
    if a.magnitude == 0 || a.magnitude == f.infinity {
        return a;
    }
    Number { negative: false, magnitude: root_size(f, a.magnitude) }
}

/// The number nearest to a whole number.
pub fn integer(f: Format, n: u64) -> (r: Number)
    requires
        f.wf(),
    ensures
        r == integer_of(f, n as nat),
{
    if n == 0 {
        proof {
            lemma_mul_basics(f.one() as int);
            lemma_nearest_zero(f, 1);
        }
        return Number { negative: false, magnitude: 0 };
    }
    proof {
        lemma_format(f);
        lemma_bits_monotone(64, 127);
        lemma2_to64();
        lemma_truncates_exact(n as nat * f.one(), n as nat, f.scale as nat);
    }
    let magnitude = round_pack(
        n as u128,
        f.scale as i32,
        false,
        f.width,
        f.infinity,
        Ghost(n as nat * f.one()),
        Ghost(1),
    );
    Number { negative: false, magnitude }
}

/// A number of the format `f` in the format `g`.
pub fn converted(f: Format, g: Format, a: Number) -> (r: Number)
    requires
        f.wf(),
        g.wf(),
    ensures
        r == converted_of(f, g, a),
{
    if a.magnitude > f.infinity {
        return not_a_number(g);
    }
    if a.magnitude == f.infinity {
        return Number { negative: a.negative, magnitude: g.infinity };
    }
    proof {
        lemma_format(f);
        lemma_format(g);
        lemma_units_zero(a.magnitude as nat, f.w());
    }
    if a.magnitude == 0 {
        proof {
            lemma_mul_basics(g.one() as int);
            lemma_nearest_zero(g, f.one());
        }
        return Number { negative: a.negative, magnitude: 0 };
    }
    let (m, s) = unpack(f, a.magnitude);
    let t: i32 = s as i32 + g.scale as i32 - f.scale as i32;
    let ghost n = a.size(f) * g.one();
    proof {
        lemma_bits_monotone(f.w() + 1, 127);
        lemma_pow2_adds(s as nat, g.scale as nat);
        let e = (s + g.scale) as nat;
        lemma_pow2_pos(e);
        lemma_mul_is_associative(m as int, pow2(s as nat) as int, g.one() as int);
        lemma_mul_basics(m as int);
        if t >= 0 {
            lemma_pow2_adds(f.scale as nat, t as nat);
            lemma_truncates_scaled(n, f.one(), m as nat, 1, m as nat, t as int, false, pow2(e));
        } else {
            lemma_pow2_adds(e, (-t) as nat);
            lemma_mul_is_associative(m as int, pow2(e) as int, pow2((-t) as nat) as int);
            lemma_truncates_scaled(n, f.one(), m as nat, 1, m as nat, t as int, false, f.one());
        }
    }
    let magnitude = round_pack(
        m as u128,
        t,
        false,
        g.width,
        g.infinity,
        Ghost(n),
        Ghost(f.one()),
    );
    Number { negative: a.negative, magnitude }
}

} // verus!
