//! Rounding of exact quantities to a binary floating-point format.
//!
//! A format is given by `w`, the width of its fraction field, and by `inf`, the bit pattern of
//! its infinity. Magnitudes are counted in units of the least positive number of the format, so
//! that every finite magnitude is a whole number of units.

use vstd::arithmetic::div_mod::*;
use vstd::arithmetic::mul::*;
use vstd::arithmetic::power2::*;
use vstd::bits::*;
use vstd::prelude::*;
use vstd::std_specs::bits::*;

verus! {

/// `n / d` to the nearest integer; a tie goes to the even neighbour.
pub open spec fn nearest_even(n: nat, d: nat) -> nat {
    let f = n / d;
    let r = n % d;
    if 2 * r > d || (2 * r == d && f % 2 == 1) {
        f + 1
    } else {
        f
    }
}

/// How often `q` has to be halved until it fits in `p` bits.
pub open spec fn excess(q: nat, p: nat) -> nat
    decreases q,
{
    if q < pow2(p) {
        0
    } else {
        proof {
            lemma_pow2_pos(p);
        }
        1 + excess(q / 2, p)
    }
}

/// The magnitude pattern nearest to `n / d` units: the significand is rounded to `w + 1` bits
/// with ties to even, and what is too large becomes infinity.
pub open spec fn rounded(n: nat, d: nat, w: nat, inf: nat) -> nat {
    let k = excess(n / d, w + 1);
    let b = k * pow2(w) + nearest_even(n, d * pow2(k));
    if b < inf {
        b
    } else {
        inf
    }
}

/// The magnitude, in units, of the finite pattern `b`.
pub open spec fn units(b: nat, w: nat) -> nat {
    let f = b / pow2(w);
    let m = b % pow2(w);
    if f == 0 {
        m
    } else {
        (pow2(w) + m) * pow2((f - 1) as nat)
    }
}

pub proof fn lemma_nearest_even_scale(n: nat, d: nat, c: nat)
    requires
        d > 0,
        c > 0,
    ensures
        d * c > 0,
        nearest_even(n * c, d * c) == nearest_even(n, d),
        (n * c) / (d * c) == n / d,
{
    let f = (n / d) as int;
    let r = (n % d) as int;
    lemma_fundamental_div_mod(n as int, d as int);
    assert(d * c > 0 && n * c == (d * c) * f + r * c && 0 <= r * c < d * c && 2 * (r * c) == (2 * r)
        * c) by (nonlinear_arith)
        requires
            d > 0,
            c > 0,
            n == d * f + r,
            0 <= r < d,
    ;
    lemma_fundamental_div_mod_converse((n * c) as int, (d * c) as int, f, r * c);
    assert((2 * r) * c > d * c <==> 2 * r > d) by (nonlinear_arith)
        requires
            c > 0,
    ;
    assert((2 * r) * c == d * c <==> 2 * r == d) by (nonlinear_arith)
        requires
            c > 0,
    ;
}

/// A quantity `a / b` with whole part `m` and something left over exactly when `sticky`, divided
/// by `2 * h`.
proof fn lemma_nearest_even_split(a: nat, b: nat, m: nat, h: nat, sticky: bool)
    requires
        b > 0,
        h > 0,
        m * b <= a < (m + 1) * b,
        sticky <==> m * b != a,
    ensures
        ({
            let f = m / (2 * h);
            let g = m % (2 * h);
            nearest_even(a, b * (2 * h)) == if g > h || (g == h && (sticky || f % 2 == 1)) {
                f + 1
            } else {
                f
            }
        }),
{
    let s = 2 * h;
    let f = (m / s) as int;
    let g = (m % s) as int;
    let rho = a - m * b;
    assert(0 <= rho < b) by (nonlinear_arith)
        requires
            rho == a - m * b,
            m * b <= a < (m + 1) * b,
    ;
    lemma_fundamental_div_mod(m as int, s as int);
    let r = g * b + rho;
    assert(a == (b * s) * f + r && 0 <= r < b * s) by (nonlinear_arith)
        requires
            b > 0,
            s > 0,
            m == s * f + g,
            0 <= g < s,
            rho == a - m * b,
            0 <= rho < b,
            r == g * b + rho,
    ;
    lemma_mul_is_commutative((b * s) as int, f);
    lemma_fundamental_div_mod_converse(a as int, (b * s) as int, f, r);
    assert(b * s == 2 * (h * b)) by (nonlinear_arith)
        requires
            s == 2 * h,
    ;
    assert(g > h ==> g * b >= h * b + b) by (nonlinear_arith)
        requires
            b > 0,
    ;
    assert(g < h ==> g * b + b <= h * b) by (nonlinear_arith)
        requires
            b > 0,
    ;
}

pub proof fn lemma_excess(q: nat, p: nat, k: nat)
    requires
        q < pow2(p + k),
        k == 0 || q >= pow2((p + k - 1) as nat),
    ensures
        excess(q, p) == k,
    decreases k,
{
    if k > 0 {
        lemma_pow2_pos(p);
        if k > 1 {
            lemma_pow2_strictly_increases(p, (p + k - 1) as nat);
            lemma_pow2_unfold((p + k - 1) as nat);
        }
        lemma_pow2_unfold(p + k);
        lemma_excess(q / 2, p, (k - 1) as nat);
    }
}

/// `1 << s` in 128 bits.
proof fn lemma_shl_one(s: u32)
    requires
        s < 128,
    ensures
        (1u128 << s) == pow2(s as nat),
    decreases s,
{
    if s == 0 {
        assert((1u128 << 0u32) == 1) by (bit_vector);
        lemma2_to64();
    } else {
        let t = (s - 1) as u32;
        lemma_shl_one(t);
        assert((1u128 << s) == 2 * (1u128 << t)) by (bit_vector)
            requires
                s < 128,
                0 < s,
                t + 1 == s,
        ;
        lemma_pow2_unfold(s as nat);
    }
}

/// A power of two.
pub fn power_of_two(s: u32) -> (r: u128)
    requires
        s < 128,
    ensures
        r == pow2(s as nat),
{
    proof {
        lemma_shl_one(s);
    }
    1u128 << s
}

/// Division by a power of two.
pub fn halved(x: u128, s: u32) -> (r: u128)
    requires
        s < 128,
    ensures
        r == x as nat / pow2(s as nat),
{
    proof {
        let s2 = s as u128;
        assert(x >> s2 == x >> s);
        lemma_u128_shr_is_div(x, s2);
    }
    x >> s
}

/// Multiplication by a power of two.
pub fn doubled(x: u128, s: u32) -> (r: u128)
    requires
        s < 128,
        x * pow2(s as nat) <= u128::MAX,
    ensures
        r == x * pow2(s as nat),
{
    let p = power_of_two(s);
    x * p
}

/// The number of bits of a positive number of 64 bits.
fn word_length(x: u64) -> (l: u32)
    requires
        x > 0,
    ensures
        1 <= l <= 64,
        pow2((l - 1) as nat) <= x < pow2(l as nat),
{
    let z = x.leading_zeros();
    let l = 64 - z;
    proof {
        axiom_u64_leading_zeros(x);
        let top = (l - 1) as u64;
        assert(x >> top != 0) by (bit_vector)
            requires
                (x >> top) & 1u64 != 0u64,
        ;
        lemma_u64_shr_is_div(x, top);
        lemma_pow2_pos(top as nat);
        if x < pow2(top as nat) {
            lemma_basic_div(x as int, pow2(top as nat) as int);
        }
        if l < 64 {
            let above = l as u64;
            lemma_u64_shr_is_div(x, above);
            lemma_pow2_pos(above as nat);
            if x >= pow2(above as nat) {
                lemma_div_non_zero(x as int, pow2(above as nat) as int);
            }
        } else {
            lemma2_to64();
        }
    }
    l
}

/// The number of bits of a positive number.
pub fn bit_length(m: u128) -> (l: u32)
    requires
        m > 0,
    ensures
        1 <= l <= 128,
        pow2((l - 1) as nat) <= m < pow2(l as nat),
{
    let high = halved(m, 64);
    proof {
        lemma2_to64();
        lemma_pow2_adds(64, 64);
        lemma_fundamental_div_mod(m as int, pow2(64) as int);
    }
    if high == 0 {
        return word_length(m as u64);
    }
    let h = word_length(high as u64);
    proof {
        let p = pow2(64) as int;
        let lo = pow2((h - 1) as nat) as int;
        let hi = pow2(h as nat) as int;
        let rem = m as int % p;
        lemma_pow2_adds((h - 1) as nat, 64);
        lemma_pow2_adds(h as nat, 64);
        assert(lo * p <= m < hi * p) by (nonlinear_arith)
            requires
                m == p * high + rem,
                0 <= rem < p,
                lo <= high < hi,
        ;
    }
    h + 64
}

/// The exact quantity `n / d` seen through the integer part `m` of its `2^t`-fold: `sticky` tells
/// whether something is left over.
pub open spec fn truncates(n: nat, d: nat, m: nat, t: int, sticky: bool) -> bool {
    let a = n * pow2(if t < 0 { -t as nat } else { 0 });
    let b = d * pow2(if t < 0 { 0 } else { t as nat });
    &&& d > 0
    &&& m * b <= a < (m + 1) * b
    &&& (sticky <==> m * b != a)
}

proof fn lemma_excess_of_truncated(n: nat, d: nat, m: nat, t: int, sticky: bool, l: nat, p: nat)
    requires
        truncates(n, d, m, t, sticky),
        l >= 1,
        p >= 1,
        pow2((l - 1) as nat) <= m < pow2(l),
    ensures
        excess(n / d, p) == if l + t > p {
            l + t - p
        } else {
            0
        },
{
    let tn: nat = if t < 0 { 0 } else { t as nat };
    let td: nat = if t < 0 { (-t) as nat } else { 0 };
    let pn = pow2(tn) as int;
    let pd = pow2(td) as int;
    lemma_pow2_pos(tn);
    lemma_pow2_pos(td);
    let q = (n / d) as int;
    let r = (n % d) as int;
    lemma_fundamental_div_mod(n as int, d as int);
    let lo = pow2((l - 1) as nat) as int;
    let hi = pow2(l) as int;
    // lo * pn * d <= n * pd < hi * pn * d
    assert(lo * pn * d <= n * pd) by (nonlinear_arith)
        requires
            m * (d * pn) <= n * pd,
            lo <= m,
            pn > 0,
            d > 0,
    ;
    assert(n * pd < hi * pn * d) by (nonlinear_arith)
        requires
            n * pd < (m + 1) * (d * pn),
            m + 1 <= hi,
            pn > 0,
            d > 0,
    ;
    // q * pd < hi * pn
    assert(q * pd < hi * pn) by (nonlinear_arith)
        requires
            n * pd < hi * pn * d,
            n == d * q + r,
            r >= 0,
            pd > 0,
            d > 0,
    ;
    lemma_pow2_adds(l, tn);
    if l + t > p {
        let k = (l + t - p) as nat;
        // q >= 2^(p + k - 1)
        lemma_pow2_adds((l - 1) as nat, tn);
        let e = (p + k - 1) as nat;
        assert(lo * pn == pow2(e) * pd) by {
            lemma_pow2_adds(e, td);
            assert((l - 1) + tn == e + td);
        }
        let pe = pow2(e) as int;
        assert(q >= pe) by (nonlinear_arith)
            requires
                pe * pd * d <= n * pd,
                n == d * q + r,
                r < d,
                pd > 0,
                d > 0,
        ;
        assert(hi * pn == pow2(p + k) * pd) by {
            lemma_pow2_adds(p + k, td);
            assert(l + tn == p + k + td);
        }
        let pk = pow2(p + k) as int;
        assert(q < pk) by (nonlinear_arith)
            requires
                q * pd < pk * pd,
                pd > 0,
        ;
        lemma_excess(q as nat, p, k);
    } else {
        let pp = pow2(p) as int;
        assert(hi * pn <= pp * pd) by {
            lemma_pow2_adds(p, td);
            assert(l + tn <= p + td);
            if l + tn < p + td {
                lemma_pow2_strictly_increases(l + tn, p + td);
            }
        }
        assert(q < pp) by (nonlinear_arith)
            requires
                q * pd < pp * pd,
                pd > 0,
        ;
        lemma_excess(q as nat, p, 0);
    }
}

/// The significand of the rounded quantity when at least one bit is dropped.
proof fn lemma_significand_dropped(n: nat, d: nat, m: nat, t: int, sticky: bool, k: nat)
    requires
        truncates(n, d, m, t, sticky),
        k > t,
    ensures
        ({
            let s = pow2((k - t) as nat);
            let h = pow2((k - t - 1) as nat);
            let f = m / s;
            let g = m % s;
            nearest_even(n, d * pow2(k)) == if g > h || (g == h && (sticky || f % 2 == 1)) {
                f + 1
            } else {
                f
            }
        }),
{
    let tn: nat = if t < 0 { 0 } else { t as nat };
    let td: nat = if t < 0 { (-t) as nat } else { 0 };
    let a = n * pow2(td);
    let b = d * pow2(tn);
    let sh = (k - t) as nat;
    lemma_pow2_pos(tn);
    lemma_pow2_pos(td);
    lemma_pow2_pos(k);
    lemma_pow2_pos((sh - 1) as nat);
    lemma_pow2_unfold(sh);
    assert(b > 0) by (nonlinear_arith)
        requires
            b == d * pow2(tn),
            d > 0,
            pow2(tn) > 0,
    ;
    lemma_nearest_even_split(a, b, m, pow2((sh - 1) as nat), sticky);
    assert(b * pow2(sh) == (d * pow2(k)) * pow2(td)) by {
        lemma_pow2_adds(tn, sh);
        lemma_pow2_adds(k, td);
        assert(tn + sh == k + td);
        lemma_mul_is_associative(d as int, pow2(tn) as int, pow2(sh) as int);
        lemma_mul_is_associative(d as int, pow2(k) as int, pow2(td) as int);
    }
    assert(d * pow2(k) > 0) by (nonlinear_arith)
        requires
            d > 0,
            pow2(k) > 0,
    ;
    lemma_nearest_even_scale(n, d * pow2(k), pow2(td));
}

/// The significand of the rounded quantity when it is exact.
proof fn lemma_significand_exact(n: nat, d: nat, m: nat, t: int, k: nat)
    requires
        truncates(n, d, m, t, false),
        k <= t,
    ensures
        nearest_even(n, d * pow2(k)) == m * pow2((t - k) as nat),
{
    let j = (t - k) as nat;
    let x = (m * pow2(j)) as int;
    let y = (d * pow2(k)) as int;
    lemma_pow2_adds(k, j);
    lemma_pow2_pos(k);
    lemma2_to64();
    assert(n == x * y && y > 0) by (nonlinear_arith)
        requires
            m * (d * pow2(t as nat)) == n * 1,
            pow2(t as nat) == pow2(k) * pow2(j),
            x == m * pow2(j),
            y == d * pow2(k),
            d > 0,
            pow2(k) > 0,
    ;
    lemma_fundamental_div_mod_converse(n as int, y, x, 0);
}

/// Rounds a quantity known through its truncation to the nearest magnitude pattern.
pub fn round_pack(
    m: u128,
    t: i32,
    sticky: bool,
    w: u32,
    inf: u64,
    Ghost(n): Ghost<nat>,
    Ghost(d): Ghost<nat>,
) -> (b: u64)
    requires
        0 < m < pow2(127),
        -4000 <= t <= 4000,
        1 <= w <= 52,
        inf <= 2047 * pow2(w as nat),
        truncates(n, d, m as nat, t as int, sticky),
        sticky ==> m >= pow2((w + 1) as nat),
    ensures
        b == rounded(n, d, w as nat, inf as nat),
{
    let l = bit_length(m);
    let ghost p = (w + 1) as nat;
    proof {
        lemma_excess_of_truncated(n, d, m as nat, t as int, sticky, l as nat, p);
        lemma_pow2_pos(w as nat);
        if l as nat > 127 {
            lemma_bits_monotone(127, (l - 1) as nat);
        }
    }
    let k: i32 = if l as i32 + t > w as i32 + 1 {
        l as i32 + t - (w as i32 + 1)
    } else {
        0
    };
    let ghost kn = k as nat;
    let ghost sig = nearest_even(n, d * pow2(kn));
    let ghost pw = pow2(w as nat);
    if k >= 2047 {
        proof {
            assert(kn * pw >= 2047 * pw) by (nonlinear_arith)
                requires
                    kn >= 2047,
                    pw > 0,
            ;
        }
        return inf;
    }
    let r: u64 = if k > t {
        proof {
            lemma_significand_dropped(n, d, m as nat, t as int, sticky, kn);
        }
        let sh: i32 = k - t;
        if sh >= 128 {
            proof {
                // nothing but a small fraction is left
                lemma_bits_monotone(127, (sh - 1) as nat);
                lemma_bits_monotone(127, sh as nat);
                lemma_basic_div(m as int, pow2(sh as nat) as int);
                lemma_small_mod(m as nat, pow2(sh as nat));
            }
            0
        } else {
            let f = halved(m, sh as u32);
            let s = power_of_two(sh as u32);
            let h = power_of_two((sh - 1) as u32);
            proof {
                lemma_pow2_pos(sh as nat);
                lemma_fundamental_div_mod(m as int, s as int);
                lemma_significand_bound(m as nat, l as nat, sh as nat, p);
                assert(f * s <= m) by (nonlinear_arith)
                    requires
                        m == s * f + (m as int % s as int),
                        m as int % s as int >= 0,
                ;
                lemma_mul_is_commutative(s as int, f as int);
                lemma_bits_monotone(p, 53);
                lemma2_to64_rest();
            }
            let g = m - f * s;
            let up = g > h || (g == h && (sticky || f % 2 == 1));
            if up {
                f as u64 + 1
            } else {
                f as u64
            }
        }
    } else {
        proof {
            if sticky {
                // the truncation holds at least one bit more than the significand
                lemma_bits_between(m as nat, l as nat, p);
            }
            lemma_significand_exact(n, d, m as nat, t as int, kn);
            lemma_exact_bound(m as nat, l as nat, (t - k) as nat, p);
            lemma_bits_monotone(p, 53);
            lemma2_to64_rest();
        }
        doubled(m, (t - k) as u32) as u64
    };
    proof {
        lemma2_to64_rest();
        lemma_bits_monotone(w as nat, 52);
        assert(kn * pw <= 2046 * pow2(52)) by (nonlinear_arith)
            requires
                kn <= 2046,
                0 < pw <= pow2(52),
        ;
    }
    let q: u64 = power_of_two(w) as u64;
    let b: u64 = k as u64 * q + r;
    if b < inf {
        b
    } else {
        inf
    }
}

pub proof fn lemma_bits_monotone(a: nat, b: nat)
    requires
        a <= b,
    ensures
        0 < pow2(a) <= pow2(b),
{
    lemma_pow2_pos(a);
    if a < b {
        lemma_pow2_strictly_increases(a, b);
    }
}

/// A number of more than `p` bits has a bit length above `p`.
proof fn lemma_bits_between(m: nat, l: nat, p: nat)
    requires
        m < pow2(l),
        m >= pow2(p),
    ensures
        l > p,
{
    if l <= p {
        lemma_bits_monotone(l, p);
    }
}

proof fn lemma_significand_bound(m: nat, l: nat, sh: nat, p: nat)
    requires
        m < pow2(l),
        l <= p + sh,
    ensures
        m / pow2(sh) < pow2(p),
{
    lemma_bits_monotone(l, p + sh);
    lemma_pow2_adds(p, sh);
    lemma_pow2_pos(sh);
    lemma_mul_is_commutative(pow2(p) as int, pow2(sh) as int);
    lemma_multiply_divide_lt(m as int, pow2(sh) as int, pow2(p) as int);
}

proof fn lemma_exact_bound(m: nat, l: nat, j: nat, p: nat)
    requires
        m < pow2(l),
        l + j <= p,
    ensures
        m * pow2(j) < pow2(p),
{
    lemma_pow2_adds(l, j);
    lemma_pow2_pos(j);
    lemma_bits_monotone(l + j, p);
    lemma_mul_strict_inequality(m as int, pow2(l) as int, pow2(j) as int);
}

/// How far two numbers lie apart.
pub open spec fn distance(a: nat, b: nat) -> nat {
    if a >= b {
        (a - b) as nat
    } else {
        (b - a) as nat
    }
}

proof fn lemma_excess_range(q: nat, p: nat)
    ensures
        q < pow2(p + excess(q, p)),
        excess(q, p) > 0 ==> q >= pow2((p + excess(q, p) - 1) as nat),
    decreases q,
{
    if q >= pow2(p) {
        lemma_pow2_pos(p);
        lemma_excess_range(q / 2, p);
        let k = excess(q / 2, p);
        lemma_pow2_unfold(p + k + 1);
        if k > 0 {
            lemma_pow2_unfold((p + k) as nat);
        }
    }
}

/// No whole number of steps comes closer than the nearest.
proof fn lemma_nearest_even_is_nearest(n: nat, d: nat, j: nat)
    requires
        d > 0,
    ensures
        distance(nearest_even(n, d) * d, n) <= distance(j * d, n),
        n / d <= nearest_even(n, d) <= n / d + 1,
{
    lemma_fundamental_div_mod(n as int, d as int);
    lemma_mod_bound(n as int, d as int);
    let f = (n / d) as int;
    let r = (n % d) as int;
    assert(n == f * d + r) by (nonlinear_arith)
        requires
            n == d * f + r,
    ;
    assert((f + 1) * d == f * d + d) by (nonlinear_arith);
    if j <= f {
        assert(j * d <= f * d) by (nonlinear_arith)
            requires
                j <= f,
                d > 0,
        ;
    } else {
        assert(j * d >= f * d + d) by (nonlinear_arith)
            requires
                j >= f + 1,
                d > 0,
        ;
    }
}

/// The units of a pattern that is put together from an exponent and a significand.
proof fn lemma_units_of(k: nat, q: nat, w: nat)
    requires
        q <= pow2(w + 1),
        k > 0 ==> q >= pow2(w),
    ensures
        units(k * pow2(w) + q, w) == q * pow2(k),
{
    let p = pow2(w) as int;
    lemma_pow2_pos(w);
    lemma_pow2_unfold(w + 1);
    lemma2_to64();
    let b = k * pow2(w) + q;
    if q < p {
        assert(k == 0);
        lemma_mul_by_zero_is_zero(p);
        lemma_small_mod(q, pow2(w));
        lemma_basic_div(q as int, p);
        lemma_mul_basics(q as int);
    } else if q < 2 * p {
        assert(b == (k + 1) * p + (q - p)) by (nonlinear_arith)
            requires
                b == k * p + q,
        ;
        lemma_fundamental_div_mod_converse(b as int, p, (k + 1) as int, q - p);
    } else {
        assert(b == (k + 2) * p + 0) by (nonlinear_arith)
            requires
                b == k * p + q,
                q == 2 * p,
        ;
        lemma_fundamental_div_mod_converse(b as int, p, (k + 2) as int, 0);
        lemma_pow2_unfold(k + 1);
        let x = pow2(k) as int;
        assert(p * (2 * x) == (2 * p) * x) by (nonlinear_arith);
    }
}

/// Rounding keeps a significand of `w + 1` bits at most, the whole number of steps that lies
/// nearest.
proof fn lemma_rounded_parts(n: nat, d: nat, w: nat)
    requires
        d > 0,
    ensures
        ({
            let k = excess(n / d, w + 1);
            let step = d * pow2(k);
            let q = nearest_even(n, step);
            &&& step > 0
            &&& q <= pow2(w + 1)
            &&& units(k * pow2(w) + q, w) == q * pow2(k)
            &&& units(k * pow2(w) + q, w) * d == q * step
            &&& k > 0 ==> pow2(w) * step <= n
        }),
{
    let k = excess(n / d, w + 1);
    let s = pow2(k);
    let step = d * s;
    let q = nearest_even(n, step);
    let p = pow2(w);
    lemma_pow2_pos(k);
    lemma_pow2_pos(w);
    lemma_mul_strictly_positive(d as int, s as int);
    lemma_excess_range(n / d, w + 1);
    // the significand fits
    lemma_pow2_adds(w + 1, k);
    lemma_pow2_unfold(w + 1);
    lemma_div_denominator(n as int, d as int, s as int);
    let whole = n / step;
    assert(whole == (n / d) / s);
    lemma_mul_is_commutative(pow2(w + 1) as int, s as int);
    lemma_multiply_divide_lt((n / d) as int, s as int, pow2(w + 1) as int);
    assert(whole < pow2(w + 1));
    lemma_nearest_even_is_nearest(n, step, 0);
    if k > 0 {
        lemma_pow2_adds(w, k);
        assert((w + 1 + k - 1) as nat == w + k);
        lemma_multiply_divide_le_lower((n / d) as int, s as int, p as int);
        assert(whole >= p);
        lemma_fundamental_div_mod(n as int, d as int);
        lemma_mod_bound(n as int, d as int);
        assert(p * step <= n) by (nonlinear_arith)
            requires
                p * s <= n / d,
                n >= d * (n / d),
                step == d * s,
                d > 0,
        ;
    }
    lemma_units_of(k, q, w);
    let r = k * p + q;
    assert(units(r, w) * d == q * step) by (nonlinear_arith)
        requires
            units(r, w) == q * s,
            step == d * s,
    ;
}

/// Rounding goes to the nearest: no finite pattern lies closer to `n / d` units.
pub proof fn law_rounded_is_nearest(n: nat, d: nat, w: nat, inf: nat, b: nat)
    requires
        d > 0,
        rounded(n, d, w, inf) < inf,
    ensures
        distance(units(rounded(n, d, w, inf), w) * d, n) <= distance(units(b, w) * d, n),
{
    let k = excess(n / d, w + 1);
    let s = pow2(k);
    let step = d * s;
    let q = nearest_even(n, step);
    lemma_pow2_pos(k);
    lemma_pow2_pos(w);
    lemma_pow2_unfold(w + 1);
    lemma_rounded_parts(n, d, w);
    let r = rounded(n, d, w, inf);
    assert(r == k * pow2(w) + q);
    // the other pattern
    let p = pow2(w);
    let fb = b / p;
    let mb = b % p;
    lemma_fundamental_div_mod(b as int, p as int);
    lemma_mod_bound(b as int, p as int);
    let eb = if fb == 0 {
        0
    } else {
        (fb - 1) as nat
    };
    let sb = if fb == 0 {
        mb
    } else {
        p + mb
    };
    lemma2_to64();
    lemma_mul_basics(sb as int);
    assert(units(b, w) == sb * pow2(eb));
    if eb >= k {
        let g = (eb - k) as nat;
        lemma_pow2_adds(g, k);
        let j = sb * pow2(g);
        let x = pow2(g) as int;
        assert(units(b, w) * d == j * step) by (nonlinear_arith)
            requires
                units(b, w) == sb * (x * s),
                j == sb * x,
                step == d * s,
        ;
        lemma_nearest_even_is_nearest(n, step, j);
    } else {
        // it lies below the least pattern with the exponent of the result
        let u = units(b, w);
        lemma_bits_monotone(eb + 1, k);
        lemma_pow2_unfold(eb + 1);
        let x = pow2(eb) as int;
        assert(u <= p * s) by (nonlinear_arith)
            requires
                u == sb * x,
                sb <= 2 * p,
                2 * x <= s,
                x > 0,
                p > 0,
        ;
        assert(u * d <= p * step) by (nonlinear_arith)
            requires
                u <= p * s,
                step == d * s,
                d > 0,
        ;
        lemma_nearest_even_is_nearest(n, step, p);
    }
}

/// What divides at least `c` times gives at least `c`.
proof fn lemma_multiply_divide_le_lower(a: int, b: int, c: int)
    requires
        a >= c * b,
        b > 0,
        a >= 0,
        c >= 0,
    ensures
        a / b >= c,
{
    lemma_div_is_ordered(c * b, a, b);
    lemma_div_by_multiple(c, b);
}

/// Rounding is off by half a unit at most, or by one part in `2^(w + 1)` of the quantity.
pub proof fn law_rounding_error(n: nat, d: nat, w: nat, inf: nat)
    requires
        d > 0,
        rounded(n, d, w, inf) < inf,
    ensures
        ({
            let off = distance(units(rounded(n, d, w, inf), w) * d, n);
            2 * off <= d || off * pow2(w + 1) <= n
        }),
{
    let k = excess(n / d, w + 1);
    let step = d * pow2(k);
    let q = nearest_even(n, step);
    lemma_rounded_parts(n, d, w);
    let r = rounded(n, d, w, inf);
    assert(r == k * pow2(w) + q);
    let off = distance(q * step, n);
    lemma_fundamental_div_mod(n as int, step as int);
    lemma_mod_bound(n as int, step as int);
    let f = (n / step) as int;
    assert(step * f == f * step && (f + 1) * step == f * step + step) by (nonlinear_arith);
    assert(2 * off <= step);
    lemma2_to64();
    lemma_mul_basics(d as int);
    if k > 0 {
        lemma_pow2_unfold(w + 1);
        let p = pow2(w) as int;
        assert(off * (2 * p) <= n) by (nonlinear_arith)
            requires
                2 * off <= step,
                p * step <= n,
                p >= 0,
        ;
    }
}

/// Rounding depends on the ratio alone.
pub proof fn lemma_rounded_scale(n: nat, d: nat, c: nat, w: nat, inf: nat)
    requires
        d > 0,
        c > 0,
    ensures
        d * c > 0,
        rounded(n * c, d * c, w, inf) == rounded(n, d, w, inf),
{
    lemma_nearest_even_scale(n, d, c);
    let k = excess(n / d, w + 1);
    lemma_pow2_pos(k);
    let x = pow2(k) as int;
    lemma_mul_strictly_positive(d as int, x);
    lemma_nearest_even_scale(n, d * pow2(k), c);
    assert((d * x) * c == (d * c) * x) by (nonlinear_arith);
}

/// A quantity of `w + 1` bits at most, shifted, is not changed by rounding.
pub proof fn lemma_rounded_whole(n: nat, s: nat, w: nat, inf: nat)
    requires
        n < pow2(w + 1),
        rounded(n * pow2(s), 1, w, inf) < inf,
    ensures
        units(rounded(n * pow2(s), 1, w, inf), w) == n * pow2(s),
{
    let x = n * pow2(s);
    let k = excess(x, w + 1);
    lemma_div_basics(x as int);
    lemma_mul_basics(pow2(k) as int);
    lemma_rounded_parts(x, 1, w);
    lemma_excess_range(x, w + 1);
    lemma_pow2_pos(s);
    lemma_pow2_adds(w + 1, s);
    assert(x < pow2(w + 1 + s)) by (nonlinear_arith)
        requires
            x == n * pow2(s),
            n < pow2(w + 1),
            pow2(s) > 0,
            pow2(w + 1 + s) == pow2(w + 1) * pow2(s),
    ;
    if k > s {
        lemma_bits_monotone(w + 1 + s, (w + 1 + k - 1) as nat);
    }
    let g = (s - k) as nat;
    lemma_pow2_adds(g, k);
    let j = n * pow2(g);
    assert(j * pow2(k) == x) by (nonlinear_arith)
        requires
            x == n * pow2(s),
            j == n * pow2(g),
            pow2(s) == pow2(g) * pow2(k),
    ;
    lemma_nearest_even_is_nearest(x, pow2(k), j);
    lemma_mul_basics(units(rounded(x, 1, w, inf), w) as int);
}

} // verus!
