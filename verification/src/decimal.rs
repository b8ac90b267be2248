//! Decimal notation of whole numbers and of binary floating-point numbers.

use vstd::arithmetic::div_mod::*;
use vstd::arithmetic::mul::*;
use vstd::arithmetic::power2::*;
use vstd::prelude::*;
use vstd::string::*;

use crate::ieee::number::{double_format, single_format, unpack, Format, Number};
use crate::ieee::number::{
    double_format_spec, lemma_format, lemma_units_zero, single_format_spec,
};
use crate::ieee::rounding::{halved, power_of_two};
use crate::ieee::rounding::{lemma_bits_monotone, lemma_nearest_even_scale, nearest_even};
use crate::ieee::scalar::{Double, Single};

verus! {

pub open spec fn pow10(n: nat) -> nat
    decreases n,
{
    if n == 0 {
        1
    } else {
        10 * pow10((n - 1) as nat)
    }
}

pub open spec fn digit_char(d: nat) -> char {
    (48 + d) as char
}

/// The decimal notation of a whole number.
pub open spec fn digits(n: nat) -> Seq<char>
    decreases n,
{
    if n < 10 {
        seq![digit_char(n)]
    } else {
        digits(n / 10).push(digit_char(n % 10))
    }
}

/// The last `k` decimal digits of a whole number.
pub open spec fn padded(n: nat, k: nat) -> Seq<char>
    decreases k,
{
    if k == 0 {
        seq![]
    } else {
        padded(n / 10, (k - 1) as nat).push(digit_char(n % 10))
    }
}

/// A number with `places` digits, one or more, behind the point; a tie goes to the even digit. `plus`
/// asks for a sign before positive numbers too.
pub open spec fn fixed_text(f: Format, a: Number, places: nat, plus: bool) -> Seq<char> {
    if a.is_nan_in(f) {
        "NaN"@
    } else {
        let sign = if a.negative {
            "-"@
        } else if plus {
            "+"@
        } else {
            Seq::<char>::empty()
        };
        if !a.is_finite_in(f) {
            sign + "inf"@
        } else {
            let s = nearest_even(a.size(f) * pow10(places), f.one());
            sign + digits(s / pow10(places)) + "."@ + padded(s % pow10(places), places)
        }
    }
}

/// The number whose decimal digits, from the least significant one on, are `v`.
spec fn digits_value(v: Seq<u8>) -> nat
    decreases v.len(),
{
    if v.len() == 0 {
        0
    } else {
        (v[0] + 10 * digits_value(v.drop_first())) as nat
    }
}

spec fn all_digits(v: Seq<u8>) -> bool {
    forall|i: int| 0 <= i < v.len() ==> v[i] < 10
}

/// Digits without a leading zero.
spec fn canonical(v: Seq<u8>) -> bool {
    all_digits(v) && v.len() > 0 && (v.len() > 1 ==> v.last() != 0)
}

spec fn written(v: Seq<u8>) -> Seq<char> {
    Seq::new(v.len(), |i: int| digit_char(v[v.len() - 1 - i] as nat))
}

proof fn lemma_written(v: Seq<u8>)
    requires
        all_digits(v),
    ensures
        written(v) == padded(digits_value(v), v.len()),
    decreases v.len(),
{
    if v.len() > 0 {
        let rest = v.drop_first();
        lemma_written(rest);
        assert(written(v) =~= written(rest).push(digit_char(v[0] as nat)));
    } else {
        assert(written(v) =~= Seq::<char>::empty());
    }
}

proof fn lemma_canonical(v: Seq<u8>)
    requires
        canonical(v),
    ensures
        padded(digits_value(v), v.len()) == digits(digits_value(v)),
        v.len() > 1 ==> digits_value(v) > 0,
    decreases v.len(),
{
    let rest = v.drop_first();
    if v.len() == 1 {
        assert(rest.len() == 0);
        assert(digits_value(rest) == 0);
        reveal_with_fuel(padded, 2);
        assert(padded(digits_value(v), 1) =~= digits(digits_value(v)));
    } else {
        assert(rest.last() == v.last());
        lemma_canonical(rest);
        if rest.len() == 1 {
            assert(digits_value(rest.drop_first()) == 0);
            assert(digits_value(rest) == rest[0]);
        }
    }
}

proof fn lemma_value_push(v: Seq<u8>, d: u8)
    ensures
        digits_value(v.push(d)) == digits_value(v) + pow10(v.len()) * d,
    decreases v.len(),
{
    if v.len() == 0 {
        assert(v.push(d).drop_first() =~= Seq::<u8>::empty());
        assert(digits_value(v.push(d).drop_first()) == 0);
        assert(pow10(0) == 1);
        lemma_mul_basics(d as int);
    } else {
        assert(v.push(d).drop_first() =~= v.drop_first().push(d));
        lemma_value_push(v.drop_first(), d);
        let p = pow10((v.len() - 1) as nat) as int;
        assert(10 * (p * d) == (10 * p) * d) by (nonlinear_arith);
    }
}

pub proof fn lemma_pow10_pos(n: nat)
    ensures
        pow10(n) > 0,
    decreases n,
{
    if n > 0 {
        lemma_pow10_pos((n - 1) as nat);
    }
}

/// The digits of a number, the least significant one first.
fn split_digits(n: u128) -> (r: Vec<u8>)
    ensures
        canonical(r@),
        digits_value(r@) == n,
{
    let mut r: Vec<u8> = Vec::new();
    let mut x = n;
    proof {
        assert(pow10(0) == 1);
        lemma_mul_basics(n as int);
    }
    while x >= 10
        invariant
            all_digits(r@),
            digits_value(r@) + pow10(r@.len()) * x == n,
            r@.len() > 0 ==> x > 0,
        decreases x,
    {
        let d = (x % 10) as u8;
        proof {
            lemma_value_push(r@, d);
            let p = pow10(r@.len()) as int;
            let y = (x / 10) as int;
            assert(p * d + (10 * p) * y == p * x) by (nonlinear_arith)
                requires
                    x == 10 * y + d,
            ;
        }
        r.push(d);
        x = x / 10;
    }
    proof {
        lemma_value_push(r@, x as u8);
    }
    r.push(x as u8);
    r
}

/// The last `k` digits of a number, the least significant one first.
fn last_digits(n: u64, k: usize) -> (r: Vec<u8>)
    ensures
        all_digits(r@),
        r@.len() == k,
        n < pow10(k as nat) ==> digits_value(r@) == n,
{
    let mut r: Vec<u8> = Vec::new();
    let mut x = n;
    let mut i: usize = 0;
    proof {
        assert(pow10(0) == 1);
        lemma_mul_basics(n as int);
    }
    while i < k
        invariant
            i <= k,
            all_digits(r@),
            r@.len() == i,
            digits_value(r@) + pow10(i as nat) * x == n,
        decreases k - i,
    {
        let d = (x % 10) as u8;
        proof {
            lemma_value_push(r@, d);
            let p = pow10(r@.len()) as int;
            let y = (x / 10) as int;
            assert(p * d + (10 * p) * y == p * x) by (nonlinear_arith)
                requires
                    x == 10 * y + d,
            ;
        }
        r.push(d);
        x = x / 10;
        i = i + 1;
    }
    proof {
        if n < pow10(k as nat) {
            let p = pow10(k as nat) as int;
            assert(x == 0) by (nonlinear_arith)
                requires
                    p * x <= n,
                    n < p,
                    x >= 0,
            ;
            assert(p * x == 0) by (nonlinear_arith)
                requires
                    x == 0,
            ;
        }
    }
    r
}

/// Twice the number.
fn twice(v: &Vec<u8>) -> (r: Vec<u8>)
    requires
        canonical(v@),
    ensures
        canonical(r@),
        digits_value(r@) == 2 * digits_value(v@),
{
    let mut r: Vec<u8> = Vec::new();
    let mut carry: u8 = 0;
    let mut i: usize = 0;
    proof {
        assert(v@.skip(0) =~= v@);
        assert(pow10(0) == 1);
        lemma_mul_basics(2 * digits_value(v@) as int);
    }
    while i < v.len()
        invariant
            i <= v@.len(),
            r@.len() == i,
            carry <= 1,
            canonical(v@),
            all_digits(r@),
            i == v@.len() && i > 1 ==> r@.last() + 10 * carry > 1,
            i == v@.len() && carry == 0 && i > 1 ==> r@.last() != 0,
            digits_value(r@) + pow10(i as nat) * (2 * digits_value(v@.skip(i as int)) + carry) == 2
                * digits_value(v@),
        decreases v@.len() - i,
    {
        let x: u8 = v[i] * 2 + carry;
        let d: u8 = x % 10;
        proof {
            assert(v@.skip(i as int).drop_first() =~= v@.skip(i + 1));
            lemma_value_push(r@, d);
            let p = pow10(i as nat) as int;
            let y = digits_value(v@.skip(i + 1)) as int;
            let c = (x / 10) as int;
            let vi = v@[i as int] as int;
            assert(p * d + (10 * p) * (2 * y + c) == p * (2 * (vi + 10 * y) + carry)) by (nonlinear_arith)
                requires
                    2 * vi + carry == 10 * c + d,
            ;
            if i + 1 == v@.len() && v@.len() > 1 {
                assert(v@.last() != 0);
            }
        }
        r.push(d);
        carry = x / 10;
        i = i + 1;
    }
    proof {
        assert(v@.skip(i as int).len() == 0);
        assert(digits_value(v@.skip(i as int)) == 0);
        lemma_value_push(r@, carry);
        lemma_mul_basics(pow10(i as nat) as int);
    }
    if carry > 0 {
        r.push(carry);
    }
    r
}

fn push_written(out: &mut String, v: &Vec<u8>)
    requires
        all_digits(v@),
    ensures
        final(out)@ == old(out)@ + padded(digits_value(v@), v@.len()),
{
    let ghost start = out@;
    let mut i = v.len();
    while i > 0
        invariant
            i <= v@.len(),
            all_digits(v@),
            out@ =~= start + written(v@).take(v@.len() - i),
        decreases i,
    {
        i = i - 1;
        let c = (48 + v[i]) as char;
        proof {
            assert(c == written(v@)[v@.len() - 1 - i]);
        }
        out.push(c);
    }
    proof {
        assert(written(v@).take(v@.len() as int) =~= written(v@));
        lemma_written(v@);
    }
}

/// Writes a whole number in decimal notation.
pub fn push_integer(out: &mut String, n: u128)
    ensures
        final(out)@ == old(out)@ + digits(n as nat),
{
    let v = split_digits(n);
    proof {
        lemma_canonical(v@);
    }
    push_written(out, &v);
}

/// Writes a count in decimal notation.
pub fn push_count(out: &mut String, n: usize)
    ensures
        final(out)@ == old(out)@ + digits(n as nat),
{
    push_integer(out, n as u128)
}

fn power_of_ten(k: usize) -> (r: u64)
    requires
        k <= 6,
    ensures
        r == pow10(k as nat),
        r <= 1_000_000,
{
    proof {
        reveal_with_fuel(pow10, 8);
    }
    match k {
        0 => 1,
        1 => 10,
        2 => 100,
        3 => 1_000,
        4 => 10_000,
        5 => 100_000,
        _ => 1_000_000,
    }
}

/// Writes the magnitude of a finite number with a fixed number of places.
fn push_magnitude(out: &mut String, f: Format, b: u64, places: usize)
    requires
        f.wf(),
        b < f.infinity,
        0 < places <= 6,
    ensures
        ({
            let a = Number { negative: false, magnitude: b };
            let s = nearest_even(a.size(f) * pow10(places as nat), f.one());
            final(out)@ == old(out)@ + digits(s / pow10(places as nat)) + "."@ + padded(
                s % pow10(places as nat),
                places as nat,
            )
        }),
{
    let ghost a = Number { negative: false, magnitude: b };
    let ghost p = pow10(places as nat);
    let ghost s = nearest_even(a.size(f) * p, f.one());
    let ghost start = out@;
    let ten = power_of_ten(places);
    proof {
        lemma_format(f);
        lemma_units_zero(b as nat, f.w());
        lemma_pow10_pos(places as nat);
    }
    if b == 0 {
        proof {
            lemma_mul_basics(p as int);
            lemma_div_of0(f.one() as int);
            lemma_small_mod(0, f.one());
            lemma_div_of0(p as int);
            lemma_small_mod(0, p);
            assert(s == 0);
        }
        push_count(out, 0);
        out.append(".");
        push_written(out, &last_digits(0, places));
        return;
    }
    let (m, e) = unpack(f, b);
    proof {
        lemma_pow2_pos(e as nat);
        lemma_bits_monotone(f.w() + 1, 53);
        lemma2_to64_rest();
    }
    if e >= f.scale {
        let mut v = split_digits(m as u128);
        let mut i: u32 = f.scale;
        proof {
            lemma2_to64();
            lemma_mul_basics(m as int);
        }
        while i < e
            invariant
                f.scale <= i <= e <= 2045,
                canonical(v@),
                digits_value(v@) == m * pow2((i - f.scale) as nat),
            decreases e - i,
        {
            v = twice(&v);
            proof {
                lemma_pow2_unfold((i + 1 - f.scale) as nat);
                let x = pow2((i - f.scale) as nat) as int;
                assert(2 * (m * x) == m * (2 * x)) by (nonlinear_arith);
            }
            i = i + 1;
        }
        proof {
            let k = (e - f.scale) as nat;
            let w = digits_value(v@) as int;
            lemma_pow2_adds(k, f.scale as nat);
            let x = pow2(k) as int;
            let y = f.one() as int;
            let n = (a.size(f) * p) as int;
            assert(n == (w * p) * y) by (nonlinear_arith)
                requires
                    n == (m * (x * y)) * p,
                    w == m * x,
            ;
            lemma_fundamental_div_mod_converse(n, y, w * p, 0);
            assert(s == w * p);
            lemma_fundamental_div_mod_converse(s as int, p as int, w, 0);
            lemma_canonical(v@);
        }
        push_written(out, &v);
        out.append(".");
        push_written(out, &last_digits(0, places));
        return;
    }
    let k: u32 = f.scale - e;
    proof {
        assert(m * ten < 0x20_0000_0000_0000 * 1_000_000) by (nonlinear_arith)
            requires
                0 <= m < 0x20_0000_0000_0000,
                0 < ten <= 1_000_000,
        ;
    }
    let num: u128 = m as u128 * ten as u128;
    proof {
        // a.size * p / one == (m * p) / 2^k
        lemma_pow2_adds(k as nat, e as nat);
        lemma_pow2_pos(k as nat);
        let x = pow2(e as nat) as int;
        assert((m * x) * p == num * x) by (nonlinear_arith)
            requires
                num == m * p,
        ;
        lemma_nearest_even_scale(num as nat, pow2(k as nat), pow2(e as nat));
        assert(s == nearest_even(num as nat, pow2(k as nat)));
    }
    let q: u128 = if k >= 100 {
        proof {
            lemma_bits_monotone(100, k as nat);
            lemma_pow2_adds(60, 40);
            lemma2_to64_rest();
            lemma2_to64();
            lemma_basic_div(num as int, pow2(k as nat) as int);
            lemma_small_mod(num as nat, pow2(k as nat));
            assert(pow2(60) * pow2(40) > 0x20_0000_0000_0000 * 2_000_000) by (nonlinear_arith)
                requires
                    pow2(60) == 0x1000_0000_0000_0000,
                    pow2(40) == 0x100_0000_0000,
            ;
        }
        0
    } else {
        let w = halved(num, k);
        let unit = power_of_two(k);
        proof {
            lemma_fundamental_div_mod(num as int, unit as int);
            lemma_mul_is_commutative(unit as int, w as int);
            assert(w <= num) by (nonlinear_arith)
                requires
                    num == w * unit + num as int % unit as int,
                    num as int % unit as int >= 0,
                    unit > 0,
                    w >= 0,
            ;
            lemma_bits_monotone(k as nat, 100);
            lemma_pow2_unfold(101);
            lemma_pow2_adds(64, 37);
            lemma2_to64();
            lemma2_to64_rest();
        }
        let r = num - w * unit;
        let up = 2 * r > unit || (2 * r == unit && w % 2 == 1);
        if up {
            w + 1
        } else {
            w
        }
    };
    push_integer(out, q / ten as u128);
    out.append(".");
    let fraction = (q % ten as u128) as u64;
    push_written(out, &last_digits(fraction, places));
}

/// Writes a number with a fixed number of places.
fn push_fixed(out: &mut String, f: Format, a: Number, places: usize, plus: bool)
    requires
        f.wf(),
        0 < places <= 6,
    ensures
        final(out)@ == old(out)@ + fixed_text(f, a, places as nat, plus),
{
    let ghost start = out@;
    if a.magnitude > f.infinity {
        out.append("NaN");
        return;
    }
    let ghost sign = if a.negative {
        "-"@
    } else if plus {
        "+"@
    } else {
        Seq::<char>::empty()
    };
    if a.negative {
        out.append("-");
    } else if plus {
        out.append("+");
    }
    assert(out@ =~= start + sign);
    if a.magnitude == f.infinity {
        out.append("inf");
        assert(out@ =~= start + (sign + "inf"@));
        return;
    }
    push_magnitude(out, f, a.magnitude, places);
    assert(out@ =~= start + fixed_text(f, a, places as nat, plus));
}

impl Single {
    /// The number with `places` digits behind the point.
    pub open spec fn fixed(self, places: nat) -> Seq<char> {
        fixed_text(single_format_spec(), self.number(), places, false)
    }

    /// The number with a sign and `places` digits behind the point.
    pub open spec fn signed_fixed(self, places: nat) -> Seq<char> {
        fixed_text(single_format_spec(), self.number(), places, true)
    }

    pub fn push_fixed(self, out: &mut String, places: usize)
        requires
            0 < places <= 6,
        ensures
            final(out)@ == old(out)@ + self.fixed(places as nat),
    {
        push_fixed(out, single_format(), self.split(), places, false)
    }

    pub fn push_signed_fixed(self, out: &mut String, places: usize)
        requires
            0 < places <= 6,
        ensures
            final(out)@ == old(out)@ + self.signed_fixed(places as nat),
    {
        push_fixed(out, single_format(), self.split(), places, true)
    }
}

impl Double {
    /// The number with `places` digits behind the point.
    pub open spec fn fixed(self, places: nat) -> Seq<char> {
        fixed_text(double_format_spec(), self.number(), places, false)
    }

    pub fn push_fixed(self, out: &mut String, places: usize)
        requires
            0 < places <= 6,
        ensures
            final(out)@ == old(out)@ + self.fixed(places as nat),
    {
        push_fixed(out, double_format(), self.split(), places, false)
    }
}

/// The number that a run of decimal digits stands for.
pub open spec fn numeral(t: Seq<char>) -> nat
    decreases t.len(),
{
    if t.len() == 0 {
        0
    } else {
        10 * numeral(t.drop_last()) + (t.last() as nat - 48) as nat
    }
}

/// The decimal notation of a number reads back as the number, and has no leading zero.
pub proof fn law_digits_read_back(n: nat)
    ensures
        numeral(digits(n)) == n,
        digits(n).len() >= 1,
        n > 0 ==> digits(n)[0] != '0',
    decreases n,
{
    if n < 10 {
        assert(digits(n).drop_last() =~= seq![]);
        assert(numeral(seq![]) == 0);
        assert(digits(n).last() == digit_char(n));
    } else {
        law_digits_read_back(n / 10);
        assert(digits(n).drop_last() =~= digits(n / 10));
        assert(digits(n).last() == digit_char(n % 10));
    }
}

/// Every character is a decimal digit.
pub open spec fn are_digits(t: Seq<char>) -> bool {
    forall|i: int| 0 <= i < t.len() ==> '0' <= (#[trigger] t[i]) <= '9'
}

proof fn lemma_padded_reads(n: nat, k: nat)
    requires
        n < pow10(k),
    ensures
        padded(n, k).len() == k,
        are_digits(padded(n, k)),
        numeral(padded(n, k)) == n,
    decreases k,
{
    if k > 0 {
        lemma_padded_reads(n / 10, (k - 1) as nat);
        assert(padded(n, k).drop_last() =~= padded(n / 10, (k - 1) as nat));
        assert(padded(n, k).last() == digit_char(n % 10));
    } else {
        assert(numeral(seq![]) == 0);
    }
}

/// The notation of a whole number is made of digits.
pub proof fn law_digits_are_digits(n: nat)
    ensures
        are_digits(digits(n)),
    decreases n,
{
    if n >= 10 {
        law_digits_are_digits(n / 10);
    }
}

/// The notation of a finite number with a fixed number of places: a minus where it is negative, a plus
/// where one is asked for, the digits of a whole number, a point, and exactly as many digits behind it;
/// read as one number of that many places, they come as near to the number as can be.
pub proof fn law_fixed_notation(f: Format, a: Number, places: nat, plus: bool)
    requires
        f.wf(),
        a.is_finite_in(f),
    ensures
        exists|whole: Seq<char>, part: Seq<char>|
            {
                let s = numeral(whole) * pow10(places) + numeral(part);
                let exact = a.size(f) * pow10(places);
                &&& fixed_text(f, a, places, plus) == (if a.negative {
                    "-"@
                } else if plus {
                    "+"@
                } else {
                    ""@
                }) + whole + "."@ + part
                &&& are_digits(whole)
                &&& whole.len() > 0
                &&& #[trigger] are_digits(part)
                &&& part.len() == places
                &&& 2 * (s * f.one() - exact) <= f.one()
                &&& 2 * (exact - s * f.one()) <= f.one()
                &&& #[trigger] numeral(whole) >= 0
            },
        pow10(0) == 1,
        places > 0 ==> pow10(places) == 10 * pow10((places - 1) as nat),
{
    let one = f.one();
    lemma_format(f);
    lemma_pow10_pos(places);
    let ten = pow10(places);
    let exact = a.size(f) * ten;
    let s = nearest_even(exact, one);
    let whole = digits(s / ten);
    let part = padded(s % ten, places);
    law_digits_read_back(s / ten);
    law_digits_are_digits(s / ten);
    lemma_mod_bound(s as int, ten as int);
    lemma_padded_reads(s % ten, places);
    lemma_fundamental_div_mod(s as int, ten as int);
    lemma_mul_is_commutative(ten as int, (s / ten) as int);
    assert(numeral(whole) * ten + numeral(part) == s);
    lemma_fundamental_div_mod(exact as int, one as int);
    lemma_mod_bound(exact as int, one as int);
    let q = (exact / one) as int;
    assert(one * q == q * one && (q + 1) * one == q * one + one) by (nonlinear_arith);
    reveal_strlit("");
    assert(""@ =~= Seq::<char>::empty());
    assert(are_digits(part) && numeral(whole) >= 0);
}

/// What is not a number reads `NaN`, and an infinity `inf` behind its sign.
pub proof fn law_fixed_notation_of_the_rest(f: Format, a: Number, places: nat)
    requires
        !a.is_finite_in(f),
    ensures
        a.is_nan_in(f) ==> fixed_text(f, a, places, false) == "NaN"@ && fixed_text(
            f,
            a,
            places,
            true,
        ) == "NaN"@,
        !a.is_nan_in(f) && a.negative ==> fixed_text(f, a, places, false) == "-"@ + "inf"@,
        !a.is_nan_in(f) && !a.negative ==> fixed_text(f, a, places, true) == "+"@ + "inf"@,
        !a.is_nan_in(f) && !a.negative ==> fixed_text(f, a, places, false) == "inf"@,
{
    assert(Seq::<char>::empty() + "inf"@ =~= "inf"@);
}

/// The notations of the two formats: without a plus sign, or with one where it is asked for.
pub proof fn law_notations(x: Single, y: Double, places: nat)
    ensures
        x.fixed(places) == fixed_text(single_format_spec(), x.number(), places, false),
        x.signed_fixed(places) == fixed_text(single_format_spec(), x.number(), places, true),
        y.fixed(places) == fixed_text(double_format_spec(), y.number(), places, false),
{
}

} // verus!
