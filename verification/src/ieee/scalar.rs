//! The two number types.

use vstd::arithmetic::div_mod::*;
use vstd::arithmetic::mul::*;
use vstd::arithmetic::power2::*;
use vstd::prelude::*;

use super::number::{
    converted, double_format, integer, product, quotient, root, single_format, sum, Format, Number,
};
use super::number::{lemma_nearest_zero, lemma_rounded_exact, lemma_units_zero, number_of};
use super::rounding::{excess, lemma_nearest_even_scale, nearest_even, rounded, units};
use super::number::{
    below, converted_of, double_format_spec, integer_of, lemma_format, lemma_units_monotone,
    product_of, quotient_of, root_of, single_format_spec, sum_of,
};

verus! {

/// Every result of the arithmetic leaves room for the sign.
proof fn lemma_fits(f: Format)
    requires
        f.wf(),
    ensures
        f.infinity + pow2((f.width - 1) as nat) <= if f == single_format_spec() {
            0x7fff_ffffint
        } else {
            0x7fff_ffff_ffff_ffffint
        },
{
    lemma_format(f);
}

/// A 32-bit binary floating-point number, held as its bit pattern.
///
/// `==` compares patterns; numeric comparison goes by `lt` and its kin.
#[derive(Clone, Copy, PartialEq, Eq, Structural, Debug)]
pub struct Single {
    pub bits: u32,
}

impl Single {
    /// The sign and the magnitude pattern.
    pub open spec fn number(self) -> Number {
        Number { negative: self.bits >= 0x8000_0000u32, magnitude: (self.bits % 0x8000_0000u32) as u64 }
    }

    pub open spec fn pack_spec(n: Number) -> Single {
        Single {
            bits: (if n.negative {
                0x8000_0000u32 + n.magnitude
            } else {
                n.magnitude as int
            }) as u32,
        }
    }

    #[verifier::when_used_as_spec(from_bits_spec)]
    pub fn from_bits(bits: u32) -> (r: Single)
        ensures
            r == Single::from_bits_spec(bits),
    {
        Single { bits }
    }

    pub open spec fn from_bits_spec(bits: u32) -> Single {
        Single { bits }
    }

    pub fn to_bits(self) -> (r: u32)
        ensures
            r == self.bits,
    {
        self.bits
    }

    pub fn split(self) -> (r: Number)
        ensures
            r == self.number(),
    {
        Number { negative: self.bits >= 0x8000_0000u32, magnitude: (self.bits % 0x8000_0000u32) as u64 }
    }

    fn pack(n: Number) -> (r: Single)
        requires
            n.magnitude < 0x8000_0000u32,
        ensures
            r == Single::pack_spec(n),
    {
        if n.negative {
            Single { bits: 0x8000_0000u32 + n.magnitude as u32 }
        } else {
            Single { bits: n.magnitude as u32 }
        }
    }

    /// Zero.
    #[verifier::when_used_as_spec(zero_spec)]
    pub fn zero() -> (r: Single)
        ensures
            r == Single::zero_spec(),
    {
        Single { bits: 0 }
    }

    pub open spec fn zero_spec() -> Single {
        Single { bits: 0 }
    }

    pub open spec fn is_nan_spec(self) -> bool {
        self.number().is_nan_in(single_format_spec())
    }

    /// Whether the pattern is not a number.
    #[verifier::when_used_as_spec(is_nan_spec)]
    pub fn is_nan(self) -> (r: bool)
        ensures
            r == self.is_nan_spec(),
    {
        self.split().magnitude > single_format().infinity
    }

    pub open spec fn is_finite_spec(self) -> bool {
        self.number().is_finite_in(single_format_spec())
    }

    /// Whether the number is neither infinite nor undefined.
    #[verifier::when_used_as_spec(is_finite_spec)]
    pub fn is_finite(self) -> (r: bool)
        ensures
            r == self.is_finite_spec(),
    {
        self.split().magnitude < single_format().infinity
    }

    #[verifier::opaque]
    pub open spec fn plus_spec(self, other: Single) -> Single {
        Single::pack_spec(sum_of(single_format_spec(), self.number(), other.number()))
    }

    /// The sum, rounded to nearest.
    #[verifier::when_used_as_spec(plus_spec)]
    pub fn plus(self, other: Single) -> (r: Single)
        ensures
            r == self.plus_spec(other),
    {
        proof {
            reveal(Single::plus_spec);
        }
        proof {
            lemma_fits(single_format_spec());
        }
        Single::pack(sum(single_format(), self.split(), other.split()))
    }

    pub open spec fn negated_spec(self) -> Single {
        Single::pack_spec(
            Number { negative: !self.number().negative, magnitude: self.number().magnitude },
        )
    }

    /// The number with the opposite sign.
    #[verifier::when_used_as_spec(negated_spec)]
    pub fn negated(self) -> (r: Single)
        ensures
            r == self.negated_spec(),
    {
        let n = self.split();
        Single::pack(Number { negative: !n.negative, magnitude: n.magnitude })
    }

    pub open spec fn minus_spec(self, other: Single) -> Single {
        self.plus_spec(other.negated_spec())
    }

    /// The difference, rounded to nearest.
    #[verifier::when_used_as_spec(minus_spec)]
    pub fn minus(self, other: Single) -> (r: Single)
        ensures
            r == self.minus_spec(other),
    {
        self.plus(other.negated())
    }

    #[verifier::opaque]
    pub open spec fn times_spec(self, other: Single) -> Single {
        Single::pack_spec(product_of(single_format_spec(), self.number(), other.number()))
    }

    /// The product, rounded to nearest.
    #[verifier::when_used_as_spec(times_spec)]
    pub fn times(self, other: Single) -> (r: Single)
        ensures
            r == self.times_spec(other),
    {
        proof {
            reveal(Single::times_spec);
        }
        proof {
            lemma_fits(single_format_spec());
        }
        Single::pack(product(single_format(), self.split(), other.split()))
    }

    #[verifier::opaque]
    pub open spec fn over_spec(self, other: Single) -> Single {
        Single::pack_spec(quotient_of(single_format_spec(), self.number(), other.number()))
    }

    /// The quotient, rounded to nearest.
    #[verifier::when_used_as_spec(over_spec)]
    pub fn over(self, other: Single) -> (r: Single)
        ensures
            r == self.over_spec(other),
    {
        proof {
            reveal(Single::over_spec);
        }
        proof {
            lemma_fits(single_format_spec());
        }
        Single::pack(quotient(single_format(), self.split(), other.split()))
    }

    #[verifier::opaque]
    pub open spec fn from_count_spec(n: usize) -> Single {
        Single::pack_spec(integer_of(single_format_spec(), n as nat))
    }

    /// The number nearest to a count.
    #[verifier::when_used_as_spec(from_count_spec)]
    pub fn from_count(n: usize) -> (r: Single)
        ensures
            r == Single::from_count_spec(n),
    {
        proof {
            reveal(Single::from_count_spec);
        }
        Single::pack(integer(single_format(), n as u64))
    }

    #[verifier::opaque]
    pub open spec fn from_integer_spec(n: int) -> Single {
        Single::pack_spec(
            Number {
                negative: n < 0,
                magnitude: integer_of(
                    single_format_spec(),
                    if n < 0 {
                        (-n) as nat
                    } else {
                        n as nat
                    },
                ).magnitude,
            },
        )
    }

    /// The number nearest to a whole number that is not negative.
    pub fn from_unsigned(n: u64) -> (r: Single)
        ensures
            r == Single::from_integer_spec(n as int),
    {
        proof {
            reveal(Single::from_integer_spec);
        }
        Single::pack(integer(single_format(), n))
    }

    /// The number nearest to a whole number.
    pub fn from_signed(n: i64) -> (r: Single)
        ensures
            r == Single::from_integer_spec(n as int),
    {
        if n >= 0 {
            return Single::from_unsigned(n as u64);
        }
        proof {
            reveal(Single::from_integer_spec);
        }
        let size = if n == i64::MIN {
            0x8000_0000_0000_0000u64
        } else {
            (-n) as u64
        };
        let m = integer(single_format(), size);
        Single::pack(Number { negative: true, magnitude: m.magnitude })
    }

    #[verifier::opaque]
    pub open spec fn lt_spec(self, other: Single) -> bool {
        below(single_format_spec(), self.number(), other.number())
    }

    /// `self < other`; false where either is not a number.
    #[verifier::when_used_as_spec(lt_spec)]
    pub fn lt(self, other: Single) -> (r: bool)
        ensures
            r == self.lt_spec(other),
    {
        proof {
            reveal(Single::lt_spec);
        }
        let a = self.split();
        let b = other.split();
        if a.magnitude > single_format().infinity || b.magnitude > single_format().infinity {
            false
        } else if a.negative {
            if b.negative {
                b.magnitude < a.magnitude
            } else {
                a.magnitude > 0 || b.magnitude > 0
            }
        } else {
            !b.negative && a.magnitude < b.magnitude
        }
    }

    pub open spec fn le_spec(self, other: Single) -> bool {
        !self.is_nan_spec() && !other.is_nan_spec() && !other.lt_spec(self)
    }

    /// `self <= other`; false where either is not a number.
    #[verifier::when_used_as_spec(le_spec)]
    pub fn le(self, other: Single) -> (r: bool)
        ensures
            r == self.le_spec(other),
    {
        !self.is_nan() && !other.is_nan() && !other.lt(self)
    }

    pub open spec fn max_spec(self, other: Single) -> Single {
        if self.is_nan_spec() || self.lt_spec(other) {
            other
        } else {
            self
        }
    }

    /// The greater one; the one that is a number where only one is.
    #[verifier::when_used_as_spec(max_spec)]
    pub fn max(self, other: Single) -> (r: Single)
        ensures
            r == self.max_spec(other),
    {
        if self.is_nan() || self.lt(other) {
            other
        } else {
            self
        }
    }

    #[verifier::opaque]
    pub open spec fn widened_spec(self) -> Double {
        Double::pack_spec(converted_of(single_format_spec(), double_format_spec(), self.number()))
    }

    /// The number in the other format.
    #[verifier::when_used_as_spec(widened_spec)]
    pub fn widened(self) -> (r: Double)
        ensures
            r == self.widened_spec(),
    {
        proof {
            reveal(Single::widened_spec);
        }
        proof {
            lemma_fits(double_format_spec());
        }
        Double::pack(converted(single_format(), double_format(), self.split()))
    }

    pub open spec fn abs_spec(self) -> Single {
        Single { bits: (self.bits % 0x8000_0000) as u32 }
    }

    /// The magnitude.
    #[verifier::when_used_as_spec(abs_spec)]
    pub fn abs(self) -> (r: Single)
        ensures
            r == self.abs_spec(),
    {
        Single { bits: self.bits % 0x8000_0000 }
    }

    #[verifier::opaque]
    pub open spec fn root_spec(self) -> Single {
        Single::pack_spec(root_of(single_format_spec(), self.number()))
    }

    /// The square root, rounded to nearest.
    #[verifier::when_used_as_spec(root_spec)]
    pub fn root(self) -> (r: Single)
        ensures
            r == self.root_spec(),
    {
        proof {
            reveal(Single::root_spec);
        }
        proof {
            lemma_fits(single_format_spec());
        }
        Single::pack(root(single_format(), self.split()))
    }
}

/// A 64-bit binary floating-point number, held as its bit pattern.
///
/// `==` compares patterns; numeric comparison goes by `lt` and its kin.
#[derive(Clone, Copy, PartialEq, Eq, Structural, Debug)]
pub struct Double {
    pub bits: u64,
}

impl Double {
    /// The sign and the magnitude pattern.
    pub open spec fn number(self) -> Number {
        Number { negative: self.bits >= 0x8000_0000_0000_0000u64, magnitude: (self.bits % 0x8000_0000_0000_0000u64) as u64 }
    }

    pub open spec fn pack_spec(n: Number) -> Double {
        Double {
            bits: (if n.negative {
                0x8000_0000_0000_0000u64 + n.magnitude
            } else {
                n.magnitude as int
            }) as u64,
        }
    }

    #[verifier::when_used_as_spec(from_bits_spec)]
    pub fn from_bits(bits: u64) -> (r: Double)
        ensures
            r == Double::from_bits_spec(bits),
    {
        Double { bits }
    }

    pub open spec fn from_bits_spec(bits: u64) -> Double {
        Double { bits }
    }

    pub fn to_bits(self) -> (r: u64)
        ensures
            r == self.bits,
    {
        self.bits
    }

    pub fn split(self) -> (r: Number)
        ensures
            r == self.number(),
    {
        Number { negative: self.bits >= 0x8000_0000_0000_0000u64, magnitude: (self.bits % 0x8000_0000_0000_0000u64) as u64 }
    }

    fn pack(n: Number) -> (r: Double)
        requires
            n.magnitude < 0x8000_0000_0000_0000u64,
        ensures
            r == Double::pack_spec(n),
    {
        if n.negative {
            Double { bits: 0x8000_0000_0000_0000u64 + n.magnitude as u64 }
        } else {
            Double { bits: n.magnitude as u64 }
        }
    }

    /// Zero.
    #[verifier::when_used_as_spec(zero_spec)]
    pub fn zero() -> (r: Double)
        ensures
            r == Double::zero_spec(),
    {
        Double { bits: 0 }
    }

    pub open spec fn zero_spec() -> Double {
        Double { bits: 0 }
    }

    pub open spec fn is_nan_spec(self) -> bool {
        self.number().is_nan_in(double_format_spec())
    }

    /// Whether the pattern is not a number.
    #[verifier::when_used_as_spec(is_nan_spec)]
    pub fn is_nan(self) -> (r: bool)
        ensures
            r == self.is_nan_spec(),
    {
        self.split().magnitude > double_format().infinity
    }

    pub open spec fn is_finite_spec(self) -> bool {
        self.number().is_finite_in(double_format_spec())
    }

    /// Whether the number is neither infinite nor undefined.
    #[verifier::when_used_as_spec(is_finite_spec)]
    pub fn is_finite(self) -> (r: bool)
        ensures
            r == self.is_finite_spec(),
    {
        self.split().magnitude < double_format().infinity
    }

    #[verifier::opaque]
    pub open spec fn plus_spec(self, other: Double) -> Double {
        Double::pack_spec(sum_of(double_format_spec(), self.number(), other.number()))
    }

    /// The sum, rounded to nearest.
    #[verifier::when_used_as_spec(plus_spec)]
    pub fn plus(self, other: Double) -> (r: Double)
        ensures
            r == self.plus_spec(other),
    {
        proof {
            reveal(Double::plus_spec);
        }
        proof {
            lemma_fits(double_format_spec());
        }
        Double::pack(sum(double_format(), self.split(), other.split()))
    }

    pub open spec fn negated_spec(self) -> Double {
        Double::pack_spec(
            Number { negative: !self.number().negative, magnitude: self.number().magnitude },
        )
    }

    /// The number with the opposite sign.
    #[verifier::when_used_as_spec(negated_spec)]
    pub fn negated(self) -> (r: Double)
        ensures
            r == self.negated_spec(),
    {
        let n = self.split();
        Double::pack(Number { negative: !n.negative, magnitude: n.magnitude })
    }

    pub open spec fn minus_spec(self, other: Double) -> Double {
        self.plus_spec(other.negated_spec())
    }

    /// The difference, rounded to nearest.
    #[verifier::when_used_as_spec(minus_spec)]
    pub fn minus(self, other: Double) -> (r: Double)
        ensures
            r == self.minus_spec(other),
    {
        self.plus(other.negated())
    }

    #[verifier::opaque]
    pub open spec fn times_spec(self, other: Double) -> Double {
        Double::pack_spec(product_of(double_format_spec(), self.number(), other.number()))
    }

    /// The product, rounded to nearest.
    #[verifier::when_used_as_spec(times_spec)]
    pub fn times(self, other: Double) -> (r: Double)
        ensures
            r == self.times_spec(other),
    {
        proof {
            reveal(Double::times_spec);
        }
        proof {
            lemma_fits(double_format_spec());
        }
        Double::pack(product(double_format(), self.split(), other.split()))
    }

    #[verifier::opaque]
    pub open spec fn over_spec(self, other: Double) -> Double {
        Double::pack_spec(quotient_of(double_format_spec(), self.number(), other.number()))
    }

    /// The quotient, rounded to nearest.
    #[verifier::when_used_as_spec(over_spec)]
    pub fn over(self, other: Double) -> (r: Double)
        ensures
            r == self.over_spec(other),
    {
        proof {
            reveal(Double::over_spec);
        }
        proof {
            lemma_fits(double_format_spec());
        }
        Double::pack(quotient(double_format(), self.split(), other.split()))
    }

    #[verifier::opaque]
    pub open spec fn from_count_spec(n: usize) -> Double {
        Double::pack_spec(integer_of(double_format_spec(), n as nat))
    }

    /// The number nearest to a count.
    #[verifier::when_used_as_spec(from_count_spec)]
    pub fn from_count(n: usize) -> (r: Double)
        ensures
            r == Double::from_count_spec(n),
    {
        proof {
            reveal(Double::from_count_spec);
        }
        Double::pack(integer(double_format(), n as u64))
    }

    #[verifier::opaque]
    pub open spec fn lt_spec(self, other: Double) -> bool {
        below(double_format_spec(), self.number(), other.number())
    }

    /// `self < other`; false where either is not a number.
    #[verifier::when_used_as_spec(lt_spec)]
    pub fn lt(self, other: Double) -> (r: bool)
        ensures
            r == self.lt_spec(other),
    {
        proof {
            reveal(Double::lt_spec);
        }
        let a = self.split();
        let b = other.split();
        if a.magnitude > double_format().infinity || b.magnitude > double_format().infinity {
            false
        } else if a.negative {
            if b.negative {
                b.magnitude < a.magnitude
            } else {
                a.magnitude > 0 || b.magnitude > 0
            }
        } else {
            !b.negative && a.magnitude < b.magnitude
        }
    }

    pub open spec fn le_spec(self, other: Double) -> bool {
        !self.is_nan_spec() && !other.is_nan_spec() && !other.lt_spec(self)
    }

    /// `self <= other`; false where either is not a number.
    #[verifier::when_used_as_spec(le_spec)]
    pub fn le(self, other: Double) -> (r: bool)
        ensures
            r == self.le_spec(other),
    {
        !self.is_nan() && !other.is_nan() && !other.lt(self)
    }

    pub open spec fn max_spec(self, other: Double) -> Double {
        if self.is_nan_spec() || self.lt_spec(other) {
            other
        } else {
            self
        }
    }

    /// The greater one; the one that is a number where only one is.
    #[verifier::when_used_as_spec(max_spec)]
    pub fn max(self, other: Double) -> (r: Double)
        ensures
            r == self.max_spec(other),
    {
        if self.is_nan() || self.lt(other) {
            other
        } else {
            self
        }
    }

    #[verifier::opaque]
    pub open spec fn narrowed_spec(self) -> Single {
        Single::pack_spec(converted_of(double_format_spec(), single_format_spec(), self.number()))
    }

    /// The number in the other format.
    #[verifier::when_used_as_spec(narrowed_spec)]
    pub fn narrowed(self) -> (r: Single)
        ensures
            r == self.narrowed_spec(),
    {
        proof {
            reveal(Double::narrowed_spec);
        }
        proof {
            lemma_fits(single_format_spec());
        }
        Single::pack(converted(double_format(), single_format(), self.split()))
    }
}

/// Numeric order is the order of the values: of two finite numbers the one with the lesser value
/// lies below the other.
pub proof fn law_order_by_value(a: Single, b: Single)
    requires
        a.is_finite(),
        b.is_finite(),
    ensures
        a.lt(b) <==> a.number().value(single_format_spec()) < b.number().value(
            single_format_spec(),
        ),
{
    reveal(Single::lt_spec);
    let f = single_format_spec();
    let x = a.number().magnitude as nat;
    let y = b.number().magnitude as nat;
    super::number::lemma_units_zero(x, f.w());
    super::number::lemma_units_zero(y, f.w());
    if x < y {
        lemma_units_monotone(x, y, f.w());
    } else if y < x {
        lemma_units_monotone(y, x, f.w());
    }
}

/// The order of the numbers is strict and transitive, and numbers that are not ordered either way
/// are equal in value: what is not below `c` while `a` is, `a` is below too.
pub proof fn law_order(a: Single, b: Single, c: Single)
    ensures
        !a.lt(a),
        a.lt(b) ==> !b.lt(a) && !a.is_nan() && !b.is_nan(),
        a.lt(b) && b.lt(c) ==> a.lt(c),
        a.le(b) && b.le(c) ==> a.le(c),
        a.lt(b) && b.le(c) ==> a.lt(c),
        a.le(b) && b.lt(c) ==> a.lt(c),
        a.lt(b) ==> a.le(b),
{
    reveal(Single::lt_spec);
}

/// Every finite number lies between the two infinities.
pub proof fn law_infinities(a: Single)
    requires
        a.is_finite(),
    ensures
        a.lt(Single::from_bits(0x7f80_0000)),
        Single::from_bits(0xff80_0000).lt(a),
        !a.is_nan(),
{
    reveal(Single::lt_spec);
}

pub proof fn lemma_excess_bound(q: nat, p: nat, l: nat)
    requires
        q < pow2(l),
        p <= l,
    ensures
        excess(q, p) <= l - p,
        q < pow2(p + excess(q, p)),
    decreases q,
{
    if q >= pow2(p) {
        lemma_pow2_pos(p);
        if l == p {
            assert(false);
        }
        lemma_pow2_unfold(l);
        lemma_excess_bound(q / 2, p, (l - 1) as nat);
        lemma_pow2_unfold(p + excess(q, p));
    }
}

/// A count is a finite number, and no count but zero is zero.
pub proof fn lemma_from_count(n: usize)
    ensures
        Single::from_count(n).is_finite(),
        !Single::from_count(n).is_nan(),
        !Single::from_count(n).number().negative,
        n > 0 ==> Single::from_count(n).number().magnitude > 0,
{
    reveal(Single::from_count_spec);
    let f = single_format_spec();
    lemma_format(f);
    lemma2_to64();
    let x = (n as nat * f.one()) as nat;
    assert(x < pow2(64) * f.one()) by (nonlinear_arith)
        requires
            x == n * f.one(),
            n < pow2(64),
            f.one() > 0,
    ;
    lemma_pow2_adds(64, 149);
    lemma_excess_bound(x, 24, 213);
    let k = excess(x, 24);
    lemma_pow2_adds(24, k);
    lemma_pow2_pos(k);
    lemma_div_basics(x as int);
    let d = pow2(k) as int;
    lemma_mul_basics(d);
    let q = nearest_even(x, pow2(k));
    lemma_multiply_divide_lt(x as int, d, pow2(24) as int);
    assert(x / pow2(k) < pow2(24));
    assert(q <= pow2(24));
    lemma2_to64_rest();
    assert(k * pow2(23) <= 189 * pow2(23)) by (nonlinear_arith)
        requires
            k <= 189,
    ;
    if n > 0 {
        assert(x > 0) by (nonlinear_arith)
            requires
                x == n * f.one(),
                n > 0,
                f.one() > 0,
        ;
        if k == 0 {
            assert(x % 1 == 0);
            assert(q == x);
        } else {
            assert(k * pow2(23) > 0) by (nonlinear_arith)
                requires
                    k > 0,
                    pow2(23) > 0,
            ;
        }
    }
}

pub proof fn lemma_pack(n: Number)
    requires
        n.magnitude < 0x8000_0000u32,
    ensures
        Single::pack_spec(n).number() == n,
{
}

proof fn lemma_nearest_is_number(f: Format, n: nat, d: nat)
    requires
        f.wf(),
    ensures
        f.nearest(n, d) <= f.infinity,
{
}

/// Where arithmetic on numbers gives a number: a sum or a difference unless infinities meet, a
/// quotient by a finite number that is not zero, a product by such a number.
pub proof fn law_numbers_stay_numbers(a: Single, b: Single)
    requires
        !a.is_nan(),
        b.is_finite(),
    ensures
        !a.plus(b).is_nan(),
        !a.minus(b).is_nan(),
        !b.plus(a).is_nan(),
        b.number().magnitude > 0 ==> !a.over(b).is_nan() && !a.times(b).is_nan(),
{
    let c = b.negated();
    assert(c.is_finite());
    lemma_sum_is_number(a, b);
    lemma_sum_is_number(a, c);
    lemma_sum_is_number(b, a);
    reveal(Single::over_spec);
    reveal(Single::times_spec);
    let f = single_format_spec();
    let x = a.number();
    let y = b.number();
    lemma_nearest_is_number(f, x.size(f) * y.size(f), f.one());
    lemma_nearest_is_number(f, x.size(f) * f.one(), y.size(f));
    if y.magnitude > 0 {
        assert(product_of(f, x, y).magnitude <= f.infinity);
        assert(quotient_of(f, x, y).magnitude <= f.infinity);
        lemma_pack(product_of(f, x, y));
        lemma_pack(quotient_of(f, x, y));
    }
}

proof fn lemma_sum_is_number(a: Single, b: Single)
    requires
        !a.is_nan(),
        !b.is_nan(),
        a.is_finite() || b.is_finite(),
    ensures
        !a.plus(b).is_nan(),
{
    reveal(Single::plus_spec);
    let f = single_format_spec();
    let x = a.number();
    let y = b.number();
    let v = x.value(f) + y.value(f);
    lemma_nearest_is_number(f, v as nat, 1);
    lemma_nearest_is_number(f, (-v) as nat, 1);
    lemma_pack(sum_of(f, x, y));
}

/// A count divided by itself is one.
pub proof fn law_count_over_itself(n: usize)
    requires
        n > 0,
    ensures
        Single::from_count(n).over(Single::from_count(n)) == Single::from_bits(0x3f80_0000),
{
    lemma_from_count(n);
    reveal(Single::over_spec);
    let f = single_format_spec();
    let x = Single::from_count(n).number();
    let size = x.size(f);
    lemma_format(f);
    lemma_units_zero(x.magnitude as nat, f.w());
    // size * one / size is one, which is the number of units of a pattern
    let u = units(0x3f80_0000, 23);
    lemma_one_units();
    lemma_rounded_exact(0x3f80_0000, 23, f.infinity as nat);
    lemma_ratio(f.one(), size);
    lemma_mul_is_commutative(size as int, f.one() as int);
    assert(f.nearest(size * f.one(), size) == 0x3f80_0000);
}

pub proof fn lemma_one_units()
    ensures
        units(0x3f80_0000, 23) == pow2(149),
{
    lemma2_to64();
    lemma2_to64_rest();
    lemma_pow2_adds(23, 126);
    assert(0x3f80_0000nat / 0x80_0000nat == 127);
    assert(0x3f80_0000nat % 0x80_0000nat == 0);
}

/// Rounding depends on the ratio alone.
proof fn lemma_ratio(n: nat, c: nat)
    requires
        c > 0,
    ensures
        rounded(n * c, c, 23, 0x7f80_0000) == rounded(n, 1, 23, 0x7f80_0000),
{
    lemma_mul_basics(c as int);
    lemma_nearest_even_scale(n, 1, c);
    let k = excess(n, 24);
    lemma_div_basics(n as int);
    lemma_pow2_pos(k);
    lemma_nearest_even_scale(n, pow2(k), c);
    lemma_mul_is_commutative(pow2(k) as int, c as int);
    lemma_mul_basics(pow2(k) as int);
}

/// One less nothing is one, and one less one nothing.
pub proof fn law_one_less_one(n: usize)
    requires
        n > 0,
    ensures
        Single::from_bits(0x3f80_0000).minus(Single::from_bits(0x3f80_0000)) == Single::zero(),
        Single::from_bits(0x3f80_0000).minus(
            Single::from_count(0).over(Single::from_count(n)),
        ) == Single::from_bits(0x3f80_0000),
{
    lemma_from_count(n);
    let f = single_format_spec();
    reveal(Single::from_count_spec);
    reveal(Single::over_spec);
    reveal(Single::plus_spec);
    lemma_format(f);
    lemma_mul_basics(f.one() as int);
    let size = Single::from_count(n).number().size(f);
    lemma_units_zero(Single::from_count(n).number().magnitude as nat, f.w());
    lemma_nearest_zero(f, 1);
    lemma_nearest_zero(f, size);
    lemma_one_units();
    lemma_rounded_exact(0x3f80_0000, 23, f.infinity as nat);
}

/// One times one is one.
pub proof fn law_one_times_one()
    ensures
        Single::from_bits(0x3f80_0000).times(Single::from_bits(0x3f80_0000)) == Single::from_bits(
            0x3f80_0000,
        ),
{
    reveal(Single::times_spec);
    let f = single_format_spec();
    lemma_format(f);
    lemma_one_units();
    lemma_ratio(f.one(), f.one());
    lemma_rounded_exact(0x3f80_0000, 23, f.infinity as nat);
}

/// A finite number less itself is zero.
pub proof fn law_less_itself(a: Single)
    requires
        a.is_finite(),
    ensures
        a.minus(a).number().magnitude == 0,
{
    reveal(Single::plus_spec);
    lemma_pack(Number { negative: false, magnitude: 0 });
    lemma_pack(Number { negative: true, magnitude: 0 });
}

/// Turning the sign twice changes nothing, and keeps what is finite finite.
pub proof fn law_negated_twice(a: Single)
    ensures
        a.negated().negated() == a,
        a.negated().is_finite() == a.is_finite(),
        a.negated().number().magnitude == a.number().magnitude,
        a.negated().number().negative == !a.number().negative,
{
}

/// The difference of two numbers is the other way round with its sign turned, unless it is zero.
pub proof fn law_difference_turned(a: Single, b: Single)
    requires
        a.is_finite(),
        b.is_finite(),
    ensures
        a.minus(b) == b.minus(a).negated() || (a.minus(b).number().magnitude == 0 && b.minus(
            a,
        ).number().magnitude == 0),
{
    reveal(Single::plus_spec);
    law_negated_twice(a);
    law_negated_twice(b);
    let f = single_format_spec();
    let x = a.number();
    let y = b.number();
    let v = x.value(f) - y.value(f);
    assert(b.negated().number().value(f) == -y.value(f));
    assert(a.negated().number().value(f) == -x.value(f));
    lemma_nearest_is_number(f, v as nat, 1);
    lemma_nearest_is_number(f, (-v) as nat, 1);
    if v == 0 {
        lemma_pack(Number { negative: false, magnitude: 0 });
        lemma_pack(Number { negative: true, magnitude: 0 });
    } else {
        let n = number_of(f, v);
        let m = number_of(f, -v);
        lemma_pack(n);
        lemma_pack(m);
        assert(n.magnitude == m.magnitude && n.negative == !m.negative);
    }
}

/// Turning the sign of a factor turns the sign of the product.
pub proof fn law_product_turned(a: Single, b: Single)
    requires
        a.is_finite() || b.number().magnitude > 0,
        !a.is_nan(),
        b.is_finite(),
    ensures
        a.negated().times(b) == a.times(b).negated(),
{
    reveal(Single::times_spec);
    law_negated_twice(a);
    let f = single_format_spec();
    let x = a.number();
    let y = b.number();
    lemma_nearest_is_number(f, x.size(f) * y.size(f), f.one());
    lemma_pack(product_of(f, x, y));
    lemma_pack(product_of(f, a.negated().number(), y));
}

/// Nothing added changes no number but a zero, which loses its sign.
pub proof fn law_nothing_added(a: Single)
    requires
        !a.is_nan(),
    ensures
        a.number().magnitude > 0 ==> a.plus(Single::zero()) == a,
        a.number().magnitude == 0 ==> a.plus(Single::zero()) == Single::zero(),
{
    reveal(Single::plus_spec);
    let f = single_format_spec();
    let x = a.number();
    lemma_format(f);
    lemma_units_zero(x.magnitude as nat, f.w());
    if x.magnitude == 0 {
        lemma_pack(Number { negative: false, magnitude: 0 });
    } else if a.is_finite() {
        lemma_rounded_exact(x.magnitude as nat, f.w(), f.infinity as nat);
        lemma_pack(x);
    } else {
        lemma_pack(x);
    }
}

/// Half of zero is zero.
pub proof fn law_zero_halved(a: Single)
    requires
        a.number().magnitude == 0,
    ensures
        a.times(Single::from_bits(0x3f00_0000)).number().magnitude == 0,
{
    reveal(Single::times_spec);
    let f = single_format_spec();
    lemma_format(f);
    lemma_units_zero(0, f.w());
    let y = Single::from_bits(0x3f00_0000).number();
    lemma_mul_basics(y.size(f) as int);
    lemma_nearest_zero(f, f.one());
    lemma_pack(product_of(f, a.number(), y));
}

} // verus!
