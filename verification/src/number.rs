//! The number type of the language: an IEEE-754 binary64 value with its
//! arithmetic, comparisons and conversion from a decimal literal.

use crate::bignat::BigNat;
use crate::double::{
    exponent, is_infinite, is_nan, is_negative, is_zero, magnitude, nearest, round_ratio, scaled,
    signed_scaled, significand, with_sign, HIDDEN_BIT, INFINITY_BITS, NAN_BITS, SIGN_BIT,
};
use vstd::arithmetic::power2::*;
use vstd::prelude::*;

verus! {

/// The bits of `b` with the sign changed.
pub open spec fn flipped(b: u64) -> u64 {
    with_sign(!is_negative(b), magnitude(b))
}

/// The bits of the sum of the numbers with bits `a` and `b`.
pub open spec fn sum_bits(a: u64, b: u64) -> u64 {
    let x = scaled(magnitude(a));
    let y = scaled(magnitude(b));
    if is_nan(a) || is_nan(b) {
        NAN_BITS
    } else if is_infinite(a) {
        if is_infinite(b) && is_negative(a) != is_negative(b) {
            NAN_BITS
        } else {
            a
        }
    } else if is_infinite(b) {
        b
    } else if is_negative(a) == is_negative(b) {
        with_sign(is_negative(a), nearest(x + y, 1))
    } else if x < y {
        with_sign(is_negative(b), nearest((y - x) as nat, 1))
    } else if y < x {
        with_sign(is_negative(a), nearest((x - y) as nat, 1))
    } else {
        0
    }
}

/// The bits of the difference of the numbers with bits `a` and `b`.
pub open spec fn difference_bits(a: u64, b: u64) -> u64 {
    sum_bits(a, flipped(b))
}

/// The bits of the product of the numbers with bits `a` and `b`.
pub open spec fn product_bits(a: u64, b: u64) -> u64 {
    let negative = is_negative(a) != is_negative(b);
    if is_nan(a) || is_nan(b) {
        NAN_BITS
    } else if is_infinite(a) || is_infinite(b) {
        if is_zero(a) || is_zero(b) {
            NAN_BITS
        } else {
            with_sign(negative, INFINITY_BITS as nat)
        }
    } else {
        with_sign(
            negative,
            nearest(scaled(magnitude(a)) * scaled(magnitude(b)), pow2(1074)),
        )
    }
}

/// The bits of the quotient of the numbers with bits `a` and `b`.
pub open spec fn quotient_bits(a: u64, b: u64) -> u64 {
    let negative = is_negative(a) != is_negative(b);
    if is_nan(a) || is_nan(b) {
        NAN_BITS
    } else if is_infinite(a) {
        if is_infinite(b) {
            NAN_BITS
        } else {
            with_sign(negative, INFINITY_BITS as nat)
        }
    } else if is_infinite(b) {
        with_sign(negative, 0)
    } else if is_zero(b) {
        if is_zero(a) {
            NAN_BITS
        } else {
            with_sign(negative, INFINITY_BITS as nat)
        }
    } else {
        with_sign(
            negative,
            nearest(scaled(magnitude(a)) * pow2(1074), scaled(magnitude(b))),
        )
    }
}

/// Whether the number with bits `a` is below the one with bits `b`.
pub open spec fn less_bits(a: u64, b: u64) -> bool {
    !is_nan(a) && !is_nan(b) && signed_scaled(a) < signed_scaled(b)
}

/// Whether the numbers with bits `a` and `b` are equal: no NaN equals
/// anything, and the two zeros are equal.
pub open spec fn equal_bits(a: u64, b: u64) -> bool {
    !is_nan(a) && !is_nan(b) && signed_scaled(a) == signed_scaled(b)
}

/// Whether the character is a decimal digit.
pub open spec fn is_digit(c: char) -> bool {
    '0' <= c && c <= '9'
}

/// The number that a decimal digit stands for.
pub open spec fn digit_value(c: char) -> nat {
    (c as u32 - '0' as u32) as nat
}

/// Ten to the power `k`.
pub open spec fn pow10(k: nat) -> nat
    decreases k,
{
    if k == 0 {
        1
    } else {
        10 * pow10((k - 1) as nat)
    }
}

/// Whether `s` holds a decimal point.
pub open spec fn has_point(s: Seq<char>) -> bool
    decreases s.len(),
{
    s.len() > 0 && (s.last() == '.' || has_point(s.drop_last()))
}

/// The digits of `s`, read as one decimal natural.
pub open spec fn decimal_digits(s: Seq<char>) -> nat
    decreases s.len(),
{
    if s.len() == 0 {
        0
    } else if is_digit(s.last()) {
        decimal_digits(s.drop_last()) * 10 + digit_value(s.last())
    } else {
        decimal_digits(s.drop_last())
    }
}

/// How many digits of `s` stand after its first decimal point.
pub open spec fn fraction_digits(s: Seq<char>) -> nat
    decreases s.len(),
{
    if s.len() == 0 {
        0
    } else if is_digit(s.last()) && has_point(s.drop_last()) {
        1 + fraction_digits(s.drop_last())
    } else {
        fraction_digits(s.drop_last())
    }
}

/// The bits of the number nearest to the decimal literal `s`: its digits
/// as a natural, divided by ten for each digit after the point.
pub open spec fn decimal_bits(s: Seq<char>) -> u64 {
    nearest(decimal_digits(s) * pow2(1074), pow10(fraction_digits(s))) as u64
}

/// A power of ten is positive.
pub proof fn lemma_pow10_positive(k: nat)
    ensures
        pow10(k) > 0,
    decreases k,
{
    if k > 0 {
        lemma_pow10_positive((k - 1) as nat);
    }
}

/// A magnitude other than zero has a value other than zero.
pub proof fn lemma_scaled_positive(m: nat)
    requires
        m > 0,
    ensures
        scaled(m) > 0,
{
    lemma_pow2_pos(exponent(m));
    let h = HIDDEN_BIT as nat;
    assert(m == h * (m / h) + m % h) by {
        vstd::arithmetic::div_mod::lemma_fundamental_div_mod(m as int, h as int);
    }
    assert(significand(m) > 0);
    assert(significand(m) * pow2(exponent(m)) > 0) by (nonlinear_arith)
        requires
            significand(m) > 0,
            pow2(exponent(m)) > 0,
    ;
}

/// Among magnitudes up to infinity, larger bits mean a larger value.
pub proof fn lemma_scaled_increases(a: nat, b: nat)
    requires
        a < b,
    ensures
        scaled(a) < scaled(b),
{
    let h = HIDDEN_BIT as nat;
    vstd::arithmetic::div_mod::lemma_fundamental_div_mod(a as int, h as int);
    vstd::arithmetic::div_mod::lemma_fundamental_div_mod(b as int, h as int);
    let ea = a / h;
    let eb = b / h;
    let pa = pow2(exponent(a));
    let pb = pow2(exponent(b));
    let sa = significand(a);
    let sb = significand(b);
    lemma_pow2_pos(exponent(a));
    lemma_pow2_pos(exponent(b));
    assert(ea <= eb) by {
        vstd::arithmetic::div_mod::lemma_div_is_ordered(a as int, b as int, h as int);
    }
    if ea == eb {
        assert(sa < sb);
        assert(sa * pa < sb * pb) by (nonlinear_arith)
            requires
                sa < sb,
                pa == pb,
                pa > 0,
        ;
    } else if ea == 0 {
        lemma2_to64();
        assert(sa * pa < sb * pb) by (nonlinear_arith)
            requires
                sa < h,
                sb >= h,
                pa == 1,
                pb >= 1,
        ;
    } else {
        lemma_pow2_unfold((exponent(a) + 1) as nat);
        if exponent(a) + 1 < exponent(b) {
            lemma_pow2_strictly_increases((exponent(a) + 1) as nat, exponent(b));
        }
        assert(sa * pa < sb * pb) by (nonlinear_arith)
            requires
                sa < 2 * h,
                sb >= h,
                pb >= 2 * pa,
                pa > 0,
        ;
    }
}

/// An IEEE-754 binary64 number, held as its bits.
#[derive(Clone, Copy, Debug)]
pub struct Double {
    pub bits: u64,
}

impl PartialEq for Double {
    /// Equality of numbers: see `equal_bits`.
    fn eq(&self, other: &Self) -> (r: bool) {
        self.equals(*other)
    }
}

impl vstd::std_specs::cmp::PartialEqSpecImpl for Double {
    open spec fn obeys_eq_spec() -> bool {
        true
    }

    open spec fn eq_spec(&self, other: &Self) -> bool {
        equal_bits(self.bits, other.bits)
    }
}

/// The bits of `b` below the sign bit.
pub fn magnitude_of(b: u64) -> (m: u64)
    ensures
        m == magnitude(b),
        m < SIGN_BIT,
{
    if b >= SIGN_BIT {
        b - SIGN_BIT
    } else {
        b
    }
}

/// The bits with magnitude `m` and the given sign.
fn signed(negative: bool, m: u64) -> (b: u64)
    requires
        m < SIGN_BIT,
    ensures
        b == with_sign(negative, m as nat),
{
    if negative {
        m + SIGN_BIT
    } else {
        m
    }
}

/// The value of the magnitude bits `m`, in units of 2^-1074.
pub fn scaled_of(m: u64) -> (r: BigNat)
    requires
        m < SIGN_BIT,
    ensures
        r@ == scaled(m as nat),
{
    let e: u64 = m / HIDDEN_BIT;
    let f: u64 = m % HIDDEN_BIT;
    if e == 0 {
        proof {
            crate::bignat::lemma_mul_pow2_zero(f as nat);
        }
        BigNat::from_u64(f)
    } else {
        BigNat::from_u64(HIDDEN_BIT + f).shifted_left((e - 1) as usize)
    }
}

impl Double {
    /// The number with the given IEEE-754 bits.
    pub fn from_bits(bits: u64) -> (r: Double)
        ensures
            r.bits == bits,
    {
        Double { bits }
    }

    /// The IEEE-754 bits of the number.
    pub fn to_bits(self) -> (bits: u64)
        ensures
            bits == self.bits,
    {
        self.bits
    }

    /// Whether the number is a NaN.
    pub fn is_nan(self) -> (r: bool)
        ensures
            r == is_nan(self.bits),
    {
        magnitude_of(self.bits) > INFINITY_BITS
    }

    /// The sum of the two numbers.
    pub fn plus(self, other: Double) -> (r: Double)
        ensures
            r.bits == sum_bits(self.bits, other.bits),
    {
        let ma: u64 = magnitude_of(self.bits);
        let mb: u64 = magnitude_of(other.bits);
        let na: bool = self.bits >= SIGN_BIT;
        let nb: bool = other.bits >= SIGN_BIT;
        if ma > INFINITY_BITS || mb > INFINITY_BITS {
            return Double { bits: NAN_BITS };
        }
        if ma == INFINITY_BITS {
            if mb == INFINITY_BITS && na != nb {
                return Double { bits: NAN_BITS };
            }
            return self;
        }
        if mb == INFINITY_BITS {
            return other;
        }
        let x = scaled_of(ma);
        let y = scaled_of(mb);
        let one = BigNat::from_u64(1);
        if na == nb {
            let m: u64 = round_ratio(&x.plus(&y), &one);
            Double { bits: signed(na, m) }
        } else if x.is_less_than(&y) {
            let m: u64 = round_ratio(&y.minus(&x), &one);
            Double { bits: signed(nb, m) }
        } else if y.is_less_than(&x) {
            let m: u64 = round_ratio(&x.minus(&y), &one);
            Double { bits: signed(na, m) }
        } else {
            Double { bits: 0 }
        }
    }

    /// The number with the sign changed.
    pub fn negated(self) -> (r: Double)
        ensures
            r.bits == flipped(self.bits),
    {
        let m: u64 = magnitude_of(self.bits);
        Double { bits: signed(!(self.bits >= SIGN_BIT), m) }
    }

    /// The difference of the two numbers.
    pub fn minus(self, other: Double) -> (r: Double)
        ensures
            r.bits == difference_bits(self.bits, other.bits),
    {
        self.plus(other.negated())
    }

    /// The product of the two numbers.
    pub fn times(self, other: Double) -> (r: Double)
        ensures
            r.bits == product_bits(self.bits, other.bits),
    {
        let ma: u64 = magnitude_of(self.bits);
        let mb: u64 = magnitude_of(other.bits);
        let negative: bool = (self.bits >= SIGN_BIT) != (other.bits >= SIGN_BIT);
        if ma > INFINITY_BITS || mb > INFINITY_BITS {
            return Double { bits: NAN_BITS };
        }
        if ma == INFINITY_BITS || mb == INFINITY_BITS {
            if ma == 0 || mb == 0 {
                return Double { bits: NAN_BITS };
            }
            return Double { bits: signed(negative, INFINITY_BITS) };
        }
        let ea: u64 = ma / HIDDEN_BIT;
        let eb: u64 = mb / HIDDEN_BIT;
        let sa: u64 = if ea == 0 {
            ma % HIDDEN_BIT
        } else {
            HIDDEN_BIT + ma % HIDDEN_BIT
        };
        let sb: u64 = if eb == 0 {
            mb % HIDDEN_BIT
        } else {
            HIDDEN_BIT + mb % HIDDEN_BIT
        };
        let xa: u64 = if ea == 0 {
            0
        } else {
            ea - 1
        };
        let xb: u64 = if eb == 0 {
            0
        } else {
            eb - 1
        };
        assert(sa as u128 * sb as u128 <= u128::MAX) by (nonlinear_arith)
            requires
                sa < 0x20_0000_0000_0000,
                sb < 0x20_0000_0000_0000,
        ;
        let product: u128 = sa as u128 * sb as u128;
        let n = BigNat::from_u128(product).shifted_left((xa + xb) as usize);
        let d = BigNat::from_u64(1).shifted_left(1074);
        proof {
            let pa = pow2(xa as nat);
            let pb = pow2(xb as nat);
            lemma_pow2_adds(xa as nat, xb as nat);
            lemma_pow2_pos(1074);
            assert((sa * sb) * (pa * pb) == (sa * pa) * (sb * pb)) by (nonlinear_arith);
            assert(1 * pow2(1074) == pow2(1074));
        }
        let m: u64 = round_ratio(&n, &d);
        Double { bits: signed(negative, m) }
    }

    /// The quotient of the two numbers.
    pub fn over(self, other: Double) -> (r: Double)
        ensures
            r.bits == quotient_bits(self.bits, other.bits),
    {
        let ma: u64 = magnitude_of(self.bits);
        let mb: u64 = magnitude_of(other.bits);
        let negative: bool = (self.bits >= SIGN_BIT) != (other.bits >= SIGN_BIT);
        if ma > INFINITY_BITS || mb > INFINITY_BITS {
            return Double { bits: NAN_BITS };
        }
        if ma == INFINITY_BITS {
            if mb == INFINITY_BITS {
                return Double { bits: NAN_BITS };
            }
            return Double { bits: signed(negative, INFINITY_BITS) };
        }
        if mb == INFINITY_BITS {
            return Double { bits: signed(negative, 0) };
        }
        if mb == 0 {
            if ma == 0 {
                return Double { bits: NAN_BITS };
            }
            return Double { bits: signed(negative, INFINITY_BITS) };
        }
        let n = scaled_of(ma).shifted_left(1074);
        let d = scaled_of(mb);
        proof {
            lemma_scaled_positive(mb as nat);
        }
        let m: u64 = round_ratio(&n, &d);
        Double { bits: signed(negative, m) }
    }

    /// Whether the number is below `other`.
    pub fn is_less_than(self, other: Double) -> (r: bool)
        ensures
            r == less_bits(self.bits, other.bits),
    {
        let ma: u64 = magnitude_of(self.bits);
        let mb: u64 = magnitude_of(other.bits);
        let na: bool = self.bits >= SIGN_BIT;
        let nb: bool = other.bits >= SIGN_BIT;
        if ma > INFINITY_BITS || mb > INFINITY_BITS {
            return false;
        }
        proof {
            if ma < mb {
                lemma_scaled_increases(ma as nat, mb as nat);
            }
            if mb < ma {
                lemma_scaled_increases(mb as nat, ma as nat);
            }
            if ma > 0 {
                lemma_scaled_positive(ma as nat);
            }
            if mb > 0 {
                lemma_scaled_positive(mb as nat);
            }
            lemma_scaled_zero();
        }
        if na {
            if nb {
                mb < ma
            } else {
                ma != 0 || mb != 0
            }
        } else {
            if nb {
                false
            } else {
                ma < mb
            }
        }
    }

    /// Whether the number equals `other`, as numbers do.
    pub fn equals(self, other: Double) -> (r: bool)
        ensures
            r == equal_bits(self.bits, other.bits),
    {
        let ma: u64 = magnitude_of(self.bits);
        let mb: u64 = magnitude_of(other.bits);
        let na: bool = self.bits >= SIGN_BIT;
        let nb: bool = other.bits >= SIGN_BIT;
        if ma > INFINITY_BITS || mb > INFINITY_BITS {
            return false;
        }
        proof {
            if ma < mb {
                lemma_scaled_increases(ma as nat, mb as nat);
            }
            if mb < ma {
                lemma_scaled_increases(mb as nat, ma as nat);
            }
            if ma > 0 {
                lemma_scaled_positive(ma as nat);
            }
            if mb > 0 {
                lemma_scaled_positive(mb as nat);
            }
            lemma_scaled_zero();
        }
        if na == nb {
            ma == mb
        } else {
            ma == 0 && mb == 0
        }
    }

    /// The number nearest to the decimal literal in `chars[from..to]`.
    pub fn from_decimal(chars: &Vec<char>, from: usize, to: usize) -> (r: Double)
        requires
            from <= to <= chars.len(),
        ensures
            r.bits == decimal_bits(chars@.subrange(from as int, to as int)),
    {
        let mut digits = BigNat::from_u64(0);
        let mut power = BigNat::from_u64(1);
        let mut point: bool = false;
        let mut i: usize = from;
        proof {
            assert(chars@.subrange(from as int, from as int).len() == 0);
        }
        while i < to
            invariant
                from <= i <= to <= chars.len(),
                digits@ == decimal_digits(chars@.subrange(from as int, i as int)),
                power@ == pow10(fraction_digits(chars@.subrange(from as int, i as int))),
                point == has_point(chars@.subrange(from as int, i as int)),
            decreases to - i,
        {
            let c: char = chars[i];
            proof {
                let next = chars@.subrange(from as int, i + 1);
                assert(next.drop_last() =~= chars@.subrange(from as int, i as int));
                assert(next.last() == c);
            }
            if '0' <= c && c <= '9' {
                let v: u64 = (c as u32 - '0' as u32) as u64;
                digits = digits.mul_small(10, v);
                if point {
                    power = power.mul_small(10, 0);
                }
            } else if c == '.' {
                point = true;
            }
            i += 1;
        }
        proof {
            lemma_pow10_positive(fraction_digits(chars@.subrange(from as int, to as int)));
        }
        let n = digits.shifted_left(1074);
        let m: u64 = round_ratio(&n, &power);
        Double { bits: m }
    }
}

/// The value of zero is zero.
pub proof fn lemma_scaled_zero()
    ensures
        scaled(0) == 0,
{
    assert(significand(0) == 0);
    assert(0 * pow2(exponent(0)) == 0);
}

} // verus!
