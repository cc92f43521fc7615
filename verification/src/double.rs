//! IEEE-754 binary64 numbers, held as their bit patterns.
//!
//! Every finite binary64 value is a whole multiple of 2^-1074. The model
//! therefore measures magnitudes in that unit, as naturals, and states each
//! operation as one exact computation on naturals followed by one rounding
//! to nearest, ties to even.

use crate::bignat::BigNat;
use vstd::arithmetic::div_mod::*;
use vstd::arithmetic::power2::*;
use vstd::prelude::*;

verus! {

/// The sign bit.
pub const SIGN_BIT: u64 = 0x8000_0000_0000_0000;

/// The magnitude bits of infinity; larger magnitudes are NaNs.
pub const INFINITY_BITS: u64 = 0x7FF0_0000_0000_0000;

/// The NaN that every operation of this module returns.
pub const NAN_BITS: u64 = 0x7FF8_0000_0000_0000;

/// 2^52: the bit that a normal number's significand has above its fraction.
pub const HIDDEN_BIT: u64 = 0x0010_0000_0000_0000;

/// The bits below the sign bit.
pub open spec fn magnitude(b: u64) -> nat {
    if b >= SIGN_BIT {
        (b - SIGN_BIT) as nat
    } else {
        b as nat
    }
}

/// Whether the sign bit is set.
pub open spec fn is_negative(b: u64) -> bool {
    b >= SIGN_BIT
}

/// Whether the bits are those of a NaN.
pub open spec fn is_nan(b: u64) -> bool {
    magnitude(b) > INFINITY_BITS
}

/// Whether the bits are those of an infinity.
pub open spec fn is_infinite(b: u64) -> bool {
    magnitude(b) == INFINITY_BITS
}

/// Whether the bits are those of a zero.
pub open spec fn is_zero(b: u64) -> bool {
    magnitude(b) == 0
}

/// The significand that the magnitude bits `m` encode.
pub open spec fn significand(m: nat) -> nat {
    if m / (HIDDEN_BIT as nat) == 0 {
        m % (HIDDEN_BIT as nat)
    } else {
        HIDDEN_BIT as nat + m % (HIDDEN_BIT as nat)
    }
}

/// The power of two, above 2^-1074, that the magnitude bits `m` encode.
pub open spec fn exponent(m: nat) -> nat {
    if m / (HIDDEN_BIT as nat) == 0 {
        0
    } else {
        (m / (HIDDEN_BIT as nat) - 1) as nat
    }
}

/// The value of the magnitude bits `m`, in units of 2^-1074. Infinity
/// stands at 2^2098, above every finite value.
pub open spec fn scaled(m: nat) -> nat {
    significand(m) * pow2(exponent(m))
}

/// The signed value of the bits `b`, in units of 2^-1074.
pub open spec fn signed_scaled(b: u64) -> int {
    if is_negative(b) {
        -(scaled(magnitude(b)) as int)
    } else {
        scaled(magnitude(b)) as int
    }
}

/// The bits with magnitude `m` and the given sign.
pub open spec fn with_sign(negative: bool, m: nat) -> u64 {
    if negative {
        (m + SIGN_BIT) as u64
    } else {
        m as u64
    }
}

/// The least `x` with `n / d < 2^(53 + x)`: the power of two, above
/// 2^-1074, of the last place of a 53-bit significand that holds `n / d`.
pub open spec fn quantum(n: nat, d: nat) -> nat
    decreases n,
{
    if d == 0 || n == 0 || n < d * pow2(53) {
        0
    } else {
        1 + quantum(n / 2, d)
    }
}

/// The integer nearest to `n / d`, the even one of two equally near.
pub open spec fn nearest_integer(n: nat, d: nat) -> nat {
    let q = n / d;
    let r = n % d;
    if 2 * r > d || (2 * r == d && q % 2 == 1) {
        q + 1
    } else {
        q
    }
}

/// The magnitude bits of the binary64 value nearest to `n / d` units of
/// 2^-1074, ties to the even significand; infinity from 2^1024 - 2^970 on.
pub open spec fn nearest(n: nat, d: nat) -> nat {
    let x = quantum(n, d);
    let m = nearest_integer(n, d * pow2(x));
    if x * HIDDEN_BIT + m >= INFINITY_BITS {
        INFINITY_BITS as nat
    } else {
        (x * HIDDEN_BIT + m) as nat
    }
}

/// The quantum is `x` where the ratio is below 2^(53 + x) and, for `x > 0`,
/// at least 2^(52 + x).
pub proof fn lemma_quantum_exact(n: nat, d: nat, x: nat)
    requires
        d > 0,
        n < d * pow2(53 + x),
        x > 0 ==> n >= d * pow2(52 + x),
    ensures
        quantum(n, d) == x,
    decreases x,
{
    if x > 0 {
        lemma_quantum_step(n, d, x);
        lemma_pow2_unfold(53 + x);
        assert(d * (2 * pow2((53 + x - 1) as nat)) == 2 * (d * pow2((53 + x - 1) as nat)))
            by (nonlinear_arith);
        lemma_quantum_exact(n / 2, d, (x - 1) as nat);
    } else {
        assert(53 + x == 53);
    }
}

/// A ratio of at least 2^(52 + x), for `x > 0`, unfolds `quantum` once, and
/// half of it is at least 2^(51 + x).
pub proof fn lemma_quantum_step(n: nat, d: nat, x: nat)
    requires
        d > 0,
        x > 0,
        n >= d * pow2(52 + x),
    ensures
        quantum(n, d) == 1 + quantum(n / 2, d),
        n / 2 >= d * pow2((51 + x) as nat),
{
    let p = pow2((51 + x) as nat);
    lemma_pow2_unfold(52 + x);
    assert(52 + x - 1 == 51 + x);
    assert(d * (2 * p) == 2 * (d * p)) by (nonlinear_arith);
    lemma_pow2_pos(53);
    if x > 1 {
        lemma_pow2_strictly_increases(53, 52 + x);
    }
    assert(d * pow2(53) <= d * pow2(52 + x)) by (nonlinear_arith)
        requires
            pow2(53) <= pow2(52 + x),
    ;
    assert(d * pow2(53) > 0) by (nonlinear_arith)
        requires
            d > 0,
            pow2(53) > 0,
    ;
}

/// The quantum is at least `x` where the ratio is at least 2^(52 + x).
pub proof fn lemma_quantum_at_least(n: nat, d: nat, x: nat)
    requires
        d > 0,
        x > 0,
        n >= d * pow2(52 + x),
    ensures
        quantum(n, d) >= x,
    decreases x,
{
    lemma_quantum_step(n, d, x);
    if x > 1 {
        assert(51 + x == 52 + (x - 1));
        lemma_quantum_at_least(n / 2, d, (x - 1) as nat);
    }
}

/// From 2^2098 units on, the nearest value is infinity.
pub proof fn lemma_nearest_overflows(n: nat, d: nat)
    requires
        d > 0,
        n >= d * pow2(2098),
    ensures
        nearest(n, d) == INFINITY_BITS,
{
    lemma_quantum_at_least(n, d, 2046);
    let x = quantum(n, d);
    if x == 2046 {
        let scale = d * pow2(2046);
        lemma_pow2_adds(2046, 52);
        lemma_pow2_pos(2046);
        lemma2_to64_rest();
        assert(d * pow2(2098) == scale * 0x10_0000_0000_0000) by (nonlinear_arith)
            requires
                scale == d * pow2(2046),
                pow2(2098) == pow2(2046) * 0x10_0000_0000_0000,
        ;
        assert(scale > 0) by (nonlinear_arith)
            requires
                scale == d * pow2(2046),
                d > 0,
                pow2(2046) > 0,
        ;
        lemma_div_is_ordered((scale * 0x10_0000_0000_0000) as int, n as int, scale as int);
        lemma_div_by_multiple(0x10_0000_0000_0000, scale as int);
        assert(scale * 0x10_0000_0000_0000 == 0x10_0000_0000_0000 * scale) by (nonlinear_arith);
    } else {
        assert(x * HIDDEN_BIT >= 2047 * HIDDEN_BIT) by (nonlinear_arith)
            requires
                x >= 2047,
        ;
    }
}

/// The magnitude bits of the binary64 value nearest to `n / d` units of
/// 2^-1074.
pub fn round_ratio(n: &BigNat, d: &BigNat) -> (m: u64)
    requires
        d@ > 0,
    ensures
        m == nearest(n@, d@),
{
    let mut lo: usize = 0;
    let mut hi: usize = 2046;
    while lo < hi
        invariant
            lo <= hi <= 2046,
            lo > 0 ==> n@ >= d@ * pow2((52 + lo) as nat),
            hi < 2046 ==> n@ < d@ * pow2((53 + hi) as nat),
        decreases hi - lo,
    {
        let mid: usize = lo + (hi - lo) / 2;
        let bound = d.shifted_left(53 + mid);
        if n.is_less_than(&bound) {
            hi = mid;
        } else {
            lo = mid + 1;
        }
    }
    if lo == 2046 {
        proof {
            lemma_nearest_overflows(n@, d@);
        }
        return INFINITY_BITS;
    }
    let x: usize = lo;
    let scale = d.shifted_left(x);
    proof {
        lemma_quantum_exact(n@, d@, x as nat);
        lemma_pow2_adds(x as nat, 53);
        lemma_pow2_pos(x as nat);
        assert(d@ * (pow2(x as nat) * pow2(53)) == (d@ * pow2(x as nat)) * pow2(53))
            by (nonlinear_arith);
        assert(scale@ > 0) by (nonlinear_arith)
            requires
                scale@ == d@ * pow2(x as nat),
                d@ > 0,
                pow2(x as nat) > 0,
        ;
        assert(scale@ * 0 == 0);
    }
    let mut q: u64 = 0;
    let mut bit: u64 = 53;
    while bit > 0
        invariant
            bit <= 53,
            scale@ > 0,
            scale@ * q <= n@,
            n@ < scale@ * (q + pow2(bit as nat)),
            q + pow2(bit as nat) <= pow2(53),
        decreases bit,
    {
        bit = bit - 1;
        proof {
            lemma2_to64_rest();
            lemma2_to64();
            lemma_pow2_unfold((bit + 1) as nat);
            vstd::bits::lemma_u64_pow2_no_overflow(bit as nat);
            vstd::bits::lemma_u64_shl_is_mul(1, bit);
        }
        let step: u64 = 1u64 << bit;
        let candidate: u64 = q + step;
        let reach = scale.mul_small(candidate, 0);
        if !n.is_less_than(&reach) {
            q = candidate;
        }
    }
    let floor = scale.mul_small(q, 0);
    let rest = n.minus(&floor);
    let twice = rest.mul_small(2, 0);
    let above: bool = scale.is_less_than(&twice);
    let below: bool = twice.is_less_than(&scale);
    let up: bool = above || (!below && q % 2 == 1);
    proof {
        lemma_mul_pow2_one(q as nat);
        assert(scale@ * (q + 1) == scale@ * q + scale@) by (nonlinear_arith);
        assert(n@ == q * scale@ + rest@) by (nonlinear_arith)
            requires
                rest@ == n@ - scale@ * q,
                scale@ * q <= n@,
        ;
        lemma_fundamental_div_mod_converse(n@ as int, scale@ as int, q as int, rest@ as int);
        lemma2_to64_rest();
        assert(x * HIDDEN_BIT <= 2045 * HIDDEN_BIT) by (nonlinear_arith)
            requires
                x <= 2045,
        ;
    }
    let rounded: u64 = if up {
        q + 1
    } else {
        q
    };
    let bits: u64 = (x as u64) * HIDDEN_BIT + rounded;
    if bits >= INFINITY_BITS {
        INFINITY_BITS
    } else {
        bits
    }
}

proof fn lemma_mul_pow2_one(q: nat)
    ensures
        q + pow2(0) == q + 1,
{
    lemma2_to64();
}

} // verus!
