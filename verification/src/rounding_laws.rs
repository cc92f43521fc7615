//! Laws of rounding: what `nearest` gives is the finite number nearest to
//! the ratio, the one with the even significand of two equally near, and
//! infinity from halfway above the largest finite number on; it depends on
//! the ratio alone, keeps the order of ratios, and a ratio close enough to
//! a number rounds to it.

use crate::double::{
    exponent, lemma_quantum_at_least, lemma_quantum_exact, nearest, nearest_integer, quantum,
    scaled, significand, HIDDEN_BIT, INFINITY_BITS,
};
use vstd::arithmetic::div_mod::*;
use vstd::arithmetic::power2::*;
use vstd::prelude::*;

verus! {

/// What `quantum` gives bounds the ratio from both sides.
pub proof fn lemma_quantum_bounds(n: nat, d: nat)
    requires
        d > 0,
    ensures
        n < d * pow2(53 + quantum(n, d)),
        quantum(n, d) > 0 ==> n >= d * pow2(52 + quantum(n, d)),
    decreases n,
{
    lemma_pow2_pos(53);
    assert(d * pow2(53) > 0) by (nonlinear_arith)
        requires
            d > 0,
            pow2(53) > 0,
    ;
    if n == 0 || n < d * pow2(53) {
        assert(53 + quantum(n, d) == 53);
    } else {
        let x = quantum(n / 2, d);
        lemma_quantum_bounds(n / 2, d);
        let upper = d * pow2(53 + x);
        lemma_pow2_unfold(53 + x + 1);
        assert(53 + x + 1 - 1 == 53 + x);
        assert(d * (2 * pow2(53 + x)) == 2 * upper) by (nonlinear_arith)
            requires
                upper == d * pow2(53 + x),
        ;
        assert(53 + (1 + x) == 53 + x + 1);
        assert(52 + (1 + x) == 53 + x);
        if x > 0 {
            let lower = d * pow2(52 + x);
            lemma_pow2_unfold(53 + x);
            assert(53 + x - 1 == 52 + x);
            assert(d * (2 * pow2(52 + x)) == 2 * lower) by (nonlinear_arith)
                requires
                    lower == d * pow2(52 + x),
            ;
        }
    }
}

/// Two ratios that are equal are below the same bounds.
proof fn lemma_same_ratio_below(a: nat, b: nat, c: nat, d: nat, p: nat)
    requires
        b > 0,
        d > 0,
        a * d == c * b,
    ensures
        a < b * p <==> c < d * p,
{
    if a < b * p {
        assert(c < d * p) by (nonlinear_arith)
            requires
                a < b * p,
                a * d == c * b,
                b > 0,
                d > 0,
        ;
    }
    if c < d * p {
        assert(a < b * p) by (nonlinear_arith)
            requires
                c < d * p,
                a * d == c * b,
                b > 0,
                d > 0,
        ;
    }
}

/// Two ratios that are equal have the same quantum.
pub proof fn lemma_quantum_same_ratio(a: nat, b: nat, c: nat, d: nat)
    requires
        b > 0,
        d > 0,
        a * d == c * b,
    ensures
        quantum(a, b) == quantum(c, d),
{
    let x = quantum(a, b);
    lemma_quantum_bounds(a, b);
    lemma_same_ratio_below(a, b, c, d, pow2(53 + x));
    if x > 0 {
        lemma_same_ratio_below(a, b, c, d, pow2(52 + x));
    }
    lemma_quantum_exact(c, d, x);
}

/// Two ratios that are equal have the same nearest integer.
pub proof fn lemma_nearest_integer_same_ratio(a: nat, b: nat, c: nat, d: nat)
    requires
        b > 0,
        d > 0,
        a * d == c * b,
    ensures
        nearest_integer(a, b) == nearest_integer(c, d),
{
    let q = a / b;
    let r = a % b;
    lemma_fundamental_div_mod(a as int, b as int);
    assert(a == b * q + r);
    assert(q * d <= c) by (nonlinear_arith)
        requires
            a == b * q + r,
            a * d == c * b,
            b > 0,
            d > 0,
            r >= 0,
    ;
    let s = (c - q * d) as nat;
    assert(r * d == s * b) by (nonlinear_arith)
        requires
            a == b * q + r,
            a * d == c * b,
            s == c - q * d,
    ;
    assert(s < d) by (nonlinear_arith)
        requires
            r * d == s * b,
            r < b,
            b > 0,
            d > 0,
    ;
    assert(c == q * d + s);
    lemma_fundamental_div_mod_converse(c as int, d as int, q as int, s as int);
    assert(2 * r > b <==> 2 * s > d) by (nonlinear_arith)
        requires
            r * d == s * b,
            b > 0,
            d > 0,
    ;
    assert(2 * r == b <==> 2 * s == d) by (nonlinear_arith)
        requires
            r * d == s * b,
            b > 0,
            d > 0,
    ;
}

/// The nearest number depends on the ratio alone.
pub proof fn lemma_nearest_same_ratio(a: nat, b: nat, c: nat, d: nat)
    requires
        b > 0,
        d > 0,
        a * d == c * b,
    ensures
        nearest(a, b) == nearest(c, d),
{
    lemma_quantum_same_ratio(a, b, c, d);
    let x = quantum(a, b);
    let p = pow2(x);
    lemma_pow2_pos(x);
    assert(b * p > 0) by (nonlinear_arith)
        requires
            b > 0,
            p > 0,
    ;
    assert(d * p > 0) by (nonlinear_arith)
        requires
            d > 0,
            p > 0,
    ;
    assert(a * (d * p) == c * (b * p)) by (nonlinear_arith)
        requires
            a * d == c * b,
    ;
    lemma_nearest_integer_same_ratio(a, b * p, c, d * p);
}

/// A ratio less than half a unit from a whole number has it as its
/// nearest integer.
proof fn lemma_nearest_integer_within_half(n: nat, d: nat, k: nat)
    requires
        d > 0,
        k >= 1,
        2 * (n - k * d) < d,
        2 * (k * d - n) < d,
    ensures
        nearest_integer(n, d) == k,
{
    if n >= k * d {
        let r = (n - k * d) as nat;
        assert(n == k * d + r);
        lemma_fundamental_div_mod_converse(n as int, d as int, k as int, r as int);
    } else {
        let r = (n - (k - 1) * d) as nat;
        assert((k - 1) * d == k * d - d) by (nonlinear_arith);
        assert(n == (k - 1) * d + r);
        lemma_fundamental_div_mod_converse(n as int, d as int, (k - 1) as int, r as int);
    }
}

/// A ratio at most half a unit below an even whole number has it as its
/// nearest integer.
proof fn lemma_nearest_integer_up_to_even(n: nat, d: nat, k: nat)
    requires
        d > 0,
        k >= 2,
        k % 2 == 0,
        n < k * d,
        2 * (k * d - n) <= d,
    ensures
        nearest_integer(n, d) == k,
{
    let r = (n - (k - 1) * d) as nat;
    assert((k - 1) * d == k * d - d) by (nonlinear_arith);
    assert(n == (k - 1) * d + r);
    lemma_fundamental_div_mod_converse(n as int, d as int, (k - 1) as int, r as int);
}

/// The magnitude bits are the exponent times 2^52 plus the significand.
pub proof fn lemma_bits_of_parts(m: nat)
    ensures
        m == exponent(m) * HIDDEN_BIT + significand(m),
        significand(m) < 2 * HIDDEN_BIT,
        exponent(m) > 0 ==> significand(m) >= HIDDEN_BIT,
        m > 0 ==> significand(m) >= 1,
        m < INFINITY_BITS ==> exponent(m) <= 2045,
{
    let h = HIDDEN_BIT as nat;
    lemma_fundamental_div_mod(m as int, h as int);
    let e = m / h;
    assert(h * e == e * h) by (nonlinear_arith);
    if e > 0 {
        assert((e - 1) * h + h == e * h) by (nonlinear_arith);
    }
    if m < INFINITY_BITS {
        lemma_div_is_ordered(m as int, INFINITY_BITS as int, h as int);
    }
}

/// A ratio close enough to a number rounds to it: closer than half the
/// last place of the number, and, from below to a number whose significand
/// is the least of its exponent, no farther than a quarter of it.
pub proof fn lemma_nearest_when_close(n: nat, d: nat, m: nat)
    requires
        d > 0,
        0 < m < INFINITY_BITS,
        2 * (n - scaled(m) * d) < d * pow2(exponent(m)),
        2 * (scaled(m) * d - n) < d * pow2(exponent(m)),
        exponent(m) > 0 && significand(m) == HIDDEN_BIT ==> 4 * (scaled(m) * d - n) <= d * pow2(
            exponent(m),
        ),
    ensures
        nearest(n, d) == m,
{
    let h = HIDDEN_BIT as nat;
    let sig = significand(m);
    let x = exponent(m);
    let p = pow2(x);
    let unit = d * p;
    lemma_bits_of_parts(m);
    lemma_pow2_pos(x);
    lemma2_to64_rest();
    assert(unit > 0) by (nonlinear_arith)
        requires
            unit == d * p,
            d > 0,
            p > 0,
    ;
    assert(scaled(m) * d == sig * unit) by (nonlinear_arith)
        requires
            scaled(m) == sig * p,
            unit == d * p,
    ;
    lemma_pow2_adds(x, 53);
    lemma_pow2_adds(x, 52);
    assert(d * pow2(53 + x) == unit * (2 * h)) by (nonlinear_arith)
        requires
            pow2(x + 53) == p * pow2(53),
            pow2(53) == 2 * h,
            unit == d * p,
    ;
    assert(d * pow2(52 + x) == unit * h) by (nonlinear_arith)
        requires
            pow2(x + 52) == p * pow2(52),
            pow2(52) == h,
            unit == d * p,
    ;
    if x > 0 && sig == h && n < sig * unit {
        let below = (x - 1) as nat;
        let half = d * pow2(below);
        lemma_pow2_unfold(x);
        lemma_pow2_pos(below);
        assert(unit == 2 * half) by (nonlinear_arith)
            requires
                unit == d * p,
                p == 2 * pow2(below),
                half == d * pow2(below),
        ;
        assert(sig * unit == (2 * h) * half) by (nonlinear_arith)
            requires
                unit == 2 * half,
                sig == h,
        ;
        lemma_pow2_adds(below, 53);
        lemma_pow2_adds(below, 52);
        assert(d * pow2(53 + below) == half * (2 * h)) by (nonlinear_arith)
            requires
                pow2(below + 53) == pow2(below) * pow2(53),
                pow2(53) == 2 * h,
                half == d * pow2(below),
        ;
        assert(d * pow2(52 + below) == half * h) by (nonlinear_arith)
            requires
                pow2(below + 52) == pow2(below) * pow2(52),
                pow2(52) == h,
                half == d * pow2(below),
        ;
        assert(half * (2 * h) == (2 * h) * half) by (nonlinear_arith);
        assert(n >= half * h) by (nonlinear_arith)
            requires
                2 * ((2 * h) * half - n) <= half,
                h >= 1,
        ;
        lemma_quantum_exact(n, d, below);
        lemma_nearest_integer_up_to_even(n, half, 2 * h);
        assert(below * h + 2 * h == x * h + h) by (nonlinear_arith)
            requires
                below == x - 1,
        ;
    } else {
        assert(n < unit * (2 * h)) by (nonlinear_arith)
            requires
                2 * (n - sig * unit) < unit,
                sig < 2 * h,
                unit > 0,
        ;
        if x > 0 {
            assert(n >= unit * h) by (nonlinear_arith)
                requires
                    2 * (sig * unit - n) < unit,
                    sig >= h,
                    sig > h || n >= sig * unit,
                    unit > 0,
            ;
        }
        lemma_quantum_exact(n, d, x);
        lemma_nearest_integer_within_half(n, unit, sig);
    }
}

/// How far apart `a` and `b` are.
pub open spec fn distance(a: nat, b: nat) -> nat {
    if a >= b {
        (a - b) as nat
    } else {
        (b - a) as nat
    }
}

/// No whole number is nearer to a ratio than its nearest integer, and
/// where another is as near, the nearest integer is the even one.
pub proof fn lemma_nearest_integer_is_nearest(n: nat, d: nat, j: nat)
    requires
        d > 0,
    ensures
        distance(n,nearest_integer(n, d) * d) <= distance(n,j * d),
        2 * distance(n,nearest_integer(n, d) * d) <= d,
        j != nearest_integer(n, d) && distance(n,nearest_integer(n, d) * d) == distance(
            n,
            j * d,
        ) ==> nearest_integer(n, d) % 2 == 0,
{
    let q = n / d;
    let r = n % d;
    let k = nearest_integer(n, d);
    lemma_fundamental_div_mod(n as int, d as int);
    assert(d * q == q * d) by (nonlinear_arith);
    assert((q + 1) * d == q * d + d) by (nonlinear_arith);
    if j <= q {
        assert(j * d + (q - j) * d == q * d) by (nonlinear_arith);
        if j < q {
            assert((q - j) * d >= d) by (nonlinear_arith)
                requires
                    q - j >= 1,
                    d > 0,
            ;
        }
    } else {
        assert(j * d == (q + 1) * d + (j - q - 1) * d) by (nonlinear_arith);
        if j > q + 1 {
            assert((j - q - 1) * d >= d) by (nonlinear_arith)
                requires
                    j - q - 1 >= 1,
                    d > 0,
            ;
        } else {
            assert((j - q - 1) * d == 0) by (nonlinear_arith)
                requires
                    j - q - 1 == 0,
            ;
        }
    }
}

/// The value of the bits that rounding puts together from a quantum `x`
/// and a whole number `k` of that quantum.
pub proof fn lemma_scaled_of_rounded(x: nat, k: nat)
    requires
        k <= 2 * HIDDEN_BIT,
        x > 0 ==> k >= HIDDEN_BIT,
    ensures
        scaled((x * HIDDEN_BIT + k) as nat) == k * pow2(x),
        significand((x * HIDDEN_BIT + k) as nat) % 2 == k % 2,
{
    let h = HIDDEN_BIT as nat;
    let b = x * h + k;
    if k < h {
        lemma_fundamental_div_mod_converse(b as int, h as int, 0, k as int);
    } else if k < 2 * h {
        assert((x + 1) * h + (k - h) == x * h + k) by (nonlinear_arith);
        lemma_fundamental_div_mod_converse(b as int, h as int, (x + 1) as int, (k - h) as int);
    } else {
        assert((x + 2) * h + 0 == x * h + k) by (nonlinear_arith)
            requires
                k == 2 * h,
        ;
        lemma_fundamental_div_mod_converse(b as int, h as int, (x + 2) as int, 0);
        lemma_pow2_unfold(x + 1);
        assert(x + 1 - 1 == x);
        assert(h * (2 * pow2(x)) == (2 * h) * pow2(x)) by (nonlinear_arith);
    }
}

/// The whole number of quanta that rounding finds is a significand, or
/// one more than the largest: at most 2^53, and at least 2^52 above the
/// least quantum.
pub proof fn lemma_rounded_parts(n: nat, d: nat)
    requires
        d > 0,
    ensures
        nearest_integer(n, d * pow2(quantum(n, d))) <= 2 * HIDDEN_BIT,
        quantum(n, d) > 0 ==> nearest_integer(n, d * pow2(quantum(n, d))) >= HIDDEN_BIT,
        d * pow2(quantum(n, d)) > 0,
        n < (2 * HIDDEN_BIT) * (d * pow2(quantum(n, d))),
        quantum(n, d) > 0 ==> n >= HIDDEN_BIT * (d * pow2(quantum(n, d))),
{
    let h = HIDDEN_BIT as nat;
    let x = quantum(n, d);
    let p = pow2(x);
    let unit = d * p;
    let k = nearest_integer(n, unit);
    lemma_pow2_pos(x);
    lemma2_to64_rest();
    assert(unit > 0) by (nonlinear_arith)
        requires
            unit == d * p,
            d > 0,
            p > 0,
    ;
    lemma_quantum_bounds(n, d);
    lemma_pow2_adds(x, 53);
    lemma_pow2_adds(x, 52);
    assert(d * pow2(53 + x) == (2 * h) * unit) by (nonlinear_arith)
        requires
            pow2(x + 53) == p * pow2(53),
            pow2(53) == 2 * h,
            unit == d * p,
    ;
    assert(d * pow2(52 + x) == h * unit) by (nonlinear_arith)
        requires
            pow2(x + 52) == p * pow2(52),
            pow2(52) == h,
            unit == d * p,
    ;
    lemma_nearest_integer_is_nearest(n, unit, 2 * h);
    lemma_nearest_integer_is_nearest(n, unit, h);
    if k > 2 * h {
        assert(k * unit >= (2 * h) * unit + unit) by (nonlinear_arith)
            requires
                k >= 2 * h + 1,
                unit > 0,
        ;
    }
    if x > 0 && k < h {
        assert(k * unit + unit <= h * unit) by (nonlinear_arith)
            requires
                k + 1 <= h,
                unit > 0,
        ;
    }
}

/// Of two ratios, the larger one has the larger nearest integer.
pub proof fn lemma_nearest_integer_rises(a: nat, b: nat, c: nat, d: nat)
    requires
        b > 0,
        d > 0,
        a * d <= c * b,
    ensures
        nearest_integer(a, b) <= nearest_integer(c, d),
{
    let k = nearest_integer(a, b);
    let j = nearest_integer(c, d);
    if k > j {
        lemma_nearest_integer_is_nearest(a, b, j);
        lemma_nearest_integer_is_nearest(c, d, k);
        lemma_nearest_integer_is_nearest(c, d, (j + 1) as nat);
        lemma_nearest_integer_is_nearest(a, b, (k - 1) as nat);
        // The first ratio is at least k - 1/2, the second at most j + 1/2.
        assert(2 * a + b >= 2 * (k * b));
        assert(2 * c <= 2 * (j * d) + d);
        assert(k * b >= j * b + b) by (nonlinear_arith)
            requires
                k >= j + 1,
                b > 0,
        ;
        assert(2 * (a * d) + b * d >= 2 * ((j * b) * d) + 2 * (b * d)) by (nonlinear_arith)
            requires
                2 * a + b >= 2 * (j * b) + 2 * b,
                d > 0,
        ;
        assert(2 * (c * b) <= 2 * ((j * d) * b) + d * b) by (nonlinear_arith)
            requires
                2 * c <= 2 * (j * d) + d,
                b > 0,
        ;
        assert((j * b) * d == (j * d) * b) by (nonlinear_arith);
        assert(b * d == d * b) by (nonlinear_arith);
        // So both are ties, between j and j + 1.
        assert(2 * (a * d) == 2 * ((j * b) * d) + b * d);
        assert(2 * a == 2 * (j * b) + b) by (nonlinear_arith)
            requires
                2 * (a * d) == 2 * ((j * b) * d) + b * d,
                d > 0,
        ;
        assert(2 * c == 2 * (j * d) + d) by (nonlinear_arith)
            requires
                2 * (c * b) == 2 * ((j * d) * b) + d * b,
                b > 0,
        ;
        assert(k == j + 1) by {
            if k > j + 1 {
                assert(k * b >= j * b + 2 * b) by (nonlinear_arith)
                    requires
                        k >= j + 2,
                        b > 0,
                ;
            }
        }
        assert((j + 1) * b == j * b + b) by (nonlinear_arith);
        assert((j + 1) * d == j * d + d) by (nonlinear_arith);
        assert(k % 2 == 0);
        assert(j % 2 == 0);
    }
}

/// Of two ratios, the larger one has the larger quantum.
pub proof fn lemma_quantum_rises(a: nat, b: nat, c: nat, d: nat)
    requires
        b > 0,
        d > 0,
        a * d <= c * b,
    ensures
        quantum(a, b) <= quantum(c, d),
{
    let x = quantum(a, b);
    let y = quantum(c, d);
    if x > y {
        lemma_quantum_bounds(a, b);
        lemma_quantum_bounds(c, d);
        let p = pow2(52 + x);
        if 53 + y < 52 + x {
            lemma_pow2_strictly_increases(53 + y, 52 + x);
        }
        assert(c * b < a * d) by (nonlinear_arith)
            requires
                a >= b * p,
                c < d * pow2(53 + y),
                pow2(53 + y) <= p,
                b > 0,
                d > 0,
        ;
    }
}

/// Rounding keeps the order: of two ratios, the larger one rounds to the
/// larger number.
pub proof fn lemma_nearest_rises(a: nat, b: nat, c: nat, d: nat)
    requires
        b > 0,
        d > 0,
        a * d <= c * b,
    ensures
        nearest(a, b) <= nearest(c, d),
{
    let h = HIDDEN_BIT as nat;
    let x = quantum(a, b);
    let y = quantum(c, d);
    lemma_quantum_rises(a, b, c, d);
    lemma_rounded_parts(a, b);
    lemma_rounded_parts(c, d);
    let k = nearest_integer(a, b * pow2(x));
    let j = nearest_integer(c, d * pow2(y));
    if x < y {
        assert(x * h + k <= y * h + j) by (nonlinear_arith)
            requires
                x + 1 <= y,
                k <= 2 * h,
                j >= h,
        ;
    } else {
        let p = pow2(x);
        assert(a * (d * p) <= c * (b * p)) by (nonlinear_arith)
            requires
                a * d <= c * b,
                p >= 0,
        ;
        lemma_nearest_integer_rises(a, b * p, c, d * p);
    }
}

/// Where rounding overflows: the nearest number is infinity from halfway
/// between the largest finite number and 2^1024 on, and finite below.
pub proof fn law_nearest_is_infinite_from_halfway(n: nat, d: nat)
    requires
        d > 0,
    ensures
        nearest(n, d) == INFINITY_BITS <==> n >= d * ((4 * HIDDEN_BIT - 1) * pow2(2044)),
        nearest(n, d) <= INFINITY_BITS,
{
    let h = HIDDEN_BIT as nat;
    let x = quantum(n, d);
    let unit = d * pow2(x);
    let k = nearest_integer(n, unit);
    let low = pow2(2044);
    let top = (4 * h - 1) * low;
    lemma_rounded_parts(n, d);
    lemma_quantum_bounds(n, d);
    lemma2_to64_rest();
    lemma_pow2_pos(2044);
    lemma_pow2_adds(2044, 53);
    lemma_pow2_adds(2044, 54);
    lemma_pow2_unfold(2045);
    assert(pow2(2097) == low * (2 * h));
    assert(pow2(2098) == low * (4 * h));
    assert(pow2(2045) == 2 * low);
    if n >= d * top {
        assert(d * top >= d * pow2(2097)) by (nonlinear_arith)
            requires
                top == (4 * h - 1) * low,
                pow2(2097) == low * (2 * h),
                h >= 1,
                low > 0,
        ;
        lemma_quantum_at_least(n, d, 2045);
        if x == 2045 {
            assert(unit == 2 * (d * low)) by (nonlinear_arith)
                requires
                    unit == d * pow2(2045),
                    pow2(2045) == 2 * low,
            ;
            assert(2 * (d * top) == (4 * h - 1) * unit) by (nonlinear_arith)
                requires
                    top == (4 * h - 1) * low,
                    unit == 2 * (d * low),
            ;
            lemma_nearest_integer_is_nearest(n, unit, 2 * h);
            if k < 2 * h {
                assert(k * unit + unit <= (2 * h) * unit) by (nonlinear_arith)
                    requires
                        k + 1 <= 2 * h,
                        unit > 0,
                ;
                assert((4 * h - 1) * unit == 2 * ((2 * h) * unit) - unit) by (nonlinear_arith);
                if k + 1 < 2 * h {
                    assert(k * unit + 2 * unit <= (2 * h) * unit) by (nonlinear_arith)
                        requires
                            k + 2 <= 2 * h,
                            unit > 0,
                    ;
                }
            }
            assert(k == 2 * h);
            assert(x * h + k == 2047 * h) by (nonlinear_arith)
                requires
                    x == 2045,
                    k == 2 * h,
            ;
        } else {
            assert(x * h + k >= 2047 * h) by (nonlinear_arith)
                requires
                    x >= 2046,
                    k >= h,
            ;
        }
    } else {
        assert(d * top < d * pow2(2098)) by (nonlinear_arith)
            requires
                top == (4 * h - 1) * low,
                pow2(2098) == low * (4 * h),
                low > 0,
                d > 0,
        ;
        if x >= 2046 {
            if x > 2046 {
                lemma_pow2_strictly_increases(2098, 52 + x);
            }
            assert(d * pow2(2098) <= d * pow2(52 + x)) by (nonlinear_arith)
                requires
                    pow2(2098) <= pow2(52 + x),
            ;
        }
        if x == 2045 {
            assert(unit == 2 * (d * low)) by (nonlinear_arith)
                requires
                    unit == d * pow2(2045),
                    pow2(2045) == 2 * low,
            ;
            assert(2 * (d * top) == (4 * h - 1) * unit) by (nonlinear_arith)
                requires
                    top == (4 * h - 1) * low,
                    unit == 2 * (d * low),
            ;
            lemma_nearest_integer_is_nearest(n, unit, 2 * h);
            if k == 2 * h {
                assert((4 * h - 1) * unit == 2 * ((2 * h) * unit) - unit) by (nonlinear_arith);
            }
            assert(x * h + k < 2047 * h) by (nonlinear_arith)
                requires
                    x == 2045,
                    k < 2 * h,
            ;
        } else {
            assert(x * h + k < 2047 * h) by (nonlinear_arith)
                requires
                    x <= 2044,
                    k <= 2 * h,
                    h >= 1,
            ;
        }
    }
}

/// Rounding gives the nearest number: no finite number is nearer to the
/// ratio than the number that `nearest` gives, where that is finite; and
/// where another is as near, the one that `nearest` gives has the even
/// significand.
pub proof fn law_nearest_is_nearest(n: nat, d: nat, other: nat)
    requires
        d > 0,
        other < INFINITY_BITS,
        nearest(n, d) < INFINITY_BITS,
    ensures
        distance(n,scaled(nearest(n, d)) * d) <= distance(n,scaled(other) * d),
        other != nearest(n, d) && distance(n,scaled(nearest(n, d)) * d) == distance(
            n,
            scaled(other) * d,
        ) ==> significand(nearest(n, d)) % 2 == 0,
{
    let h = HIDDEN_BIT as nat;
    let x = quantum(n, d);
    let p = pow2(x);
    let unit = d * p;
    let k = nearest_integer(n, unit);
    let r = nearest(n, d);
    lemma_pow2_pos(x);
    lemma2_to64_rest();
    assert(unit > 0) by (nonlinear_arith)
        requires
            unit == d * p,
            d > 0,
            p > 0,
    ;
    lemma_quantum_bounds(n, d);
    lemma_pow2_adds(x, 53);
    lemma_pow2_adds(x, 52);
    assert(d * pow2(53 + x) == (2 * h) * unit) by (nonlinear_arith)
        requires
            pow2(x + 53) == p * pow2(53),
            pow2(53) == 2 * h,
            unit == d * p,
    ;
    assert(d * pow2(52 + x) == h * unit) by (nonlinear_arith)
        requires
            pow2(x + 52) == p * pow2(52),
            pow2(52) == h,
            unit == d * p,
    ;
    // The nearest integer is within the range of a significand.
    lemma_nearest_integer_is_nearest(n, unit, 2 * h);
    lemma_nearest_integer_is_nearest(n, unit, h);
    assert(k <= 2 * h) by {
        if k > 2 * h {
            assert(k * unit >= (2 * h) * unit + unit) by (nonlinear_arith)
                requires
                    k >= 2 * h + 1,
                    unit > 0,
            ;
        }
    }
    if x > 0 {
        assert(k >= h) by {
            if k < h {
                assert(k * unit + unit <= h * unit) by (nonlinear_arith)
                    requires
                        k + 1 <= h,
                        unit > 0,
                ;
            }
        }
    }
    lemma_scaled_of_rounded(x, k);
    assert(r == x * h + k);
    assert(scaled(r) * d == k * unit) by (nonlinear_arith)
        requires
            scaled(r) == k * p,
            unit == d * p,
    ;
    let sig = significand(other);
    let y = exponent(other);
    lemma_bits_of_parts(other);
    if y >= x {
        let up = pow2((y - x) as nat);
        lemma_pow2_adds((y - x) as nat, x);
        let j = sig * up;
        assert(scaled(other) * d == j * unit) by (nonlinear_arith)
            requires
                scaled(other) == sig * pow2(y),
                pow2(y) == up * p,
                unit == d * p,
                j == sig * up,
        ;
        lemma_nearest_integer_is_nearest(n, unit, j);
        if other != r {
            if other < r {
                crate::number::lemma_scaled_increases(other, r);
            } else {
                crate::number::lemma_scaled_increases(r, other);
            }
            assert(j != k) by {
                if j == k {
                    assert(scaled(other) * d == scaled(r) * d);
                    assert(scaled(other) == scaled(r)) by (nonlinear_arith)
                        requires
                            scaled(other) * d == scaled(r) * d,
                            d > 0,
                    ;
                }
            }
        }
    } else {
        let low = pow2(y);
        lemma_pow2_unfold(x);
        if y < x - 1 {
            lemma_pow2_strictly_increases(y, (x - 1) as nat);
        }
        lemma_pow2_pos(y);
        assert(scaled(other) * d < h * unit) by (nonlinear_arith)
            requires
                scaled(other) == sig * low,
                sig < 2 * h,
                low <= pow2((x - 1) as nat),
                p == 2 * pow2((x - 1) as nat),
                unit == d * p,
                d > 0,
                low > 0,
        ;
    }
}

} // verus!
