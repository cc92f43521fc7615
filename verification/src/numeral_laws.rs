//! Laws of the numerals: the digits that `shortest` finds read back as the
//! number, for every finite number, as seventeen digits always do; no
//! decimal of fewer digits reads back; and of the decimals of as many
//! digits that read back none is nearer to the number.

use crate::double::{exponent, nearest, scaled, significand, HIDDEN_BIT, INFINITY_BITS};
use crate::number::{lemma_pow10_positive, lemma_scaled_positive, pow10};
use crate::numeral::{
    ceiling, choice, lemma_pow10_above_pow2, lemma_pow10_grows, lemma_scaled_below_ceiling, search,
    tens_below,
};
use crate::rounding_laws::{
    distance, lemma_bits_of_parts, lemma_nearest_rises, lemma_nearest_when_close,
};
use vstd::arithmetic::div_mod::*;
use vstd::arithmetic::power2::*;
use vstd::prelude::*;

verus! {

/// Ten to a sum is the product of the powers.
pub proof fn lemma_pow10_adds(a: nat, b: nat)
    ensures
        pow10(a + b) == pow10(a) * pow10(b),
    decreases b,
{
    if b == 0 {
        assert(pow10(a) * 1 == pow10(a));
    } else {
        lemma_pow10_adds(a, (b - 1) as nat);
        assert(a + b - 1 == a + (b - 1));
        assert(10 * (pow10(a) * pow10((b - 1) as nat)) == pow10(a) * (10 * pow10((b - 1) as nat)))
            by (nonlinear_arith);
    }
}

/// The ceiling is at most 10^700.
proof fn lemma_ceiling_below(budget: nat)
    requires
        budget >= 700,
    ensures
        0 < ceiling() <= pow10(budget),
{
    lemma_pow10_above_pow2(358);
    lemma_pow10_adds(358, 342);
    lemma_pow10_positive(342);
    lemma_pow2_pos(1074);
    assert(pow2(1074) * pow10(342) <= pow10(358) * pow10(342)) by (nonlinear_arith)
        requires
            pow2(1074) <= pow10(358),
    ;
    assert(pow2(1074) * pow10(342) > 0) by (nonlinear_arith)
        requires
            pow2(1074) > 0,
            pow10(342) > 0,
    ;
    lemma_pow10_grows(700, budget);
}

/// Where `tens_below` stops: the number made ten times larger that often
/// is still below the bound, if it was so at first; once more, and it is
/// not, unless the budget is used up.
proof fn lemma_tens_below_stops(n: nat, d: nat, budget: nat)
    requires
        n < d,
    ensures
        tens_below(n, d, budget) <= budget,
        n * pow10(tens_below(n, d, budget)) < d,
        tens_below(n, d, budget) < budget ==> n * pow10(tens_below(n, d, budget)) * 10 >= d,
    decreases budget,
{
    if budget > 0 && n * 10 < d {
        let j = tens_below(n * 10, d, (budget - 1) as nat);
        lemma_tens_below_stops(n * 10, d, (budget - 1) as nat);
        assert((n * 10) * pow10(j) == n * pow10(j + 1)) by (nonlinear_arith)
            requires
                pow10(j + 1) == 10 * pow10(j),
        ;
    } else {
        assert(n * pow10(0) == n) by (nonlinear_arith)
            requires
                pow10(0) == 1,
        ;
    }
}

/// Before the budget of 700 is used up, the number is lifted to within a
/// factor of ten of the ceiling.
proof fn lemma_lifted(s: nat)
    requires
        0 < s < ceiling(),
    ensures
        tens_below(s, ceiling(), 700) < 700,
        s * pow10(tens_below(s, ceiling(), 700)) < ceiling(),
        s * pow10(tens_below(s, ceiling(), 700)) * 10 >= ceiling(),
{
    let j = tens_below(s, ceiling(), 700);
    lemma_tens_below_stops(s, ceiling(), 700);
    if j == 700 {
        lemma_ceiling_below(700);
        assert(s * pow10(700) >= pow10(700)) by (nonlinear_arith)
            requires
                s >= 1,
        ;
    }
}

/// Of two neighbours, the nearer one is at most half a unit away.
proof fn lemma_nearer_is_near(p: nat, c: nat) -> (near: nat)
    requires
        c > 0,
    ensures
        near == if 2 * (p % c) >= c {
            p / c + 1
        } else {
            p / c
        },
        2 * (near * c - p) <= c,
        2 * (p - near * c) <= c,
{
    let lo = p / c;
    let r = p % c;
    lemma_fundamental_div_mod(p as int, c as int);
    assert(c * lo == lo * c) by (nonlinear_arith);
    assert((lo + 1) * c == lo * c + c) by (nonlinear_arith);
    if 2 * r >= c {
        lo + 1
    } else {
        lo
    }
}

/// With seventeen digits the nearer neighbour reads back.
proof fn lemma_seventeen_digits_read_back(m: nat, j: nat, near: nat)
    requires
        0 < m < INFINITY_BITS,
        scaled(m) * pow10(j) * 10 >= ceiling(),
        2 * (near * ceiling() - scaled(m) * pow10(j + 17)) <= ceiling(),
        2 * (scaled(m) * pow10(j + 17) - near * ceiling()) <= ceiling(),
    ensures
        nearest(near * ceiling(), pow10(j + 17)) == m,
{
    let s = scaled(m);
    let c = ceiling();
    let t = pow10(j + 17);
    let sig = significand(m);
    let x = exponent(m);
    let p = pow2(x);
    let h = HIDDEN_BIT as nat;
    lemma_bits_of_parts(m);
    lemma_pow10_adds(j, 17);
    lemma_pow10_adds(j, 1);
    lemma_pow10_positive(j + 17);
    lemma_pow2_pos(x);
    lemma_ceiling_below(700);
    assert(pow10(17) == 100_000_000_000_000_000) by {
        reveal_with_fuel(pow10, 18);
    }
    assert(pow10(1) == 10) by {
        reveal_with_fuel(pow10, 2);
    }
    let lifted = s * pow10(j);
    assert(s * t == lifted * 10 * 10_000_000_000_000_000) by (nonlinear_arith)
        requires
            t == pow10(j) * 100_000_000_000_000_000,
            lifted == s * pow10(j),
    ;
    assert(s * t >= c * 10_000_000_000_000_000) by (nonlinear_arith)
        requires
            s * t == lifted * 10 * 10_000_000_000_000_000,
            lifted * 10 >= c,
    ;
    let unit = t * p;
    assert(s * t == sig * unit) by (nonlinear_arith)
        requires
            s == sig * p,
            unit == t * p,
    ;
    assert(unit > c) by (nonlinear_arith)
        requires
            sig * unit >= c * 10_000_000_000_000_000,
            sig < 2 * h,
            2 * h <= 10_000_000_000_000_000,
            sig >= 1,
            c > 0,
    ;
    if sig == h {
        assert(unit >= 2 * c) by (nonlinear_arith)
            requires
                sig * unit >= c * 10_000_000_000_000_000,
                sig == h,
                2 * h <= 10_000_000_000_000_000,
                h >= 1,
                c > 0,
        ;
    }
    lemma_nearest_when_close(near * c, t, m);
}

/// The search finds digits that read back.
proof fn lemma_search_reads_back(m: nat, j: nat, n: nat)
    requires
        0 < m < INFINITY_BITS,
        1 <= n <= 17,
        scaled(m) * pow10(j) * 10 >= ceiling(),
    ensures
        ({
            let found = search(m, scaled(m) * pow10(j + n), pow10(j + n), n);
            &&& n <= found.1 <= 17
            &&& nearest(found.0 * ceiling(), pow10(j + found.1)) == m
            &&& choice(m, scaled(m) * pow10(j + found.1), pow10(j + found.1)) == Some(found.0)
        }),
    decreases 17 - n,
{
    let p = scaled(m) * pow10(j + n);
    let t = pow10(j + n);
    lemma_ceiling_below(700);
    match choice(m, p, t) {
        Some(c) => {},
        None => {
            if n == 17 {
                let near = lemma_nearer_is_near(p, ceiling());
                lemma_seventeen_digits_read_back(m, j, near);
            } else {
                assert(j + n + 1 == j + (n + 1));
                assert(scaled(m) * pow10(j + n) * 10 == scaled(m) * (10 * pow10(j + n)))
                    by (nonlinear_arith);
                lemma_search_reads_back(m, j, n + 1);
            }
        },
    }
}

/// What is written reads back: for every finite number other than zero,
/// the digits that `shortest` finds, before their last zeros are left off,
/// are digits of a decimal that rounds to the number; they are one of the
/// two neighbours of the number among the decimals of as many digits.
pub proof fn lemma_found_reads_back(m: nat) -> (r: (nat, nat, nat))
    requires
        0 < m < INFINITY_BITS,
    ensures
        r.1 == tens_below(scaled(m), ceiling(), 700),
        (r.0, r.2) == search(m, scaled(m) * pow10(r.1) * 10, pow10(r.1) * 10, 1),
        1 <= r.2 <= 17,
        nearest(r.0 * ceiling(), pow10(r.1 + r.2)) == m,
        choice(m, scaled(m) * pow10(r.1 + r.2), pow10(r.1 + r.2)) == Some(r.0),
{
    let s = scaled(m);
    let j = tens_below(s, ceiling(), 700);
    lemma_scaled_positive(m);
    lemma_scaled_below_ceiling(m);
    lemma_lifted(s);
    lemma_search_reads_back(m, j, 1);
    assert(pow10(j + 1) == pow10(j) * 10);
    assert(s * pow10(j + 1) == s * pow10(j) * 10) by (nonlinear_arith)
        requires
            pow10(j + 1) == pow10(j) * 10,
    ;
    let found = search(m, s * pow10(j) * 10, pow10(j) * 10, 1);
    (found.0, j, found.1)
}

/// A number rounds to itself.
pub proof fn lemma_nearest_of_exact(m: nat, d: nat)
    requires
        d > 0,
        0 < m < INFINITY_BITS,
    ensures
        nearest(scaled(m) * d, d) == m,
{
    lemma_pow2_pos(exponent(m));
    assert(d * pow2(exponent(m)) > 0) by (nonlinear_arith)
        requires
            d > 0,
            pow2(exponent(m)) > 0,
    ;
    lemma_nearest_when_close(scaled(m) * d, d, m);
}

/// Where neither of the two neighbours of a number reads back as it, no
/// whole number of the same unit does.
proof fn lemma_no_neighbour_no_other(m: nat, t: nat, other: nat)
    requires
        0 < m < INFINITY_BITS,
        t > 0,
        choice(m, scaled(m) * t, t) is None,
    ensures
        nearest(other * ceiling(), t) != m,
{
    let p = scaled(m) * t;
    let c = ceiling();
    lemma_ceiling_below(700);
    let lo = p / c;
    let hi = lo + 1;
    lemma_fundamental_div_mod(p as int, c as int);
    assert(c * lo == lo * c) by (nonlinear_arith);
    assert(hi * c == lo * c + c) by (nonlinear_arith)
        requires
            hi == lo + 1,
    ;
    lemma_nearest_of_exact(m, t);
    if other <= lo {
        assert(other * c <= lo * c) by (nonlinear_arith)
            requires
                other <= lo,
                c > 0,
        ;
        assert((other * c) * t <= (lo * c) * t) by (nonlinear_arith)
            requires
                other * c <= lo * c,
                t > 0,
        ;
        assert((lo * c) * t <= p * t) by (nonlinear_arith)
            requires
                lo * c <= p,
                t > 0,
        ;
        lemma_nearest_rises(other * c, t, lo * c, t);
        lemma_nearest_rises(lo * c, t, p, t);
    } else {
        assert(other * c >= hi * c) by (nonlinear_arith)
            requires
                other >= hi,
                c > 0,
        ;
        assert((hi * c) * t <= (other * c) * t) by (nonlinear_arith)
            requires
                hi * c <= other * c,
                t > 0,
        ;
        assert(p * t <= (hi * c) * t) by (nonlinear_arith)
            requires
                p <= hi * c,
                t > 0,
        ;
        lemma_nearest_rises(hi * c, t, other * c, t);
        lemma_nearest_rises(p, t, hi * c, t);
    }
}

/// A search that ends with more than `fewer` digits passed `fewer` digits
/// with neither neighbour reading back.
proof fn lemma_search_passed(m: nat, j: nat, k: nat, fewer: nat)
    requires
        1 <= k <= fewer < 17,
        search(m, scaled(m) * pow10(j + k), pow10(j + k), k).1 > fewer,
    ensures
        choice(m, scaled(m) * pow10(j + fewer), pow10(j + fewer)) is None,
    decreases fewer - k,
{
    let p = scaled(m) * pow10(j + k);
    let t = pow10(j + k);
    assert(j + k + 1 == j + (k + 1));
    assert(p * 10 == scaled(m) * (10 * pow10(j + k))) by (nonlinear_arith)
        requires
            p == scaled(m) * pow10(j + k),
    ;
    if k < fewer {
        lemma_search_passed(m, j, k + 1, fewer);
    }
}

/// The numeral is the shortest: with fewer digits than `shortest` finds,
/// no decimal reads back as the number. Here the decimals of `fewer`
/// digits are the whole multiples of 10^(e - fewer), where 10^e is the
/// least power of ten above the number.
pub proof fn law_numeral_is_shortest(m: nat, fewer: nat, other: nat)
    requires
        0 < m < INFINITY_BITS,
        1 <= fewer,
        fewer < search(
            m,
            scaled(m) * pow10(tens_below(scaled(m), ceiling(), 700)) * 10,
            pow10(tens_below(scaled(m), ceiling(), 700)) * 10,
            1,
        ).1,
    ensures
        nearest(other * ceiling(), pow10(tens_below(scaled(m), ceiling(), 700) + fewer)) != m,
{
    let found = lemma_found_reads_back(m);
    let j = found.1;
    let s = scaled(m);
    assert(pow10(j + 1) == pow10(j) * 10);
    assert(s * pow10(j + 1) == s * pow10(j) * 10) by (nonlinear_arith)
        requires
            pow10(j + 1) == pow10(j) * 10,
    ;
    lemma_search_passed(m, j, 1, fewer);
    lemma_pow10_positive(j + fewer);
    lemma_no_neighbour_no_other(m, pow10(j + fewer), other);
}

/// The numeral is the nearest: of the decimals with as many digits as
/// `shortest` finds that read back as the number, none is nearer to the
/// number than the one found.
pub proof fn law_numeral_is_nearest(m: nat, other: nat)
    requires
        0 < m < INFINITY_BITS,
        ({
            let j = tens_below(scaled(m), ceiling(), 700);
            let found = search(m, scaled(m) * pow10(j) * 10, pow10(j) * 10, 1);
            nearest(other * ceiling(), pow10(j + found.1)) == m
        }),
    ensures
        ({
            let j = tens_below(scaled(m), ceiling(), 700);
            let found = search(m, scaled(m) * pow10(j) * 10, pow10(j) * 10, 1);
            let p = scaled(m) * pow10(j + found.1);
            distance(found.0 * ceiling(), p) <= distance(other * ceiling(), p)
        }),
{
    let got = lemma_found_reads_back(m);
    let j = got.1;
    let n = got.2;
    let c0 = got.0;
    let s = scaled(m);
    let c = ceiling();
    let t = pow10(j + n);
    let p = s * t;
    lemma_ceiling_below(700);
    lemma_pow10_positive(j + n);
    let lo = p / c;
    let hi = lo + 1;
    lemma_fundamental_div_mod(p as int, c as int);
    assert(c * lo == lo * c) by (nonlinear_arith);
    assert(hi * c == lo * c + c) by (nonlinear_arith)
        requires
            hi == lo + 1,
    ;
    lemma_nearest_of_exact(m, t);
    // Whatever reads back from beyond a neighbour makes the neighbour read back.
    if other < lo {
        assert(other * c + c <= lo * c) by (nonlinear_arith)
            requires
                other + 1 <= lo,
                c > 0,
        ;
        assert((other * c) * t <= (lo * c) * t) by (nonlinear_arith)
            requires
                other * c <= lo * c,
                t > 0,
        ;
        assert((lo * c) * t <= p * t) by (nonlinear_arith)
            requires
                lo * c <= p,
                t > 0,
        ;
        lemma_nearest_rises(other * c, t, lo * c, t);
        lemma_nearest_rises(lo * c, t, p, t);
    }
    if other > hi {
        assert(other * c >= hi * c + c) by (nonlinear_arith)
            requires
                other >= hi + 1,
                c > 0,
        ;
        assert((hi * c) * t <= (other * c) * t) by (nonlinear_arith)
            requires
                hi * c <= other * c,
                t > 0,
        ;
        assert(p * t <= (hi * c) * t) by (nonlinear_arith)
            requires
                p <= hi * c,
                t > 0,
        ;
        lemma_nearest_rises(hi * c, t, other * c, t);
        lemma_nearest_rises(p, t, hi * c, t);
    }
}

} // verus!
