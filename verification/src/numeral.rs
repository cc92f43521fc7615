//! The decimal numerals of numbers.
//!
//! A number is written with the fewest digits that read back as the same
//! number. `shortest` says which digits those are: with the number set
//! between ten to some power and ten times that, the first count of digits
//! at which one of the two decimals next to the number reads back as it,
//! and of two that do, the nearer one.

use crate::bignat::{lemma_mul_pow2_zero, BigNat};
use crate::double::{
    is_negative, magnitude, nearest, round_ratio, scaled, INFINITY_BITS, SIGN_BIT,
};
use crate::number::{
    lemma_pow10_positive, lemma_scaled_increases, magnitude_of, pow10, scaled_of, Double,
};
use crate::text::{decimal_text, digit_char, digit_of, push_char, push_chars, push_text};
use vstd::arithmetic::power2::*;
use vstd::prelude::*;

verus! {

/// 10^342, in units of 2^-1074: above every finite number.
pub open spec fn ceiling() -> nat {
    pow2(1074) * pow10(342)
}

/// How often `n` can be made ten times larger and stay below `d`, up to
/// `budget` times.
pub open spec fn tens_below(n: nat, d: nat, budget: nat) -> nat
    decreases budget,
{
    if budget > 0 && n * 10 < d {
        1 + tens_below(n * 10, d, (budget - 1) as nat)
    } else {
        0
    }
}

/// Of the two whole numbers next to `p / ceiling()`, the one to write for
/// the magnitude bits `m`, where a unit stands for `ceiling() / t` units of
/// 2^-1074: one that reads back as `m`, the nearer one where both do, the
/// upper one where they are equally near; none where neither does.
pub open spec fn choice(m: nat, p: nat, t: nat) -> Option<nat> {
    let lo = p / ceiling();
    let hi = lo + 1;
    let upper = 2 * (p % ceiling()) >= ceiling();
    let lo_reads = nearest(lo * ceiling(), t) == m;
    let hi_reads = nearest(hi * ceiling(), t) == m;
    if lo_reads && hi_reads {
        Some(
            if upper {
                hi
            } else {
                lo
            },
        )
    } else if lo_reads {
        Some(lo)
    } else if hi_reads {
        Some(hi)
    } else {
        None
    }
}

/// The digits to write for the magnitude bits `m`, as one natural, and
/// their count, searching from `n` digits on. With 17 digits the search
/// ends in any case; for a finite number it has found digits that read
/// back by then (`lemma_found_reads_back`).
pub open spec fn search(m: nat, p: nat, t: nat, n: nat) -> (nat, nat)
    decreases 17 - n,
{
    match choice(m, p, t) {
        Some(c) => (c, n),
        None => if n >= 17 {
            (p / ceiling(), n)
        } else {
            search(m, p * 10, t * 10, n + 1)
        },
    }
}

/// How many zeros end the decimal numeral of `c`.
pub open spec fn trailing_zeros(c: nat) -> nat
    decreases c,
{
    if c > 0 && c % 10 == 0 {
        1 + trailing_zeros(c / 10)
    } else {
        0
    }
}

/// `c` without the zeros that end its decimal numeral.
pub open spec fn stripped(c: nat) -> nat
    decreases c,
{
    if c > 0 && c % 10 == 0 {
        stripped(c / 10)
    } else {
        c
    }
}

/// The shortest decimal for the magnitude bits `m` of a finite number
/// other than zero: digits `c`, not ending in zero, and a power of ten
/// `q`, for the decimal `c * 10^q`. The number is first made ten times
/// larger until it is within a factor of ten below the ceiling; the 700
/// times allowed for that are never used up.
pub open spec fn shortest(m: nat) -> (nat, int) {
    let s = scaled(m);
    let j = tens_below(s, ceiling(), 700);
    let found = search(m, s * pow10(j) * 10, pow10(j) * 10, 1);
    (stripped(found.0), 342 - j - found.1 + trailing_zeros(found.0))
}

/// Powers of ten grow with the exponent.
pub proof fn lemma_pow10_grows(a: nat, b: nat)
    requires
        a <= b,
    ensures
        pow10(a) <= pow10(b),
    decreases b - a,
{
    if a < b {
        lemma_pow10_grows(a, (b - 1) as nat);
    }
}

/// Ten to the `k` is at least eight to the `k`.
pub proof fn lemma_pow10_above_pow2(k: nat)
    ensures
        pow10(k) >= pow2(3 * k),
    decreases k,
{
    if k == 0 {
        lemma2_to64();
    } else {
        lemma_pow10_above_pow2((k - 1) as nat);
        lemma_pow2_adds((3 * (k - 1)) as nat, 3);
        lemma2_to64();
    }
}

/// Every finite number is below the ceiling.
pub proof fn lemma_scaled_below_ceiling(m: nat)
    requires
        m < INFINITY_BITS,
    ensures
        scaled(m) < ceiling(),
{
    lemma_scaled_increases(m, INFINITY_BITS as nat);
    lemma2_to64_rest();
    lemma_pow2_adds(52, 2046);
    lemma_pow2_adds(1074, 1024);
    lemma_pow10_above_pow2(342);
    lemma_pow2_strictly_increases(1024, 1026);
    assert(scaled(INFINITY_BITS as nat) == pow2(2098));
    assert(pow2(1074) * pow2(1024) <= pow2(1074) * pow10(342)) by (nonlinear_arith)
        requires
            pow2(1024) <= pow10(342),
    ;
}

/// The ceiling.
fn ceiling_value() -> (c: BigNat)
    ensures
        c@ == ceiling(),
{
    let mut c = BigNat::from_u64(1).shifted_left(1074);
    let mut i: usize = 0;
    proof {
        assert(1 * pow2(1074) == pow2(1074) * pow10(0)) by (nonlinear_arith)
            requires
                pow10(0) == 1,
        ;
    }
    while i < 342
        invariant
            i <= 342,
            c@ == pow2(1074) * pow10(i as nat),
        decreases 342 - i,
    {
        proof {
            assert((pow2(1074) * pow10(i as nat)) * 10 == pow2(1074) * (10 * pow10(i as nat)))
                by (nonlinear_arith);
        }
        c = c.mul_small(10, 0);
        i += 1;
    }
    c
}

/// The shortest decimal for the magnitude bits `m`.
pub fn shortest_of(m: u64) -> (r: (u64, i64))
    requires
        0 < m < INFINITY_BITS,
    ensures
        (r.0 as nat, r.1 as int) == shortest(m as nat),
        -400 <= r.1 <= 400,
{
    let s = scaled_of(m);
    let c = ceiling_value();
    let mut p = scaled_of(m);
    let mut t = BigNat::from_u64(1);
    let mut j: usize = 0;
    proof {
        lemma_scaled_below_ceiling(m as nat);
        assert(s@ * pow10(0) == s@) by (nonlinear_arith)
            requires
                pow10(0) == 1,
        ;
    }
    while j < 700
        invariant_except_break
            tens_below(s@, ceiling(), 700) == j + tens_below(p@, ceiling(), (700 - j) as nat),
        invariant
            j <= 700,
            c@ == ceiling(),
            p@ == s@ * pow10(j as nat),
            t@ == pow10(j as nat),
            p@ < ceiling(),
        ensures
            tens_below(s@, ceiling(), 700) == j,
        decreases 700 - j,
    {
        let next = p.mul_small(10, 0);
        if !next.is_less_than(&c) {
            break ;
        }
        proof {
            assert((s@ * pow10(j as nat)) * 10 == s@ * (10 * pow10(j as nat))) by (nonlinear_arith);
        }
        p = next;
        t = t.mul_small(10, 0);
        j += 1;
    }
    let ghost target = search(m as nat, s@ * pow10(j as nat) * 10, pow10(j as nat) * 10, 1);
    let ghost lifted = p@;
    p = p.mul_small(10, 0);
    t = t.mul_small(10, 0);
    let mut n: usize = 1;
    let mut digits: u64 = 0;
    proof {
        lemma_pow10_positive(j as nat);
        assert(pow10(1) == 10) by {
            reveal_with_fuel(pow10, 2);
        }
        assert(lifted * 10 < ceiling() * 10) by (nonlinear_arith)
            requires
                lifted < ceiling(),
        ;
        assert(p@ < ceiling() * pow10(1));
    }
    loop
        invariant_except_break
            search(m as nat, p@, t@, n as nat) == target,
        invariant
            1 <= n <= 17,
            c@ == ceiling(),
            p@ < ceiling() * pow10(n as nat),
            t@ > 0,
        ensures
            1 <= n <= 17,
            digits <= 0x200_0000_0000_0000,
            (digits as nat, n as nat) == target,
        decreases 17 - n,
    {
        proof {
            lemma_pow10_grows(n as nat, 17);
            assert(pow10(17) == 100_000_000_000_000_000) by {
                reveal_with_fuel(pow10, 18);
            }
            lemma2_to64_rest();
            assert(ceiling() * pow10(n as nat) <= ceiling() * pow2(57)) by (nonlinear_arith)
                requires
                    pow10(n as nat) <= pow2(57),
            ;
            assert(ceiling() > 0);
        }
        let lo: u64 = p.quotient_below(&c, 57);
        let hi: u64 = lo + 1;
        let below = c.mul_small(lo, 0);
        let above = c.mul_small(hi, 0);
        let rest = p.minus(&below);
        let upper: bool = !rest.mul_small(2, 0).is_less_than(&c);
        let lo_reads: bool = round_ratio(&below, &t) == m;
        let hi_reads: bool = round_ratio(&above, &t) == m;
        proof {
            vstd::arithmetic::div_mod::lemma_fundamental_div_mod(p@ as int, ceiling() as int);
            assert(ceiling() * lo == lo * ceiling()) by (nonlinear_arith);
            assert(ceiling() * hi == hi * ceiling()) by (nonlinear_arith);
            assert(ceiling() * (p@ / ceiling()) == (p@ / ceiling()) * ceiling())
                by (nonlinear_arith);
        }
        if lo_reads && hi_reads {
            digits = if upper {
                hi
            } else {
                lo
            };
            break ;
        } else if lo_reads {
            digits = lo;
            break ;
        } else if hi_reads {
            digits = hi;
            break ;
        } else if n >= 17 {
            digits = lo;
            break ;
        }
        proof {
            assert(p@ * 10 < ceiling() * (10 * pow10(n as nat))) by (nonlinear_arith)
                requires
                    p@ < ceiling() * pow10(n as nat),
            ;
        }
        p = p.mul_small(10, 0);
        t = t.mul_small(10, 0);
        n += 1;
    }
    let ghost found = digits;
    let mut zeros: u64 = 0;
    proof {
        lemma_mul_pow2_zero(digits as nat);
    }
    while digits > 0 && digits % 10 == 0
        invariant
            found <= 0x200_0000_0000_0000,
            stripped(found as nat) == stripped(digits as nat),
            trailing_zeros(found as nat) == zeros + trailing_zeros(digits as nat),
            zeros + digits <= found,
            digits as nat * pow2(zeros as nat) <= found,
            zeros > 0 ==> digits >= 1,
        decreases digits,
    {
        proof {
            let half = pow2(zeros as nat);
            lemma_pow2_unfold((zeros + 1) as nat);
            assert((digits / 10) as nat * (2 * half) <= digits as nat * half) by (nonlinear_arith)
                requires
                    2 * (digits / 10) <= digits,
            ;
        }
        digits = digits / 10;
        zeros += 1;
    }
    proof {
        if zeros > 57 {
            lemma_pow2_strictly_increases(57, zeros as nat);
            lemma2_to64_rest();
            assert(digits as nat * pow2(zeros as nat) >= pow2(zeros as nat)) by (nonlinear_arith)
                requires
                    digits >= 1,
            ;
        }
    }
    (digits, 342 - j as i64 - n as i64 + zeros as i64)
}

/// `k` zeros.
pub open spec fn zeros(k: nat) -> Seq<char> {
    Seq::new(k, |i: int| '0')
}

/// The decimal numeral of the whole number `k`, with its sign where it is
/// negative.
pub open spec fn signed_text(k: int) -> Seq<char> {
    if k < 0 {
        seq!['-'] + decimal_text((-k) as nat)
    } else {
        decimal_text(k as nat)
    }
}

/// The decimal `c * 10^q` written out in full: with a point where digits
/// stand behind it, with zeros for the places that `c` does not fill, and,
/// where `keep_point` holds, with `.0` behind a whole number.
pub open spec fn plain_text(c: nat, q: int, keep_point: bool) -> Seq<char> {
    let ds = decimal_text(c);
    let k = ds.len() + q;
    if k <= 0 {
        "0."@ + zeros((-k) as nat) + ds
    } else if k < ds.len() {
        ds.subrange(0, k).push('.') + ds.subrange(k, ds.len() as int)
    } else if keep_point {
        ds + zeros((k - ds.len()) as nat) + ".0"@
    } else {
        ds + zeros((k - ds.len()) as nat)
    }
}

/// The decimal `c * 10^q` written with one digit before the point and a
/// power of ten behind an `e`.
pub open spec fn exponent_text(c: nat, q: int) -> Seq<char> {
    let ds = decimal_text(c);
    let k = ds.len() + q;
    if ds.len() > 1 {
        ds.subrange(0, 1).push('.') + ds.subrange(1, ds.len() as int) + seq!['e'] + signed_text(
            k - 1,
        )
    } else {
        ds.push('e') + signed_text(k - 1)
    }
}

/// The sign that is written before a number with the bits `b`.
pub open spec fn sign_text(b: u64) -> Seq<char> {
    if is_negative(b) {
        seq!['-']
    } else {
        Seq::empty()
    }
}

/// How a number with the bits `b` is shown: `NaN`, `inf`, `0`, or its
/// shortest decimal written out in full; a `-` before what is negative.
pub open spec fn display_text(b: u64) -> Seq<char> {
    let m = magnitude(b);
    if m > INFINITY_BITS {
        "NaN"@
    } else if m == INFINITY_BITS {
        sign_text(b) + "inf"@
    } else if m == 0 {
        sign_text(b) + "0"@
    } else {
        sign_text(b) + plain_text(shortest(m).0, shortest(m).1, false)
    }
}

/// The magnitude bits of 10^16.
pub const TEN_TO_16: u64 = 0x4341_C379_37E0_8000;

/// The magnitude bits of the number nearest to 10^-4.
pub const TEN_TO_MINUS_4: u64 = 0x3F1A_36E2_EB1C_432D;

/// How a number with the bits `b` is shown in detail: as it is shown
/// plainly, but a whole number with `.0` behind it, and a number from
/// 10^16 on, or below the number nearest to 10^-4, with a power of ten.
pub open spec fn debug_text(b: u64) -> Seq<char> {
    let m = magnitude(b);
    if m > INFINITY_BITS {
        "NaN"@
    } else if m == INFINITY_BITS {
        sign_text(b) + "inf"@
    } else if m == 0 {
        sign_text(b) + "0.0"@
    } else if m >= TEN_TO_16 || m < TEN_TO_MINUS_4 {
        sign_text(b) + exponent_text(shortest(m).0, shortest(m).1)
    } else {
        sign_text(b) + plain_text(shortest(m).0, shortest(m).1, true)
    }
}

proof fn lemma_decimal_text_length(n: nat, k: nat)
    requires
        k >= 1,
        n < pow10(k),
    ensures
        1 <= decimal_text(n).len() <= k,
    decreases n,
{
    if n >= 10 {
        assert(k >= 2) by {
            reveal_with_fuel(pow10, 2);
        }
        lemma_decimal_text_length(n / 10, (k - 1) as nat);
    }
}

/// The decimal numeral of `n`.
pub fn digits_of(n: u64) -> (v: Vec<char>)
    ensures
        v@ == decimal_text(n as nat),
        1 <= v.len() <= 20,
    decreases n,
{
    proof {
        assert(pow10(20) == 100_000_000_000_000_000_000) by {
            reveal_with_fuel(pow10, 21);
        }
        lemma_decimal_text_length(n as nat, 20);
    }
    let mut v: Vec<char> = if n >= 10 {
        digits_of(n / 10)
    } else {
        Vec::new()
    };
    v.push(digit_of((n % 10) as u8));
    proof {
        if n < 10 {
            assert(v@ =~= seq![digit_char(n as nat)]);
        }
    }
    v
}

/// Appends `k` zeros to `s`.
fn push_zeros(s: &mut String, k: usize)
    ensures
        final(s)@ == old(s)@ + zeros(k as nat),
{
    let mut i: usize = 0;
    proof {
        assert(s@ =~= old(s)@ + zeros(0));
    }
    while i < k
        invariant
            i <= k,
            s@ == old(s)@ + zeros(i as nat),
        decreases k - i,
    {
        push_char(s, '0');
        proof {
            assert((old(s)@ + zeros(i as nat)).push('0') =~= old(s)@ + zeros((i + 1) as nat));
        }
        i += 1;
    }
}

/// Appends the numeral of the whole number `k` to `s`.
fn push_signed(s: &mut String, k: i64)
    requires
        -1000 <= k <= 1000,
    ensures
        final(s)@ == old(s)@ + signed_text(k as int),
{
    if k < 0 {
        push_char(s, '-');
        let ds = digits_of((-k) as u64);
        push_chars(s, &ds, 0, ds.len());
        proof {
            assert(ds@.subrange(0, ds.len() as int) =~= ds@);
            assert(old(s)@.push('-') + ds@ =~= old(s)@ + (seq!['-'] + ds@));
        }
    } else {
        let ds = digits_of(k as u64);
        push_chars(s, &ds, 0, ds.len());
        proof {
            assert(ds@.subrange(0, ds.len() as int) =~= ds@);
        }
    }
}

/// Appends the decimal `c * 10^q`, written out in full, to `s`.
fn push_plain(s: &mut String, c: u64, q: i64, keep_point: bool)
    requires
        -400 <= q <= 400,
    ensures
        final(s)@ == old(s)@ + plain_text(c as nat, q as int, keep_point),
{
    let ds = digits_of(c);
    let len: usize = ds.len();
    let k: i64 = len as i64 + q;
    proof {
        assert(ds@.subrange(0, len as int) =~= ds@);
    }
    if k <= 0 {
        push_text(s, "0.");
        push_zeros(s, (-k) as usize);
        push_chars(s, &ds, 0, len);
        proof {
            assert(s@ =~= old(s)@ + ("0."@ + zeros((-k) as nat) + ds@));
        }
    } else if k < len as i64 {
        push_chars(s, &ds, 0, k as usize);
        push_char(s, '.');
        push_chars(s, &ds, k as usize, len);
        proof {
            assert(s@ =~= old(s)@ + (ds@.subrange(0, k as int).push('.') + ds@.subrange(
                k as int,
                len as int,
            )));
        }
    } else {
        push_chars(s, &ds, 0, len);
        push_zeros(s, (k - len as i64) as usize);
        if keep_point {
            push_text(s, ".0");
            proof {
                assert(s@ =~= old(s)@ + (ds@ + zeros((k - len) as nat) + ".0"@));
            }
        } else {
            proof {
                assert(s@ =~= old(s)@ + (ds@ + zeros((k - len) as nat)));
            }
        }
    }
}

/// Appends the decimal `c * 10^q`, written with a power of ten, to `s`.
fn push_exponent(s: &mut String, c: u64, q: i64)
    requires
        -400 <= q <= 400,
    ensures
        final(s)@ == old(s)@ + exponent_text(c as nat, q as int),
{
    let ds = digits_of(c);
    let len: usize = ds.len();
    let k: i64 = len as i64 + q;
    push_chars(s, &ds, 0, 1);
    if len > 1 {
        push_char(s, '.');
        push_chars(s, &ds, 1, len);
    }
    push_char(s, 'e');
    let ghost before = s@;
    push_signed(s, k - 1);
    proof {
        if len > 1 {
            assert(before =~= old(s)@ + (ds@.subrange(0, 1).push('.') + ds@.subrange(
                1,
                len as int,
            ) + seq!['e']));
            assert(s@ =~= old(s)@ + (ds@.subrange(0, 1).push('.') + ds@.subrange(1, len as int)
                + seq!['e'] + signed_text(k - 1)));
        } else {
            assert(ds@.subrange(0, 1) =~= ds@);
            assert(before =~= old(s)@ + ds@.push('e'));
            assert(s@ =~= old(s)@ + (ds@.push('e') + signed_text(k - 1)));
        }
    }
}

/// Appends the sign of the bits `b` to `s`.
fn push_sign(s: &mut String, b: u64)
    ensures
        final(s)@ == old(s)@ + sign_text(b),
{
    if b >= SIGN_BIT {
        push_char(s, '-');
        proof {
            assert(old(s)@.push('-') =~= old(s)@ + seq!['-']);
        }
    } else {
        proof {
            assert(old(s)@ =~= old(s)@ + Seq::<char>::empty());
        }
    }
}

/// Appends the number to `s`, as it is shown.
pub fn push_display(s: &mut String, d: Double)
    ensures
        final(s)@ == old(s)@ + display_text(d.bits),
{
    let m: u64 = magnitude_of(d.bits);
    if m > INFINITY_BITS {
        push_text(s, "NaN");
        return ;
    }
    push_sign(s, d.bits);
    if m == INFINITY_BITS {
        push_text(s, "inf");
    } else if m == 0 {
        push_text(s, "0");
    } else {
        let found = shortest_of(m);
        push_plain(s, found.0, found.1, false);
    }
    proof {
        assert(s@ =~= old(s)@ + display_text(d.bits));
    }
}

/// Appends the number to `s`, as it is shown in detail.
pub fn push_debug(s: &mut String, d: Double)
    ensures
        final(s)@ == old(s)@ + debug_text(d.bits),
{
    let m: u64 = magnitude_of(d.bits);
    if m > INFINITY_BITS {
        push_text(s, "NaN");
        return ;
    }
    push_sign(s, d.bits);
    if m == INFINITY_BITS {
        push_text(s, "inf");
    } else if m == 0 {
        push_text(s, "0.0");
    } else {
        let found = shortest_of(m);
        if m >= TEN_TO_16 || m < TEN_TO_MINUS_4 {
            push_exponent(s, found.0, found.1);
        } else {
            push_plain(s, found.0, found.1, true);
        }
    }
    proof {
        assert(s@ =~= old(s)@ + debug_text(d.bits));
    }
}

impl Double {
    /// The number as it is shown.
    pub fn to_string(&self) -> (s: String)
        ensures
            s@ == display_text(self.bits),
    {
        let mut s = String::new();
        push_display(&mut s, *self);
        proof {
            assert(Seq::<char>::empty() + display_text(self.bits) =~= display_text(self.bits));
        }
        s
    }
}

} // verus!
