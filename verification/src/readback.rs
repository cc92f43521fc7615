//! A number that is shown reads back: the text that shows a finite number
//! that is not negative scans as one number literal, and the literal is the
//! number.

use crate::double::{nearest, nearest_integer, quantum, INFINITY_BITS};
use crate::number::{
    decimal_bits, decimal_digits, digit_value, fraction_digits, has_point, is_digit,
    lemma_pow10_positive, pow10,
};
use crate::numeral::{
    ceiling, display_text, plain_text, shortest, stripped, trailing_zeros, zeros,
};
use crate::numeral_laws::{lemma_found_reads_back, lemma_pow10_adds};
use crate::rounding_laws::lemma_nearest_same_ratio;
use crate::scanner::{char_at, digit_run, number_end};
use crate::text::{decimal_text, digit_char};
use vstd::arithmetic::power2::*;
use vstd::prelude::*;

verus! {

/// Whether the text holds digits only.
pub open spec fn all_digits(s: Seq<char>) -> bool {
    forall|i: int| 0 <= i < s.len() ==> is_digit(#[trigger] s[i])
}

proof fn lemma_digit_char(d: nat)
    requires
        d < 10,
    ensures
        is_digit(digit_char(d)),
        digit_value(digit_char(d)) == d,
{
}

/// The numeral of `c` holds digits only, and they say `c`.
pub proof fn lemma_decimal_text_says(c: nat)
    ensures
        all_digits(decimal_text(c)),
        decimal_text(c).len() >= 1,
        decimal_digits(decimal_text(c)) == c,
    decreases c,
{
    lemma_digit_char(c % 10);
    if c < 10 {
        let s = seq![digit_char(c)];
        assert(s.drop_last() =~= Seq::<char>::empty());
        assert(decimal_digits(s.drop_last()) == 0);
    } else {
        lemma_decimal_text_says(c / 10);
        let s = decimal_text(c);
        assert(s.drop_last() =~= decimal_text(c / 10));
    }
}

/// Text without a point has no digits behind one.
proof fn lemma_digits_have_no_point(s: Seq<char>)
    requires
        all_digits(s),
    ensures
        !has_point(s),
        fraction_digits(s) == 0,
    decreases s.len(),
{
    if s.len() > 0 {
        lemma_digits_have_no_point(s.drop_last());
    }
}

/// What digits add behind a text.
proof fn lemma_append_digits(a: Seq<char>, b: Seq<char>)
    requires
        all_digits(b),
    ensures
        decimal_digits(a + b) == decimal_digits(a) * pow10(b.len()) + decimal_digits(b),
        has_point(a + b) == has_point(a),
        fraction_digits(a + b) == fraction_digits(a) + if has_point(a) {
            b.len()
        } else {
            0
        },
    decreases b.len(),
{
    if b.len() == 0 {
        assert(a + b =~= a);
        assert(decimal_digits(a) * 1 == decimal_digits(a));
    } else {
        let front = b.drop_last();
        assert((a + b).drop_last() =~= a + front);
        assert((a + b).last() == b.last());
        lemma_append_digits(a, front);
        let x = decimal_digits(a);
        let p = pow10(front.len());
        let y = decimal_digits(front);
        assert((x * p + y) * 10 == x * (10 * p) + y * 10) by (nonlinear_arith);
    }
}

/// Zeros are digits, and say zero.
proof fn lemma_zeros_say_nothing(k: nat)
    ensures
        all_digits(zeros(k)),
        zeros(k).len() == k,
        decimal_digits(zeros(k)) == 0,
    decreases k,
{
    if k > 0 {
        lemma_zeros_say_nothing((k - 1) as nat);
        assert(zeros(k).drop_last() =~= zeros((k - 1) as nat));
    }
}

/// A run of digits that ends at a character that is none, or at the end
/// of the text, is as long as it looks.
proof fn lemma_digit_run_is(s: Seq<char>, i: int, n: nat)
    requires
        0 <= i,
        i + n <= s.len(),
        forall|k: int| i <= k < i + n ==> is_digit(#[trigger] s[k]),
        i + n == s.len() || !is_digit(s[i + n]),
    ensures
        digit_run(s, i) == n,
    decreases n,
{
    if n > 0 {
        lemma_digit_run_is(s, i + 1, (n - 1) as nat);
    }
}

/// The power of ten that `q` counts up, and the one that it counts down.
pub open spec fn raised(q: int) -> nat {
    if q > 0 {
        pow10(q as nat)
    } else {
        1
    }
}

/// The power of ten that a negative `q` counts down; 1 for another `q`.
pub open spec fn lowered(q: int) -> nat {
    if q < 0 {
        pow10((-q) as nat)
    } else {
        1
    }
}

/// The decimal `c * 10^q`, written out in full, is one number literal
/// from its first character to its last, and says that decimal.
pub proof fn lemma_plain_text_says(c: nat, q: int)
    ensures
        ({
            let s = plain_text(c, q, false);
            &&& s.len() >= 1
            &&& is_digit(s[0])
            &&& number_end(s, 0) == s.len()
            &&& decimal_digits(s) * lowered(q) == c * raised(q) * pow10(fraction_digits(s))
        }),
{
    let s = plain_text(c, q, false);
    let ds = decimal_text(c);
    let len = ds.len() as int;
    let k = len + q;
    lemma_decimal_text_says(c);
    lemma_digits_have_no_point(ds);
    if k <= 0 {
        let lead = "0."@;
        let gap = zeros((-k) as nat);
        reveal_strlit("0.");
        lemma_zeros_say_nothing((-k) as nat);
        assert(lead.drop_last() =~= seq!['0']);
        assert(seq!['0'].drop_last() =~= Seq::<char>::empty());
        assert(decimal_digits(seq!['0']) == 0) by {
            assert(decimal_digits(Seq::<char>::empty()) == 0);
        }
        assert(decimal_digits(lead) == 0);
        assert(!has_point(seq!['0'])) by {
            assert(!has_point(Seq::<char>::empty()));
        }
        assert(has_point(lead));
        assert(fraction_digits(seq!['0']) == 0) by {
            assert(fraction_digits(Seq::<char>::empty()) == 0);
        }
        assert(fraction_digits(lead) == 0);
        lemma_append_digits(lead, gap);
        lemma_append_digits(lead + gap, ds);
        assert(s == lead + gap + ds);
        assert(decimal_digits(lead + gap) == 0) by (nonlinear_arith)
            requires
                decimal_digits(lead + gap) == decimal_digits(lead) * pow10(gap.len())
                    + decimal_digits(gap),
                decimal_digits(lead) == 0,
                decimal_digits(gap) == 0,
        ;
        assert(decimal_digits(s) == c) by (nonlinear_arith)
            requires
                decimal_digits(s) == decimal_digits(lead + gap) * pow10(ds.len()) + c,
                decimal_digits(lead + gap) == 0,
        ;
        assert(fraction_digits(s) == -q);
        assert(s[0] == '0');
        assert(s[1] == '.');
        lemma_digit_run_is(s, 0, 1);
        assert forall|i: int| 2 <= i < s.len() implies is_digit(#[trigger] s[i]) by {
            if i < 2 + gap.len() {
                assert(s[i] == gap[i - 2]);
            } else {
                assert(s[i] == ds[i - 2 - gap.len()]);
            }
        }
        lemma_digit_run_is(s, 2, (s.len() - 2) as nat);
        assert(c * 1 * pow10((-q) as nat) == c * pow10((-q) as nat)) by (nonlinear_arith);
    } else if k < len {
        let whole = ds.subrange(0, k);
        let part = ds.subrange(k, len);
        let head = whole.push('.');
        assert(ds =~= whole + part);
        assert(all_digits(whole));
        assert(all_digits(part));
        lemma_digits_have_no_point(whole);
        lemma_append_digits(whole, part);
        assert(head.drop_last() =~= whole);
        assert(decimal_digits(head) == decimal_digits(whole));
        assert(has_point(head));
        assert(fraction_digits(head) == 0);
        lemma_append_digits(head, part);
        assert(s == head + part);
        assert(decimal_digits(s) == c);
        assert(fraction_digits(s) == -q);
        assert forall|i: int| 0 <= i < k implies is_digit(#[trigger] s[i]) by {
            assert(s[i] == ds[i]);
        }
        assert(s[k] == '.');
        lemma_digit_run_is(s, 0, k as nat);
        assert forall|i: int| k + 1 <= i < s.len() implies is_digit(#[trigger] s[i]) by {
            assert(s[i] == ds[i - 1]);
        }
        lemma_digit_run_is(s, k + 1, (len - k) as nat);
        assert(s[0] == ds[0]);
        assert(c * 1 * pow10((-q) as nat) == c * pow10((-q) as nat)) by (nonlinear_arith);
    } else {
        let gap = zeros(q as nat);
        lemma_zeros_say_nothing(q as nat);
        lemma_append_digits(ds, gap);
        assert(s == ds + gap);
        assert(all_digits(s)) by {
            assert forall|i: int| 0 <= i < s.len() implies is_digit(#[trigger] s[i]) by {
                if i < len {
                    assert(s[i] == ds[i]);
                } else {
                    assert(s[i] == gap[i - len]);
                }
            }
        }
        lemma_digit_run_is(s, 0, s.len());
        assert(char_at(s, s.len() as int) is None);
        assert(s[0] == ds[0]);
        assert(fraction_digits(s) == 0);
        assert(pow10(0) == 1);
        if q > 0 {
            assert(decimal_digits(s) * 1 == c * pow10(q as nat) * 1) by (nonlinear_arith)
                requires
                    decimal_digits(s) == c * pow10(q as nat) + 0,
            ;
        } else {
            assert(decimal_digits(s) * 1 == c * 1 * 1) by (nonlinear_arith)
                requires
                    decimal_digits(s) == c * pow10(0) + 0,
                    pow10(0) == 1,
            ;
        }
    }
}

/// Digits with their last zeros left off, and the zeros put back.
proof fn lemma_stripped(c: nat)
    ensures
        stripped(c) * pow10(trailing_zeros(c)) == c,
        c >= 1 ==> stripped(c) >= 1,
    decreases c,
{
    if c > 0 && c % 10 == 0 {
        lemma_stripped(c / 10);
        let z = trailing_zeros(c / 10);
        assert(stripped(c / 10) * (10 * pow10(z)) == (stripped(c / 10) * pow10(z)) * 10)
            by (nonlinear_arith);
    } else {
        assert(c * pow10(0) == c) by (nonlinear_arith)
            requires
                pow10(0) == 1,
        ;
    }
}

/// Nothing rounds to zero.
pub proof fn lemma_nearest_of_zero(d: nat)
    requires
        d > 0,
    ensures
        nearest(0, d) == 0,
{
    assert(quantum(0, d) == 0);
    crate::bignat::lemma_mul_pow2_zero(d);
    assert(nearest_integer(0, d) == 0) by {
        vstd::arithmetic::div_mod::lemma_fundamental_div_mod_converse(0, d as int, 0, 0);
    }
}

/// The text that shows a finite number that is not negative is one number
/// literal, and the literal is the number.
pub proof fn law_shown_number_reads_back(m: u64)
    requires
        m < INFINITY_BITS,
    ensures
        display_text(m).len() >= 1,
        is_digit(display_text(m)[0]),
        number_end(display_text(m), 0) == display_text(m).len(),
        decimal_bits(display_text(m)) == m,
{
    let s = display_text(m);
    if m == 0 {
        reveal_strlit("0");
        assert(s =~= "0"@);
        assert(s.drop_last() =~= Seq::<char>::empty());
        assert(decimal_digits(s.drop_last()) == 0);
        assert(decimal_digits(s) == 0);
        assert(fraction_digits(s) == 0) by {
            assert(fraction_digits(s.drop_last()) == 0);
        }
        lemma_digit_run_is(s, 0, 1);
        assert(char_at(s, 1) is None);
        assert(0 * pow2(1074) == 0);
        lemma_nearest_of_zero(1);
    } else {
        let found = lemma_found_reads_back(m as nat);
        let c0 = found.0;
        let j = found.1;
        let n = found.2;
        let c = stripped(c0);
        let z = trailing_zeros(c0);
        let q = 342 - j - n + z;
        assert(shortest(m as nat) == (c, q));
        assert(s =~= plain_text(c, q, false));
        lemma_plain_text_says(c, q);
        lemma_stripped(c0);
        let dd = decimal_digits(s);
        let frac = fraction_digits(s);
        let up = if q > 0 {
            q as nat
        } else {
            0
        };
        let down = if q < 0 {
            (-q) as nat
        } else {
            0
        };
        assert(pow10(0) == 1);
        assert(dd * pow10(down) == c * pow10(up) * pow10(frac));
        lemma_pow10_positive(down);
        lemma_pow10_positive(frac);
        lemma_pow10_positive(j + n);
        lemma_pow10_adds(z, 342);
        let two = pow2(1074);
        let pz = pow10(z);
        let pf = pow10(frac);
        let pt = pow10(j + n);
        let pm = pow10(z + 342);
        let p342 = pow10(342);
        let both = c * two;
        assert(c0 * ceiling() == both * pm) by (nonlinear_arith)
            requires
                c0 == c * pz,
                ceiling() == two * p342,
                pm == pz * p342,
                both == c * two,
        ;
        if q >= 0 {
            let pu = pow10(up);
            lemma_pow10_adds(up, j + n);
            assert(z + 342 == up + (j + n));
            assert(dd == c * pu * pf) by (nonlinear_arith)
                requires
                    dd * 1 == c * pu * pf,
            ;
            let t1 = pu * pf;
            assert((both * (pu * pt)) * pf == (both * pt) * t1) by (nonlinear_arith)
                requires
                    t1 == pu * pf,
            ;
            assert(((c * pu * pf) * two) * pt == (both * pt) * t1) by (nonlinear_arith)
                requires
                    t1 == pu * pf,
                    both == c * two,
            ;
        } else {
            let pd = pow10(down);
            lemma_pow10_adds(z + 342, down);
            assert(z + 342 + down == j + n);
            assert(c * pf == dd * pd) by (nonlinear_arith)
                requires
                    dd * pd == c * 1 * pf,
            ;
            let tm = two * pm;
            assert((both * pm) * pf == (c * pf) * tm) by (nonlinear_arith)
                requires
                    both == c * two,
                    tm == two * pm,
            ;
            assert((dd * two) * (pm * pd) == (dd * pd) * tm) by (nonlinear_arith)
                requires
                    tm == two * pm,
            ;
        }
        assert((c0 * ceiling()) * pf == (dd * two) * pt);
        lemma_nearest_same_ratio(c0 * ceiling(), pt, dd * two, pf);
    }
}

} // verus!
