//! Arbitrary-precision natural numbers, little-endian in base 2^64.

use vstd::arithmetic::power2::*;
use vstd::prelude::*;

verus! {

/// The natural number that a little-endian sequence of base-2^64 digits denotes.
pub open spec fn limbs_value(s: Seq<u64>) -> nat
    decreases s.len(),
{
    if s.len() == 0 {
        0
    } else {
        limbs_value(s.drop_last()) + s.last() as nat * pow2((64 * (s.len() - 1)) as nat)
    }
}

/// The value of the lowest `i` digits of `s`; all of `s` when it has fewer.
pub open spec fn prefix_value(s: Seq<u64>, i: int) -> nat {
    if i <= 0 {
        0
    } else if i >= s.len() {
        limbs_value(s)
    } else {
        limbs_value(s.take(i))
    }
}

/// Digit `i` of `s`, zero beyond its length.
pub open spec fn limb_at(s: Seq<u64>, i: int) -> nat {
    if 0 <= i < s.len() {
        s[i] as nat
    } else {
        0
    }
}

/// A number times 2^0 is the number.
pub proof fn lemma_mul_pow2_zero(x: nat)
    ensures
        x * pow2(0) == x,
        pow2(0) == 1,
{
    lemma2_to64();
    assert(x * pow2(0) == x) by (nonlinear_arith)
        requires
            pow2(0) == 1,
    ;
}

/// The value with one more digit at the top.
pub proof fn lemma_value_push(s: Seq<u64>, x: u64)
    ensures
        limbs_value(s.push(x)) == limbs_value(s) + x as nat * pow2((64 * s.len()) as nat),
{
    assert(s.push(x).drop_last() =~= s);
}

/// The value of `k` digits is below 2^(64k).
pub proof fn lemma_value_bound(s: Seq<u64>)
    ensures
        limbs_value(s) < pow2((64 * s.len()) as nat),
    decreases s.len(),
{
    if s.len() == 0 {
        lemma2_to64();
    } else {
        let k = (64 * (s.len() - 1)) as nat;
        lemma_value_bound(s.drop_last());
        lemma_pow2_adds(k, 64);
        lemma2_to64();
        let p = pow2(k);
        let x = s.last() as nat;
        assert(x * p + p <= 0x1_0000_0000_0000_0000 * p) by (nonlinear_arith)
            requires
                x < 0x1_0000_0000_0000_0000,
        ;
    }
}

/// The value of the lowest `i + 1` digits, from that of the lowest `i`.
pub proof fn lemma_prefix_step(s: Seq<u64>, i: int)
    requires
        0 <= i,
    ensures
        prefix_value(s, i + 1) == prefix_value(s, i) + limb_at(s, i) * pow2((64 * i) as nat),
        prefix_value(s, i) < pow2((64 * i) as nat),
{
    if i < s.len() {
        let t = s.take(i + 1);
        assert(t.drop_last() =~= s.take(i));
        if i == 0 {
            assert(s.take(0).len() == 0);
        }
        if i + 1 == s.len() {
            assert(t =~= s);
        }
        lemma_value_bound(s.take(i));
    } else {
        lemma_value_bound(s);
        if s.len() < i {
            lemma_pow2_strictly_increases((64 * s.len()) as nat, (64 * i) as nat);
        }
    }
}

/// Zeros below the digits multiply the value by 2^64 each.
pub proof fn lemma_zeros_then(z: Seq<u64>, t: Seq<u64>)
    requires
        forall|j: int| 0 <= j < z.len() ==> z[j] == 0,
    ensures
        limbs_value(z + t) == limbs_value(t) * pow2((64 * z.len()) as nat),
    decreases t.len(), z.len(),
{
    if t.len() == 0 {
        assert(z + t =~= z);
        assert(limbs_value(t) * pow2((64 * z.len()) as nat) == 0) by (nonlinear_arith)
            requires
                limbs_value(t) == 0,
        ;
        if z.len() > 0 {
            lemma_zeros_then(z.drop_last(), t);
            assert(z.drop_last() + t =~= z.drop_last());
            assert(limbs_value(t) * pow2((64 * z.drop_last().len()) as nat) == 0)
                by (nonlinear_arith)
                requires
                    limbs_value(t) == 0,
            ;
            assert(z.last() as nat * pow2((64 * (z.len() - 1)) as nat) == 0) by (nonlinear_arith)
                requires
                    z.last() == 0,
            ;
        }
    } else {
        let w = (64 * z.len()) as nat;
        let k = (64 * (t.len() - 1)) as nat;
        assert((z + t).drop_last() =~= z + t.drop_last());
        lemma_zeros_then(z, t.drop_last());
        lemma_pow2_adds(k, w);
        let a = limbs_value(t.drop_last());
        let x = t.last() as nat;
        assert((a + x * pow2(k)) * pow2(w) == a * pow2(w) + x * (pow2(k) * pow2(w)))
            by (nonlinear_arith);
    }
}

/// A natural number of any size.
pub struct BigNat {
    pub limbs: Vec<u64>,
}

impl View for BigNat {
    type V = nat;

    open spec fn view(&self) -> nat {
        limbs_value(self.limbs@)
    }
}

impl BigNat {
    /// The number `x`.
    pub fn from_u64(x: u64) -> (r: BigNat)
        ensures
            r@ == x,
    {
        let mut limbs: Vec<u64> = Vec::new();
        limbs.push(x);
        proof {
            lemma_value_push(Seq::<u64>::empty(), x);
            lemma_mul_pow2_zero(x as nat);
        }
        BigNat { limbs }
    }

    /// The number `x`.
    pub fn from_u128(x: u128) -> (r: BigNat)
        ensures
            r@ == x,
    {
        let lo: u64 = (x % 0x1_0000_0000_0000_0000u128) as u64;
        let hi: u64 = (x / 0x1_0000_0000_0000_0000u128) as u64;
        let mut limbs: Vec<u64> = Vec::new();
        limbs.push(lo);
        limbs.push(hi);
        proof {
            lemma_value_push(Seq::<u64>::empty(), lo);
            lemma_value_push(Seq::<u64>::empty().push(lo), hi);
            lemma_mul_pow2_zero(lo as nat);
            lemma2_to64();
            assert(hi as nat * pow2(64) == hi as nat * 0x1_0000_0000_0000_0000);
        }
        BigNat { limbs }
    }

    /// `self * m + c`.
    pub fn mul_small(&self, m: u64, c: u64) -> (r: BigNat)
        ensures
            r@ == self@ * (m as nat) + (c as nat),
    {
        let n: usize = self.limbs.len();
        let mut out: Vec<u64> = Vec::new();
        let mut carry: u64 = c;
        let mut i: usize = 0;
        proof {
            lemma_mul_pow2_zero(carry as nat);
            assert(prefix_value(self.limbs@, 0) * (m as nat) == 0) by (nonlinear_arith)
                requires
                    prefix_value(self.limbs@, 0) == 0,
            ;
        }
        while i < n
            invariant
                n == self.limbs.len(),
                i <= n,
                out.len() == i,
                limbs_value(out@) + carry as nat * pow2((64 * i) as nat) == prefix_value(
                    self.limbs@,
                    i as int,
                ) * (m as nat) + (c as nat),
            decreases n - i,
        {
            let limb: u64 = self.limbs[i];
            assert(limb as u128 * m as u128 + carry as u128 <= u128::MAX) by (nonlinear_arith)
                requires
                    limb <= u64::MAX,
                    m <= u64::MAX,
                    carry <= u64::MAX,
            ;
            let t: u128 = limb as u128 * m as u128 + carry as u128;
            let lo: u64 = (t % 0x1_0000_0000_0000_0000u128) as u64;
            let hi: u64 = (t / 0x1_0000_0000_0000_0000u128) as u64;
            proof {
                let p = pow2((64 * i) as nat);
                lemma_prefix_step(self.limbs@, i as int);
                lemma_value_push(out@, lo);
                lemma_pow2_adds((64 * i) as nat, 64);
                lemma2_to64();
                let a = prefix_value(self.limbs@, i as int);
                assert(limb as nat * (m as nat) + carry as nat == lo as nat
                    + 0x1_0000_0000_0000_0000 * (hi as nat));
                assert((a + limb as nat * p) * (m as nat) + (c as nat) == (a * (m as nat) + (
                c as nat)) + (limb as nat * (m as nat)) * p) by (nonlinear_arith);
                assert((lo as nat + 0x1_0000_0000_0000_0000 * (hi as nat)) * p == lo as nat * p
                    + hi as nat * (p * 0x1_0000_0000_0000_0000)) by (nonlinear_arith);
                assert((limb as nat * (m as nat) + carry as nat) * p == (limb as nat * (
                m as nat)) * p + carry as nat * p) by (nonlinear_arith);
            }
            out.push(lo);
            carry = hi;
            i += 1;
        }
        proof {
            lemma_value_push(out@, carry);
        }
        out.push(carry);
        BigNat { limbs: out }
    }

    /// Digit `i`, zero beyond the stored digits.
    fn limb(&self, i: usize) -> (x: u64)
        ensures
            x == limb_at(self.limbs@, i as int),
    {
        if i < self.limbs.len() {
            self.limbs[i]
        } else {
            0
        }
    }

    /// The larger of the two digit counts.
    fn width(&self, other: &BigNat) -> (n: usize)
        ensures
            n >= self.limbs.len(),
            n >= other.limbs.len(),
            n == self.limbs.len() || n == other.limbs.len(),
    {
        if self.limbs.len() > other.limbs.len() {
            self.limbs.len()
        } else {
            other.limbs.len()
        }
    }

    /// Whether `self < other`.
    pub fn is_less_than(&self, other: &BigNat) -> (r: bool)
        ensures
            r == (self@ < other@),
    {
        let n: usize = self.width(other);
        let mut less: bool = false;
        let mut i: usize = 0;
        while i < n
            invariant
                i <= n,
                less == (prefix_value(self.limbs@, i as int) < prefix_value(
                    other.limbs@,
                    i as int,
                )),
            decreases n - i,
        {
            let x: u64 = self.limb(i);
            let y: u64 = other.limb(i);
            proof {
                lemma_prefix_step(self.limbs@, i as int);
                lemma_prefix_step(other.limbs@, i as int);
                let p = pow2((64 * i) as nat);
                let va = prefix_value(self.limbs@, i as int);
                let vb = prefix_value(other.limbs@, i as int);
                if x < y {
                    assert(x as nat * p + p <= y as nat * p) by (nonlinear_arith)
                        requires
                            x < y,
                    ;
                } else if y < x {
                    assert(y as nat * p + p <= x as nat * p) by (nonlinear_arith)
                        requires
                            y < x,
                    ;
                }
            }
            less = x < y || (x == y && less);
            i += 1;
        }
        less
    }

    /// `self + other`.
    pub fn plus(&self, other: &BigNat) -> (r: BigNat)
        ensures
            r@ == self@ + other@,
    {
        let n: usize = self.width(other);
        let mut out: Vec<u64> = Vec::new();
        let mut carry: u64 = 0;
        let mut i: usize = 0;
        proof {
            lemma_mul_pow2_zero(0);
        }
        while i < n
            invariant
                i <= n,
                out.len() == i,
                carry <= 1,
                limbs_value(out@) + carry as nat * pow2((64 * i) as nat) == prefix_value(
                    self.limbs@,
                    i as int,
                ) + prefix_value(other.limbs@, i as int),
            decreases n - i,
        {
            let x: u64 = self.limb(i);
            let y: u64 = other.limb(i);
            let t: u128 = x as u128 + y as u128 + carry as u128;
            let lo: u64 = (t % 0x1_0000_0000_0000_0000u128) as u64;
            let hi: u64 = (t / 0x1_0000_0000_0000_0000u128) as u64;
            proof {
                let p = pow2((64 * i) as nat);
                lemma_prefix_step(self.limbs@, i as int);
                lemma_prefix_step(other.limbs@, i as int);
                lemma_value_push(out@, lo);
                lemma_pow2_adds((64 * i) as nat, 64);
                lemma2_to64();
                assert(x as nat + y as nat + carry as nat == lo as nat + 0x1_0000_0000_0000_0000
                    * (hi as nat));
                assert((x as nat + y as nat + carry as nat) * p == x as nat * p + y as nat * p
                    + carry as nat * p) by (nonlinear_arith);
                assert((lo as nat + 0x1_0000_0000_0000_0000 * (hi as nat)) * p == lo as nat * p
                    + hi as nat * (p * 0x1_0000_0000_0000_0000)) by (nonlinear_arith);
            }
            out.push(lo);
            carry = hi;
            i += 1;
        }
        proof {
            lemma_value_push(out@, carry);
        }
        out.push(carry);
        BigNat { limbs: out }
    }

    /// `self - other`, for `other` no larger than `self`.
    pub fn minus(&self, other: &BigNat) -> (r: BigNat)
        requires
            other@ <= self@,
        ensures
            r@ == self@ - other@,
    {
        let n: usize = self.width(other);
        let mut out: Vec<u64> = Vec::new();
        let mut borrow: u64 = 0;
        let mut i: usize = 0;
        proof {
            lemma_mul_pow2_zero(0);
        }
        while i < n
            invariant
                i <= n,
                out.len() == i,
                borrow <= 1,
                limbs_value(out@) + prefix_value(other.limbs@, i as int) == prefix_value(
                    self.limbs@,
                    i as int,
                ) + borrow as nat * pow2((64 * i) as nat),
            decreases n - i,
        {
            let x: u128 = self.limb(i) as u128;
            let y: u128 = other.limb(i) as u128 + borrow as u128;
            let next: u64 = if x < y {
                1
            } else {
                0
            };
            let d: u64 = if x < y {
                (x + 0x1_0000_0000_0000_0000u128 - y) as u64
            } else {
                (x - y) as u64
            };
            proof {
                let p = pow2((64 * i) as nat);
                lemma_prefix_step(self.limbs@, i as int);
                lemma_prefix_step(other.limbs@, i as int);
                lemma_value_push(out@, d);
                lemma_pow2_adds((64 * i) as nat, 64);
                lemma2_to64();
                let yl = limb_at(other.limbs@, i as int);
                assert(d as nat + yl + borrow as nat == x as nat + 0x1_0000_0000_0000_0000 * (
                next as nat));
                assert((d as nat + yl + borrow as nat) * p == d as nat * p + yl * p
                    + borrow as nat * p) by (nonlinear_arith);
                assert((x as nat + 0x1_0000_0000_0000_0000 * (next as nat)) * p == x as nat * p
                    + next as nat * (p * 0x1_0000_0000_0000_0000)) by (nonlinear_arith);
            }
            out.push(d);
            borrow = next;
            i += 1;
        }
        proof {
            lemma_value_bound(out@);
            let p = pow2((64 * n) as nat);
            assert(borrow as nat * p == 0 || borrow as nat * p == p) by (nonlinear_arith)
                requires
                    borrow <= 1,
            ;
        }
        BigNat { limbs: out }
    }

    /// `self * 2^s`.
    pub fn shifted_left(&self, s: usize) -> (r: BigNat)
        ensures
            r@ == self@ * pow2(s as nat),
    {
        let words: usize = s / 64;
        let bits: u64 = (s % 64) as u64;
        proof {
            vstd::bits::lemma_u64_pow2_no_overflow(bits as nat);
            vstd::bits::lemma_u64_shl_is_mul(1, bits);
        }
        let factor: u64 = 1u64 << bits;
        let scaled = self.mul_small(factor, 0);
        let mut out: Vec<u64> = Vec::new();
        let mut i: usize = 0;
        while i < words
            invariant
                i <= words,
                out.len() == i,
                forall|j: int| 0 <= j < out.len() ==> out[j] == 0,
            decreases words - i,
        {
            out.push(0);
            i += 1;
        }
        let ghost zeros = out@;
        let n: usize = scaled.limbs.len();
        let mut k: usize = 0;
        while k < n
            invariant
                k <= n,
                n == scaled.limbs.len(),
                out@ =~= zeros + scaled.limbs@.take(k as int),
            decreases n - k,
        {
            out.push(scaled.limbs[k]);
            k += 1;
        }
        proof {
            assert(scaled.limbs@.take(n as int) =~= scaled.limbs@);
            lemma_zeros_then(zeros, scaled.limbs@);
            lemma_pow2_adds(bits as nat, (64 * words) as nat);
            let a = self@;
            let pb = pow2(bits as nat);
            let pw = pow2((64 * words) as nat);
            assert(s == bits + 64 * words);
            assert((a * pb) * pw == a * (pb * pw)) by (nonlinear_arith);
        }
        BigNat { limbs: out }
    }

    /// `self / d`, rounded down, where that is below `2^bits`.
    pub fn quotient_below(&self, d: &BigNat, bits: u64) -> (q: u64)
        requires
            d@ > 0,
            bits <= 63,
            self@ < d@ * pow2(bits as nat),
        ensures
            q == self@ / d@,
            q < pow2(bits as nat),
            d@ * q <= self@ < d@ * (q + 1),
    {
        let mut q: u64 = 0;
        let mut bit: u64 = bits;
        proof {
            assert(d@ * 0 == 0);
            vstd::bits::lemma_u64_pow2_no_overflow(bits as nat);
        }
        while bit > 0
            invariant
                bit <= bits <= 63,
                d@ > 0,
                d@ * q <= self@,
                self@ < d@ * (q + pow2(bit as nat)),
                q + pow2(bit as nat) <= pow2(bits as nat),
                pow2(bits as nat) < u64::MAX,
            decreases bit,
        {
            bit = bit - 1;
            proof {
                lemma_pow2_unfold((bit + 1) as nat);
                vstd::bits::lemma_u64_pow2_no_overflow(bit as nat);
                vstd::bits::lemma_u64_shl_is_mul(1, bit);
            }
            let step: u64 = 1u64 << bit;
            let candidate: u64 = q + step;
            let reach = d.mul_small(candidate, 0);
            if !self.is_less_than(&reach) {
                q = candidate;
            }
        }
        proof {
            lemma_mul_pow2_zero(1);
            let r = self@ - d@ * q;
            assert(d@ * (q + 1) == d@ * q + d@) by (nonlinear_arith);
            assert(self@ == q * d@ + r) by (nonlinear_arith)
                requires
                    r == self@ - d@ * q,
            ;
            vstd::arithmetic::div_mod::lemma_fundamental_div_mod_converse(
                self@ as int,
                d@ as int,
                q as int,
                r as int,
            );
        }
        q
    }
}

} // verus!
