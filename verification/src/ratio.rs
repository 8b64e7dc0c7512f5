//! Exact non-negative rationals over arbitrary-size naturals.
//!
//! Routing compares products of exchange rates. They are kept here as exact
//! fractions, so that two routes compare as their true rate products do. The
//! multiplications and comparisons of arbitrary-size naturals are those of
//! `num_bigint::BigUint`.
use crate::uint::{limb_base, limbs_value, U256};
use num_bigint::BigUint;
use vstd::prelude::*;

verus! {

/// 2^32, the base of a natural's digits.
pub open spec fn digit_base() -> nat {
    0x1_0000_0000nat
}

/// Value of base-2^32 digits, least significant first.
pub open spec fn digits_value(s: Seq<u32>) -> nat
    decreases s.len(),
{
    if s.len() == 0 {
        0
    } else {
        s[0] as nat + digit_base() * digits_value(s.drop_first())
    }
}

/// An arbitrary-size natural number.
#[derive(Clone, Debug, PartialEq, Eq)]
pub struct Natural {
    digits: Vec<u32>,
}

proof fn lemma_pair_prefix(a: u32, b: u32, rest: Seq<u32>)
    ensures
        digits_value(seq![a, b] + rest) == (a as nat + digit_base() * (b as nat)) + (digit_base()
            * digit_base()) * digits_value(rest),
{
    let s = seq![a, b] + rest;
    assert(s.drop_first() =~= seq![b] + rest);
    assert(s.drop_first().drop_first() =~= rest);
    assert(digits_value(s) == a as nat + digit_base() * digits_value(s.drop_first()));
    assert(digits_value(s.drop_first()) == b as nat + digit_base() * digits_value(rest));
    let x = digits_value(rest);
    let bb = digit_base();
    assert(a as nat + bb * (b as nat + bb * x) == (a as nat + bb * (b as nat)) + (bb * bb) * x)
        by (nonlinear_arith);
}

proof fn lemma_two_digits(s: Seq<u32>)
    requires
        s.len() == 2,
    ensures
        digits_value(s) == s[0] as nat + digit_base() * (s[1] as nat),
{
    reveal_with_fuel(digits_value, 3);
    assert(s.drop_first().drop_first().len() == 0);
}

proof fn lemma_split_u64(x: u64, lo: u32, hi: u32)
    requires
        lo == x % 0x1_0000_0000,
        hi == x / 0x1_0000_0000,
    ensures
        x == lo as nat + digit_base() * (hi as nat),
{
    assert(x == lo as nat + 0x1_0000_0000nat * (hi as nat)) by (nonlinear_arith)
        requires
            lo == x % 0x1_0000_0000,
            hi == x / 0x1_0000_0000,
    ;
}

fn split_u64(x: u64) -> (r: (u32, u32))
    ensures
        x == r.0 as nat + digit_base() * (r.1 as nat),
{
    let lo = (x % 0x1_0000_0000) as u32;
    let hi = (x / 0x1_0000_0000) as u32;
    proof {
        lemma_split_u64(x, lo, hi);
    }
    (lo, hi)
}

impl Natural {
    /// The number this value stands for.
    pub closed spec fn val(&self) -> nat {
        digits_value(self.digits@)
    }

    /// The value of a 64-bit integer.
    pub fn from_u64(x: u64) -> (r: Self)
        ensures
            r.val() == x,
    {
        let (lo, hi) = split_u64(x);
        let mut digits: Vec<u32> = Vec::new();
        digits.push(lo);
        digits.push(hi);
        proof {
            lemma_two_digits(digits@);
        }
        Natural { digits }
    }

    /// One.
    pub fn one() -> (r: Self)
        ensures
            r.val() == 1,
    {
        Natural::from_u64(1)
    }

    /// The value of a 256-bit amount.
    pub fn from_u256(x: &U256) -> (r: Self)
        ensures
            r.val() == x.val(),
    {
        let l = x.as_limbs();
        let (d0, d1) = split_u64(l[0]);
        let (d2, d3) = split_u64(l[1]);
        let (d4, d5) = split_u64(l[2]);
        let (d6, d7) = split_u64(l[3]);
        let mut digits: Vec<u32> = Vec::new();
        digits.push(d0);
        digits.push(d1);
        digits.push(d2);
        digits.push(d3);
        digits.push(d4);
        digits.push(d5);
        digits.push(d6);
        digits.push(d7);
        proof {
            let bb = digit_base() * digit_base();
            assert(limb_base() == bb);
            let s3 = seq![d6, d7];
            let s2 = seq![d4, d5] + s3;
            let s1 = seq![d2, d3] + s2;
            let s0 = seq![d0, d1] + s1;
            lemma_pair_prefix(d6, d7, Seq::empty());
            assert(seq![d6, d7] + Seq::<u32>::empty() =~= s3);
            assert(digits_value(Seq::<u32>::empty()) == 0);
            lemma_pair_prefix(d4, d5, s3);
            lemma_pair_prefix(d2, d3, s2);
            lemma_pair_prefix(d0, d1, s1);
            assert(digits@ =~= s0);
            assert(digits_value(s3) == l[3] as nat);
        }
        Natural { digits }
    }

    /// Product.
    pub fn mul(&self, other: &Self) -> (r: Self)
        ensures
            r.val() == self.val() * other.val(),
    {
        Natural { digits: big_product(&self.digits, &other.digits) }
    }

    /// `self < other`.
    pub fn lt(&self, other: &Self) -> (r: bool)
        ensures
            r == (self.val() < other.val()),
    {
        big_less(&self.digits, &other.digits)
    }

    /// Whether the value is zero.
    pub fn is_zero(&self) -> (r: bool)
        ensures
            r == (self.val() == 0),
    {
        let z = Natural::from_u64(0);
        !big_less(&z.digits, &self.digits)
    }

    /// A copy of this value.
    pub fn copy(&self) -> (r: Self)
        ensures
            r.val() == self.val(),
    {
        Natural { digits: self.digits() }
    }

    /// The digits of this value, least significant first, for display.
    pub fn digits(&self) -> (r: Vec<u32>)
        ensures
            digits_value(r@) == self.val(),
    {
        self.digits.clone()
    }
}

/// `num_bigint`'s product of two naturals given as little-endian base-2^32
/// digits (`BigUint::from_slice`), returned as the digits of the exact
/// product (`BigUint::to_u32_digits`).
#[verifier::external_body]
fn big_product(a: &Vec<u32>, b: &Vec<u32>) -> (r: Vec<u32>)
    ensures
        digits_value(r@) == digits_value(a@) * digits_value(b@),
{
    (BigUint::from_slice(a) * BigUint::from_slice(b)).to_u32_digits()
}

/// `num_bigint`'s numeric ordering of two naturals given as little-endian
/// base-2^32 digits.
#[verifier::external_body]
fn big_less(a: &Vec<u32>, b: &Vec<u32>) -> (r: bool)
    ensures
        r == (digits_value(a@) < digits_value(b@)),
{
    BigUint::from_slice(a) < BigUint::from_slice(b)
}

/// A non-negative fraction `num / den`. Fractions with a zero denominator do
/// not arise from the constructors below.
#[derive(Clone, Debug, PartialEq, Eq)]
pub struct Ratio {
    pub num: Natural,
    pub den: Natural,
}

impl Ratio {
    /// The ratio `num / den` as a pair of naturals.
    pub open spec fn parts(&self) -> (nat, nat) {
        (self.num.val(), self.den.val())
    }

    /// Whether the denominator is positive.
    pub open spec fn wf(&self) -> bool {
        self.den.val() > 0
    }

    /// One.
    pub fn one() -> (r: Self)
        ensures
            r.num.val() == 1,
            r.den.val() == 1,
    {
        Ratio { num: Natural::one(), den: Natural::one() }
    }

    /// `num / den`.
    pub fn new(num: Natural, den: Natural) -> (r: Self)
        ensures
            r.num == num,
            r.den == den,
    {
        Ratio { num, den }
    }

    /// A copy of this fraction.
    pub fn copy(&self) -> (r: Self)
        ensures
            r.num.val() == self.num.val(),
            r.den.val() == self.den.val(),
    {
        Ratio { num: self.num.copy(), den: self.den.copy() }
    }

    /// Product of two fractions, unreduced.
    pub fn mul(&self, other: &Self) -> (r: Self)
        ensures
            r.num.val() == self.num.val() * other.num.val(),
            r.den.val() == self.den.val() * other.den.val(),
    {
        Ratio { num: self.num.mul(&other.num), den: self.den.mul(&other.den) }
    }

    /// Whether `self` is strictly larger than `other` as fractions
    /// (compared by cross-multiplication).
    pub fn gt(&self, other: &Self) -> (r: bool)
        ensures
            r == (self.num.val() * other.den.val() > other.num.val() * self.den.val()),
    {
        let left = self.num.mul(&other.den);
        let right = other.num.mul(&self.den);
        right.lt(&left)
    }

    /// Whether the two fractions are equal as numbers (compared by
    /// cross-multiplication).
    pub fn equals(&self, other: &Self) -> (r: bool)
        ensures
            r == (self.num.val() * other.den.val() == other.num.val() * self.den.val()),
    {
        let left = self.num.mul(&other.den);
        let right = other.num.mul(&self.den);
        !left.lt(&right) && !right.lt(&left)
    }

    /// Whether `self` exceeds `other` by more than the factor `fn_ / fd`,
    /// i.e. `self * fd > other * fn_` as fractions.
    pub fn gt_by_factor(&self, other: &Self, factor_num: &Natural, factor_den: &Natural) -> (r:
        bool)
        ensures
            r == (self.num.val() * other.den.val() * factor_den.val() > other.num.val()
                * self.den.val() * factor_num.val()),
    {
        let left = self.num.mul(&other.den).mul(factor_den);
        let right = other.num.mul(&self.den).mul(factor_num);
        right.lt(&left)
    }
}


/// `a <= b` for fractions given as (numerator, denominator) pairs.
pub open spec fn frac_le(a: (nat, nat), b: (nat, nat)) -> bool {
    a.0 * b.1 <= b.0 * a.1
}

/// `a < b` for fractions given as (numerator, denominator) pairs.
pub open spec fn frac_lt(a: (nat, nat), b: (nat, nat)) -> bool {
    a.0 * b.1 < b.0 * a.1
}

/// The product of two fractions, numerators and denominators multiplied.
pub open spec fn frac_mul(a: (nat, nat), b: (nat, nat)) -> (nat, nat) {
    (a.0 * b.0, a.1 * b.1)
}

/// Numerator and denominator are both positive.
pub open spec fn frac_pos(a: (nat, nat)) -> bool {
    a.0 > 0 && a.1 > 0
}

/// `<=` and `<` chain across fractions with positive denominators.
pub proof fn lemma_frac_trans(a: (nat, nat), b: (nat, nat), c: (nat, nat))
    requires
        a.1 > 0,
        b.1 > 0,
        c.1 > 0,
        frac_le(a, b),
        frac_le(b, c),
    ensures
        frac_le(a, c),
        (frac_lt(a, b) || frac_lt(b, c)) ==> frac_lt(a, c),
{
    let (a0, a1, b0, b1, c0, c1) = (a.0 as int, a.1 as int, b.0 as int, b.1 as int, c.0 as int, c.1 as int);
    assert(a0 * b1 * c1 <= b0 * a1 * c1) by (nonlinear_arith)
        requires a0 * b1 <= b0 * a1, c1 >= 0;
    assert(b0 * c1 * a1 <= c0 * b1 * a1) by (nonlinear_arith)
        requires b0 * c1 <= c0 * b1, a1 >= 0;
    assert(b1 * (a0 * c1) <= b1 * (c0 * a1)) by (nonlinear_arith)
        requires a0 * b1 * c1 <= b0 * a1 * c1, b0 * c1 * a1 <= c0 * b1 * a1;
    assert(a0 * c1 <= c0 * a1) by (nonlinear_arith)
        requires b1 * (a0 * c1) <= b1 * (c0 * a1), b1 > 0;
    if frac_lt(a, b) {
        assert(a0 * b1 * c1 < b0 * a1 * c1) by (nonlinear_arith)
            requires a0 * b1 < b0 * a1, c1 > 0;
        assert(b1 * (a0 * c1) < b1 * (c0 * a1)) by (nonlinear_arith)
            requires a0 * b1 * c1 < b0 * a1 * c1, b0 * c1 * a1 <= c0 * b1 * a1;
        assert(a0 * c1 < c0 * a1) by (nonlinear_arith)
            requires b1 * (a0 * c1) < b1 * (c0 * a1), b1 > 0;
    }
    if frac_lt(b, c) {
        assert(b0 * c1 * a1 < c0 * b1 * a1) by (nonlinear_arith)
            requires b0 * c1 < c0 * b1, a1 > 0;
        assert(b1 * (a0 * c1) < b1 * (c0 * a1)) by (nonlinear_arith)
            requires a0 * b1 * c1 <= b0 * a1 * c1, b0 * c1 * a1 < c0 * b1 * a1;
        assert(a0 * c1 < c0 * a1) by (nonlinear_arith)
            requires b1 * (a0 * c1) < b1 * (c0 * a1), b1 > 0;
    }
}

/// Multiplying both sides by a fraction keeps `<=`, and keeps `<` when the
/// factor is positive.
pub proof fn lemma_frac_mul_mono(a: (nat, nat), b: (nat, nat), r: (nat, nat))
    requires
        frac_le(a, b),
    ensures
        frac_le(frac_mul(a, r), frac_mul(b, r)),
        (frac_lt(a, b) && frac_pos(r)) ==> frac_lt(frac_mul(a, r), frac_mul(b, r)),
{
    let (a0, a1, b0, b1, r0, r1) = (a.0 as int, a.1 as int, b.0 as int, b.1 as int, r.0 as int, r.1 as int);
    assert((a0 * r0) * (b1 * r1) == (a0 * b1) * (r0 * r1)) by (nonlinear_arith);
    assert((b0 * r0) * (a1 * r1) == (b0 * a1) * (r0 * r1)) by (nonlinear_arith);
    assert((a0 * b1) * (r0 * r1) <= (b0 * a1) * (r0 * r1)) by (nonlinear_arith)
        requires a0 * b1 <= b0 * a1, r0 >= 0, r1 >= 0;
    if frac_lt(a, b) && frac_pos(r) {
        assert((a0 * b1) * (r0 * r1) < (b0 * a1) * (r0 * r1)) by (nonlinear_arith)
            requires a0 * b1 < b0 * a1, r0 > 0, r1 > 0;
    }
}

/// Fraction products associate.
pub proof fn lemma_frac_mul_assoc(a: (nat, nat), b: (nat, nat), c: (nat, nat))
    ensures
        frac_mul(frac_mul(a, b), c) == frac_mul(a, frac_mul(b, c)),
{
    assert((a.0 * b.0) * c.0 == a.0 * (b.0 * c.0)) by (nonlinear_arith);
    assert((a.1 * b.1) * c.1 == a.1 * (b.1 * c.1)) by (nonlinear_arith);
}

/// A product of positive fractions is positive.
pub proof fn lemma_frac_mul_pos(a: (nat, nat), b: (nat, nat))
    requires
        frac_pos(a),
        frac_pos(b),
    ensures
        frac_pos(frac_mul(a, b)),
{
    assert(a.0 * b.0 > 0) by (nonlinear_arith)
        requires a.0 > 0, b.0 > 0;
    assert(a.1 * b.1 > 0) by (nonlinear_arith)
        requires a.1 > 0, b.1 > 0;
}

/// A positive fraction that grows when multiplied by `p` has `p > 1`.
pub proof fn lemma_frac_gain(d: (nat, nat), p: (nat, nat))
    requires
        frac_pos(d),
        frac_lt(d, frac_mul(d, p)),
    ensures
        p.0 > p.1,
{
    let (d0, d1, p0, p1) = (d.0 as int, d.1 as int, p.0 as int, p.1 as int);
    assert((d0 * d1) * p1 < (d0 * d1) * p0) by (nonlinear_arith)
        requires d0 * (d1 * p1) < (d0 * p0) * d1;
    assert(p1 < p0) by (nonlinear_arith)
        requires (d0 * d1) * p1 < (d0 * d1) * p0, d0 > 0, d1 > 0;
}

/// Beating `c` by more than a factor of at least one beats it.
pub proof fn lemma_frac_factor_lt(c: (nat, nat), x: (nat, nat), fnum: nat, fden: nat)
    requires
        x.0 * c.1 * fden > c.0 * x.1 * fnum,
        fnum >= fden,
        fden > 0,
    ensures
        frac_lt(c, x),
{
    let (c0, c1, x0, x1, fnm, fdn) = (c.0 as int, c.1 as int, x.0 as int, x.1 as int, fnum as int, fden as int);
    assert(c0 * x1 * fdn <= c0 * x1 * fnm) by (nonlinear_arith)
        requires fnm >= fdn, c0 >= 0, x1 >= 0;
    assert((c0 * x1) * fdn < (x0 * c1) * fdn) by (nonlinear_arith)
        requires x0 * c1 * fdn > c0 * x1 * fnm, c0 * x1 * fdn <= c0 * x1 * fnm;
    assert(c0 * x1 < x0 * c1) by (nonlinear_arith)
        requires (c0 * x1) * fdn < (x0 * c1) * fdn, fdn > 0;
}

} // verus!
