//! 256-bit unsigned amounts, held as four little-endian 64-bit limbs.
//!
//! The arithmetic itself is alloy's (`ruint`): each operation converts the
//! limbs to `alloy_primitives::U256`, applies the operation there and
//! converts back.
use std::str::FromStr;
use vstd::prelude::*;

verus! {

/// 2^64.
pub open spec fn limb_base() -> nat {
    0x1_0000_0000_0000_0000nat
}

/// 2^256, the modulus of wrapping arithmetic.
pub open spec fn modulus() -> nat {
    limb_base() * (limb_base() * (limb_base() * limb_base()))
}

/// Value of four little-endian 64-bit limbs.
pub open spec fn limbs_value(l: [u64; 4]) -> nat {
    l[0] as nat + limb_base() * (l[1] as nat + limb_base() * (l[2] as nat + limb_base()
        * (l[3] as nat)))
}

/// An unsigned 256-bit integer.
#[derive(Clone, Copy, PartialEq, Eq, Structural, Debug, Hash)]
pub struct U256 {
    l0: u64,
    l1: u64,
    l2: u64,
    l3: u64,
}

proof fn lemma_digit_split(a: nat, x: nat, b: nat, y: nat)
    requires
        a < limb_base(),
        b < limb_base(),
        a + limb_base() * x == b + limb_base() * y,
    ensures
        a == b,
        x == y,
{
    assert(a == b && x == y) by (nonlinear_arith)
        requires
            a < 0x1_0000_0000_0000_0000nat,
            b < 0x1_0000_0000_0000_0000nat,
            a + 0x1_0000_0000_0000_0000nat * x == b + 0x1_0000_0000_0000_0000nat * y,
    ;
}

proof fn lemma_digit_bound(a: nat, x: nat, bound: nat)
    requires
        a < limb_base(),
        x < bound,
    ensures
        a + limb_base() * x < limb_base() * bound,
{
    assert(a + limb_base() * x < limb_base() * bound) by (nonlinear_arith)
        requires
            a < 0x1_0000_0000_0000_0000nat,
            x < bound,
            limb_base() == 0x1_0000_0000_0000_0000nat,
    ;
}

impl U256 {
    /// The number this value stands for.
    pub closed spec fn val(self) -> nat {
        limbs_value([self.l0, self.l1, self.l2, self.l3])
    }

    /// Every value lies below 2^256.
    pub proof fn lemma_val_bound(self)
        ensures
            self.val() < modulus(),
    {
        let b = limb_base();
        lemma_digit_bound(self.l2 as nat, self.l3 as nat, b);
        lemma_digit_bound(self.l1 as nat, self.l2 as nat + b * (self.l3 as nat), b * b);
        lemma_digit_bound(
            self.l0 as nat,
            self.l1 as nat + b * (self.l2 as nat + b * (self.l3 as nat)),
            b * (b * b),
        );
    }

    /// Two values are equal exactly when the numbers they stand for are.
    pub proof fn lemma_val_injective(self, other: Self)
        requires
            self.val() == other.val(),
        ensures
            self == other,
    {
        let b = limb_base();
        lemma_digit_split(
            self.l0 as nat,
            self.l1 as nat + b * (self.l2 as nat + b * (self.l3 as nat)),
            other.l0 as nat,
            other.l1 as nat + b * (other.l2 as nat + b * (other.l3 as nat)),
        );
        lemma_digit_split(
            self.l1 as nat,
            self.l2 as nat + b * (self.l3 as nat),
            other.l1 as nat,
            other.l2 as nat + b * (other.l3 as nat),
        );
        lemma_digit_split(self.l2 as nat, self.l3 as nat, other.l2 as nat, other.l3 as nat);
    }

    /// 2^256 − 1, the largest value.
    pub fn max_value() -> (r: Self)
        ensures
            r.val() == modulus() - 1,
    {
        let m: u64 = 0xffff_ffff_ffff_ffff;
        let r = U256::from_limbs([m, m, m, m]);
        proof {
            assert(limbs_value([m, m, m, m]) == modulus() - 1) by (nonlinear_arith)
                requires
                    m == 0xffff_ffff_ffff_ffffnat,
                    limb_base() == 0x1_0000_0000_0000_0000nat,
                    modulus() == limb_base() * (limb_base() * (limb_base() * limb_base())),
                    limbs_value([m, m, m, m]) == m + limb_base() * (m + limb_base() * (m
                        + limb_base() * m)),
            ;
        }
        r
    }

    /// Builds a value from little-endian limbs.
    pub fn from_limbs(limbs: [u64; 4]) -> (r: Self)
        ensures
            r.val() == limbs_value(limbs),
            r.as_limbs_spec() == limbs,
    {
        let r = U256 { l0: limbs[0], l1: limbs[1], l2: limbs[2], l3: limbs[3] };
        assert([r.l0, r.l1, r.l2, r.l3] =~= limbs);
        r
    }

    /// The little-endian limbs of a value.
    pub closed spec fn as_limbs_spec(self) -> [u64; 4] {
        [self.l0, self.l1, self.l2, self.l3]
    }

    /// The little-endian limbs of this value.
    pub fn as_limbs(&self) -> (r: [u64; 4])
        ensures
            r == self.as_limbs_spec(),
            limbs_value(r) == self.val(),
    {
        [self.l0, self.l1, self.l2, self.l3]
    }

    /// Zero.
    pub fn zero() -> (r: Self)
        ensures
            r.val() == 0,
    {
        U256 { l0: 0, l1: 0, l2: 0, l3: 0 }
    }

    /// The value of a 64-bit integer.
    pub fn from_u64(x: u64) -> (r: Self)
        ensures
            r.val() == x,
    {
        U256 { l0: x, l1: 0, l2: 0, l3: 0 }
    }

    /// The value of a 128-bit integer.
    pub fn from_u128(x: u128) -> (r: Self)
        ensures
            r.val() == x,
    {
        let lo = (x % 0x1_0000_0000_0000_0000u128) as u64;
        let hi = (x / 0x1_0000_0000_0000_0000u128) as u64;
        let r = U256 { l0: lo, l1: hi, l2: 0, l3: 0 };
        assert(r.val() == lo + limb_base() * hi);
        assert(lo + limb_base() * hi == x) by (nonlinear_arith)
            requires
                lo == x % 0x1_0000_0000_0000_0000u128,
                hi == x / 0x1_0000_0000_0000_0000u128,
                limb_base() == 0x1_0000_0000_0000_0000nat,
        ;
        r
    }

    /// Whether the value is zero.
    pub fn is_zero(&self) -> (r: bool)
        ensures
            r == (self.val() == 0),
    {
        proof {
            let b = limb_base();
            assert(self.val() == 0 ==> self.l0 == 0 && self.l1 == 0 && self.l2 == 0 && self.l3
                == 0) by (nonlinear_arith)
                requires
                    b == 0x1_0000_0000_0000_0000nat,
                    self.val() == self.l0 as nat + b * (self.l1 as nat + b * (self.l2 as nat + b
                        * (self.l3 as nat))),
            ;
        }
        self.l0 == 0 && self.l1 == 0 && self.l2 == 0 && self.l3 == 0
    }

    /// `self < other`.
    pub fn lt(&self, other: &Self) -> (r: bool)
        ensures
            r == (self.val() < other.val()),
    {
        less_than(*self, *other)
    }

    /// `self <= other`.
    pub fn le(&self, other: &Self) -> (r: bool)
        ensures
            r == (self.val() <= other.val()),
    {
        !less_than(*other, *self)
    }

    /// `self > other`.
    pub fn gt(&self, other: &Self) -> (r: bool)
        ensures
            r == (self.val() > other.val()),
    {
        less_than(*other, *self)
    }

    /// `self >= other`.
    pub fn ge(&self, other: &Self) -> (r: bool)
        ensures
            r == (self.val() >= other.val()),
    {
        !less_than(*self, *other)
    }

    /// Value equality.
    pub fn same(&self, other: &Self) -> (r: bool)
        ensures
            r == (self.val() == other.val()),
    {
        proof {
            if self.val() == other.val() {
                self.lemma_val_injective(*other);
            }
        }
        *self == *other
    }

    /// Sum modulo 2^256.
    pub fn wrapping_add(self, other: Self) -> (r: Self)
        ensures
            r.val() == (self.val() + other.val()) % modulus(),
    {
        wrapping_add(self, other)
    }

    /// Difference modulo 2^256.
    pub fn wrapping_sub(self, other: Self) -> (r: Self)
        ensures
            r.val() == (self.val() + modulus() - other.val()) % (modulus() as int),
    {
        proof {
            other.lemma_val_bound();
        }
        wrapping_sub(self, other)
    }

    /// Product modulo 2^256.
    pub fn wrapping_mul(self, other: Self) -> (r: Self)
        ensures
            r.val() == (self.val() * other.val()) % modulus(),
    {
        wrapping_mul(self, other)
    }

    /// `self - other`, or zero where `other` is larger.
    pub fn saturating_sub(self, other: Self) -> (r: Self)
        ensures
            r.val() == if self.val() >= other.val() {
                (self.val() - other.val()) as nat
            } else {
                0
            },
    {
        saturating_sub(self, other)
    }

    /// Quotient rounded down.
    pub fn div(self, other: Self) -> (r: Self)
        requires
            other.val() != 0,
        ensures
            r.val() == self.val() / other.val(),
    {
        floor_div(self, other)
    }

    /// Sum, where it fits.
    pub fn add(self, other: Self) -> (r: Self)
        requires
            self.val() + other.val() < modulus(),
        ensures
            r.val() == self.val() + other.val(),
    {
        let r = wrapping_add(self, other);
        proof {
            vstd::arithmetic::div_mod::lemma_small_mod(
                (self.val() + other.val()) as nat,
                modulus(),
            );
        }
        r
    }

    /// Difference, where it is not negative.
    pub fn sub(self, other: Self) -> (r: Self)
        requires
            self.val() >= other.val(),
        ensures
            r.val() == self.val() - other.val(),
    {
        saturating_sub(self, other)
    }

    /// Product, where it fits.
    pub fn mul(self, other: Self) -> (r: Self)
        requires
            self.val() * other.val() < modulus(),
        ensures
            r.val() == self.val() * other.val(),
    {
        let r = wrapping_mul(self, other);
        proof {
            vstd::arithmetic::div_mod::lemma_small_mod(
                (self.val() * other.val()) as nat,
                modulus(),
            );
        }
        r
    }
}

/// `a < b` through alloy's `Uint` ordering, which orders by numeric value.
#[verifier::external_body]
fn less_than(a: U256, b: U256) -> (r: bool)
    ensures
        r == (a.val() < b.val()),
{
    alloy_primitives::U256::from_limbs(a.as_limbs()) < alloy_primitives::U256::from_limbs(
        b.as_limbs(),
    )
}

/// alloy's `Uint::wrapping_add`: the sum modulo 2^256.
#[verifier::external_body]
fn wrapping_add(a: U256, b: U256) -> (r: U256)
    ensures
        r.val() == (a.val() + b.val()) % modulus(),
{
    let x = alloy_primitives::U256::from_limbs(a.as_limbs());
    U256::from_limbs(x.wrapping_add(alloy_primitives::U256::from_limbs(b.as_limbs())).into_limbs())
}

/// alloy's `Uint::wrapping_sub`: the difference modulo 2^256.
#[verifier::external_body]
fn wrapping_sub(a: U256, b: U256) -> (r: U256)
    ensures
        r.val() == (a.val() + modulus() - b.val()) % (modulus() as int),
{
    let x = alloy_primitives::U256::from_limbs(a.as_limbs());
    U256::from_limbs(x.wrapping_sub(alloy_primitives::U256::from_limbs(b.as_limbs())).into_limbs())
}

/// alloy's `Uint::wrapping_mul`: the product modulo 2^256.
#[verifier::external_body]
fn wrapping_mul(a: U256, b: U256) -> (r: U256)
    ensures
        r.val() == (a.val() * b.val()) % modulus(),
{
    let x = alloy_primitives::U256::from_limbs(a.as_limbs());
    U256::from_limbs(x.wrapping_mul(alloy_primitives::U256::from_limbs(b.as_limbs())).into_limbs())
}

/// alloy's `Uint::saturating_sub`: the difference, or zero where it would
/// be negative.
#[verifier::external_body]
fn saturating_sub(a: U256, b: U256) -> (r: U256)
    ensures
        r.val() == if a.val() >= b.val() {
            (a.val() - b.val()) as nat
        } else {
            0
        },
{
    let x = alloy_primitives::U256::from_limbs(a.as_limbs());
    U256::from_limbs(
        x.saturating_sub(alloy_primitives::U256::from_limbs(b.as_limbs())).into_limbs(),
    )
}

/// alloy's `Uint::wrapping_div`: the quotient rounded down; it panics on a
/// zero divisor, which `requires` rules out.
#[verifier::external_body]
fn floor_div(a: U256, b: U256) -> (r: U256)
    requires
        b.val() != 0,
    ensures
        r.val() == a.val() / b.val(),
{
    let x = alloy_primitives::U256::from_limbs(a.as_limbs());
    U256::from_limbs(x.wrapping_div(alloy_primitives::U256::from_limbs(b.as_limbs())).into_limbs())
}

/// Whether `c` is an ASCII decimal digit.
pub open spec fn is_digit(c: char) -> bool {
    '0' <= c && c <= '9'
}

/// Value of the digit `c`.
pub open spec fn digit_value(c: char) -> nat {
    (c as int - '0' as int) as nat
}

/// The digit character for `d < 10`.
pub open spec fn digit_char(d: nat) -> char {
    (d + '0' as nat) as char
}

/// The number that the decimal digits `s` write, most significant first;
/// zero for none.
pub open spec fn digits_value(s: Seq<char>) -> nat
    decreases s.len(),
{
    if s.len() == 0 {
        0
    } else {
        digits_value(s.drop_last()) * 10 + digit_value(s.last())
    }
}

/// The shortest decimal writing of `n`: no leading zero, "0" for zero.
pub open spec fn decimal(n: nat) -> Seq<char>
    decreases n,
{
    if n < 10 {
        seq![digit_char(n)]
    } else {
        decimal(n / 10).push(digit_char(n % 10))
    }
}

/// alloy's `U256::from_str` on decimal digits without a leading zero: the
/// number they write, or nothing when it reaches 2^256 (ruint's overflow
/// error).
#[verifier::external_body]
pub(crate) fn from_decimal_digits(digits: &str) -> (r: Option<U256>)
    requires
        digits@.len() > 0,
        forall|i: int| 0 <= i < digits@.len() ==> is_digit(#[trigger] digits@[i]),
        digits@.len() > 1 ==> digits@[0] != '0',
    ensures
        match r {
            Some(v) => digits_value(digits@) < modulus() && v.val() == digits_value(digits@),
            None => digits_value(digits@) >= modulus(),
        },
{
    match alloy_primitives::U256::from_str(digits) {
        Ok(v) => Some(U256::from_limbs(v.into_limbs())),
        Err(_) => None,
    }
}

/// alloy's decimal `Display` of a value, through `to_string`: its shortest
/// decimal writing.
#[verifier::external_body]
pub(crate) fn to_decimal(v: U256) -> (r: String)
    ensures
        r@ == decimal(v.val()),
{
    alloy_primitives::U256::from_limbs(v.as_limbs()).to_string()
}

} // verus!
