//! Natural numbers of any size, kept as base-2^32 digits, whose arithmetic is
//! done by `num-bigint`'s `BigUint`.
use vstd::prelude::*;
use vstd::arithmetic::div_mod::{lemma_mod_breakdown, lemma_small_mod};
use vstd::arithmetic::power2::*;
use num_bigint::BigUint;
use num_traits::{One, Zero};
use crate::text::digits_value;

verus! {

/// The number that base-2^32 digits stand for, least significant digit first.
pub open spec fn limbs_value(s: Seq<u32>) -> nat
    decreases s.len(),
{
    if s.len() == 0 {
        0
    } else {
        (s[0] as nat + 0x1_0000_0000 * limbs_value(s.drop_first())) as nat
    }
}

/// Bitwise and of two natural numbers.
pub open spec fn nat_and(a: nat, b: nat) -> nat
    decreases a,
{
    if a == 0 || b == 0 {
        0
    } else {
        2 * nat_and(a / 2, b / 2) + (a % 2) * (b % 2)
    }
}

/// Bitwise or of two natural numbers.
pub open spec fn nat_or(a: nat, b: nat) -> nat
    decreases a,
{
    if a == 0 {
        b
    } else if b == 0 {
        a
    } else {
        2 * nat_or(a / 2, b / 2) + (if a % 2 == 1 || b % 2 == 1 {
            1nat
        } else {
            0nat
        })
    }
}

/// Bitwise exclusive or of two natural numbers.
pub open spec fn nat_xor(a: nat, b: nat) -> nat
    decreases a,
{
    if a == 0 {
        b
    } else if b == 0 {
        a
    } else {
        2 * nat_xor(a / 2, b / 2) + (a % 2 + b % 2) % 2
    }
}

/// Keeping the `n` low bits of `v` leaves its residue modulo `2^n`.
pub proof fn lemma_and_low_mask(v: nat, n: nat)
    ensures
        nat_and(v, (pow2(n) - 1) as nat) == v % pow2(n),
    decreases n,
{
    lemma_pow2_pos(n);
    if n == 0 {
        lemma2_to64();
    } else if v == 0 {
        lemma_small_mod(0, pow2(n));
    } else {
        lemma_pow2_unfold(n);
        lemma_pow2_pos((n - 1) as nat);
        let m = (pow2(n) - 1) as nat;
        assert(m / 2 == pow2((n - 1) as nat) - 1);
        assert(m % 2 == 1);
        lemma_and_low_mask(v / 2, (n - 1) as nat);
        lemma_mod_breakdown(v as int, 2, pow2((n - 1) as nat) as int);
    }
}

/// A natural number of any size.
#[derive(Debug)]
pub struct Natural {
    limbs: Vec<u32>,
}

impl View for Natural {
    type V = nat;

    closed spec fn view(&self) -> nat {
        limbs_value(self.limbs@)
    }
}

impl Natural {
    /// The number whose base-2^32 digits are `digits`, least significant first.
    pub fn from_u32_digits(digits: Vec<u32>) -> (n: Natural)
        ensures
            n@ == limbs_value(digits@),
    {
        Natural { limbs: digits }
    }

    /// Base-2^32 digits of the number, least significant first.
    pub fn to_u32_digits(&self) -> (d: Vec<u32>)
        ensures
            limbs_value(d@) == self@,
    {
        let d = self.limbs.clone();
        assert(d@ =~= self.limbs@);
        d
    }

    /// The same number.
    pub fn copy(&self) -> (n: Natural)
        ensures
            n@ == self@,
    {
        Natural { limbs: self.to_u32_digits() }
    }
}

/// Zero.
///
/// Trusted: `BigUint::zero` (num-traits `Zero`) is the number zero, and
/// `to_u32_digits` lists its base-2^32 digits, least significant first.
#[verifier::external_body]
pub fn zero() -> (r: Natural)
    ensures
        r@ == 0,
{
    Natural { limbs: BigUint::zero().to_u32_digits() }
}

/// One.
///
/// Trusted: `BigUint::one` (num-traits `One`) is the number one.
#[verifier::external_body]
pub fn one() -> (r: Natural)
    ensures
        r@ == 1,
{
    Natural { limbs: BigUint::one().to_u32_digits() }
}

/// Whether `a` is zero.
///
/// Trusted: `Zero::is_zero` on a `BigUint` built by `BigUint::new` from the
/// digits of `a` tells whether that number is zero.
#[verifier::external_body]
pub fn is_zero(a: &Natural) -> (b: bool)
    ensures
        b == (a@ == 0),
{
    BigUint::new(a.limbs.clone()).is_zero()
}

/// Whether `a` is at least `b`.
///
/// Trusted: `>=` on `BigUint` compares the numbers.
#[verifier::external_body]
pub fn at_least(a: &Natural, b: &Natural) -> (r: bool)
    ensures
        r == (a@ >= b@),
{
    BigUint::new(a.limbs.clone()) >= BigUint::new(b.limbs.clone())
}

/// `a + b`.
///
/// Trusted: `+` on `&BigUint` is the sum.
#[verifier::external_body]
pub fn sum(a: &Natural, b: &Natural) -> (r: Natural)
    ensures
        r@ == a@ + b@,
{
    let s = &BigUint::new(a.limbs.clone()) + &BigUint::new(b.limbs.clone());
    Natural { limbs: s.to_u32_digits() }
}

/// `a - b`, for `b <= a`.
///
/// Trusted: `-` on `&BigUint` is the difference; it panics when `b > a`,
/// which the precondition rules out.
#[verifier::external_body]
pub fn difference(a: &Natural, b: &Natural) -> (r: Natural)
    requires
        a@ >= b@,
    ensures
        r@ == a@ - b@,
{
    let d = &BigUint::new(a.limbs.clone()) - &BigUint::new(b.limbs.clone());
    Natural { limbs: d.to_u32_digits() }
}

/// `a * b`.
///
/// Trusted: `*` on `&BigUint` is the product.
#[verifier::external_body]
pub fn product(a: &Natural, b: &Natural) -> (r: Natural)
    ensures
        r@ == a@ * b@,
{
    let p = &BigUint::new(a.limbs.clone()) * &BigUint::new(b.limbs.clone());
    Natural { limbs: p.to_u32_digits() }
}

/// `a / b` rounded down, for `b != 0`.
///
/// Trusted: `/` on `&BigUint` is the quotient rounded down; it panics on a
/// zero divisor, which the precondition rules out.
#[verifier::external_body]
pub fn quotient(a: &Natural, b: &Natural) -> (r: Natural)
    requires
        b@ != 0,
    ensures
        r@ == a@ / b@,
{
    let q = &BigUint::new(a.limbs.clone()) / &BigUint::new(b.limbs.clone());
    Natural { limbs: q.to_u32_digits() }
}

/// Bitwise and.
///
/// Trusted: `&` on `&BigUint` is the bitwise and of the numbers.
#[verifier::external_body]
pub fn bit_and(a: &Natural, b: &Natural) -> (r: Natural)
    ensures
        r@ == nat_and(a@, b@),
{
    let c = &BigUint::new(a.limbs.clone()) & &BigUint::new(b.limbs.clone());
    Natural { limbs: c.to_u32_digits() }
}

/// Bitwise or.
///
/// Trusted: `|` on `&BigUint` is the bitwise or of the numbers.
#[verifier::external_body]
pub fn bit_or(a: &Natural, b: &Natural) -> (r: Natural)
    ensures
        r@ == nat_or(a@, b@),
{
    let c = &BigUint::new(a.limbs.clone()) | &BigUint::new(b.limbs.clone());
    Natural { limbs: c.to_u32_digits() }
}

/// Bitwise exclusive or.
///
/// Trusted: `^` on `&BigUint` is the bitwise exclusive or of the numbers.
#[verifier::external_body]
pub fn bit_xor(a: &Natural, b: &Natural) -> (r: Natural)
    ensures
        r@ == nat_xor(a@, b@),
{
    let c = &BigUint::new(a.limbs.clone()) ^ &BigUint::new(b.limbs.clone());
    Natural { limbs: c.to_u32_digits() }
}

/// `a * 2^bits`.
///
/// Trusted: `<<` by a `usize` on `&BigUint` multiplies by that power of two.
/// (Its storage grows with `bits`; running out of memory is not described.)
#[verifier::external_body]
pub fn shl(a: &Natural, bits: usize) -> (r: Natural)
    ensures
        r@ == a@ * pow2(bits as nat),
{
    let c = &BigUint::new(a.limbs.clone()) << bits;
    Natural { limbs: c.to_u32_digits() }
}

/// `a / 2^bits` rounded down.
///
/// Trusted: `>>` by a `usize` on `&BigUint` divides by that power of two,
/// rounding down.
#[verifier::external_body]
pub fn shr(a: &Natural, bits: usize) -> (r: Natural)
    ensures
        r@ == a@ / pow2(bits as nat),
{
    let c = &BigUint::new(a.limbs.clone()) >> bits;
    Natural { limbs: c.to_u32_digits() }
}

/// A decimal numeral as `BigUint::parse_bytes` reads it: one optional leading
/// `+`, then decimal digits, where `_` may stand between digits and after
/// them but not first.
pub open spec fn decimal_numeral(s: Seq<char>) -> Option<nat> {
    let t = if s.len() > 0 && s[0] == '+' {
        s.drop_first()
    } else {
        s
    };
    if t.len() > 0 && t[0] != '_' && (forall|i: int|
        0 <= i < t.len() ==> ('0' <= #[trigger] t[i] <= '9' || t[i] == '_')) {
        Some(digits_value(t.filter(|c: char| c != '_'), 10))
    } else {
        None
    }
}

/// The decimal numeral `s`, when it is one.
///
/// Trusted: `BigUint::parse_bytes(s.as_bytes(), 10)` strips one leading `+`,
/// refuses an empty rest or one that starts with `_`, skips `_`, refuses any
/// other byte that is not a decimal digit, and otherwise reads the digits.
#[verifier::external_body]
pub fn parse_decimal(s: &str) -> (r: Option<Natural>)
    ensures
        match r {
            Some(n) => decimal_numeral(s@) == Some(n@),
            None => decimal_numeral(s@) is None,
        },
{
    match BigUint::parse_bytes(s.as_bytes(), 10) {
        Some(b) => Some(Natural { limbs: b.to_u32_digits() }),
        None => None,
    }
}


/// On numbers that fit in 64 bits, `nat_and`, `nat_or` and `nat_xor` are the
/// machine's `&`, `|` and `^`.
pub proof fn law_bitwise_ops_match_u64(a: u64, b: u64)
    ensures
        nat_and(a as nat, b as nat) == (a & b) as nat,
        nat_or(a as nat, b as nat) == (a | b) as nat,
        nat_xor(a as nat, b as nat) == (a ^ b) as nat,
    decreases a,
{
    if a == 0 {
        assert(0u64 & b == 0 && 0u64 | b == b && 0u64 ^ b == b) by (bit_vector);
    } else if b == 0 {
        assert(a & 0u64 == 0 && a | 0u64 == a && a ^ 0u64 == a) by (bit_vector);
    } else {
        let a2: u64 = a / 2;
        let b2: u64 = b / 2;
        law_bitwise_ops_match_u64(a2, b2);
        assert(a & b == 2 * ((a / 2) & (b / 2)) + (a % 2) * (b % 2)) by (bit_vector);
        assert(a | b == 2 * ((a / 2) | (b / 2)) + (if a % 2 == 1 || b % 2 == 1 { 1u64 } else { 0u64 }))
            by (bit_vector);
        assert(a ^ b == 2 * ((a / 2) ^ (b / 2)) + (a % 2 + b % 2) % 2) by (bit_vector);
    }
}

} // verus!
