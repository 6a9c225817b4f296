//! Facts about fixed-width integers: masks, shifts and two's complement.
use vstd::prelude::*;
use vstd::arithmetic::div_mod::*;
use vstd::arithmetic::mul::*;
use vstd::arithmetic::power2::*;
use vstd::bits::*;

verus! {

/// Reducing modulo a larger power of two first does not change the residue.
pub proof fn lemma_mod_pow2_mod_pow2(z: int, b: nat, w: nat)
    requires
        b <= w,
    ensures
        (z % (pow2(w) as int)) % (pow2(b) as int) == z % (pow2(b) as int),
{
    lemma_pow2_pos(b);
    lemma_pow2_pos((w - b) as nat);
    lemma_pow2_adds(b, (w - b) as nat);
    lemma_mod_mod(z, pow2(b) as int, pow2((w - b) as nat) as int);
}

/// `pow2(32)` and `pow2(128)` as numbers.
pub proof fn lemma_pow2_widths()
    ensures
        pow2(32) == 0x1_0000_0000,
        pow2(64) == 0x1_0000_0000_0000_0000,
        pow2(128) == 0x1_0000_0000_0000_0000_0000_0000_0000_0000int,
{
    lemma2_to64();
    lemma2_to64_rest();
    lemma_pow2_adds(64, 64);
}

/// Reinterpreting an `i32` as a `u32` adds `2^32` to negative values.
pub proof fn lemma_i32_as_u32(x: i32)
    ensures
        x >= 0 ==> (x as u32) as int == x as int,
        x < 0 ==> (x as u32) as int == x as int + 0x1_0000_0000,
        (x as u32) as int == x as int % 0x1_0000_0000,
{
    assert(x >= 0 ==> (x as u32) as int == x as int) by (bit_vector);
    assert(x < 0 ==> (x as u32) as int == x as int + 0x1_0000_0000) by (bit_vector);
    if x < 0 {
        lemma_mod_add_multiples_vanish(x as int, 0x1_0000_0000);
        lemma_small_mod((x as int + 0x1_0000_0000) as nat, 0x1_0000_0000);
    } else {
        lemma_small_mod(x as nat, 0x1_0000_0000);
    }
}

/// Reinterpreting a `u32` as an `i32` keeps its residue modulo `2^32`.
pub proof fn lemma_u32_as_i32(y: u32)
    ensures
        (y as i32) as int % 0x1_0000_0000 == y as int,
{
    assert(y <= 0x7fff_ffff ==> (y as i32) as int == y as int) by (bit_vector);
    assert(y > 0x7fff_ffff ==> (y as i32) as int == y as int - 0x1_0000_0000) by (bit_vector);
    if y > 0x7fff_ffff {
        lemma_mod_add_multiples_vanish(y as int - 0x1_0000_0000, 0x1_0000_0000);
    }
    lemma_small_mod(y as nat, 0x1_0000_0000);
}

/// The `i32` value `1 << n` is `2^n`, and one less is the mask of `n` low bits.
pub proof fn lemma_i32_one_shl(n: u32)
    requires
        n <= 30,
    ensures
        (1i32 << n) as int == pow2(n as nat),
        (((1i32 << n) - 1) as i32) as int == low_bits_mask(n as nat),
{
    lemma_u32_pow2_no_overflow(n as nat);
    lemma_u32_shl_is_mul(1u32, n);
    assert((1i32 << n) as int == (1u32 << n) as int) by (bit_vector)
        requires
            n <= 30,
    ;
}

/// Masking an `i32` with the `n` low bits leaves its residue modulo `2^n`.
pub proof fn lemma_i32_mask(x: i32, n: u32)
    requires
        n <= 30,
    ensures
        (x & (((1i32 << n) - 1) as i32)) as int == x as int % (pow2(n as nat) as int),
{
    lemma_i32_one_shl(n);
    lemma_u32_pow2_no_overflow(n as nat);
    let mi: i32 = ((1i32 << n) - 1) as i32;
    assert((x & mi) as int == ((x as u32) & (mi as u32)) as int) by (bit_vector)
        requires
            mi >= 0,
    ;
    assert((mi as u32) == low_bits_mask(n as nat) as u32);
    lemma_u32_low_bits_mask_is_mod(x as u32, n as nat);
    lemma_i32_as_u32(x);
    lemma_pow2_widths();
    lemma_mod_pow2_mod_pow2(x as int, n as nat, 32);
}

/// Bitwise negation of an `i32` is `-x - 1`.
pub proof fn lemma_i32_not(x: i32)
    ensures
        (!x) as int == -(x as int) - 1,
{
    assert((!x) as int == -(x as int) - 1) by (bit_vector);
}

/// Shifting a `u32` left multiplies by `2^s` modulo `2^32`.
pub proof fn lemma_u32_shl_mod(y: u32, s: u32)
    requires
        s < 32,
    ensures
        (y << s) as int == (y as int * pow2(s as nat)) % 0x1_0000_0000,
    decreases s,
{
    lemma_pow2_widths();
    if s == 0 {
        assert(y << 0 == y) by (bit_vector);
        lemma2_to64();
        lemma_small_mod(y as nat, 0x1_0000_0000);
    } else {
        let t: u32 = (s - 1) as u32;
        assert(y << s == (y << t) << 1u32) by (bit_vector)
            requires
                0 < s < 32,
                t == s - 1,
        ;
        lemma_u32_shl_mod(y, t);
        let a = y as int * pow2(t as nat);
        let w: u32 = y << t;
        assert((w << 1u32) as int == (w as int * 2) % 0x1_0000_0000) by (bit_vector);
        lemma_mul_mod_noop_left(a, 2, 0x1_0000_0000);
        lemma_pow2_unfold(s as nat);
        lemma_mul_is_associative(y as int, pow2(t as nat) as int, 2);
    }
}

/// Shifting a `u128` left multiplies by `2^s` modulo `2^128`.
pub proof fn lemma_u128_shl_mod(y: u128, s: u128)
    requires
        s < 128,
    ensures
        (y << s) as int == (y as int * pow2(s as nat)) % (pow2(128) as int),
    decreases s,
{
    lemma_pow2_widths();
    if s == 0 {
        assert(y << 0 == y) by (bit_vector);
        lemma2_to64();
        lemma_small_mod(y as nat, pow2(128));
    } else {
        let t: u128 = (s - 1) as u128;
        assert(y << s == (y << t) << 1u128) by (bit_vector)
            requires
                0 < s < 128,
                t == s - 1,
        ;
        lemma_u128_shl_mod(y, t);
        let a = y as int * pow2(t as nat);
        let w: u128 = y << t;
        assert((w << 1u128) as int == (w as int * 2) % 0x1_0000_0000_0000_0000_0000_0000_0000_0000int)
            by (bit_vector);
        lemma_mul_mod_noop_left(a, 2, pow2(128) as int);
        lemma_pow2_unfold(s as nat);
        lemma_mul_is_associative(y as int, pow2(t as nat) as int, 2);
    }
}

/// Shifting an `i32` left and keeping `b` low bits keeps the residue of
/// `x * 2^v` modulo `2^b`.
pub proof fn lemma_i32_shl_mod(x: i32, v: u32, b: nat)
    requires
        v < 32,
        b <= 32,
    ensures
        ((x << v) as int) % (pow2(b) as int) == (x as int * pow2(v as nat)) % (pow2(b) as int),
{
    lemma_pow2_widths();
    let y: u32 = x as u32;
    assert((x << v) as u32 == y << v) by (bit_vector)
        requires
            v < 32,
            y == x as u32,
    ;
    lemma_u32_shl_mod(y, v);
    lemma_i32_as_u32(x);
    lemma_i32_as_u32(x << v);
    // (x << v) ≡ (x mod 2^32) * 2^v ≡ x * 2^v   (mod 2^32)
    lemma_mul_mod_noop_left(x as int, pow2(v as nat) as int, 0x1_0000_0000);
    lemma_mod_pow2_mod_pow2((x << v) as int, b, 32);
    lemma_mod_pow2_mod_pow2(x as int * pow2(v as nat), b, 32);
}

/// The logical right shift of the bits of an `i32`, read back as an `i32`
/// and reduced modulo `2^b`, is `(x mod 2^32) / 2^v` reduced modulo `2^b`.
pub proof fn lemma_i32_shr_mod(x: i32, v: u32, b: nat)
    requires
        v < 32,
        b <= 32,
    ensures
        (((x as u32) >> v) as i32) as int % (pow2(b) as int) == ((x as int
            % 0x1_0000_0000) / (pow2(v as nat) as int)) % (pow2(b) as int),
{
    lemma_pow2_widths();
    let y: u32 = x as u32;
    lemma_u32_shr_is_div(y, v);
    lemma_i32_as_u32(x);
    let z: u32 = y >> v;
    lemma_u32_as_i32(z);
    lemma_mod_pow2_mod_pow2((z as i32) as int, b, 32);
}

/// Masks of 32, 64 and 128 low bits on a `u128`, and its bitwise negation.
pub proof fn lemma_u128_masks(v: u128)
    ensures
        v & ((1u128 << 32u128) - 1) as u128 == v % 0x1_0000_0000,
        v & ((1u128 << 64u128) - 1) as u128 == v % 0x1_0000_0000_0000_0000,
        v & u128::MAX == v,
        !v == u128::MAX - v,
{
    assert(v & ((1u128 << 32u128) - 1) as u128 == v % 0x1_0000_0000) by (bit_vector);
    assert(v & ((1u128 << 64u128) - 1) as u128 == v % 0x1_0000_0000_0000_0000) by (bit_vector);
    assert(v & u128::MAX == v) by (bit_vector);
    assert(!v == u128::MAX - v) by (bit_vector);
}

} // verus!
