//! Arithmetic on bytes seen as elements of GF(2^8).
use vstd::prelude::*;
use crate::bytes::{byte_at, get_byte, lemma_byte_xor, lemma_bytes_eq, lemma_pack, lemma_zero_bytes, pack};

verus! {

/// The AES field polynomial `x^8 + x^4 + x^3 + x + 1`.
pub const AES_S_BOX: u16 = 0b1_0001_1011;

/// The field polynomial of the linear code, `x^8 + x^4 + x^3 + x^2 + 1`.
pub const PICARO_EC: u16 = 0b1_0001_1101;

/// Bit `i` of `b`, as a boolean.
pub open spec fn bit8(b: u8, i: u8) -> bool {
    (b >> i) & 1 == 1
}

/// Carry-less (polynomial) product over GF(2) of two bytes.
pub open spec fn clmul8(a: u8, b: u8) -> u16 {
    (if bit8(b, 0) { (a as u16) << 0u16 } else { 0 })
    ^ (if bit8(b, 1) { (a as u16) << 1u16 } else { 0 })
    ^ (if bit8(b, 2) { (a as u16) << 2u16 } else { 0 })
    ^ (if bit8(b, 3) { (a as u16) << 3u16 } else { 0 })
    ^ (if bit8(b, 4) { (a as u16) << 4u16 } else { 0 })
    ^ (if bit8(b, 5) { (a as u16) << 5u16 } else { 0 })
    ^ (if bit8(b, 6) { (a as u16) << 6u16 } else { 0 })
    ^ (if bit8(b, 7) { (a as u16) << 7u16 } else { 0 })
}

/// One reduction step: clears bit `i` (8 <= i <= 14) by adding `px * x^(i-8)`.
pub open spec fn reduce_step(px: u16, v: u16, i: u16) -> u16 {
    if (v >> i) & 1 == 1 { v ^ (px << ((i - 8) as u16)) } else { v }
}

/// Reduction of a polynomial of degree at most 14 modulo `px`, truncated to a byte.
pub open spec fn poly_reduce8(px: u16, v: u16) -> u8 {
    reduce_step(px, reduce_step(px, reduce_step(px, reduce_step(px, reduce_step(px,
        reduce_step(px, reduce_step(px, v, 14), 13), 12), 11), 10), 9), 8) as u8
}

/// Product of two bytes in GF(2)[x] / (px).
pub open spec fn gf_mul(px: u16, a: u8, b: u8) -> u8 {
    poly_reduce8(px, clmul8(a, b))
}

/// Reduction steps for bits `i..=14`, applied from the highest bit down.
pub open spec fn reduce_from(px: u16, v: u16, i: u16) -> u16
    decreases 15 - i,
{
    if i >= 15 { v } else { reduce_step(px, reduce_from(px, v, (i + 1) as u16), i) }
}

/// The low `i` bits of a byte.
pub open spec fn low_bits8(b: u8, i: u8) -> u8 {
    b & (((1u16 << i) - 1) as u8)
}

/// Bit spreading: bit `i` of `x` moves to bit `2i`.
pub open spec fn spread8(x: u8) -> u16 {
    (((x & 1) as u16) << 0u16) | (((x & 2) as u16) << 1u16) | (((x & 4) as u16) << 2u16) | (((x
        & 8) as u16) << 3u16) | (((x & 16) as u16) << 4u16) | (((x & 32) as u16) << 5u16) | (((x
        & 64) as u16) << 6u16) | (((x & 128) as u16) << 7u16)
}

/// Facts about partial carry-less products and bit spreading, used by the loops below.
proof fn lemma_clmul8_step(a: u8, b: u8, i: u8)
    by (bit_vector)
    requires
        i < 8,
    ensures
        (b >> i) & 1 == 1 ==> clmul8(a, low_bits8(b, (i + 1) as u8)) == clmul8(a, low_bits8(b, i))
            ^ ((a as u16) << (i as u16)),
        (b >> i) & 1 != 1 ==> clmul8(a, low_bits8(b, (i + 1) as u8)) == clmul8(a, low_bits8(b, i)),
        spread8(low_bits8(b, (i + 1) as u8)) == spread8(low_bits8(b, i)) | (((b & (1u8 << i))
            as u16) << (i as u16)),
        low_bits8(b, 0) == 0,
        low_bits8(b, 8) == b,
        clmul8(a, 0) == 0,
        spread8(0) == 0,
        spread8(b) == clmul8(b, b),
{
}

proof fn lemma_clmul8_laws(a: u8, b: u8, c: u8)
    by (bit_vector)
    ensures
        clmul8(a ^ c, b) == clmul8(a, b) ^ clmul8(c, b),
        clmul8(a, b) == clmul8(b, a),
        clmul8(0, b) == 0,
{
}

proof fn lemma_reduce_step_linear(px: u16, u: u16, v: u16, i: u16)
    by (bit_vector)
    requires
        8 <= i <= 14,
    ensures
        reduce_step(px, u ^ v, i) == reduce_step(px, u, i) ^ reduce_step(px, v, i),
        reduce_step(px, 0, i) == 0,
        ((u ^ v) as u8) == (u as u8) ^ (v as u8),
        (0u16 as u8) == 0,
{
}

proof fn lemma_reduce_from_linear(px: u16, u: u16, v: u16, i: u16)
    requires
        8 <= i <= 15,
    ensures
        reduce_from(px, u ^ v, i) == reduce_from(px, u, i) ^ reduce_from(px, v, i),
        reduce_from(px, 0, i) == 0,
    decreases 15 - i,
{
    if i < 15 {
        lemma_reduce_from_linear(px, u, v, (i + 1) as u16);
        lemma_reduce_step_linear(px, reduce_from(px, u, (i + 1) as u16), reduce_from(px, v, (i + 1) as u16), i);
    }
}

/// Reduction modulo `px` is linear.
proof fn lemma_poly_reduce8_linear(px: u16, u: u16, v: u16)
    ensures
        poly_reduce8(px, u ^ v) == poly_reduce8(px, u) ^ poly_reduce8(px, v),
        poly_reduce8(px, 0) == 0,
{
    lemma_reduce_from_linear(px, u, v, 8);
    reveal_with_fuel(reduce_from, 8);
    lemma_reduce_step_linear(px, reduce_from(px, u, 8), reduce_from(px, v, 8), 8);
}

/// Field multiplication distributes over addition (exclusive or), commutes, and
/// annihilates zero; this holds for every reduction polynomial `px`.
pub proof fn lemma_gf_mul_laws(px: u16, a: u8, b: u8, c: u8)
    ensures
        gf_mul(px, a ^ c, b) == gf_mul(px, a, b) ^ gf_mul(px, c, b),
        gf_mul(px, a, b) == gf_mul(px, b, a),
        gf_mul(px, 0, b) == 0,
{
    lemma_clmul8_laws(a, b, c);
    lemma_poly_reduce8_linear(px, clmul8(a, b), clmul8(c, b));
}

/// Carry-less product of a polynomial `q` of degree below 8 and a polynomial `p` of
/// degree at most 8.
pub open spec fn clmul_by(q: u8, p: u16) -> u16 {
    (if bit8(q, 0) { p << 0u16 } else { 0 })
    ^ (if bit8(q, 1) { p << 1u16 } else { 0 })
    ^ (if bit8(q, 2) { p << 2u16 } else { 0 })
    ^ (if bit8(q, 3) { p << 3u16 } else { 0 })
    ^ (if bit8(q, 4) { p << 4u16 } else { 0 })
    ^ (if bit8(q, 5) { p << 5u16 } else { 0 })
    ^ (if bit8(q, 6) { p << 6u16 } else { 0 })
    ^ (if bit8(q, 7) { p << 7u16 } else { 0 })
}

/// The reduction steps add `px` shifted by the quotient bits; `q` collects those bits.
proof fn lemma_reduce_adds_multiple(px: u16, v: u16, q: u8)
    by (bit_vector)
    requires
        px >> 8u16 == 1,
        v >> 15u16 == 0,
        q == ((((v >> 14u16) & 1) << 6u16) | (((reduce_step(px, v, 14) >> 13u16) & 1) << 5u16) | (((
        reduce_step(px, reduce_step(px, v, 14), 13) >> 12u16) & 1) << 4u16) | (((reduce_step(
            px,
            reduce_step(px, reduce_step(px, v, 14), 13),
            12,
        ) >> 11u16) & 1) << 3u16) | (((reduce_step(
            px,
            reduce_step(px, reduce_step(px, reduce_step(px, v, 14), 13), 12),
            11,
        ) >> 10u16) & 1) << 2u16) | (((reduce_step(
            px,
            reduce_step(px, reduce_step(px, reduce_step(px, reduce_step(px, v, 14), 13), 12), 11),
            10,
        ) >> 9u16) & 1) << 1u16) | ((reduce_step(
            px,
            reduce_step(
                px,
                reduce_step(px, reduce_step(px, reduce_step(px, reduce_step(px, v, 14), 13), 12), 11),
                10,
            ),
            9,
        ) >> 8u16) & 1)) as u8,
    ensures
        clmul_by(q, px) ^ (poly_reduce8(px, v) as u16) == v,
{
}

proof fn lemma_clmul8_degree(a: u8, b: u8)
    by (bit_vector)
    ensures
        clmul8(a, b) >> 15u16 == 0,
{
}

/// `gf_mul(px, a, b)` is the remainder of the polynomial product of `a` and `b` on
/// division by `px`, a polynomial of degree 8: the product is `q * px` plus that
/// remainder for some polynomial `q`, and the remainder, a byte, has degree below 8.
pub proof fn lemma_gf_mul_is_remainder(px: u16, a: u8, b: u8)
    requires
        px >> 8u16 == 1,
    ensures
        exists|q: u8| #[trigger] clmul_by(q, px) ^ (gf_mul(px, a, b) as u16) == clmul8(a, b),
{
    let v = clmul8(a, b);
    lemma_clmul8_degree(a, b);
    let v13 = reduce_step(px, v, 14);
    let v12 = reduce_step(px, v13, 13);
    let v11 = reduce_step(px, v12, 12);
    let v10 = reduce_step(px, v11, 11);
    let v9 = reduce_step(px, v10, 10);
    let v8 = reduce_step(px, v9, 9);
    let q = ((((v >> 14u16) & 1) << 6u16) | (((v13 >> 13u16) & 1) << 5u16) | (((v12 >> 12u16) & 1) << 4u16)
        | (((v11 >> 11u16) & 1) << 3u16) | (((v10 >> 10u16) & 1) << 2u16) | (((v9 >> 9u16) & 1) << 1u16)
        | ((v8 >> 8u16) & 1)) as u8;
    lemma_reduce_adds_multiple(px, v, q);
}

/// Reducing with `x^8 = x^4 + x^3 + x + 1`, that is, adding `0x1B` shifted without the
/// leading `x^8` bit, gives the same byte as reducing modulo the full AES polynomial:
/// the leading bit only clears a bit above the byte, which no later step reads.
pub proof fn lemma_reduce_without_leading_bit(v: u16)
    by (bit_vector)
    ensures
        poly_reduce8(0x1B, v) == poly_reduce8(AES_S_BOX, v),
{
}

/// Reduces a polynomial of degree at most 14 modulo `PX`.
fn byte_reduce<const PX: u16>(byte: u16) -> (r: u8)
    ensures r == poly_reduce8(PX, byte),
{
    let ghost v0 = byte;
    let mut byte = byte;
    let mut i: u16 = 15;
    while i > 8
        invariant
            8 <= i <= 15,
            byte == reduce_from(PX, v0, i),
        decreases i,
    {
        i -= 1;
        if (byte >> i) & 1 == 1 {
            byte ^= PX << (i - 8);
        }
    }
    proof {
        reveal_with_fuel(reduce_from, 8);
    }
    byte as u8
}

/// Multiplies two bytes in the field GF(2)[x] / (PX).
pub fn byte_mult<const PX: u16>(a: u8, b: u8) -> (r: u8)
    ensures r == gf_mul(PX, a, b),
{
    let mut result = 0u16;
    let mut i: u8 = 0;
    proof {
        lemma_clmul8_step(a, b, 0);
    }
    while i < 8
        invariant
            i <= 8,
            result == clmul8(a, low_bits8(b, i)),
        decreases 8 - i,
    {
        proof { lemma_clmul8_step(a, b, i); }
        if (b >> i) & 1 == 1 {
            result ^= (a as u16) << (i as u16);
        }
        i += 1;
    }
    byte_reduce::<PX>(result)
}

/// Squares a byte in the field GF(2)[x] / (PX).
pub fn byte_square<const PX: u16>(byte: u8) -> (r: u8)
    ensures
        r == gf_mul(PX, byte, byte),
{
    let mut result = 0u16;
    let mut i: u8 = 0;
    proof {
        lemma_clmul8_step(byte, byte, 0);
    }
    // Square using the Frobenius automorphism, `(x + y)^2 = x^2 + y^2`:
    // `(x^n)^2 = x^2n`, which doubles the place value of each bit.
    while i < 8
        invariant
            i <= 8,
            result == spread8(low_bits8(byte, i)),
        decreases 8 - i,
    {
        proof {
            lemma_clmul8_step(byte, byte, i);
        }
        result |= ((byte & (1u8 << i)) as u16) << (i as u16);
        i += 1;
    }
    byte_reduce::<PX>(result)
}

/// The bytewise field product of two words: byte `k` is the product of the bytes `k`.
pub open spec fn mul_bytes(px: u16, a: u128, b: u128) -> spec_fn(int) -> u8 {
    |k: int| gf_mul(px, byte_at(a, k), byte_at(b, k))
}

/// The bytewise field product of two words.
pub open spec fn mul128(px: u16, a: u128, b: u128) -> u128 {
    pack(mul_bytes(px, a, b), 16)
}

/// Bytes of a bytewise product.
pub proof fn lemma_mul128_bytes(px: u16, a: u128, b: u128)
    ensures
        forall|k: int|
            0 <= k < 16 ==> #[trigger] byte_at(mul128(px, a, b), k) == gf_mul(
                px,
                byte_at(a, k),
                byte_at(b, k),
            ),
{
    lemma_pack(mul_bytes(px, a, b), 16);
}

/// The bytewise product is bilinear over exclusive or, commutative, and annihilates zero.
pub proof fn lemma_mul128_laws(px: u16, a: u128, b: u128, c: u128)
    ensures
        mul128(px, a ^ c, b) == mul128(px, a, b) ^ mul128(px, c, b),
        mul128(px, b, a ^ c) == mul128(px, b, a) ^ mul128(px, b, c),
        mul128(px, a, b) == mul128(px, b, a),
        mul128(px, 0, b) == 0,
        mul128(px, b, 0) == 0,
{
    lemma_mul128_bytes(px, a ^ c, b);
    lemma_mul128_bytes(px, a, b);
    lemma_mul128_bytes(px, c, b);
    lemma_mul128_bytes(px, b, a ^ c);
    lemma_mul128_bytes(px, b, a);
    lemma_mul128_bytes(px, b, c);
    lemma_mul128_bytes(px, 0, b);
    lemma_mul128_bytes(px, b, 0);
    assert forall|k: int| 0 <= k < 16 implies #[trigger] byte_at(mul128(px, a ^ c, b), k)
        == byte_at(mul128(px, a, b) ^ mul128(px, c, b), k) by {
        lemma_byte_xor(a, c, k);
        lemma_byte_xor(mul128(px, a, b), mul128(px, c, b), k);
        lemma_gf_mul_laws(px, byte_at(a, k), byte_at(b, k), byte_at(c, k));
    }
    assert forall|k: int| 0 <= k < 16 implies #[trigger] byte_at(mul128(px, b, a ^ c), k)
        == byte_at(mul128(px, b, a) ^ mul128(px, b, c), k) by {
        let (x, y, z) = (byte_at(a, k), byte_at(b, k), byte_at(c, k));
        lemma_byte_xor(a, c, k);
        lemma_byte_xor(mul128(px, b, a), mul128(px, b, c), k);
        lemma_gf_mul_laws(px, x, y, z);
        lemma_gf_mul_laws(px, y, x ^ z, 0);
        lemma_gf_mul_laws(px, y, x, 0);
        lemma_gf_mul_laws(px, y, z, 0);
    }
    assert forall|k: int| 0 <= k < 16 implies #[trigger] byte_at(mul128(px, a, b), k)
        == byte_at(mul128(px, b, a), k) by {
        lemma_gf_mul_laws(px, byte_at(a, k), byte_at(b, k), 0);
    }
    assert forall|k: int| 0 <= k < 16 implies #[trigger] byte_at(mul128(px, 0, b), k) == byte_at(0, k)
        && byte_at(mul128(px, b, 0), k) == byte_at(0, k) by {
        lemma_zero_bytes(k);
        lemma_gf_mul_laws(px, 0, byte_at(b, k), 0);
        lemma_gf_mul_laws(px, byte_at(b, k), 0, 0);
    }
    lemma_bytes_eq(mul128(px, a ^ c, b), mul128(px, a, b) ^ mul128(px, c, b));
    lemma_bytes_eq(mul128(px, b, a ^ c), mul128(px, b, a) ^ mul128(px, b, c));
    lemma_bytes_eq(mul128(px, a, b), mul128(px, b, a));
    lemma_bytes_eq(mul128(px, 0, b), 0);
    lemma_bytes_eq(mul128(px, b, 0), 0);
}

/// Multiplies the bytes of two words pairwise in the field GF(2)[x] / (PX).
pub fn byte_mult_u128<const PX: u16>(a: u128, b: u128) -> (r: u128)
    ensures
        r == mul128(PX, a, b),
{
    let mut result: u128 = 0;
    let mut k: u32 = 0;
    while k < 16
        invariant
            k <= 16,
            result == pack(mul_bytes(PX, a, b), k as nat),
        decreases 16 - k,
    {
        let m = byte_mult::<PX>(get_byte(a, k), get_byte(b, k));
        result |= (m as u128) << (8 * k);
        k += 1;
    }
    result
}

/// Squares every byte of a word in the field GF(2)[x] / (PX).
pub fn byte_square_u128<const PX: u16>(share: u128) -> (r: u128)
    ensures
        r == mul128(PX, share, share),
{
    let mut result: u128 = 0;
    let mut k: u32 = 0;
    while k < 16
        invariant
            k <= 16,
            result == pack(mul_bytes(PX, share, share), k as nat),
        decreases 16 - k,
    {
        let m = byte_square::<PX>(get_byte(share, k));
        result |= (m as u128) << (8 * k);
        k += 1;
    }
    result
}

} // verus!
