//! Arithmetic on nibbles seen as elements of GF(2^4); a byte holds two of them.
use crate::bytes::{byte_at, get_byte, pack};
use vstd::prelude::*;

verus! {

/// The nibble field polynomial `x^4 + x^3 + 1` of the S-box.
pub const PICARO_S_BOX: u8 = 0b11001;

/// Carry-less (polynomial) product over GF(2) of two nibbles.
pub open spec fn clmul4(a: u8, b: u8) -> u8 {
    (if (b >> 0u8) & 1 == 1 { a << 0u8 } else { 0 }) ^ (if (b >> 1u8) & 1 == 1 { a << 1u8 } else { 0 })
        ^ (if (b >> 2u8) & 1 == 1 { a << 2u8 } else { 0 }) ^ (if (b >> 3u8) & 1 == 1 {
        a << 3u8
    } else {
        0
    })
}

/// One reduction step: clears bit `i` (4 <= i <= 6) by adding `px * x^(i-4)`.
pub open spec fn nibble_reduce_step(px: u8, v: u8, i: u8) -> u8 {
    if (v >> i) & 1 == 1 { v ^ (px << ((i - 4) as u8)) } else { v }
}

/// Reduction of a polynomial of degree at most 6 modulo `px`.
pub open spec fn poly_reduce4(px: u8, v: u8) -> u8 {
    nibble_reduce_step(px, nibble_reduce_step(px, nibble_reduce_step(px, v, 6), 5), 4)
}

/// Product of two nibbles in GF(2)[x] / (px).
pub open spec fn gf16_mul(px: u8, a: u8, b: u8) -> u8 {
    poly_reduce4(px, clmul4(a, b))
}

/// The nibblewise product of two bytes, with the two halves of the result exchanged:
/// the product of the low nibbles goes to the high nibble and the other way round.
pub open spec fn nibble_mul_byte(px: u8, a: u8, b: u8) -> u8 {
    (gf16_mul(px, a & 0b1111, b & 0b1111) << 4u8) ^ gf16_mul(px, a >> 4u8, b >> 4u8)
}

/// Reduction steps for bits `i..=6`, from the highest bit down.
pub open spec fn nibble_reduce_from(px: u8, v: u8, i: u8) -> u8
    decreases 7 - i,
{
    if i >= 7 { v } else { nibble_reduce_step(px, nibble_reduce_from(px, v, (i + 1) as u8), i) }
}

/// The low `i` bits of a byte.
pub open spec fn low_bits(b: u8, i: u8) -> u8 {
    b & (((1u16 << i) - 1) as u8)
}

/// Facts about partial products, bit spreading and reduction used by the loops below,
/// and the laws of nibble multiplication.
proof fn lemma_nibble_facts(px: u8, a: u8, b: u8, c: u8, i: u8)
    by (bit_vector)
    requires
        i < 4,
    ensures
        (b >> i) & 1 == 1 ==> clmul4(a, low_bits(b, (i + 1) as u8)) == clmul4(a, low_bits(b, i)) ^ (a << i),
        (b >> i) & 1 != 1 ==> clmul4(a, low_bits(b, (i + 1) as u8)) == clmul4(a, low_bits(b, i)),
        low_bits(b, (i + 1) as u8) & (1u8 << i) == b & (1u8 << i),
        (low_bits(b, (i + 1) as u8) as u16) == (low_bits(b, i) as u16) | ((b & (1u8 << i)) as u16),
        low_bits(b, 0) == 0,
        clmul4(a, 0) == 0,
        b < 16 ==> low_bits(b, 4) == b,
        clmul4(a ^ c, b) == clmul4(a, b) ^ clmul4(c, b),
        a < 16 && b < 16 ==> clmul4(a, b) == clmul4(b, a),
        clmul4(0, b) == 0,
        nibble_reduce_step(px, a ^ c, (i + 4) as u8) == nibble_reduce_step(px, a, (i + 4) as u8)
            ^ nibble_reduce_step(px, c, (i + 4) as u8),
        nibble_reduce_step(px, 0, (i + 4) as u8) == 0,
        (a ^ c) & 0b1111 == (a & 0b1111) ^ (c & 0b1111),
        (a ^ c) >> 4u8 == (a >> 4u8) ^ (c >> 4u8),
        (a << 4u8) ^ (c << 4u8) == (a ^ c) << 4u8,
        (0u8 << 4u8) ^ 0u8 == 0,
        (a >> 4u8) < 16,
        (a & 0b1111) < 16,
        ((a ^ c) >> 4u8) < 16,
        ((a ^ c) & 0b1111) < 16,
        (0u8 & 0b1111) == 0,
        (0u8 >> 4u8) == 0,
        b >> 4u8 == 0 ==> b < 16,
        (a & 0b1111) >> 4u8 == 0,
        (a >> 4u8) >> 4u8 == 0,
{
}

/// Bit spreading: bit `i` of `x` moves to bit `2i`.
pub open spec fn spread4(x: u8) -> u8 {
    ((x & 1) << 0u8) | ((x & 2) << 1u8) | ((x & 4) << 2u8) | ((x & 8) << 3u8)
}

proof fn lemma_spread4(b: u8, i: u8)
    by (bit_vector)
    requires
        i < 4,
    ensures
        spread4(low_bits(b, (i + 1) as u8)) == spread4(low_bits(b, i)) | ((b & (1u8 << i)) << i),
        spread4(0) == 0,
        b < 16 ==> spread4(b) == clmul4(b, b),
{
}

proof fn lemma_nibble_reduce_from_linear(px: u8, u: u8, v: u8, i: u8)
    requires
        4 <= i <= 7,
    ensures
        nibble_reduce_from(px, u ^ v, i) == nibble_reduce_from(px, u, i) ^ nibble_reduce_from(px, v, i),
        nibble_reduce_from(px, 0, i) == 0,
    decreases 7 - i,
{
    if i < 7 {
        lemma_nibble_reduce_from_linear(px, u, v, (i + 1) as u8);
        lemma_nibble_facts(px, nibble_reduce_from(px, u, (i + 1) as u8), 0, nibble_reduce_from(px, v, (i + 1) as u8), (i - 4) as u8);
    }
}

/// Nibble multiplication distributes over addition (exclusive or), commutes on
/// nibbles, and annihilates zero; this holds for every reduction polynomial `px`.
pub proof fn lemma_gf16_mul_laws(px: u8, a: u8, b: u8, c: u8)
    ensures
        gf16_mul(px, a ^ c, b) == gf16_mul(px, a, b) ^ gf16_mul(px, c, b),
        a < 16 && b < 16 ==> gf16_mul(px, a, b) == gf16_mul(px, b, a),
        gf16_mul(px, 0, b) == 0,
{
    lemma_nibble_facts(px, a, b, c, 0);
    lemma_nibble_reduce_from_linear(px, clmul4(a, b), clmul4(c, b), 4);
    reveal_with_fuel(nibble_reduce_from, 4);
}

/// The nibblewise product of bytes is bilinear over exclusive or, commutative, and
/// annihilates zero.
pub proof fn lemma_nibble_mul_byte_laws(px: u8, a: u8, b: u8, c: u8)
    ensures
        nibble_mul_byte(px, a ^ c, b) == nibble_mul_byte(px, a, b) ^ nibble_mul_byte(px, c, b),
        nibble_mul_byte(px, b, a ^ c) == nibble_mul_byte(px, b, a) ^ nibble_mul_byte(px, b, c),
        nibble_mul_byte(px, a, b) == nibble_mul_byte(px, b, a),
        nibble_mul_byte(px, 0, b) == 0,
        nibble_mul_byte(px, b, 0) == 0,
{
    let (al, ah, bl, bh, cl, ch) = (a & 0b1111, a >> 4u8, b & 0b1111, b >> 4u8, c & 0b1111, c >> 4u8);
    lemma_nibble_facts(px, a, b, c, 0);
    lemma_nibble_facts(px, 0, b, 0, 0);
    lemma_nibble_facts(px, b, 0, 0, 0);
    lemma_nibble_facts(px, c, 0, 0, 0);
    lemma_gf16_mul_laws(px, al, bl, cl);
    lemma_gf16_mul_laws(px, ah, bh, ch);
    lemma_gf16_mul_laws(px, bl, al, 0);
    lemma_gf16_mul_laws(px, bh, ah, 0);
    lemma_gf16_mul_laws(px, bl, cl, 0);
    lemma_gf16_mul_laws(px, bh, ch, 0);
    lemma_gf16_mul_laws(px, al ^ cl, bl, 0);
    lemma_gf16_mul_laws(px, ah ^ ch, bh, 0);
    lemma_gf16_mul_laws(px, 0, bl, 0);
    lemma_gf16_mul_laws(px, 0, bh, 0);
    lemma_gf16_mul_laws(px, bl, 0, 0);
    lemma_gf16_mul_laws(px, bh, 0, 0);
    lemma_nibble_xor_shuffle(
        gf16_mul(px, al, bl), gf16_mul(px, cl, bl), gf16_mul(px, ah, bh), gf16_mul(px, ch, bh),
    );
    lemma_nibble_xor_shuffle(
        gf16_mul(px, bl, al), gf16_mul(px, bl, cl), gf16_mul(px, bh, ah), gf16_mul(px, bh, ch),
    );
}

proof fn lemma_nibble_xor_shuffle(w: u8, x: u8, y: u8, z: u8)
    by (bit_vector)
    ensures
        ((w ^ x) << 4u8) ^ (y ^ z) == ((w << 4u8) ^ y) ^ ((x << 4u8) ^ z),
{
}

/// Carry-less product of a polynomial `q` of degree below 4 and a polynomial `p` of
/// degree at most 4.
pub open spec fn clmul4_by(q: u8, p: u8) -> u8 {
    (if (q >> 0u8) & 1 == 1 { p << 0u8 } else { 0 }) ^ (if (q >> 1u8) & 1 == 1 { p << 1u8 } else { 0 })
        ^ (if (q >> 2u8) & 1 == 1 { p << 2u8 } else { 0 }) ^ (if (q >> 3u8) & 1 == 1 {
        p << 3u8
    } else {
        0
    })
}

/// The reduction steps add `px` shifted by the quotient bits; `q` collects those bits.
proof fn lemma_nibble_reduce_adds_multiple(px: u8, a: u8, b: u8, q: u8)
    by (bit_vector)
    requires
        px >> 4u8 == 1,
        a < 16,
        b < 16,
        q == (((clmul4(a, b) >> 6u8) & 1) << 2u8) | (((nibble_reduce_step(px, clmul4(a, b), 6) >> 5u8) & 1)
            << 1u8) | ((nibble_reduce_step(px, nibble_reduce_step(px, clmul4(a, b), 6), 5) >> 4u8) & 1),
    ensures
        clmul4_by(q, px) ^ gf16_mul(px, a, b) == clmul4(a, b),
        gf16_mul(px, a, b) < 16,
{
}

/// `gf16_mul(px, a, b)` is the remainder of the polynomial product of the nibbles `a`
/// and `b` on division by `px`, a polynomial of degree 4: the product is `q * px` plus
/// that remainder for some polynomial `q`, and the remainder has degree below 4.
pub proof fn lemma_gf16_mul_is_remainder(px: u8, a: u8, b: u8)
    requires
        px >> 4u8 == 1,
        a < 16,
        b < 16,
    ensures
        gf16_mul(px, a, b) < 16,
        exists|q: u8| #[trigger] clmul4_by(q, px) ^ gf16_mul(px, a, b) == clmul4(a, b),
{
    let v = clmul4(a, b);
    let v5 = nibble_reduce_step(px, v, 6);
    let v4 = nibble_reduce_step(px, v5, 5);
    let q = (((v >> 6u8) & 1) << 2u8) | (((v5 >> 5u8) & 1) << 1u8) | ((v4 >> 4u8) & 1);
    lemma_nibble_reduce_adds_multiple(px, a, b, q);
}

/// Reduces a polynomial of degree at most 6 modulo `PX`.
fn nibble_reduce<const PX: u8>(byte: u8) -> (r: u8)
    ensures
        r == poly_reduce4(PX, byte),
{
    let ghost v0 = byte;
    let mut byte = byte;
    let mut i: u8 = 7;
    while i > 4
        invariant
            4 <= i <= 7,
            byte == nibble_reduce_from(PX, v0, i),
        decreases i,
    {
        i -= 1;
        if (byte >> i) & 1 == 1 {
            byte ^= PX << (i - 4);
        }
    }
    proof {
        reveal_with_fuel(nibble_reduce_from, 4);
    }
    byte
}

/// Multiplies two nibbles in the field GF(2)[x] / (PX).
pub fn nibble_mult<const PX: u8>(a: u8, b: u8) -> (r: u8)
    requires
        a >> 4 == 0,
        b >> 4 == 0,
    ensures
        r == gf16_mul(PX, a, b),
{
    let mut result = 0u8;
    let mut i: u8 = 0;
    proof {
        lemma_nibble_facts(PX, a, b, 0, 0);
    }
    while i < 4
        invariant
            i <= 4,
            b >> 4 == 0,
            result == clmul4(a, low_bits(b, i)),
        decreases 4 - i,
    {
        proof {
            lemma_nibble_facts(PX, a, b, 0, i);
        }
        if (b >> i) & 1 == 1 {
            result ^= a << i;
        }
        i += 1;
    }
    proof {
        lemma_nibble_facts(PX, a, b, 0, 0);
    }
    nibble_reduce::<PX>(result)
}

/// Squares a nibble in the field GF(2)[x] / (PX).
pub fn nibble_square<const PX: u8>(nibble: u8) -> (r: u8)
    requires
        nibble >> 4 == 0,
    ensures
        r == gf16_mul(PX, nibble, nibble),
{
    let mut result = 0u8;
    let mut i: u8 = 0;
    proof {
        lemma_spread4(nibble, 0);
        lemma_nibble_facts(PX, nibble, nibble, 0, 0);
    }
    // Square using the Frobenius automorphism, `(x + y)^2 = x^2 + y^2`:
    // `(x^n)^2 = x^2n`, which doubles the place value of each bit.
    while i < 4
        invariant
            i <= 4,
            result == spread4(low_bits(nibble, i)),
        decreases 4 - i,
    {
        proof {
            lemma_spread4(nibble, i);
        }
        result |= (nibble & (1 << i)) << i;
        i += 1;
    }
    proof {
        lemma_nibble_facts(PX, nibble, nibble, 0, 0);
        lemma_spread4(nibble, 0);
    }
    nibble_reduce::<PX>(result)
}

/// Multiplies the two nibbles of two bytes pairwise; the two halves of the result are
/// exchanged.
pub fn nibble_mult_byte<const PX: u8>(a: u8, b: u8) -> (r: u8)
    ensures
        r == nibble_mul_byte(PX, a, b),
{
    proof {
        lemma_nibble_facts(PX, a, 0, 0, 0);
        lemma_nibble_facts(PX, b, 0, 0, 0);
    }
    (nibble_mult::<PX>(a & 0b1111, b & 0b1111) << 4) ^ nibble_mult::<PX>(a >> 4, b >> 4)
}

/// Squares the two nibbles of a byte; the two halves of the result are exchanged.
pub fn nibble_square_byte<const PX: u8>(b: u8) -> (r: u8)
    ensures
        r == nibble_mul_byte(PX, b, b),
{
    proof {
        lemma_nibble_facts(PX, b, 0, 0, 0);
    }
    (nibble_square::<PX>(b & 0b1111) << 4) ^ nibble_square::<PX>(b >> 4)
}

/// The bytewise nibble product of two words.
pub open spec fn nibble_mul_bytes(px: u8, a: u128, b: u128) -> spec_fn(int) -> u8 {
    |k: int| nibble_mul_byte(px, byte_at(a, k), byte_at(b, k))
}

/// Multiplies the nibbles of two words pairwise (halves of each byte exchanged).
pub fn nibble_mult_u128<const PX: u8>(a: u128, b: u128) -> (r: u128)
    ensures
        r == pack(nibble_mul_bytes(PX, a, b), 16),
{
    let mut result: u128 = 0;
    let mut k: u32 = 0;
    while k < 16
        invariant
            k <= 16,
            result == pack(nibble_mul_bytes(PX, a, b), k as nat),
        decreases 16 - k,
    {
        let m = nibble_mult_byte::<PX>(get_byte(a, k), get_byte(b, k));
        result |= (m as u128) << (8 * k);
        k += 1;
    }
    result
}

/// Squares the nibbles of a word (halves of each byte exchanged).
pub fn nibble_square_u128<const PX: u8>(share: u128) -> (r: u128)
    ensures
        r == pack(nibble_mul_bytes(PX, share, share), 16),
{
    let mut result: u128 = 0;
    let mut k: u32 = 0;
    while k < 16
        invariant
            k <= 16,
            result == pack(nibble_mul_bytes(PX, share, share), k as nat),
        decreases 16 - k,
    {
        let m = nibble_square_byte::<PX>(get_byte(share, k));
        result |= (m as u128) << (8 * k);
        k += 1;
    }
    result
}

} // verus!
