//! The AES S-box on masked words, built from the same masked field operations:
//! inversion in GF(2^8) as the power 254, then the affine transformation.
use crate::bytes::{byte_at, get_byte, lemma_byte_xor, lemma_bytes_eq, lemma_pack, lemma_zero_bytes, pack};
use crate::masking::byte_ops::{gf_mul, lemma_mul128_bytes, mul128, AES_S_BOX};
use crate::masking::isw::lemma_xsum_linear;
use crate::masking::share_ops::{
    draw_word_table, masked_product, share_mult_with_table, share_square, square_iter, squared, upper128,
};
use crate::masking::{
    draw_masks, lemma_xor_laws, lemma_xsum_pointwise, lemma_xsum_update, refresh_with, refreshed, seq_fn,
    xor_all, xsum,
};
use rand_chacha::ChaCha20Rng;
use vstd::prelude::*;

verus! {

/// The multiplicative inverse in GF(2^8) with the AES polynomial; zero for zero.
pub open spec fn gf_inverse(a: u8) -> u8 {
    if a == 0 {
        0
    } else {
        choose|b: u8| gf_mul(AES_S_BOX, a, b) == 1
    }
}

/// The bytewise inverse of a word.
pub open spec fn inverse128(x: u128) -> u128 {
    pack(|k: int| gf_inverse(byte_at(x, k)), 16)
}

/// Rotation of a byte `n` places to the left, for `0 < n < 8`.
pub open spec fn rotl8(b: u8, n: u8) -> u8 {
    (b << n) | (b >> ((8 - n) as u8))
}

/// The linear part of the AES affine transformation on a byte.
pub open spec fn affine8(b: u8) -> u8 {
    b ^ rotl8(b, 1) ^ rotl8(b, 2) ^ rotl8(b, 3) ^ rotl8(b, 4)
}

/// The linear part of the AES affine transformation on every byte of a word.
pub open spec fn affine128(x: u128) -> u128 {
    pack(|k: int| affine8(byte_at(x, k)), 16)
}

/// The AES S-box on a byte.
pub open spec fn aes_s_box_byte(b: u8) -> u8 {
    affine8(gf_inverse(b)) ^ 0x63
}

/// The word that the masked AES S-box computes: the affine transformation of the
/// bytewise inverse, with the constant added to the lowest byte.
pub open spec fn aes_s_box_spec(x: u128) -> u128 {
    affine128(inverse128(x)) ^ 0x63
}

/// `a^254` by the addition chain 2, 3, 12, 15, 240, 252, 254 is the inverse of `a`.
#[verifier::rlimit(100)]
proof fn lemma_chain_inverts(
    a: u8,
    z: u8,
    y3: u8,
    w2: u8,
    w: u8,
    y15: u8,
    s1: u8,
    s2: u8,
    s3: u8,
    y240: u8,
    y252: u8,
    r: u8,
)
    by (bit_vector)
    requires
        z == gf_mul(0x11B, a, a),
        y3 == gf_mul(0x11B, z, a),
        w2 == gf_mul(0x11B, y3, y3),
        w == gf_mul(0x11B, w2, w2),
        y15 == gf_mul(0x11B, y3, w),
        s1 == gf_mul(0x11B, y15, y15),
        s2 == gf_mul(0x11B, s1, s1),
        s3 == gf_mul(0x11B, s2, s2),
        y240 == gf_mul(0x11B, s3, s3),
        y252 == gf_mul(0x11B, y240, w),
        r == gf_mul(0x11B, y252, z),
    ensures
        a != 0 ==> gf_mul(0x11B, a, r) == 1,
        a == 0 ==> r == 0,
{
}

/// Inverses are unique.
#[verifier::rlimit(100)]
proof fn lemma_inverse_unique(a: u8, b: u8, c: u8)
    by (bit_vector)
    requires
        gf_mul(0x11B, a, b) == 1,
        gf_mul(0x11B, a, c) == 1,
    ensures
        b == c,
{
}

/// Every nonzero byte has an inverse, and it is the power 254.
pub proof fn lemma_gf_inverse(a: u8)
    ensures
        a != 0 ==> gf_mul(AES_S_BOX, a, gf_inverse(a)) == 1,
{
    let z = gf_mul(0x11B, a, a);
    let y3 = gf_mul(0x11B, z, a);
    let w2 = gf_mul(0x11B, y3, y3);
    let w = gf_mul(0x11B, w2, w2);
    let y15 = gf_mul(0x11B, y3, w);
    let s1 = gf_mul(0x11B, y15, y15);
    let s2 = gf_mul(0x11B, s1, s1);
    let s3 = gf_mul(0x11B, s2, s2);
    let y240 = gf_mul(0x11B, s3, s3);
    let y252 = gf_mul(0x11B, y240, w);
    let r = gf_mul(0x11B, y252, z);
    lemma_chain_inverts(a, z, y3, w2, w, y15, s1, s2, s3, y240, y252, r);
}

/// The masked addition chain computes the bytewise inverse.
proof fn lemma_inversion_chain(x: u128)
    ensures
        ({
            let z = square_iter(0x11B, x, 1);
            let y3 = mul128(0x11B, z, x);
            let w = square_iter(0x11B, y3, 2);
            let y15 = mul128(0x11B, y3, w);
            let y240 = square_iter(0x11B, y15, 4);
            let y252 = mul128(0x11B, y240, w);
            mul128(0x11B, y252, z) == inverse128(x)
        }),
{
    reveal_with_fuel(square_iter, 5);
    let z = square_iter(0x11B, x, 1);
    let y3 = mul128(0x11B, z, x);
    let w2 = mul128(0x11B, y3, y3);
    let w = square_iter(0x11B, y3, 2);
    let y15 = mul128(0x11B, y3, w);
    let s1 = mul128(0x11B, y15, y15);
    let s2 = mul128(0x11B, s1, s1);
    let s3 = mul128(0x11B, s2, s2);
    let y240 = square_iter(0x11B, y15, 4);
    let y252 = mul128(0x11B, y240, w);
    let r = mul128(0x11B, y252, z);
    lemma_mul128_bytes(0x11B, x, x);
    lemma_mul128_bytes(0x11B, z, x);
    lemma_mul128_bytes(0x11B, y3, y3);
    lemma_mul128_bytes(0x11B, w2, w2);
    lemma_mul128_bytes(0x11B, y3, w);
    lemma_mul128_bytes(0x11B, y15, y15);
    lemma_mul128_bytes(0x11B, s1, s1);
    lemma_mul128_bytes(0x11B, s2, s2);
    lemma_mul128_bytes(0x11B, s3, s3);
    lemma_mul128_bytes(0x11B, y240, w);
    lemma_mul128_bytes(0x11B, y252, z);
    lemma_pack(|k: int| gf_inverse(byte_at(x, k)), 16);
    assert forall|k: int| 0 <= k < 16 implies #[trigger] byte_at(r, k) == byte_at(inverse128(x), k) by {
        let a = byte_at(x, k);
        lemma_chain_inverts(
            a,
            byte_at(z, k),
            byte_at(y3, k),
            byte_at(w2, k),
            byte_at(w, k),
            byte_at(y15, k),
            byte_at(s1, k),
            byte_at(s2, k),
            byte_at(s3, k),
            byte_at(y240, k),
            byte_at(y252, k),
            byte_at(r, k),
        );
        if a != 0 {
            lemma_gf_inverse(a);
            lemma_inverse_unique(a, byte_at(r, k), gf_inverse(a));
        }
    }
    lemma_bytes_eq(r, inverse128(x));
}

/// The shares that the inversion chain makes of `x`, with `masks[0]` and `masks[1]`
/// refreshing `x^2` and `x^12`, and `tables[k]` the random words of the `k`-th masked
/// multiplication.
pub open spec fn inversion_shares<const N: usize>(
    x: Seq<u128>,
    masks: [[u128; N]; 2],
    tables: [[[u128; N]; N]; 4],
) -> Seq<u128> {
    let z = refreshed(squared(AES_S_BOX, x, 1), masks[0]@);
    let y3 = masked_product(AES_S_BOX, z, x, upper128(tables[0]));
    let w = refreshed(squared(AES_S_BOX, y3, 2), masks[1]@);
    let y15 = masked_product(AES_S_BOX, y3, w, upper128(tables[1]));
    let y240 = squared(AES_S_BOX, y15, 4);
    let y252 = masked_product(AES_S_BOX, y240, w, upper128(tables[2]));
    masked_product(AES_S_BOX, y252, z, upper128(tables[3]))
}

/// Inverts every byte of a masked word in GF(2^8), as the power 254, with the given
/// refresh masks and multiplication tables (see `inversion_shares`).
pub fn aes_inversion_with<const N: usize>(
    x: [u128; N],
    masks: [[u128; N]; 2],
    tables: [[[u128; N]; N]; 4],
) -> (r: [u128; N])
    ensures
        r@ == inversion_shares(x@, masks, tables),
        xor_all(r@) == inverse128(xor_all(x@)),
{
    let mut z = share_square::<AES_S_BOX, N>(x, 1);  // XOR of z = x^2
    refresh_with(&mut z, masks[0]);
    let mut y = share_mult_with_table::<AES_S_BOX, N>(z, x, tables[0]);  // XOR of y = x^3
    let mut w = share_square::<AES_S_BOX, N>(y, 2);  // XOR of w = x^12
    refresh_with(&mut w, masks[1]);
    y = share_mult_with_table::<AES_S_BOX, N>(y, w, tables[1]);  // XOR of y = x^15
    y = share_square::<AES_S_BOX, N>(y, 4);  // XOR of y = x^240
    y = share_mult_with_table::<AES_S_BOX, N>(y, w, tables[2]);  // XOR of y = x^252
    let r = share_mult_with_table::<AES_S_BOX, N>(y, z, tables[3]);  // XOR of y = x^254
    proof {
        lemma_inversion_chain(xor_all(x@));
    }
    r
}

/// Inverts every byte of a masked word in GF(2^8), as the power 254. The random words
/// are drawn in the order in which the chain uses them.
pub fn aes_inversion<const N: usize>(x: [u128; N], rng: &mut ChaCha20Rng) -> (r: [u128; N])
    ensures
        xor_all(r@) == inverse128(xor_all(x@)),
{
    let (masks, tables) = draw_inversion_randomness::<N>(rng);
    aes_inversion_with(x, masks, tables)
}

/// The random words of one inversion, in the order in which the chain uses them:
/// the first refresh, the first table, the second refresh, then three tables.
fn draw_inversion_randomness<const N: usize>(rng: &mut ChaCha20Rng) -> (r: ([[u128; N]; 2], [[[u128; N]; N]; 4])) {
    let mut masks = [[0u128; N]; 2];
    let mut tables = [[[0u128; N]; N]; 4];
    masks[0] = draw_masks::<N>(rng);
    tables[0] = draw_word_table::<N>(rng);
    masks[1] = draw_masks::<N>(rng);
    tables[1] = draw_word_table::<N>(rng);
    tables[2] = draw_word_table::<N>(rng);
    tables[3] = draw_word_table::<N>(rng);
    (masks, tables)
}

/// The linear part of the affine transformation is linear.
proof fn lemma_affine8_linear(a: u8, b: u8)
    by (bit_vector)
    ensures
        affine8(a ^ b) == affine8(a) ^ affine8(b),
        affine8(0) == 0,
        ((a << 1u8) | (a >> 7u8)) == rotl8(a, 1),
        ((a << 2u8) | (a >> 6u8)) == rotl8(a, 2),
        ((a << 3u8) | (a >> 5u8)) == rotl8(a, 3),
        ((a << 4u8) | (a >> 4u8)) == rotl8(a, 4),
{
}

/// The linear part of the affine transformation on words is linear.
proof fn lemma_affine128_linear(a: u128, b: u128)
    ensures
        affine128(a ^ b) == affine128(a) ^ affine128(b),
        affine128(0) == 0,
{
    lemma_pack(|k: int| affine8(byte_at(a ^ b, k)), 16);
    lemma_pack(|k: int| affine8(byte_at(a, k)), 16);
    lemma_pack(|k: int| affine8(byte_at(b, k)), 16);
    lemma_pack(|k: int| affine8(byte_at(0, k)), 16);
    assert forall|k: int| 0 <= k < 16 implies #[trigger] byte_at(affine128(a ^ b), k) == byte_at(
        affine128(a) ^ affine128(b),
        k,
    ) by {
        lemma_byte_xor(a, b, k);
        lemma_byte_xor(affine128(a), affine128(b), k);
        lemma_affine8_linear(byte_at(a, k), byte_at(b, k));
    }
    assert forall|k: int| 0 <= k < 16 implies #[trigger] byte_at(affine128(0), k) == byte_at(0, k) by {
        lemma_zero_bytes(k);
        lemma_affine8_linear(0, 0);
    }
    lemma_bytes_eq(affine128(a ^ b), affine128(a) ^ affine128(b));
    lemma_bytes_eq(affine128(0), 0);
}

/// The sum of `n` copies of `c`.
proof fn lemma_xsum_constant(c: u128, n: nat)
    ensures
        xsum(|i: int| c, n) == (if n % 2 == 1 { c } else { 0 }),
    decreases n,
{
    if n > 0 {
        lemma_xsum_constant(c, (n - 1) as nat);
        lemma_xor_laws(c, 0, 0, 0);
    }
}

/// Applies the affine transformation to every share; each share also gets the
/// constant `0x63` in its lowest byte.
pub fn aes_affine_transformation<const N: usize>(shares: [u128; N]) -> (r: [u128; N])
    ensures
        forall|i: int| 0 <= i < N ==> #[trigger] r@[i] == affine128(shares@[i]) ^ 0x63,
        xor_all(r@) == affine128(xor_all(shares@)) ^ (if N % 2 == 1 { 0x63u128 } else { 0 }),
{
    let mut result = shares;
    let mut i: usize = 0;
    while i < N
        invariant
            i <= N,
            forall|j: int| 0 <= j < i ==> #[trigger] result@[j] == affine128(shares@[j]) ^ 0x63,
            forall|j: int| i <= j < N ==> #[trigger] result@[j] == shares@[j],
        decreases N - i,
    {
        let share = result[i];
        let mut out: u128 = 0;
        let mut k: u32 = 0;
        while k < 16
            invariant
                k <= 16,
                out == pack(|kk: int| affine8(byte_at(share, kk)), k as nat),
            decreases 16 - k,
        {
            let b = get_byte(share, k);
            proof {
                lemma_affine8_linear(b, 0);
            }
            let t = b ^ ((b << 1u8) | (b >> 7u8)) ^ ((b << 2u8) | (b >> 6u8)) ^ ((b << 3u8) | (b >> 5u8))
                ^ ((b << 4u8) | (b >> 4u8));
            out |= (t as u128) << (8 * k);
            k += 1;
        }
        result[i] = out ^ 0x63;
        i += 1;
    }
    proof {
        let n = N as nat;
        let l = |x: u128| affine128(x);
        assert forall|x: u128, y: u128| #[trigger] l(x ^ y) == l(x) ^ l(y) by {
            lemma_affine128_linear(x, y);
        }
        lemma_affine128_linear(0, 0);
        let lin = |j: int| affine128(seq_fn(shares@)(j));
        lemma_xsum_linear(l, seq_fn(shares@), lin, n);
        lemma_xsum_pointwise(lin, |j: int| 0x63u128, seq_fn(result@), n);
        lemma_xsum_constant(0x63, n);
    }
    result
}

/// The shares that the masked AES S-box makes of `x` with the given randomness: the
/// affine transformation of each share of the inverse, plus `0x63`, and `0x63` once more
/// on share 0 when `N` is even.
pub open spec fn aes_s_box_shares<const N: usize>(
    x: Seq<u128>,
    masks: [[u128; N]; 2],
    tables: [[[u128; N]; N]; 4],
) -> Seq<u128> {
    let inv = inversion_shares(x, masks, tables);
    let aff = Seq::new(inv.len(), |i: int| affine128(inv[i]) ^ 0x63);
    if (N - 1) % 2 == 1 {
        aff.update(0, aff[0] ^ 0x63)
    } else {
        aff
    }
}

/// The AES S-box on a masked word with the given randomness (see `aes_s_box_shares`).
pub fn aes_s_box_with<const N: usize>(
    shares: [u128; N],
    masks: [[u128; N]; 2],
    tables: [[[u128; N]; N]; 4],
) -> (r: [u128; N])
    requires
        N >= 1,
    ensures
        r@ == aes_s_box_shares(shares@, masks, tables),
        xor_all(r@) == aes_s_box_spec(xor_all(shares@)),
{
    let ghost x = xor_all(shares@);
    let inverted = aes_inversion_with(shares, masks, tables);
    let mut result = aes_affine_transformation(inverted);
    let ghost a = affine128(inverse128(x));
    let ghost before = result@;
    let ghost inv = inversion_shares(shares@, masks, tables);
    proof {
        lemma_xor_laws(a, 0, 0, 0);
        assert(before =~= Seq::new(inv.len(), |i: int| affine128(inv[i]) ^ 0x63));
    }

    // The constant is added once per share; add it once more when that count is even.
    if (N - 1) % 2 == 1 {
        result[0] ^= 0x63;
        proof {
            lemma_xsum_update(seq_fn(before), seq_fn(result@), N as nat, 0, 0x63);
            assert(result@ =~= before.update(0, before[0] ^ 0x63));
        }
    }
    result
}

/// The AES S-box applied to the lowest byte of a masked word: inversion followed by
/// the affine transformation. With `N` shares the masking level is `N - 1`.
pub fn aes_s_box<const N: usize>(shares: [u128; N], rng: &mut ChaCha20Rng) -> (r: [u128; N])
    requires
        N >= 1,
    ensures
        xor_all(r@) == aes_s_box_spec(xor_all(shares@)),
{
    let (masks, tables) = draw_inversion_randomness::<N>(rng);
    aes_s_box_with(shares, masks, tables)
}

/// The linear part of the AES affine transformation as a matrix over GF(2): bit `i` of
/// the result is the sum of bits `i`, `i + 4`, `i + 5`, `i + 6` and `i + 7` (modulo 8) of
/// the input.
pub proof fn lemma_affine8_bits(b: u8, i: u8)
    by (bit_vector)
    requires
        i < 8,
    ensures
        (affine8(b) >> i) & 1 == ((b >> i) ^ (b >> ((i + 4) % 8)) ^ (b >> ((i + 5) % 8)) ^ (b >> ((i + 6) % 8)) ^ (b >> ((
        i + 7) % 8))) & 1,
{
}

proof fn lemma_constant_bytes(s: u32)
    by (bit_vector)
    requires
        s < 128,
    ensures
        s >= 8 ==> ((0x63u128 >> s) as u8) == 0,
        ((0x63u128 >> 0u32) as u8) == 0x63,
{
}

/// The affine transformation works on each of the sixteen bytes alone, and the masked
/// AES S-box word has in byte `k` the affine map of the inverse of byte `k` of the input,
/// with the constant `0x63` added to byte 0 only.
pub proof fn lemma_affine_bytewise(x: u128)
    ensures
        forall|k: int| 0 <= k < 16 ==> #[trigger] byte_at(affine128(x), k) == affine8(byte_at(x, k)),
        forall|k: int|
            0 <= k < 16 ==> #[trigger] byte_at(aes_s_box_spec(x), k) == (if k == 0 {
                affine8(gf_inverse(byte_at(x, 0))) ^ 0x63
            } else {
                affine8(gf_inverse(byte_at(x, k)))
            }),
{
    lemma_pack(|k: int| affine8(byte_at(x, k)), 16);
    lemma_pack(|k: int| gf_inverse(byte_at(x, k)), 16);
    lemma_pack(|k: int| affine8(byte_at(inverse128(x), k)), 16);
    assert forall|k: int| 0 <= k < 16 implies #[trigger] byte_at(aes_s_box_spec(x), k) == (if k == 0 {
        affine8(gf_inverse(byte_at(x, 0))) ^ 0x63
    } else {
        affine8(gf_inverse(byte_at(x, k)))
    }) by {
        lemma_byte_xor(affine128(inverse128(x)), 0x63, k);
        lemma_constant_bytes((8 * k) as u32);
        if k != 0 {
            let v = affine8(gf_inverse(byte_at(x, k)));
            assert(v ^ 0 == v) by (bit_vector);
        }
    }
}

/// The lowest byte of the masked AES S-box result is the AES S-box of the lowest
/// byte of the input.
pub proof fn lemma_aes_s_box_low_byte(x: u128)
    ensures
        byte_at(aes_s_box_spec(x), 0) == aes_s_box_byte(byte_at(x, 0)),
{
    lemma_pack(|k: int| gf_inverse(byte_at(x, k)), 16);
    lemma_pack(|k: int| affine8(byte_at(inverse128(x), k)), 16);
    lemma_byte_xor(affine128(inverse128(x)), 0x63, 0);
    assert(byte_at(0x63, 0) == 0x63) by (bit_vector);
}

} // verus!
