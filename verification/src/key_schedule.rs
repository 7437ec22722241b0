//! The key schedule: 112-bit round keys derived from the 128-bit main key.
use crate::masking::lemma_xor_laws;
use vstd::prelude::*;

verus! {

/// The amount to shift for a given round, starting from round 1.
pub const OMEGA: [u32; 11] = [1, 16, 17, 32, 33, 85, 86, 101, 102, 117, 118];

/// Rotation of a 128-bit word `n` places to the right, for `0 < n < 128`: the low `n`
/// bits move to the top. The two parts do not overlap, so their exclusive or is their
/// union.
pub open spec fn rotr128(x: u128, n: u32) -> u128 {
    (x >> n) ^ (x << ((128 - n) as u32))
}

/// The four 32-bit words of `x`, most significant first.
pub open spec fn word(x: u128, k: int) -> u32 {
    (x >> ((96 - 32 * k) as u32)) as u32
}

/// The word made of four 32-bit words, most significant first.
pub open spec fn combine(w0: u32, w1: u32, w2: u32, w3: u32) -> u128 {
    ((w0 as u128) << 96u32) | ((w1 as u128) << 64u32) | ((w2 as u128) << 32u32) | (w3 as u128)
}

/// The map T: the vector of the four 32-bit words, seen over GF(2)^32, multiplied by the
/// four-by-four matrix with zero diagonal and ones elsewhere; each word becomes the
/// sum (exclusive or) of the three others.
pub open spec fn t_spec(x: u128) -> u128 {
    let (w0, w1, w2, w3) = (word(x, 0), word(x, 1), word(x, 2), word(x, 3));
    combine(w1 ^ w2 ^ w3, w0 ^ w2 ^ w3, w0 ^ w1 ^ w3, w0 ^ w1 ^ w2)
}

/// The 128-bit key of a round.
pub open spec fn extended_key_spec(round: u8, main_key: u128) -> u128 {
    if round == 0 {
        main_key
    } else if round % 2 == 0 {
        rotr128(t_spec(main_key), OMEGA[round - 1])
    } else {
        rotr128(main_key, OMEGA[round - 1])
    }
}

/// The 112-bit key of a round: the extended key without its low 16 bits.
pub open spec fn round_key_spec(round: u8, main_key: u128) -> u128 {
    extended_key_spec(round, main_key) >> 16u32
}

#[verifier::rlimit(100)]
proof fn lemma_shift_linear(a: u128, b: u128, n: u32)
    by (bit_vector)
    requires
        n < 128,
    ensures
        (a ^ b) >> n == (a >> n) ^ (b >> n),
        (a ^ b) << n == (a << n) ^ (b << n),
        (0u128 >> n) == 0,
        (0u128 << n) == 0,
{
}

proof fn lemma_rotr_linear(a: u128, b: u128, n: u32)
    requires
        0 < n < 128,
    ensures
        rotr128(a ^ b, n) == rotr128(a, n) ^ rotr128(b, n),
        rotr128(0, n) == 0,
{
    let m = (128 - n) as u32;
    lemma_shift_linear(a, b, n);
    lemma_shift_linear(a, b, m);
    lemma_xor_laws(a >> n, b >> n, a << m, b << m);
    lemma_xor_laws(0, 0, 0, 0);
}

/// T is linear over GF(2): `T(a ^ b) == T(a) ^ T(b)`, so each share of a masked key can
/// be mapped on its own. Dropping the low 16 bits is linear too and leaves at most 112 bits.
pub proof fn lemma_t_linear(a: u128, b: u128)
    by (bit_vector)
    ensures
        t_spec(a ^ b) == t_spec(a) ^ t_spec(b),
        t_spec(0) == 0,
        (a ^ b) >> 16u32 == (a >> 16u32) ^ (b >> 16u32),
        (a >> 16u32) >> 112u32 == 0,
        (0u128 >> 16u32) == 0,
{
}

/// Round keys are linear in the main key, so each key share can be scheduled on its
/// own. They have at most 112 bits.
pub proof fn lemma_round_key_linear(round: u8, a: u128, b: u128)
    requires
        round < 12,
    ensures
        round_key_spec(round, a ^ b) == round_key_spec(round, a) ^ round_key_spec(round, b),
        round_key_spec(round, 0) == 0,
        round_key_spec(round, a) >> 112u32 == 0,
{
    let n = if round == 0 { 1 } else { OMEGA[round - 1] };
    lemma_rotr_linear(a, b, n);
    lemma_rotr_linear(t_spec(a), t_spec(b), n);
    lemma_t_linear(a, b);
    lemma_t_linear(extended_key_spec(round, a), extended_key_spec(round, b));
    lemma_t_linear(extended_key_spec(round, a), 0);
}

/// The round keys straight from the main key: round 0 drops the low 16 bits of the
/// key; an odd round rotates the key itself right by `OMEGA[round - 1]` places, with no
/// T; an even round rotates T of the key.
pub proof fn lemma_round_keys(round: u8, k: u128)
    requires
        round < 12,
    ensures
        round == 0 ==> round_key_spec(round, k) == k >> 16u32,
        round % 2 == 1 ==> round_key_spec(round, k) == ((k >> OMEGA[round - 1]) | (k << ((128 - OMEGA[round - 1]) as u32))) >> 16u32,
        round != 0 && round % 2 == 0 ==> round_key_spec(round, k) == ((t_spec(k) >> OMEGA[round - 1]) | (t_spec(k) << ((
        128 - OMEGA[round - 1]) as u32))) >> 16u32,
{
    if round > 0 {
        lemma_rotation_parts_disjoint(k, OMEGA[round - 1]);
        lemma_rotation_parts_disjoint(t_spec(k), OMEGA[round - 1]);
    }
}

/// T maps each 32-bit word to the sum of the other three, and is its own inverse.
pub proof fn lemma_t_words(x: u128)
    by (bit_vector)
    ensures
        word(t_spec(x), 0) == word(x, 1) ^ word(x, 2) ^ word(x, 3),
        word(t_spec(x), 1) == word(x, 0) ^ word(x, 2) ^ word(x, 3),
        word(t_spec(x), 2) == word(x, 0) ^ word(x, 1) ^ word(x, 3),
        word(t_spec(x), 3) == word(x, 0) ^ word(x, 1) ^ word(x, 2),
        t_spec(t_spec(x)) == x,
{
}

/// Creates a 112-bit round key from the main key.
pub fn round_key(round: u8, main_key: u128) -> (r: u128)
    requires
        round < 12,
    ensures
        r == round_key_spec(round, main_key),
{
    extended_key(round, main_key) >> 16u32
}

fn rotate_right(x: u128, n: u32) -> (r: u128)
    requires
        0 < n < 128,
    ensures
        r == rotr128(x, n),
{
    proof {
        lemma_rotation_parts_disjoint(x, n);
    }
    (x >> n) | (x << (128 - n))
}

proof fn lemma_rotation_parts_disjoint(x: u128, n: u32)
    by (bit_vector)
    requires
        0 < n < 128,
    ensures
        (x >> n) | (x << ((128 - n) as u32)) == (x >> n) ^ (x << ((128 - n) as u32)),
{
}

/// Creates a 128-bit round key from the main key.
fn extended_key(round: u8, main_key: u128) -> (r: u128)
    requires
        round < 12,
    ensures
        r == extended_key_spec(round, main_key),
{
    if round == 0 {
        main_key
    } else if round % 2 == 0 {
        rotate_right(t(main_key), OMEGA[(round - 1) as usize])
    } else {
        rotate_right(main_key, OMEGA[(round - 1) as usize])
    }
}

/// Calculates the function T from the given main key.
///
/// T is defined by splitting the main key into four 32-bit numbers, forming a vector
/// of length four. This vector is multiplied by an inverted four-by-four identity
/// matrix, over GF(2), where addition is exclusive or.
fn t(main_key: u128) -> (r: u128)
    ensures
        r == t_spec(main_key),
{
    let split = split_u128_to_u32(main_key);
    let total: u32 = split[0] ^ split[1] ^ split[2] ^ split[3];
    proof {
        lemma_total_minus_word(split[0], split[1], split[2], split[3]);
    }
    combine_u32_to_u128([total ^ split[0], total ^ split[1], total ^ split[2], total ^ split[3]])
}

proof fn lemma_total_minus_word(w0: u32, w1: u32, w2: u32, w3: u32)
    by (bit_vector)
    ensures
        (w0 ^ w1 ^ w2 ^ w3) ^ w0 == w1 ^ w2 ^ w3,
        (w0 ^ w1 ^ w2 ^ w3) ^ w1 == w0 ^ w2 ^ w3,
        (w0 ^ w1 ^ w2 ^ w3) ^ w2 == w0 ^ w1 ^ w3,
        (w0 ^ w1 ^ w2 ^ w3) ^ w3 == w0 ^ w1 ^ w2,
{
}

/// Splitting a word into its four 32-bit words and combining them gives the word back.
pub proof fn lemma_combine_words(x: u128)
    by (bit_vector)
    ensures
        combine(word(x, 0), word(x, 1), word(x, 2), word(x, 3)) == x,
{
}

/// The four 32-bit words of a 128-bit word, most significant first.
fn split_u128_to_u32(x: u128) -> (r: [u32; 4])
    ensures
        r@ == seq![word(x, 0), word(x, 1), word(x, 2), word(x, 3)],
{
    [(x >> 96u32) as u32, (x >> 64u32) as u32, (x >> 32u32) as u32, (x >> 0u32) as u32]
}

/// The 128-bit word made of four 32-bit words, most significant first.
fn combine_u32_to_u128(parts: [u32; 4]) -> (r: u128)
    ensures
        r == combine(parts@[0], parts@[1], parts@[2], parts@[3]),
{
    ((parts[0] as u128) << 96u32) | ((parts[1] as u128) << 64u32) | ((parts[2] as u128) << 32u32)
        | (parts[3] as u128)
}

} // verus!
