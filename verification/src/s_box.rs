//! The masked S-box. A byte is a pair of nibbles `(h, l)` in GF(2^4), with the
//! polynomial `x^4 + x^3 + 1`; the S-box maps it to `(h^2 l, l^2 h)`, computed with
//! one nibblewise squaring (linear, share by share) and one masked multiplication.
use crate::bytes::{byte_at, get_byte, lemma_bytes_eq, lemma_pack, lemma_pack_ext, lemma_zero_bytes, pack};
use crate::masking::nibble_ops::{gf16_mul, nibble_mul_byte, PICARO_S_BOX};
use crate::masking::share_nibble_ops::{
    draw_byte_table, nibble_masked_product, nibble_squared, share_nibble_mult_with_table, share_nibble_square,
};
use crate::masking::{
    lemma_byte_of_secret, lemma_byte_of_xsum, lemma_xsum_zero, seq_fn, xor_all, xor_all8,
};
use rand_chacha::ChaCha20Rng;
use vstd::prelude::*;

verus! {

/// The S-box on one byte.
pub open spec fn s_box_byte_spec(b: u8) -> u8 {
    nibble_mul_byte(PICARO_S_BOX, nibble_mul_byte(PICARO_S_BOX, b, b), b)
}

/// The S-box applied to each of the 14 bytes of a 112-bit state.
pub open spec fn s_box_spec(x: u128) -> u128 {
    pack(|k: int| s_box_byte_spec(byte_at(x, k)), 14)
}

/// The S-box in terms of the nibble field GF(2)[x]/(x^4 + x^3 + 1): a byte with high
/// nibble `h` and low nibble `l` goes to the byte with high nibble `h^2 l` and low
/// nibble `l^2 h`.
pub proof fn lemma_s_box_byte_nibbles(b: u8)
    by (bit_vector)
    ensures
        s_box_byte_spec(b) == (gf16_mul(0b11001u8, gf16_mul(0b11001u8, b >> 4u8, b >> 4u8), b & 0xFu8) << 4u8) | gf16_mul(
            0b11001u8,
            gf16_mul(0b11001u8, b & 0xFu8, b & 0xFu8),
            b >> 4u8,
        ),
{
}

/// The S-box of a state works on each of its 14 bytes alone, and the two top bytes
/// of the result are zero.
pub proof fn lemma_s_box_bytewise(x: u128)
    ensures
        forall|k: int| 0 <= k < 14 ==> #[trigger] byte_at(s_box_spec(x), k) == s_box_byte_spec(byte_at(x, k)),
        byte_at(s_box_spec(x), 14) == 0,
        byte_at(s_box_spec(x), 15) == 0,
{
    lemma_pack(|k: int| s_box_byte_spec(byte_at(x, k)), 14);
}

/// The bytes `k` of all shares.
pub open spec fn column(s: Seq<u128>, k: int) -> Seq<u8> {
    Seq::new(s.len(), |i: int| byte_at(s[i], k))
}

/// The shares that the masked byte S-box makes of `shares` with the random bytes
/// `upper` of its multiplication table.
pub open spec fn s_box_byte_shares<const N: usize>(shares: Seq<u8>, upper: [[u8; N]; N]) -> Seq<u8> {
    nibble_masked_product(PICARO_S_BOX, nibble_squared(PICARO_S_BOX, shares), shares, upper)
}

/// The S-box on a masked byte, with the random bytes `upper` of its multiplication
/// table.
pub fn s_box_byte_with<const N: usize>(shares: [u8; N], upper: [[u8; N]; N]) -> (r: [u8; N])
    ensures
        r@ == s_box_byte_shares(shares@, upper),
        xor_all8(r@) == s_box_byte_spec(xor_all8(shares@)),
{
    let square = share_nibble_square::<PICARO_S_BOX, N>(shares);
    share_nibble_mult_with_table::<PICARO_S_BOX, N>(square, shares, upper)
}

/// The S-box on a masked byte.
pub fn s_box_byte<const N: usize>(shares: [u8; N], rng: &mut ChaCha20Rng) -> (r: [u8; N])
    ensures
        xor_all8(r@) == s_box_byte_spec(xor_all8(shares@)),
{
    let upper = draw_byte_table::<N>(rng);
    s_box_byte_with(shares, upper)
}

/// The S-box on a masked 112-bit state: each of its 14 bytes goes through the
/// masked byte S-box.
pub fn s_box<const N: usize>(state: [u128; N], rng: &mut ChaCha20Rng) -> (r: [u128; N])
    ensures
        forall|i: int| 0 <= i < N ==> #[trigger] r@[i] >> 112 == 0,
        xor_all(r@) == s_box_spec(xor_all(state@)),
{
    let mut tables = [[[0u8; N]; N]; 14];
    let mut k: usize = 0;
    while k < 14
        decreases 14 - k,
    {
        tables[k] = draw_byte_table::<N>(rng);
        k += 1;
    }
    s_box_with(state, tables)
}

/// The S-box on a masked 112-bit state with the random bytes `tables[k]` for byte `k`:
/// byte `k` of share `i` is share `i` of the masked byte S-box of the bytes `k` of all
/// shares.
pub fn s_box_with<const N: usize>(state: [u128; N], tables: [[[u8; N]; N]; 14]) -> (r: [u128; N])
    ensures
        forall|i: int|
            0 <= i < N ==> #[trigger] r@[i] == pack(|k: int| s_box_byte_shares(column(state@, k), tables[k])[i], 14),
        forall|i: int| 0 <= i < N ==> #[trigger] r@[i] >> 112 == 0,
        xor_all(r@) == s_box_spec(xor_all(state@)),
{
    let mut result = [0u128; N];
    let ghost mut outs: Seq<Seq<u8>> = Seq::empty();
    let mut k: u32 = 0;
    while k < 14
        invariant
            k <= 14,
            outs.len() == k,
            forall|kk: int| 0 <= kk < k ==> #[trigger] outs[kk].len() == N,
            forall|kk: int|
                0 <= kk < k ==> xor_all8(#[trigger] outs[kk]) == s_box_byte_spec(
                    xor_all8(column(state@, kk)),
                ),
            forall|kk: int| 0 <= kk < k ==> #[trigger] outs[kk] == s_box_byte_shares(column(state@, kk), tables[kk]),
            forall|i: int| 0 <= i < N ==> #[trigger] result@[i] == pack(|kk: int| outs[kk][i], k as nat),
        decreases 14 - k,
    {
        let mut col = [0u8; N];
        let mut i: usize = 0;
        while i < N
            invariant
                k < 14,
                i <= N,
                forall|j: int| 0 <= j < i ==> #[trigger] col@[j] == byte_at(state@[j], k as int),
            decreases N - i,
        {
            col[i] = get_byte(state[i], k);
            i += 1;
        }
        assert(col@ == column(state@, k as int));
        let out = s_box_byte_with(col, tables[k as usize]);
        let ghost before = result@;
        let ghost new_outs = outs.push(out@);
        let mut i: usize = 0;
        while i < N
            invariant
                k < 14,
                i <= N,
                new_outs == outs.push(out@),
                outs.len() == k,
                out@.len() == N,
                forall|j: int| 0 <= j < i ==> #[trigger] result@[j] == pack(|kk: int| new_outs[kk][j], (k + 1) as nat),
                forall|j: int| i <= j < N ==> #[trigger] result@[j] == before[j],
                forall|j: int| 0 <= j < N ==> #[trigger] before[j] == pack(|kk: int| outs[kk][j], k as nat),
            decreases N - i,
        {
            proof {
                lemma_pack_ext(|kk: int| outs[kk][i as int], |kk: int| new_outs[kk][i as int], k as nat);
            }
            result[i] |= (out[i] as u128) << (8 * k);
            i += 1;
        }
        proof {
            outs = new_outs;
        }
        k += 1;
    }
    proof {
        let x = xor_all(state@);
        let y = xor_all(result@);
        assert forall|i: int| 0 <= i < N implies #[trigger] result@[i] >> 112 == 0 by {
            lemma_pack(|kk: int| outs[kk][i], 14);
        }
        assert forall|i: int| 0 <= i < N implies #[trigger] result@[i] == pack(
            |k: int| s_box_byte_shares(column(state@, k), tables[k])[i],
            14,
        ) by {
            lemma_pack_ext(|kk: int| outs[kk][i], |k: int| s_box_byte_shares(column(state@, k), tables[k])[i], 14);
        }
        lemma_pack(|k: int| s_box_byte_spec(byte_at(x, k)), 14);
        assert forall|kk: int| 0 <= kk < 16 implies #[trigger] byte_at(y, kk) == byte_at(s_box_spec(x), kk) by {
            lemma_byte_of_xsum(seq_fn(result@), N as nat, kk);
            assert forall|i: int| 0 <= i < N implies #[trigger] byte_at(result@[i], kk) == (if kk < 14 { outs[kk][i] } else { 0 }) by {
                lemma_pack(|j: int| outs[j][i], 14);
            }
            if kk < 14 {
                lemma_byte_of_secret(state@, kk);
                lemma_byte_of_secret(result@, kk);
                assert(column(result@, kk) =~= outs[kk]);
            } else {
                lemma_zero_bytes(kk);
                lemma_xsum_zero(|i: int| byte_at(seq_fn(result@)(i), kk) as u128, N as nat);
            }
        }
        lemma_bytes_eq(y, s_box_spec(x));
    }
    result
}

} // verus!
