//! The compression of the 112-bit state back to 64 bits with the transposed matrix.
use crate::bytes::{byte_at, get_byte, lemma_byte_xor, lemma_bytes_eq, lemma_pack, lemma_u64_bytes, pack};
use crate::masking::byte_ops::{byte_mult, gf_mul, lemma_gf_mul_laws, PICARO_EC};
use crate::masking::isw::lemma_xsum_linear;
use crate::masking::{lemma_widen_xor, lemma_xor8_laws, lemma_xor_laws, seq_fn, widen64, xor_all, xor_all64};
use vstd::prelude::*;

verus! {

/// The last 6 columns of the matrix G.
pub const G_LAST_SIX: [[u8; 6]; 8] = [
    [0x01, 0x01, 0x0A, 0x01, 0x09, 0x0C],
    [0x05, 0x01, 0x01, 0x0A, 0x01, 0x09],
    [0x06, 0x05, 0x01, 0x01, 0x0A, 0x01],
    [0x0C, 0x06, 0x05, 0x01, 0x01, 0x0A],
    [0x09, 0x0C, 0x06, 0x05, 0x01, 0x01],
    [0x01, 0x09, 0x0C, 0x06, 0x05, 0x01],
    [0x0A, 0x01, 0x09, 0x0C, 0x06, 0x05],
    [0x01, 0x0A, 0x01, 0x09, 0x0C, 0x06],
];

/// The sum over `c < n` of the parity byte `8 + c` of the state times the entry
/// `(i, c)` of the table.
pub open spec fn compress_sum(state: u128, i: int, n: nat) -> u8
    decreases n,
{
    if n == 0 {
        0
    } else {
        compress_sum(state, i, (n - 1) as nat) ^ gf_mul(PICARO_EC, byte_at(state, 8 + (n - 1)), G_LAST_SIX[i][n - 1])
    }
}

/// The bytes of the compressed word: byte `k` of the low half of the state, plus the
/// combination of the six parity bytes `8 .. 14` by row `k` of the table. This is the
/// transpose of the matrix `G = (I | G_LAST_SIX)` that the expansion applies.
pub open spec fn compression_bytes(state: u128) -> spec_fn(int) -> u8 {
    |k: int| byte_at(state, k) ^ compress_sum(state, k, 6)
}

/// The 64-bit compression of the 112-bit state.
pub open spec fn compression_spec(state: u128) -> u64 {
    pack(compression_bytes(state), 8) as u64
}

proof fn lemma_compress_sum_linear(a: u128, b: u128, i: int, n: nat)
    requires
        n <= 6,
    ensures
        compress_sum(a ^ b, i, n) == compress_sum(a, i, n) ^ compress_sum(b, i, n),
    decreases n,
{
    if n == 0 {
        lemma_xor8_laws(0, 0, 0, 0);
    } else {
        let m = (n - 1) as nat;
        lemma_compress_sum_linear(a, b, i, m);
        let g = G_LAST_SIX[i][m as int];
        let k = 8 + m as int;
        lemma_byte_xor(a, b, k);
        lemma_gf_mul_laws(PICARO_EC, byte_at(a, k), g, byte_at(b, k));
        lemma_xor8_laws(
            compress_sum(a, i, m),
            compress_sum(b, i, m),
            gf_mul(PICARO_EC, byte_at(a, k), g),
            gf_mul(PICARO_EC, byte_at(b, k), g),
        );
    }
}

/// The compression is linear.
pub proof fn lemma_compression_linear(a: u128, b: u128)
    ensures
        compression_spec(a ^ b) == compression_spec(a) ^ compression_spec(b),
{
    let (pa, pb, pab) = (pack(compression_bytes(a), 8), pack(compression_bytes(b), 8), pack(compression_bytes(a ^ b), 8));
    lemma_pack(compression_bytes(a ^ b), 8);
    lemma_pack(compression_bytes(a), 8);
    lemma_pack(compression_bytes(b), 8);
    assert forall|k: int| 0 <= k < 16 implies #[trigger] byte_at(pab, k) == byte_at(pa ^ pb, k) by {
        lemma_byte_xor(pa, pb, k);
        lemma_byte_xor(a, b, k);
        lemma_xor8_laws(0, 0, 0, 0);
        if k < 8 {
            lemma_compress_sum_linear(a, b, k, 6);
            lemma_xor8_laws(byte_at(a, k), byte_at(b, k), compress_sum(a, k, 6), compress_sum(b, k, 6));
        }
    }
    lemma_bytes_eq(pab, pa ^ pb);
    lemma_xor_laws(pa, pb, 0, 0);
}

/// A state without parity bytes compresses to its low half.
pub proof fn lemma_compression_without_parity(x: u128)
    requires
        x >> 64u32 == 0,
    ensures
        compression_spec(x) == x as u64,
{
    let f = compression_bytes(x);
    lemma_pack(f, 8);
    lemma_low_half(x);
    assert forall|k: int| 0 <= k < 16 implies #[trigger] byte_at(pack(f, 8), k) == byte_at(x, k) by {
        lemma_u64_bytes(x as u64, k as u32);
        if k < 8 {
            lemma_compress_sum_zero(x, k, 6);
            lemma_xor8_laws(byte_at(x, k), 0, 0, 0);
        }
    }
    lemma_bytes_eq(pack(f, 8), x);
}

proof fn lemma_low_half(x: u128)
    by (bit_vector)
    requires
        x >> 64u32 == 0,
    ensures
        ((x as u64) as u128) == x,
{
}

proof fn lemma_compress_sum_zero(x: u128, i: int, n: nat)
    requires
        x >> 64u32 == 0,
        ((x as u64) as u128) == x,
        n <= 6,
    ensures
        compress_sum(x, i, n) == 0,
    decreases n,
{
    if n > 0 {
        let m = (n - 1) as nat;
        lemma_compress_sum_zero(x, i, m);
        lemma_u64_bytes(x as u64, (8 + m) as u32);
        lemma_gf_mul_laws(PICARO_EC, 0, G_LAST_SIX[i][m as int], 0);
        lemma_xor8_laws(0, 0, 0, 0);
    }
}

/// Compresses every share; the compression is linear, so the result stands for the
/// compression of the secret.
pub fn share_compression<const N: usize>(shares: [u128; N]) -> (r: [u64; N])
    requires
        forall|i: int| 0 <= i < N ==> #[trigger] shares@[i] >> 112 == 0,
    ensures
        forall|i: int| 0 <= i < N ==> #[trigger] r@[i] == compression_spec(shares@[i]),
        xor_all64(r@) == compression_spec(xor_all(shares@)),
{
    let mut result = [0u64; N];
    let mut i: usize = 0;
    while i < N
        invariant
            i <= N,
            forall|j: int| 0 <= j < N ==> #[trigger] shares@[j] >> 112 == 0,
            forall|j: int| 0 <= j < i ==> #[trigger] result@[j] == compression_spec(shares@[j]),
        decreases N - i,
    {
        result[i] = compression(shares[i]);
        i += 1;
    }
    proof {
        let l = |x: u128| compression_spec(x) as u128;
        assert forall|x: u128, y: u128| #[trigger] l(x ^ y) == l(x) ^ l(y) by {
            lemma_compression_linear(x, y);
            lemma_widen_xor(compression_spec(x), compression_spec(y), 0, 0);
        }
        lemma_compression_linear(0, 0);
        lemma_xor_laws(0, 0, 0, 0);
        let c0 = compression_spec(0);
        lemma_widen_xor(c0, c0, 0, 0);
        lemma_xor_laws(c0 as u128, 0, 0, 0);
        assert(l(0) == 0);
        assert forall|j: int| 0 <= j < N implies #[trigger] seq_fn(widen64(result@))(j) == l(seq_fn(shares@)(j)) by {}
        lemma_xsum_linear(l, seq_fn(shares@), seq_fn(widen64(result@)), N as nat);
        lemma_widen_xor(compression_spec(xor_all(shares@)), 0, 0, 0);
    }
    result
}

/// Compresses the state into a 64-bit number.
pub fn compression(state: u128) -> (r: u64)
    requires
        state >> 112 == 0,
    ensures
        r == compression_spec(state),
{
    let mut result: u128 = 0;
    let mut k: u32 = 0;
    while k < 8
        invariant
            k <= 8,
            result == pack(compression_bytes(state), k as nat),
        decreases 8 - k,
    {
        let i = k as usize;
        let mut sum = 0u8;
        let mut m: u32 = 0;
        while m < 6
            invariant
                k < 8,
                i == k,
                m <= 6,
                sum == compress_sum(state, i as int, m as nat),
            decreases 6 - m,
        {
            sum ^= byte_mult::<PICARO_EC>(get_byte(state, 8 + m), G_LAST_SIX[i][m as usize]);
            m += 1;
        }
        let byte = get_byte(state, k) ^ sum;
        result |= (byte as u128) << (8 * k);
        k += 1;
    }
    result as u64
}

} // verus!
