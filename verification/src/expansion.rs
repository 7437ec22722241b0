//! The expansion of the right half of the state from 64 to 112 bits: the 8 bytes
//! are multiplied, as a vector over GF(2^8), by the generator matrix `G` of a linear
//! code, whose first eight columns are the identity.
use crate::bytes::{
    byte_at, get_byte, lemma_byte_xor, lemma_bytes_eq, lemma_pack, lemma_u64_bytes, lemma_zero_bytes, pack,
};
use crate::masking::byte_ops::{byte_mult, gf_mul, lemma_gf_mul_laws, PICARO_EC};
use crate::masking::isw::lemma_xsum_linear;
use crate::masking::{lemma_widen_xor, lemma_xor8_laws, lemma_xor_laws, seq_fn, widen64, xor_all, xor_all64};
use vstd::prelude::*;

verus! {

/// The last 6 columns of the matrix G, transposed.
/// This makes it easier to perform linear combinations in [`expansion`].
pub const G_LAST_SIX_TRANSPOSED: [[u8; 8]; 6] = [
    [0x1, 0x5, 0x6, 0xC, 0x9, 0x1, 0xA, 0x1],
    [0x1, 0x1, 0x5, 0x6, 0xC, 0x9, 0x1, 0xA],
    [0xA, 0x1, 0x1, 0x5, 0x6, 0xC, 0x9, 0x1],
    [0x1, 0xA, 0x1, 0x1, 0x5, 0x6, 0xC, 0x9],
    [0x9, 0x1, 0xA, 0x1, 0x1, 0x5, 0x6, 0xC],
    [0xC, 0x9, 0x1, 0xA, 0x1, 0x1, 0x5, 0x6],
];

/// The sum over `j < n` of byte `j` of `right` times the entry `(i, j)` of the table.
pub open spec fn expand_sum(right: u64, i: int, n: nat) -> u8
    decreases n,
{
    if n == 0 {
        0
    } else {
        expand_sum(right, i, (n - 1) as nat) ^ gf_mul(
            PICARO_EC,
            byte_at(right as u128, n - 1),
            G_LAST_SIX_TRANSPOSED[i][n - 1],
        )
    }
}

/// The bytes of the expanded word: bytes `0 .. 8` are those of `right`, byte `8 + i`
/// is the linear combination of the bytes of `right` by row `i` of the table.
pub open spec fn expansion_bytes(right: u64) -> spec_fn(int) -> u8 {
    |k: int| if k < 8 { byte_at(right as u128, k) } else { expand_sum(right, k - 8, 8) }
}

/// The 112-bit expansion of `right`.
pub open spec fn expansion_spec(right: u64) -> u128 {
    pack(expansion_bytes(right), 14)
}

proof fn lemma_expand_sum_linear(a: u64, b: u64, i: int, n: nat)
    requires
        n <= 8,
    ensures
        expand_sum(a ^ b, i, n) == expand_sum(a, i, n) ^ expand_sum(b, i, n),
        expand_sum(0, i, n) == 0,
    decreases n,
{
    if n == 0 {
        lemma_xor8_laws(0, 0, 0, 0);
    } else {
        let m = (n - 1) as nat;
        lemma_expand_sum_linear(a, b, i, m);
        let g = G_LAST_SIX_TRANSPOSED[i][m as int];
        lemma_widen_xor(a, b, 0, 0);
        lemma_byte_xor(a as u128, b as u128, m as int);
        lemma_gf_mul_laws(PICARO_EC, byte_at(a as u128, m as int), g, byte_at(b as u128, m as int));
        lemma_gf_mul_laws(PICARO_EC, 0, g, 0);
        lemma_zero_bytes(m as int);
        lemma_xor8_laws(
            expand_sum(a, i, m),
            expand_sum(b, i, m),
            gf_mul(PICARO_EC, byte_at(a as u128, m as int), g),
            gf_mul(PICARO_EC, byte_at(b as u128, m as int), g),
        );
    }
}

/// The sum of a row of the table against a word with the single nonzero byte `c` at
/// position `j`: `c` times entry `j` of the row, once `j` is among the first `n` bytes.
proof fn lemma_expand_sum_single(right: u64, j: int, c: u8, i: int, n: nat)
    requires
        0 <= j < 8,
        0 <= i < 6,
        n <= 8,
        forall|m: int| 0 <= m < 8 ==> #[trigger] byte_at(right as u128, m) == (if m == j { c } else { 0 }),
    ensures
        expand_sum(right, i, n) == (if j < n { gf_mul(PICARO_EC, c, G_LAST_SIX_TRANSPOSED[i][j]) } else { 0 }),
    decreases n,
{
    if n > 0 {
        let m = (n - 1) as nat;
        lemma_expand_sum_single(right, j, c, i, m);
        let g = G_LAST_SIX_TRANSPOSED[i][m as int];
        lemma_gf_mul_laws(PICARO_EC, 0, g, 0);
        let prev = expand_sum(right, i, m);
        lemma_xor8_laws(prev, 0, 0, 0);
        lemma_xor8_laws(gf_mul(PICARO_EC, c, g), 0, 0, 0);
        assert(byte_at(right as u128, m as int) == (if m == j { c } else { 0 }));
    }
}

/// The code is systematic: bytes 0 .. 8 of the expansion are the bytes of `right`, and
/// bytes 14 and 15 are zero.
pub proof fn lemma_expansion_systematic(right: u64)
    ensures
        forall|k: int| 0 <= k < 8 ==> #[trigger] byte_at(expansion_spec(right), k) == byte_at(right as u128, k),
        byte_at(expansion_spec(right), 14) == 0,
        byte_at(expansion_spec(right), 15) == 0,
{
    lemma_pack(expansion_bytes(right), 14);
}

/// The parity bytes are the columns of the table: when `right` has the single nonzero
/// byte `c` at position `j`, byte `8 + i` of the expansion is `c` times entry `(i, j)`
/// of the table, in GF(2^8) with the code's polynomial. With linearity
/// (`lemma_expansion_linear`) this fixes the expansion of every word.
pub proof fn lemma_expansion_single_byte(right: u64, j: int, c: u8)
    requires
        0 <= j < 8,
        forall|m: int| 0 <= m < 8 ==> #[trigger] byte_at(right as u128, m) == (if m == j { c } else { 0 }),
    ensures
        forall|k: int|
            8 <= k < 14 ==> #[trigger] byte_at(expansion_spec(right), k) == gf_mul(
                PICARO_EC,
                c,
                G_LAST_SIX_TRANSPOSED[k - 8][j],
            ),
{
    lemma_pack(expansion_bytes(right), 14);
    assert forall|k: int| 8 <= k < 14 implies #[trigger] byte_at(expansion_spec(right), k) == gf_mul(
        PICARO_EC,
        c,
        G_LAST_SIX_TRANSPOSED[k - 8][j],
    ) by {
        lemma_expand_sum_single(right, j, c, k - 8, 8);
    }
}

/// The expansion is linear.
pub proof fn lemma_expansion_linear(a: u64, b: u64)
    ensures
        expansion_spec(a ^ b) == expansion_spec(a) ^ expansion_spec(b),
        expansion_spec(0) == 0,
{
    lemma_pack(expansion_bytes(a ^ b), 14);
    lemma_pack(expansion_bytes(a), 14);
    lemma_pack(expansion_bytes(b), 14);
    lemma_pack(expansion_bytes(0), 14);
    lemma_widen_xor(a, b, 0, 0);
    assert forall|k: int| 0 <= k < 16 implies #[trigger] byte_at(expansion_spec(a ^ b), k) == byte_at(
        expansion_spec(a) ^ expansion_spec(b),
        k,
    ) && byte_at(expansion_spec(0), k) == byte_at(0, k) by {
        lemma_byte_xor(expansion_spec(a), expansion_spec(b), k);
        lemma_byte_xor(a as u128, b as u128, k);
        lemma_byte_xor(0, 0, k);
        lemma_u64_bytes(0, k as u32);
        lemma_xor8_laws(0, 0, 0, 0);
        lemma_zero_bytes(k);
        if 8 <= k < 14 {
            lemma_expand_sum_linear(a, b, k - 8, 8);
        }
    }
    assert forall|k: int| 0 <= k < 16 implies #[trigger] byte_at(expansion_spec(0), k) == byte_at(0, k) by {
        assert(byte_at(expansion_spec(a ^ b), k) == byte_at(expansion_spec(a) ^ expansion_spec(b), k));
    }
    lemma_bytes_eq(expansion_spec(a ^ b), expansion_spec(a) ^ expansion_spec(b));
    lemma_bytes_eq(expansion_spec(0), 0);
}

/// Expands every share; the expansion is linear, so the result stands for the
/// expansion of the secret.
pub fn share_expansion<const N: usize>(shares: [u64; N]) -> (r: [u128; N])
    ensures
        forall|i: int| 0 <= i < N ==> #[trigger] r@[i] == expansion_spec(shares@[i]),
        xor_all(r@) == expansion_spec(xor_all64(shares@)),
{
    let mut result = [0u128; N];
    let mut i: usize = 0;
    while i < N
        invariant
            i <= N,
            forall|j: int| 0 <= j < i ==> #[trigger] result@[j] == expansion_spec(shares@[j]),
        decreases N - i,
    {
        result[i] = expansion(shares[i]);
        i += 1;
    }
    proof {
        let l = |x: u128| expansion_spec(x as u64);
        assert forall|x: u128, y: u128| #[trigger] l(x ^ y) == l(x) ^ l(y) by {
            lemma_xor_laws(x, y, 0, 0);
            lemma_expansion_linear(x as u64, y as u64);
        }
        lemma_expansion_linear(0, 0);
        assert forall|j: int| 0 <= j < N implies #[trigger] seq_fn(result@)(j) == l(seq_fn(widen64(shares@))(j)) by {
            lemma_widen_xor(shares@[j], 0, 0, 0);
        }
        lemma_xsum_linear(l, seq_fn(widen64(shares@)), seq_fn(result@), N as nat);
    }
    result
}

/// Expands the right side into a 112-bit number.
pub fn expansion(right: u64) -> (r: u128)
    ensures
        r == expansion_spec(right),
{
    let mut result = right as u128;
    proof {
        lemma_pack(expansion_bytes(right), 8);
        assert forall|k: int| 0 <= k < 16 implies #[trigger] byte_at(result, k) == byte_at(pack(expansion_bytes(right), 8), k) by {
            lemma_u64_bytes(right, k as u32);
        }
        lemma_bytes_eq(result, pack(expansion_bytes(right), 8));
    }
    // The first 8 bytes remain the same,
    // so we loop over the bytes we need to expand.
    let mut i: usize = 0;
    while i < 6
        invariant
            i <= 6,
            result == pack(expansion_bytes(right), (8 + i) as nat),
        decreases 6 - i,
    {
        let mut sum = 0u8;
        let mut j: u32 = 0;
        while j < 8
            invariant
                i < 6,
                j <= 8,
                sum == expand_sum(right, i as int, j as nat),
            decreases 8 - j,
        {
            sum ^= byte_mult::<PICARO_EC>(get_byte(right as u128, j), G_LAST_SIX_TRANSPOSED[i][j as usize]);
            j += 1;
        }
        result |= (sum as u128) << (8 * (i as u32 + 8));
        i += 1;
    }
    result
}

} // verus!
