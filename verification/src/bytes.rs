//! Byte-level view of 128-bit words: byte `k` is bits `8k .. 8k + 8`
//! (so byte 15 is the first byte of the big-endian encoding).
use vstd::prelude::*;

verus! {

/// Byte `k` of `x`, counting from the least significant byte.
pub open spec fn byte_at(x: u128, k: int) -> u8 {
    (x >> ((8 * k) as u32)) as u8
}

/// The word whose bytes `0 .. n` are `f(0), .., f(n - 1)` and whose other bytes are zero.
pub open spec fn pack(f: spec_fn(int) -> u8, n: nat) -> u128
    decreases n,
{
    if n == 0 {
        0
    } else {
        pack(f, (n - 1) as nat) | ((f(n - 1) as u128) << ((8 * (n - 1)) as u32))
    }
}

/// Adding byte `k` above a word whose bytes from `k` on are zero.
proof fn lemma_pack_step(p: u128, v: u8, k: u32, j: u32)
    by (bit_vector)
    requires
        k < 16,
        j < 16,
        p >> ((8 * (k as int)) as u32) == 0,
    ensures
        byte_at(p | ((v as u128) << ((8 * (k as int)) as u32)), j as int) == (if j < k {
            byte_at(p, j as int)
        } else if j == k {
            v
        } else {
            0u8
        }),
        k < 15 ==> (p | ((v as u128) << ((8 * (k as int)) as u32))) >> ((8 * ((k + 1) as int)) as u32) == 0,
{
}

/// Bytes of a packed word.
pub proof fn lemma_pack(f: spec_fn(int) -> u8, n: nat)
    requires
        n <= 16,
    ensures
        forall|j: int| 0 <= j < 16 ==> #[trigger] byte_at(pack(f, n), j) == (if j < n { f(j) } else { 0 }),
        n < 16 ==> pack(f, n) >> ((8 * n) as u32) == 0,
    decreases n,
{
    if n == 0 {
        assert forall|j: int| 0 <= j < 16 implies #[trigger] byte_at(pack(f, n), j) == 0u8 by {
            lemma_zero_bytes(j);
        }
        lemma_zero_bytes(0);
    } else {
        let k = (n - 1) as nat;
        lemma_pack(f, k);
        let p = pack(f, k);
        assert forall|j: int| 0 <= j < 16 implies #[trigger] byte_at(pack(f, n), j) == (if j < n {
            f(j)
        } else {
            0
        }) by {
            lemma_pack_step(p, f(k as int), k as u32, j as u32);
        }
        lemma_pack_step(p, f(k as int), k as u32, 0);
    }
}

pub proof fn lemma_zero_bytes(j: int)
    requires
        0 <= j < 16,
    ensures
        byte_at(0, j) == 0,
        (0u128 >> ((8 * j) as u32)) == 0,
{
    let s = (8 * j) as u32;
    assert((0u128 >> s) as u8 == 0 && (0u128 >> s) == 0) by (bit_vector);
}

/// Bytes commute with exclusive or.
pub proof fn lemma_byte_xor(x: u128, y: u128, k: int)
    requires
        0 <= k < 16,
    ensures
        byte_at(x ^ y, k) == byte_at(x, k) ^ byte_at(y, k),
{
    let s = (8 * k) as u32;
    assert(((x ^ y) >> s) as u8 == ((x >> s) as u8) ^ ((y >> s) as u8)) by (bit_vector);
}

/// Packing depends only on the bytes packed.
pub proof fn lemma_pack_ext(f: spec_fn(int) -> u8, g: spec_fn(int) -> u8, n: nat)
    requires
        forall|j: int| 0 <= j < n ==> #[trigger] f(j) == g(j),
    ensures
        pack(f, n) == pack(g, n),
    decreases n,
{
    if n > 0 {
        lemma_pack_ext(f, g, (n - 1) as nat);
    }
}

/// A word is determined by its sixteen bytes.
pub proof fn lemma_bytes_eq(x: u128, y: u128)
    requires
        forall|k: int| 0 <= k < 16 ==> #[trigger] byte_at(x, k) == byte_at(y, k),
    ensures
        x == y,
{
    assert(byte_at(x, 0) == byte_at(y, 0));
    assert(byte_at(x, 1) == byte_at(y, 1));
    assert(byte_at(x, 2) == byte_at(y, 2));
    assert(byte_at(x, 3) == byte_at(y, 3));
    assert(byte_at(x, 4) == byte_at(y, 4));
    assert(byte_at(x, 5) == byte_at(y, 5));
    assert(byte_at(x, 6) == byte_at(y, 6));
    assert(byte_at(x, 7) == byte_at(y, 7));
    assert(byte_at(x, 8) == byte_at(y, 8));
    assert(byte_at(x, 9) == byte_at(y, 9));
    assert(byte_at(x, 10) == byte_at(y, 10));
    assert(byte_at(x, 11) == byte_at(y, 11));
    assert(byte_at(x, 12) == byte_at(y, 12));
    assert(byte_at(x, 13) == byte_at(y, 13));
    assert(byte_at(x, 14) == byte_at(y, 14));
    assert(byte_at(x, 15) == byte_at(y, 15));
    assert(x == y) by (bit_vector)
        requires
            (x >> 0u32) as u8 == (y >> 0u32) as u8,
            (x >> 8u32) as u8 == (y >> 8u32) as u8,
            (x >> 16u32) as u8 == (y >> 16u32) as u8,
            (x >> 24u32) as u8 == (y >> 24u32) as u8,
            (x >> 32u32) as u8 == (y >> 32u32) as u8,
            (x >> 40u32) as u8 == (y >> 40u32) as u8,
            (x >> 48u32) as u8 == (y >> 48u32) as u8,
            (x >> 56u32) as u8 == (y >> 56u32) as u8,
            (x >> 64u32) as u8 == (y >> 64u32) as u8,
            (x >> 72u32) as u8 == (y >> 72u32) as u8,
            (x >> 80u32) as u8 == (y >> 80u32) as u8,
            (x >> 88u32) as u8 == (y >> 88u32) as u8,
            (x >> 96u32) as u8 == (y >> 96u32) as u8,
            (x >> 104u32) as u8 == (y >> 104u32) as u8,
            (x >> 112u32) as u8 == (y >> 112u32) as u8,
            (x >> 120u32) as u8 == (y >> 120u32) as u8,
    ;
}

/// The bytes of a widened 64-bit word: the low eight are those of the word, the high
/// eight are zero.
pub proof fn lemma_u64_bytes(x: u64, j: u32)
    by (bit_vector)
    requires
        j < 16,
    ensures
        j >= 8 ==> byte_at(x as u128, j as int) == 0,
        j < 8 ==> byte_at(x as u128, j as int) == (x >> ((8 * (j as int)) as u32)) as u8,
        ((x as u128) >> 64u32) == 0,
{
}

/// Byte `k` of `x`.
pub fn get_byte(x: u128, k: u32) -> (r: u8)
    requires
        k < 16,
    ensures
        r == byte_at(x, k as int),
{
    (x >> (8 * k)) as u8
}

} // verus!
