//! Boolean masking: a secret is split into shares whose exclusive or is the secret.
pub mod byte_ops;
pub mod isw;
pub mod nibble_ops;
pub mod share_nibble_ops;
pub mod share_ops;

use crate::bytes::{byte_at, lemma_byte_xor, lemma_zero_bytes};
use crate::rng::rng_next_u64;
use rand_chacha::ChaCha20Rng;
use vstd::prelude::*;

verus! {

/// The exclusive or of `f(0), .., f(n - 1)`.
pub open spec fn xsum(f: spec_fn(int) -> u128, n: nat) -> u128
    decreases n,
{
    if n == 0 {
        0
    } else {
        xsum(f, (n - 1) as nat) ^ f(n - 1)
    }
}

/// A sequence as a function of the index.
pub open spec fn seq_fn(s: Seq<u128>) -> spec_fn(int) -> u128 {
    |i: int| s[i]
}

/// The secret that a sequence of shares stands for: the exclusive or of all shares.
pub open spec fn xor_all(s: Seq<u128>) -> u128 {
    xsum(seq_fn(s), s.len())
}

/// Shares of 64 bits, widened.
pub open spec fn widen64(s: Seq<u64>) -> Seq<u128> {
    s.map_values(|x: u64| x as u128)
}

/// Shares of 8 bits, widened.
pub open spec fn widen8(s: Seq<u8>) -> Seq<u128> {
    s.map_values(|x: u8| x as u128)
}

/// The secret that a sequence of 64-bit shares stands for.
pub open spec fn xor_all64(s: Seq<u64>) -> u64 {
    xor_all(widen64(s)) as u64
}

/// The secret that a sequence of 8-bit shares stands for.
pub open spec fn xor_all8(s: Seq<u8>) -> u8 {
    xor_all(widen8(s)) as u8
}

/// Exclusive or is associative and commutative, has zero as identity, and every
/// word is its own inverse. Widening and truncation commute with it.
pub proof fn lemma_xor_laws(x: u128, y: u128, z: u128, w: u128)
    by (bit_vector)
    ensures
        x ^ 0 == x,
        y ^ 0 == y,
        0 ^ x == x,
        0 ^ y == y,
        x ^ x == 0,
        y ^ y == 0,
        (x ^ y) ^ y == x,
        x ^ y == y ^ x,
        (x ^ y) ^ z == x ^ (y ^ z),
        (x ^ y) ^ (z ^ w) == (x ^ z) ^ (y ^ w),
        ((x ^ y) as u64) == (x as u64) ^ (y as u64),
        ((x ^ y) as u8) == (x as u8) ^ (y as u8),
{
}

/// Exclusive or on bytes is associative and commutative, with zero as identity.
pub proof fn lemma_xor8_laws(x: u8, y: u8, z: u8, w: u8)
    by (bit_vector)
    ensures
        x ^ 0 == x,
        0 ^ x == x,
        x ^ x == 0,
        (x ^ y) ^ (z ^ w) == (x ^ z) ^ (y ^ w),
        (0u8 ^ 0u8) == 0,
{
}

/// Widening commutes with exclusive or.
pub proof fn lemma_widen_xor(a: u64, b: u64, c: u8, d: u8)
    by (bit_vector)
    ensures
        ((a ^ b) as u128) == (a as u128) ^ (b as u128),
        ((c ^ d) as u128) == (c as u128) ^ (d as u128),
        ((a as u128) as u64) == a,
        ((c as u128) as u8) == c,
{
}

pub proof fn lemma_xsum_ext(f: spec_fn(int) -> u128, g: spec_fn(int) -> u128, n: nat)
    requires
        forall|i: int| 0 <= i < n ==> #[trigger] f(i) == g(i),
    ensures
        xsum(f, n) == xsum(g, n),
    decreases n,
{
    if n > 0 {
        lemma_xsum_ext(f, g, (n - 1) as nat);
    }
}

/// Changing one term by `r` changes the sum by `r`.
pub proof fn lemma_xsum_update(f: spec_fn(int) -> u128, g: spec_fn(int) -> u128, n: nat, k: int, r: u128)
    requires
        0 <= k < n,
        g(k) == f(k) ^ r,
        forall|i: int| 0 <= i < n && i != k ==> #[trigger] f(i) == g(i),
    ensures
        xsum(g, n) == xsum(f, n) ^ r,
    decreases n,
{
    let m = (n - 1) as nat;
    if k == m {
        lemma_xsum_ext(f, g, m);
        lemma_xor_laws(xsum(f, m), f(k), r, 0);
    } else {
        lemma_xsum_update(f, g, m, k, r);
        lemma_xor_laws(xsum(f, m), r, f(m as int), 0);
        lemma_xor_laws(xsum(f, m), f(m as int), r, 0);
        lemma_xor_laws(r, f(m as int), 0, 0);
    }
}

/// The sum of pointwise exclusive ors is the exclusive or of the sums.
pub proof fn lemma_xsum_pointwise(f: spec_fn(int) -> u128, g: spec_fn(int) -> u128, h: spec_fn(int) -> u128, n: nat)
    requires
        forall|i: int| 0 <= i < n ==> #[trigger] h(i) == f(i) ^ g(i),
    ensures
        xsum(h, n) == xsum(f, n) ^ xsum(g, n),
    decreases n,
{
    if n == 0 {
        lemma_xor_laws(0, 0, 0, 0);
    } else {
        let m = (n - 1) as nat;
        lemma_xsum_pointwise(f, g, h, m);
        lemma_xor_laws(xsum(f, m), xsum(g, m), f(m as int), g(m as int));
    }
}

/// A sum of zeros is zero.
pub proof fn lemma_xsum_zero(f: spec_fn(int) -> u128, n: nat)
    requires
        forall|i: int| 0 <= i < n ==> #[trigger] f(i) == 0,
    ensures
        xsum(f, n) == 0,
    decreases n,
{
    if n > 0 {
        lemma_xsum_zero(f, (n - 1) as nat);
        lemma_xor_laws(0, 0, 0, 0);
    }
}

/// A sum whose terms are zero but one is that term.
pub proof fn lemma_xsum_single(f: spec_fn(int) -> u128, n: nat, k: int)
    requires
        0 <= k < n,
        forall|i: int| 0 <= i < n && i != k ==> #[trigger] f(i) == 0,
    ensures
        xsum(f, n) == f(k),
{
    let z = |i: int| 0u128;
    lemma_xsum_zero(z, n);
    lemma_xor_laws(f(k), 0, 0, 0);
    lemma_xsum_update(z, f, n, k, f(k));
}

/// The sum of the first `i + 1` elements of a sequence.
pub proof fn lemma_xor_prefix(s: Seq<u128>, i: int)
    requires
        0 <= i < s.len(),
    ensures
        xsum(seq_fn(s), (i + 1) as nat) == xsum(seq_fn(s), i as nat) ^ s[i],
        i == 0 ==> xsum(seq_fn(s), 1) == s[0],
{
    reveal_with_fuel(xsum, 2);
    lemma_xor_laws(s[0], 0, 0, 0);
}

/// Byte `k` of a sum is the sum of the bytes `k`.
pub proof fn lemma_byte_of_xsum(f: spec_fn(int) -> u128, n: nat, k: int)
    requires
        0 <= k < 16,
    ensures
        byte_at(xsum(f, n), k) as u128 == xsum(|i: int| byte_at(f(i), k) as u128, n),
    decreases n,
{
    if n == 0 {
        lemma_zero_bytes(k);
    } else {
        let m = (n - 1) as nat;
        lemma_byte_of_xsum(f, m, k);
        lemma_byte_xor(xsum(f, m), f(m as int), k);
        lemma_widen_xor(0, 0, byte_at(xsum(f, m), k), byte_at(f(m as int), k));
    }
}

/// Byte `k` of the secret stands for the sum of the bytes `k` of the shares.
pub proof fn lemma_byte_of_secret(s: Seq<u128>, k: int)
    requires
        0 <= k < 16,
    ensures
        byte_at(xor_all(s), k) == xor_all8(Seq::new(s.len(), |i: int| byte_at(s[i], k))),
{
    let col = Seq::new(s.len(), |i: int| byte_at(s[i], k));
    lemma_byte_of_xsum(seq_fn(s), s.len(), k);
    lemma_xsum_ext(|i: int| byte_at(seq_fn(s)(i), k) as u128, seq_fn(widen8(col)), s.len());
    lemma_widen_xor(0, 0, byte_at(xor_all(s), k), 0);
}

/// The exclusive or of `s[lo], .., s[hi - 1]`.
pub open spec fn xor_range(s: Seq<u128>, lo: int, hi: int) -> u128 {
    xsum(|j: int| s[lo + j], (hi - lo) as nat)
}

/// The exclusive or of the 64-bit words `s[lo], .., s[hi - 1]`.
pub open spec fn xor_range64(s: Seq<u64>, lo: int, hi: int) -> u64 {
    xor_range(widen64(s), lo, hi) as u64
}

/// The exclusive or of the bytes `s[lo], .., s[hi - 1]`.
pub open spec fn xor_range8(s: Seq<u8>, lo: int, hi: int) -> u8 {
    xor_range(widen8(s), lo, hi) as u8
}

/// The sum of all shares is share 0 plus the sum of the others.
pub proof fn lemma_xor_all_first(s: Seq<u128>, n: nat)
    requires
        1 <= n <= s.len(),
    ensures
        xsum(seq_fn(s), n) == s[0] ^ xor_range(s, 1, n as int),
    decreases n,
{
    if n == 1 {
        lemma_xor_prefix(s, 0);
        lemma_xor_laws(s[0], 0, 0, 0);
    } else {
        let m = (n - 1) as nat;
        lemma_xor_all_first(s, m);
        lemma_xor_laws(s[0], xor_range(s, 1, m as int), s[m as int], 0);
    }
}

/// The shares of `secret` with the masks `masks[1 .. N]`: share `i >= 1` is `masks[i]`,
/// share 0 is the secret plus all those masks.
pub fn split_u128_with<const N: usize>(secret: u128, masks: [u128; N]) -> (r: [u128; N])
    requires
        N >= 1,
    ensures
        r@[0] == secret ^ xor_range(masks@, 1, N as int),
        forall|i: int| 1 <= i < N ==> #[trigger] r@[i] == masks@[i],
        xor_all(r@) == secret,
{
    let mut result = masks;
    result[0] = secret;
    proof {
        lemma_xor_laws(secret, 0, 0, 0);
    }
    let mut i: usize = 1;
    while i < N
        invariant
            1 <= i <= N,
            result@[0] == secret ^ xor_range(masks@, 1, i as int),
            forall|j: int| 1 <= j < N ==> #[trigger] result@[j] == masks@[j],
        decreases N - i,
    {
        proof {
            lemma_xor_laws(secret, xor_range(masks@, 1, i as int), masks@[i as int], 0);
        }
        result[0] ^= masks[i];
        i += 1;
    }
    proof {
        let m = xor_range(masks@, 1, N as int);
        lemma_xor_all_first(result@, N as nat);
        lemma_xsum_ext(|j: int| result@[1 + j], |j: int| masks@[1 + j], (N - 1) as nat);
        lemma_xor_laws(secret, m, m, 0);
    }
    result
}

/// Splits a secret into `N` shares whose exclusive or is the secret; shares `1 .. N`
/// are fresh random words, drawn in order.
pub fn split_u128<const N: usize>(secret: u128, rng: &mut ChaCha20Rng) -> (r: [u128; N])
    requires
        N >= 1,
    ensures
        xor_all(r@) == secret,
        N == 1 ==> *final(rng) == *old(rng),
{
    let masks = draw_masks::<N>(rng);
    split_u128_with(secret, masks)
}

/// The 64-bit shares of `secret` with the masks `masks[1 .. N]`: share `i >= 1` is
/// `masks[i]`, share 0 is the secret plus all those masks.
pub fn split_u64_with<const N: usize>(secret: u64, masks: [u64; N]) -> (r: [u64; N])
    requires
        N >= 1,
    ensures
        r@[0] == secret ^ xor_range64(masks@, 1, N as int),
        forall|i: int| 1 <= i < N ==> #[trigger] r@[i] == masks@[i],
        xor_all64(r@) == secret,
{
    let mut result = masks;
    result[0] = secret;
    proof {
        lemma_widen_xor(secret, 0, 0, 0);
        lemma_xor_laws(secret as u128, 0, 0, 0);
    }
    let mut i: usize = 1;
    while i < N
        invariant
            1 <= i <= N,
            result@[0] as u128 == (secret as u128) ^ xor_range(widen64(masks@), 1, i as int),
            forall|j: int| 1 <= j < N ==> #[trigger] result@[j] == masks@[j],
        decreases N - i,
    {
        proof {
            lemma_xor_laws(secret as u128, xor_range(widen64(masks@), 1, i as int), masks@[i as int] as u128, 0);
            lemma_widen_xor(result@[0], masks@[i as int], 0, 0);
        }
        result[0] ^= masks[i];
        i += 1;
    }
    proof {
        let m = xor_range(widen64(masks@), 1, N as int);
        lemma_xor_all_first(widen64(result@), N as nat);
        lemma_xsum_ext(|j: int| widen64(result@)[1 + j], |j: int| widen64(masks@)[1 + j], (N - 1) as nat);
        lemma_xor_laws(secret as u128, m, m, 0);
        lemma_xor_laws(secret as u128, m, 0, 0);
        lemma_widen_xor(secret, 0, 0, 0);
    }
    result
}

/// Splits a 64-bit secret into `N` shares whose exclusive or is the secret; shares
/// `1 .. N` are fresh random words, drawn in order.
pub fn split_u64<const N: usize>(secret: u64, rng: &mut ChaCha20Rng) -> (r: [u64; N])
    requires
        N >= 1,
    ensures
        xor_all64(r@) == secret,
        N == 1 ==> *final(rng) == *old(rng),
{
    let mut masks = [0u64; N];
    let mut i: usize = 1;
    while i < N
        invariant
            1 <= i <= N,
            N == 1 ==> *rng == *old(rng),
        decreases N - i,
    {
        masks[i] = rng_next_u64(rng);
        i += 1;
    }
    split_u64_with(secret, masks)
}

/// The 8-bit shares of `secret` with the masks `masks[1 .. N]`: share `i >= 1` is
/// `masks[i]`, share 0 is the secret plus all those masks.
pub fn split_u8_with<const N: usize>(secret: u8, masks: [u8; N]) -> (r: [u8; N])
    requires
        N >= 1,
    ensures
        r@[0] == secret ^ xor_range8(masks@, 1, N as int),
        forall|i: int| 1 <= i < N ==> #[trigger] r@[i] == masks@[i],
        xor_all8(r@) == secret,
{
    let mut result = masks;
    result[0] = secret;
    proof {
        lemma_widen_xor(0, 0, secret, 0);
        lemma_xor_laws(secret as u128, 0, 0, 0);
    }
    let mut i: usize = 1;
    while i < N
        invariant
            1 <= i <= N,
            result@[0] as u128 == (secret as u128) ^ xor_range(widen8(masks@), 1, i as int),
            forall|j: int| 1 <= j < N ==> #[trigger] result@[j] == masks@[j],
        decreases N - i,
    {
        proof {
            lemma_xor_laws(secret as u128, xor_range(widen8(masks@), 1, i as int), masks@[i as int] as u128, 0);
            lemma_widen_xor(0, 0, result@[0], masks@[i as int]);
        }
        result[0] ^= masks[i];
        i += 1;
    }
    proof {
        let m = xor_range(widen8(masks@), 1, N as int);
        lemma_xor_all_first(widen8(result@), N as nat);
        lemma_xsum_ext(|j: int| widen8(result@)[1 + j], |j: int| widen8(masks@)[1 + j], (N - 1) as nat);
        lemma_xor_laws(secret as u128, m, m, 0);
        lemma_xor_laws(secret as u128, m, 0, 0);
        lemma_widen_xor(0, 0, secret, 0);
    }
    result
}

/// Splits an 8-bit secret into `N` shares whose exclusive or is the secret; shares
/// `1 .. N` are the low bytes of fresh random words, drawn in order.
pub fn split_u8<const N: usize>(secret: u8, rng: &mut ChaCha20Rng) -> (r: [u8; N])
    requires
        N >= 1,
    ensures
        xor_all8(r@) == secret,
        N == 1 ==> *final(rng) == *old(rng),
{
    let mut masks = [0u8; N];
    let mut i: usize = 1;
    while i < N
        invariant
            1 <= i <= N,
            N == 1 ==> *rng == *old(rng),
        decreases N - i,
    {
        masks[i] = (rng_next_u64(rng) & 0xff) as u8;
        i += 1;
    }
    split_u8_with(secret, masks)
}

/// The shares `s` with the masks `masks[1 ..]` added: share `i >= 1` gets `masks[i]`,
/// and share 0 gets all of them.
pub open spec fn refreshed(s: Seq<u128>, masks: Seq<u128>) -> Seq<u128> {
    Seq::new(
        s.len(),
        |i: int| if i == 0 { s[0] ^ xor_range(masks, 1, s.len() as int) } else { s[i] ^ masks[i] },
    )
}

/// The shares with the masks `masks[1 .. N]` added: share `i >= 1` gets `masks[i]`, and
/// share 0 gets all of them, so the secret stays the same.
pub fn refresh_with<const N: usize>(shares: &mut [u128; N], masks: [u128; N])
    ensures
        final(shares)@ == refreshed(old(shares)@, masks@),
        N >= 1 ==> final(shares)@[0] == old(shares)@[0] ^ xor_range(masks@, 1, N as int),
        forall|i: int| 1 <= i < N ==> #[trigger] final(shares)@[i] == old(shares)@[i] ^ masks@[i],
        N <= 1 ==> final(shares)@ == old(shares)@,
        xor_all(final(shares)@) == xor_all(old(shares)@),
{
    let ghost start = shares@;
    let mut i: usize = 1;
    proof {
        if N >= 1 {
            lemma_xor_laws(start[0], 0, 0, 0);
        }
    }
    while i < N
        invariant
            N >= 1 ==> 1 <= i <= N,
            N == 0 ==> i == 1,
            N >= 1 ==> shares@[0] == start[0] ^ xor_range(masks@, 1, i as int),
            forall|j: int| 1 <= j < i ==> #[trigger] shares@[j] == start[j] ^ masks@[j],
            forall|j: int| i <= j < N ==> #[trigger] shares@[j] == start[j],
            N <= 1 ==> shares@ == start,
        decreases N - i,
    {
        proof {
            lemma_xor_laws(start[0], xor_range(masks@, 1, i as int), masks@[i as int], 0);
        }
        shares[0] ^= masks[i];
        shares[i] ^= masks[i];
        i += 1;
    }
    proof {
        if N >= 1 {
            let n = N as nat;
            let m = xor_range(masks@, 1, N as int);
            let o = xor_range(start, 1, N as int);
            lemma_xor_all_first(shares@, n);
            lemma_xor_all_first(start, n);
            lemma_xsum_pointwise(|j: int| start[1 + j], |j: int| masks@[1 + j], |j: int| shares@[1 + j], (N - 1) as nat);
            lemma_xor_laws(start[0], m, o, m);
            lemma_xor_laws(m, m, 0, 0);
            lemma_xor_laws(start[0] ^ o, 0, 0, 0);
        }
        assert(shares@ =~= refreshed(start, masks@));
    }
}

/// Re-randomises the shares without changing the secret they stand for: each share
/// `i >= 1` gets a fresh random word, drawn in order, and share 0 gets all of them. With
/// a single share there is nothing to re-randomise and the share stays as it is.
pub fn refresh_masks<const N: usize>(shares: &mut [u128; N], rng: &mut ChaCha20Rng)
    ensures
        xor_all(final(shares)@) == xor_all(old(shares)@),
        N <= 1 ==> final(shares)@ == old(shares)@,
{
    let masks = draw_masks::<N>(rng);
    refresh_with(shares, masks);
}

/// Masks for `N` shares: entries `1 .. N` are random words drawn in order, entry 0 is
/// zero. With at most one share nothing is drawn.
pub(crate) fn draw_masks<const N: usize>(rng: &mut ChaCha20Rng) -> (m: [u128; N])
    ensures
        N >= 1 ==> m@[0] == 0,
        N <= 1 ==> *final(rng) == *old(rng),
{
    let mut masks = [0u128; N];
    let mut i: usize = 1;
    while i < N
        invariant
            N >= 1 ==> 1 <= i <= N,
            N == 0 ==> i == 1,
            N >= 1 ==> masks@[0] == 0,
            N <= 1 ==> *rng == *old(rng),
        decreases N - i,
    {
        masks[i] = next_u128(rng);
        i += 1;
    }
    masks
}

/// The exclusive or of all shares.
pub fn merge_u128<const N: usize>(shares: [u128; N]) -> (r: u128)
    requires
        N >= 1,
    ensures
        r == xor_all(shares@),
{
    let mut result = shares[0];
    proof {
        lemma_xor_prefix(shares@, 0);
    }
    let mut i: usize = 1;
    while i < N
        invariant
            1 <= i <= N,
            result == xsum(seq_fn(shares@), i as nat),
        decreases N - i,
    {
        result ^= shares[i];
        i += 1;
    }
    result
}

/// The exclusive or of all 64-bit shares.
pub fn merge_u64<const N: usize>(shares: [u64; N]) -> (r: u64)
    requires
        N >= 1,
    ensures
        r == xor_all64(shares@),
{
    let mut result = shares[0];
    proof {
        lemma_xor_prefix(widen64(shares@), 0);
    }
    let mut i: usize = 1;
    while i < N
        invariant
            1 <= i <= N,
            result as u128 == xsum(seq_fn(widen64(shares@)), i as nat),
        decreases N - i,
    {
        proof {
            lemma_widen_xor(result, shares[i as int], 0, 0);
        }
        result ^= shares[i];
        i += 1;
    }
    proof {
        lemma_widen_xor(result, 0, 0, 0);
    }
    result
}

/// The exclusive or of all 8-bit shares.
pub fn merge_u8<const N: usize>(shares: [u8; N]) -> (r: u8)
    requires
        N >= 1,
    ensures
        r == xor_all8(shares@),
{
    let mut result = shares[0];
    proof {
        lemma_xor_prefix(widen8(shares@), 0);
    }
    let mut i: usize = 1;
    while i < N
        invariant
            1 <= i <= N,
            result as u128 == xsum(seq_fn(widen8(shares@)), i as nat),
        decreases N - i,
    {
        proof {
            lemma_widen_xor(0, 0, result, shares[i as int]);
        }
        result ^= shares[i];
        i += 1;
    }
    proof {
        lemma_widen_xor(0, 0, result, 0);
    }
    result
}

/// Adds two shared secrets share by share: the result stands for the exclusive or
/// of the two secrets.
pub fn share_add_u112<const N: usize>(a: [u128; N], b: [u128; N]) -> (r: [u128; N])
    ensures
        forall|i: int| 0 <= i < N ==> #[trigger] r@[i] == a@[i] ^ b@[i],
        xor_all(r@) == xor_all(a@) ^ xor_all(b@),
{
    let mut a = a;
    let ghost a0 = a@;
    let mut i: usize = 0;
    while i < N
        invariant
            i <= N,
            forall|j: int| 0 <= j < i ==> #[trigger] a@[j] == a0[j] ^ b@[j],
            forall|j: int| i <= j < N ==> #[trigger] a@[j] == a0[j],
        decreases N - i,
    {
        a[i] ^= b[i];
        i += 1;
    }
    proof {
        lemma_xsum_pointwise(seq_fn(a0), seq_fn(b@), seq_fn(a@), N as nat);
    }
    a
}

/// Adds two shared 64-bit secrets share by share.
pub fn share_add_u64<const N: usize>(a: [u64; N], b: [u64; N]) -> (r: [u64; N])
    ensures
        forall|i: int| 0 <= i < N ==> #[trigger] r@[i] == a@[i] ^ b@[i],
        xor_all64(r@) == xor_all64(a@) ^ xor_all64(b@),
{
    let mut a = a;
    let ghost a0 = a@;
    let mut i: usize = 0;
    while i < N
        invariant
            i <= N,
            forall|j: int| 0 <= j < i ==> #[trigger] a@[j] == a0[j] ^ b@[j],
            forall|j: int| i <= j < N ==> #[trigger] a@[j] == a0[j],
        decreases N - i,
    {
        a[i] ^= b[i];
        i += 1;
    }
    proof {
        assert forall|j: int| 0 <= j < N implies #[trigger] seq_fn(widen64(a@))(j) == seq_fn(widen64(a0))(j)
            ^ seq_fn(widen64(b@))(j) by {
            lemma_widen_xor(a0[j], b@[j], 0, 0);
        }
        lemma_xsum_pointwise(seq_fn(widen64(a0)), seq_fn(widen64(b@)), seq_fn(widen64(a@)), N as nat);
        lemma_xor_laws(xor_all(widen64(a0)), xor_all(widen64(b@)), 0, 0);
    }
    a
}

/// Adds two shared 8-bit secrets share by share.
pub fn share_add_u8<const N: usize>(a: [u8; N], b: [u8; N]) -> (r: [u8; N])
    ensures
        forall|i: int| 0 <= i < N ==> #[trigger] r@[i] == a@[i] ^ b@[i],
        xor_all8(r@) == xor_all8(a@) ^ xor_all8(b@),
{
    let mut a = a;
    let ghost a0 = a@;
    let mut i: usize = 0;
    while i < N
        invariant
            i <= N,
            forall|j: int| 0 <= j < i ==> #[trigger] a@[j] == a0[j] ^ b@[j],
            forall|j: int| i <= j < N ==> #[trigger] a@[j] == a0[j],
        decreases N - i,
    {
        a[i] ^= b[i];
        i += 1;
    }
    proof {
        assert forall|j: int| 0 <= j < N implies #[trigger] seq_fn(widen8(a@))(j) == seq_fn(widen8(a0))(j)
            ^ seq_fn(widen8(b@))(j) by {
            lemma_widen_xor(0, 0, a0[j], b@[j]);
        }
        lemma_xsum_pointwise(seq_fn(widen8(a0)), seq_fn(widen8(b@)), seq_fn(widen8(a@)), N as nat);
        lemma_xor_laws(xor_all(widen8(a0)), xor_all(widen8(b@)), 0, 0);
    }
    a
}

/// The 128-bit word whose high half is `a` and whose low half is `b`.
pub fn join_words(a: u64, b: u64) -> (r: u128)
    ensures
        r == ((a as u128) << 64u32) | (b as u128),
{
    ((a as u128) << 64u32) | (b as u128)
}

/// A random 128-bit word made of two 64-bit outputs of the generator: the first is the
/// high half, the second the low half.
pub fn next_u128(rng: &mut ChaCha20Rng) -> u128 {
    let a = rng_next_u64(rng);
    let b = rng_next_u64(rng);
    join_words(a, b)
}

} // verus!
