//! A masked implementation of the Picaro block cipher: a 12-round Feistel network on
//! 128-bit blocks with a 128-bit key, where every secret value is held as
//! `SHARE_COUNT` Boolean shares.

pub mod aes;
pub mod bytes;
pub mod compression;
pub mod expansion;
pub mod key_schedule;
pub mod masking;
pub mod rng;
pub mod s_box;

use crate::compression::{compression_spec, share_compression};
use crate::expansion::{expansion_spec, share_expansion};
use crate::key_schedule::{lemma_round_key_linear, round_key, round_key_spec};
use crate::masking::isw::lemma_xsum_linear;
use crate::masking::{
    lemma_widen_xor, lemma_xor_laws, lemma_xsum_pointwise, merge_u128, seq_fn, share_add_u112,
    share_add_u64, split_u128, widen64, xor_all, xor_all64,
};
use crate::rng::rng_seed_from_u64;
use crate::s_box::{s_box, s_box_spec};
use rand_chacha::ChaCha20Rng;
use vstd::prelude::*;

verus! {

/// Picaro's four weak keys: all zeros, all ones, and the two alternating patterns.
pub open spec fn weak_key(main_key: u128) -> bool {
    main_key == 0 || main_key == u128::MAX || main_key == 0x55555555555555555555555555555555
        || main_key == 0xAAAAAAAAAAAAAAAAAAAAAAAAAAAAAAAA
}

/// The weak keys are exactly the four words 0, all ones, `0x5555..` and `0xAAAA..`;
/// they are also exactly the keys that a rotation by two bits leaves unchanged.
pub proof fn lemma_weak_keys(k: u128)
    ensures
        weak_key(k) <==> set![
            0u128,
            u128::MAX,
            0x55555555555555555555555555555555u128,
            0xAAAAAAAAAAAAAAAAAAAAAAAAAAAAAAAAu128,
        ].contains(k),
        weak_key(k) <==> ((k >> 2u32) | (k << 126u32)) == k,
{
    lemma_weak_key_period(k);
}

proof fn lemma_weak_key_period(k: u128)
    by (bit_vector)
    ensures
        weak_key(k) <==> ((k >> 2u32) | (k << 126u32)) == k,
{
}

/// Returns true if the key is weak.
pub fn is_weak_key(main_key: u128) -> (r: bool)
    ensures
        r == weak_key(main_key),
{
    main_key == 0 // 0000...
     || main_key == u128::MAX // 1111...
     || main_key == 0x55555555555555555555555555555555 // 0101...
     || main_key == 0xAAAAAAAAAAAAAAAAAAAAAAAAAAAAAAAA // 1010...
}

/// The high half of a block.
pub open spec fn hi64(x: u128) -> u64 {
    (x >> 64u32) as u64
}

/// The low half of a block.
pub open spec fn lo64(x: u128) -> u64 {
    x as u64
}

/// The block made of two halves.
pub open spec fn join(h: u64, l: u64) -> u128 {
    ((h as u128) << 64u32) | (l as u128)
}

/// Splitting a block into halves and joining them are inverse, and both are linear.
pub proof fn lemma_halves(x: u128, y: u128, h: u64, l: u64, h2: u64, l2: u64)
    by (bit_vector)
    ensures
        join(hi64(x), lo64(x)) == x,
        hi64(join(h, l)) == h,
        lo64(join(h, l)) == l,
        hi64(x ^ y) == hi64(x) ^ hi64(y),
        lo64(x ^ y) == lo64(x) ^ lo64(y),
        join(h ^ h2, l ^ l2) == join(h, l) ^ join(h2, l2),
        join(h, l) == join(h, 0) ^ join(0, l),
        (h ^ h2) ^ h2 == h,
        hi64(0) == 0,
        lo64(0) == 0,
        join(0, 0) == 0,
{
}

/// The round function: expansion, key addition, S-box and compression.
pub open spec fn round_fn(round: u8, main_key: u128, right: u64) -> u64 {
    compression_spec(s_box_spec(expansion_spec(right) ^ round_key_spec(round, main_key)))
}

/// The state `(left, right)` after the Feistel rounds `0 .. n`; each round maps
/// `(l, r)` to `(r, l ^ F(r))`.
pub open spec fn encrypt_rounds(main_key: u128, left: u64, right: u64, n: nat) -> (u64, u64)
    decreases n,
{
    if n == 0 {
        (left, right)
    } else {
        let (l, r) = encrypt_rounds(main_key, left, right, (n - 1) as nat);
        (r, l ^ round_fn((n - 1) as u8, main_key, r))
    }
}

/// The state `(left, right)` after the Feistel rounds `11, 10, .., 12 - n`.
pub open spec fn decrypt_rounds(main_key: u128, left: u64, right: u64, n: nat) -> (u64, u64)
    decreases n,
{
    if n == 0 {
        (left, right)
    } else {
        let (l, r) = decrypt_rounds(main_key, left, right, (n - 1) as nat);
        (r, l ^ round_fn((12 - n) as u8, main_key, r))
    }
}

/// Picaro encryption of a block. The halves are exchanged at the end, which undoes
/// the exchange of the last round.
pub open spec fn picaro_encrypt(main_key: u128, data: u128) -> u128 {
    let (l, r) = encrypt_rounds(main_key, hi64(data), lo64(data), 12);
    join(r, l)
}

/// Picaro decryption of a block: encryption with the round keys in reverse order.
pub open spec fn picaro_decrypt(main_key: u128, data: u128) -> u128 {
    let (l, r) = decrypt_rounds(main_key, hi64(data), lo64(data), 12);
    join(r, l)
}

proof fn lemma_decrypt_undoes_rounds(main_key: u128, left: u64, right: u64, n: nat)
    requires
        n <= 12,
    ensures
        ({
            let (l12, r12) = encrypt_rounds(main_key, left, right, 12);
            let (l, r) = encrypt_rounds(main_key, left, right, (12 - n) as nat);
            decrypt_rounds(main_key, r12, l12, n) == (r, l)
        }),
    decreases n,
{
    if n > 0 {
        lemma_decrypt_undoes_rounds(main_key, left, right, (n - 1) as nat);
        let (l, r) = encrypt_rounds(main_key, left, right, (12 - n) as nat);
        let f = round_fn((12 - n) as u8, main_key, r);
        lemma_halves(0, 0, l, 0, f, 0);
    }
}

/// Decryption undoes encryption: for every key and every block,
/// `decrypt(encrypt(p)) == p`.
pub proof fn lemma_decrypt_encrypt(main_key: u128, data: u128)
    ensures
        picaro_decrypt(main_key, picaro_encrypt(main_key, data)) == data,
{
    let (l12, r12) = encrypt_rounds(main_key, hi64(data), lo64(data), 12);
    lemma_halves(data, 0, r12, l12, 0, 0);
    lemma_decrypt_undoes_rounds(main_key, hi64(data), lo64(data), 12);
}

proof fn lemma_encrypt_undoes_rounds(main_key: u128, left: u64, right: u64, n: nat)
    requires
        n <= 12,
    ensures
        ({
            let (l12, r12) = decrypt_rounds(main_key, left, right, 12);
            let (l, r) = decrypt_rounds(main_key, left, right, (12 - n) as nat);
            encrypt_rounds(main_key, r12, l12, n) == (r, l)
        }),
    decreases n,
{
    if n > 0 {
        lemma_encrypt_undoes_rounds(main_key, left, right, (n - 1) as nat);
        let (l, r) = decrypt_rounds(main_key, left, right, (12 - n) as nat);
        let f = round_fn((n - 1) as u8, main_key, r);
        lemma_halves(0, 0, l, 0, f, 0);
    }
}

/// Encryption undoes decryption: for every key and every block,
/// `encrypt(decrypt(c)) == c`.
pub proof fn lemma_encrypt_decrypt(main_key: u128, data: u128)
    ensures
        picaro_encrypt(main_key, picaro_decrypt(main_key, data)) == data,
{
    let (l12, r12) = decrypt_rounds(main_key, hi64(data), lo64(data), 12);
    lemma_halves(data, 0, r12, l12, 0, 0);
    lemma_encrypt_undoes_rounds(main_key, hi64(data), lo64(data), 12);
}

/// The Picaro block cipher with `SHARE_COUNT` shares, that is, masking of order
/// `SHARE_COUNT - 1`.
pub struct Picaro<const SHARE_COUNT: usize> {
    main_key: u128,
    rng: ChaCha20Rng,
}

impl<const SHARE_COUNT: usize> Picaro<SHARE_COUNT> {
    /// The main key of the cipher.
    pub closed spec fn key(&self) -> u128 {
        self.main_key
    }

    /// Creates a new Picaro object using the given key; the generator that refreshes
    /// the masks is seeded with `seed`.
    /// The key must not be one of Picaro's four weak keys ([`is_weak_key`]).
    pub fn new_from_seed(main_key: u128, seed: u64) -> (r: Self)
        requires
            !weak_key(main_key),
        ensures
            r.key() == main_key,
    {
        Self { main_key, rng: rng_seed_from_u64(seed) }
    }

    /// Encrypts a block. The result is the same for every number of shares and every
    /// output of the generator.
    pub fn encrypt(&mut self, data: u128) -> (r: u128)
        requires
            SHARE_COUNT >= 1,
        ensures
            r == picaro_encrypt(old(self).key(), data),
            final(self).key() == old(self).key(),
    {
        let shares = split_u128::<SHARE_COUNT>(data, &mut self.rng);
        let key_shares = split_u128::<SHARE_COUNT>(self.main_key, &mut self.rng);
        let (mut left, mut right) = shares_u112_to_u64(shares);

        let mut round: u8 = 0;
        while round < 12
            invariant
                SHARE_COUNT >= 1,
                round <= 12,
                xor_all(key_shares@) == self.main_key,
                (xor_all64(left@), xor_all64(right@)) == encrypt_rounds(self.main_key, hi64(data), lo64(data), round as nat),
            decreases 12 - round,
        {
            self.round(round, &key_shares, &mut left, &right);
            let tmp = left;
            left = right;
            right = tmp;
            round += 1;
        }

        // We swap the order to undo the swap from the last iteration.
        merge_u128(shares_u64_to_u128(right, left))
    }

    /// Decrypts a block: exactly the same as encryption but with a reversed key
    /// schedule.
    pub fn decrypt(&mut self, data: u128) -> (r: u128)
        requires
            SHARE_COUNT >= 1,
        ensures
            r == picaro_decrypt(old(self).key(), data),
            final(self).key() == old(self).key(),
    {
        let shares = split_u128::<SHARE_COUNT>(data, &mut self.rng);
        let key_shares = split_u128::<SHARE_COUNT>(self.main_key, &mut self.rng);
        let (mut left, mut right) = shares_u112_to_u64(shares);

        let mut done: u8 = 0;
        while done < 12
            invariant
                SHARE_COUNT >= 1,
                done <= 12,
                xor_all(key_shares@) == self.main_key,
                (xor_all64(left@), xor_all64(right@)) == decrypt_rounds(self.main_key, hi64(data), lo64(data), done as nat),
            decreases 12 - done,
        {
            self.round(11 - done, &key_shares, &mut left, &right);
            let tmp = left;
            left = right;
            right = tmp;
            done += 1;
        }

        // We swap the order to undo the swap from the last iteration.
        merge_u128(shares_u64_to_u128(right, left))
    }

    /// One Feistel round on shares: `left` becomes `left ^ F(right)`.
    fn round(
        &mut self,
        round: u8,
        key_shares: &[u128; SHARE_COUNT],
        left: &mut [u64; SHARE_COUNT],
        right: &[u64; SHARE_COUNT],
    )
        requires
            round < 12,
        ensures
            xor_all64(final(left)@) == xor_all64(old(left)@) ^ round_fn(round, xor_all(key_shares@), xor_all64(right@)),
            final(self).main_key == old(self).main_key,
    {
        let mut state = share_expansion(*right);

        let mut round_keys = *key_shares;
        let mut i: usize = 0;
        while i < SHARE_COUNT
            invariant
                round < 12,
                i <= SHARE_COUNT,
                forall|j: int| 0 <= j < i ==> #[trigger] round_keys@[j] == round_key_spec(round, key_shares@[j]),
                forall|j: int| i <= j < SHARE_COUNT ==> #[trigger] round_keys@[j] == key_shares@[j],
            decreases SHARE_COUNT - i,
        {
            round_keys[i] = round_key(round, round_keys[i]);
            i += 1;
        }
        proof {
            let l = |x: u128| round_key_spec(round, x);
            assert forall|x: u128, y: u128| #[trigger] l(x ^ y) == l(x) ^ l(y) by {
                lemma_round_key_linear(round, x, y);
            }
            lemma_round_key_linear(round, 0, 0);
            lemma_xsum_linear(l, seq_fn(key_shares@), seq_fn(round_keys@), SHARE_COUNT as nat);
        }
        state = share_add_u112(state, round_keys);

        state = s_box(state, &mut self.rng);

        let result = share_compression(state);

        *left = share_add_u64(*left, result);
    }
}

/// Splits every 128-bit share into its high and low halves.
fn shares_u112_to_u64<const SHARE_COUNT: usize>(shares: [u128; SHARE_COUNT]) -> (r: (
    [u64; SHARE_COUNT],
    [u64; SHARE_COUNT],
))
    ensures
        forall|i: int| 0 <= i < SHARE_COUNT ==> #[trigger] r.0@[i] == hi64(shares@[i]),
        forall|i: int| 0 <= i < SHARE_COUNT ==> #[trigger] r.1@[i] == lo64(shares@[i]),
        xor_all64(r.0@) == hi64(xor_all(shares@)),
        xor_all64(r.1@) == lo64(xor_all(shares@)),
{
    let mut left = [0u64; SHARE_COUNT];
    let mut right = [0u64; SHARE_COUNT];
    let mut i: usize = 0;
    while i < SHARE_COUNT
        invariant
            i <= SHARE_COUNT,
            forall|j: int| 0 <= j < i ==> #[trigger] left@[j] == hi64(shares@[j]),
            forall|j: int| 0 <= j < i ==> #[trigger] right@[j] == lo64(shares@[j]),
        decreases SHARE_COUNT - i,
    {
        left[i] = (shares[i] >> 64u32) as u64;
        right[i] = shares[i] as u64;
        i += 1;
    }
    proof {
        let n = SHARE_COUNT as nat;
        let lh = |x: u128| hi64(x) as u128;
        let ll = |x: u128| lo64(x) as u128;
        assert forall|x: u128, y: u128| #[trigger] lh(x ^ y) == lh(x) ^ lh(y) by {
            lemma_halves(x, y, 0, 0, 0, 0);
            lemma_widen_xor(hi64(x), hi64(y), 0, 0);
        }
        assert forall|x: u128, y: u128| #[trigger] ll(x ^ y) == ll(x) ^ ll(y) by {
            lemma_halves(x, y, 0, 0, 0, 0);
            lemma_widen_xor(lo64(x), lo64(y), 0, 0);
        }
        lemma_halves(0, 0, 0, 0, 0, 0);
        lemma_xsum_linear(lh, seq_fn(shares@), seq_fn(widen64(left@)), n);
        lemma_xsum_linear(ll, seq_fn(shares@), seq_fn(widen64(right@)), n);
        lemma_widen_xor(hi64(xor_all(shares@)), lo64(xor_all(shares@)), 0, 0);
    }
    (left, right)
}

/// Joins the halves of every share.
fn shares_u64_to_u128<const SHARE_COUNT: usize>(
    left: [u64; SHARE_COUNT],
    right: [u64; SHARE_COUNT],
) -> (r: [u128; SHARE_COUNT])
    ensures
        forall|i: int| 0 <= i < SHARE_COUNT ==> #[trigger] r@[i] == join(left@[i], right@[i]),
        xor_all(r@) == join(xor_all64(left@), xor_all64(right@)),
{
    let mut result = [0u128; SHARE_COUNT];
    let mut i: usize = 0;
    while i < SHARE_COUNT
        invariant
            i <= SHARE_COUNT,
            forall|j: int| 0 <= j < i ==> #[trigger] result@[j] == join(left@[j], right@[j]),
        decreases SHARE_COUNT - i,
    {
        result[i] = ((left[i] as u128) << 64u32) | (right[i] as u128);
        i += 1;
    }
    proof {
        let n = SHARE_COUNT as nat;
        let jh = |x: u128| join(x as u64, 0);
        let jl = |x: u128| join(0, x as u64);
        assert forall|x: u128, y: u128| #[trigger] jh(x ^ y) == jh(x) ^ jh(y) by {
            lemma_xor_laws(x, y, 0, 0);
            lemma_halves(0, 0, x as u64, 0, y as u64, 0);
            lemma_halves(0, 0, 0, 0, 0, 0);
        }
        assert forall|x: u128, y: u128| #[trigger] jl(x ^ y) == jl(x) ^ jl(y) by {
            lemma_xor_laws(x, y, 0, 0);
            lemma_halves(0, 0, 0, x as u64, 0, y as u64);
            lemma_halves(0, 0, 0, 0, 0, 0);
        }
        lemma_halves(0, 0, 0, 0, 0, 0);
        let fh = |j: int| jh(seq_fn(widen64(left@))(j));
        let fl = |j: int| jl(seq_fn(widen64(right@))(j));
        assert forall|j: int| 0 <= j < n implies #[trigger] seq_fn(result@)(j) == fh(j) ^ fl(j) by {
            lemma_widen_xor(left@[j], right@[j], 0, 0);
            lemma_halves(0, 0, left@[j], right@[j], 0, 0);
        }
        lemma_xsum_linear(jh, seq_fn(widen64(left@)), fh, n);
        lemma_xsum_linear(jl, seq_fn(widen64(right@)), fl, n);
        lemma_xsum_pointwise(fh, fl, seq_fn(result@), n);
        lemma_halves(0, 0, xor_all64(left@), xor_all64(right@), 0, 0);
    }
    result
}

} // verus!
