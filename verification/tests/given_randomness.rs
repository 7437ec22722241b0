use picaro_rs::aes::{aes_inversion_with, aes_s_box_with};
use picaro_rs::masking::byte_ops::AES_S_BOX;
use picaro_rs::masking::nibble_ops::PICARO_S_BOX;
use picaro_rs::masking::share_nibble_ops::share_nibble_mult_with_table;
use picaro_rs::masking::share_ops::share_mult_with_table;
use picaro_rs::masking::{
    join_words, merge_u128, merge_u8, refresh_with, split_u128_with, split_u64_with, split_u8_with,
};
use picaro_rs::s_box::{s_box_byte_with, s_box_with};
use picaro_rs::Picaro;

#[test]
fn readme_example() {
    let key = 1234;
    let plaintext = 1024;

    let mut cipher = Picaro::<4>::new_from_seed(key, 12345);
    let ciphertext = cipher.encrypt(plaintext);

    assert_ne!(plaintext, ciphertext);

    let result = cipher.decrypt(ciphertext);

    assert_eq!(plaintext, result);
}

#[test]
fn split_with_given_masks() {
    // Share 0 carries the secret plus masks 1 and 2; the first mask entry is not used.
    assert_eq!(split_u128_with::<3>(5, [0xFFFF, 1, 2]), [5 ^ 1 ^ 2, 1, 2]);
    assert_eq!(split_u64_with::<3>(0xF0, [7, 0x0F, 0x33]), [0xF0 ^ 0x0F ^ 0x33, 0x0F, 0x33]);
    assert_eq!(split_u8_with::<2>(0xAA, [0, 0x55]), [0xFF, 0x55]);
    assert_eq!(split_u128_with::<1>(42, [9]), [42]);
}

#[test]
fn refresh_with_given_masks() {
    let mut shares: [u128; 3] = [10, 20, 30];
    refresh_with(&mut shares, [99, 1, 2]);
    assert_eq!(shares, [10 ^ 1 ^ 2, 20 ^ 1, 30 ^ 2]);
    assert_eq!(merge_u128(shares), 10 ^ 20 ^ 30);

    let mut single: [u128; 1] = [77];
    refresh_with(&mut single, [5]);
    assert_eq!(single, [77]);
}

#[test]
fn join_words_places_halves() {
    assert_eq!(join_words(1, 2), (1u128 << 64) | 2);
    assert_eq!(join_words(0, u64::MAX), u64::MAX as u128);
    assert_eq!(join_words(u64::MAX, 0), (u64::MAX as u128) << 64);
}

#[test]
fn share_mult_with_given_table() {
    // In GF(2^8): 2 * 3 = 6, 2 * 1 = 2, 3 * 3 = 5, 3 * 1 = 3.
    let a: [u128; 2] = [2, 3];
    let b: [u128; 2] = [3, 1];
    let upper: [[u128; 2]; 2] = [[0, 0x77], [0, 0]];
    let r = share_mult_with_table::<AES_S_BOX, 2>(a, b, upper);
    // Share 0: a0 b0 + t01; share 1: a1 b1 + (t01 + a0 b1 + a1 b0).
    assert_eq!(r, [6 ^ 0x77, 3 ^ 0x77 ^ 2 ^ 5]);
    // The secrets are 1 and 2.
    assert_eq!(merge_u128(r), 2);
}

#[test]
fn share_nibble_mult_with_given_table() {
    // Nibble products land in the high half: 2 * 3 = 6, 2 * 1 = 2, 3 * 3 = 5, 3 * 1 = 3.
    let a: [u8; 2] = [0x02, 0x03];
    let b: [u8; 2] = [0x03, 0x01];
    let upper: [[u8; 2]; 2] = [[0, 0x07], [0, 0]];
    let r = share_nibble_mult_with_table::<PICARO_S_BOX, 2>(a, b, upper);
    assert_eq!(r, [0x60 ^ 0x07, 0x30 ^ 0x07 ^ 0x20 ^ 0x50]);
    assert_eq!(merge_u8(r), 0x20);
}

#[test]
fn s_box_byte_with_given_table() {
    // (h, l) = (x, 1) goes to (x^2, x); the table word masks share 0 and becomes share 1.
    assert_eq!(s_box_byte_with::<2>([0x21, 0x00], [[0, 0], [0, 0]]), [0x42, 0x00]);
    assert_eq!(s_box_byte_with::<2>([0x21, 0x00], [[0, 0x5A], [0, 0]]), [0x42 ^ 0x5A, 0x5A]);
    assert_eq!(s_box_byte_with::<1>([0x11], [[0]]), [0x11]);
}

#[test]
fn s_box_with_given_tables() {
    let tables = [[[0u8; 1]; 1]; 14];
    assert_eq!(s_box_with::<1>([0x21], tables), [0x42]);
    assert_eq!(s_box_with::<1>([0x2111], tables), [0x4211]);
}

#[test]
fn aes_inversion_with_given_randomness() {
    // Without randomness the second share stays zero.
    let masks = [[0u128; 2]; 2];
    let tables = [[[0u128; 2]; 2]; 4];
    assert_eq!(aes_inversion_with::<2>([2, 0], masks, tables), [0x8D, 0]);
    // With randomness the shares change, the secret does not.
    let masks = [[0, 7], [0, 0x1234]];
    let tables = [[[0, 0x55], [0, 0]], [[0, 9], [0, 0]], [[0, 0xAB], [0, 0]], [[0, 1], [0, 0]]];
    assert_eq!(merge_u128(aes_inversion_with::<2>([2, 0], masks, tables)), 0x8D);
    assert_eq!(merge_u128(aes_inversion_with::<2>([0x13, 0x11], masks, tables)), 0x8D);
}

#[test]
fn aes_s_box_with_given_randomness() {
    let masks = [[0u128; 1]; 2];
    let tables = [[[0u128; 1]; 1]; 4];
    assert_eq!(aes_s_box_with::<1>([0x01], masks, tables), [0x7C]);
    // With two shares the constant is added to share 0 twice.
    let masks = [[0u128; 2]; 2];
    let tables = [[[0u128; 2]; 2]; 4];
    assert_eq!(aes_s_box_with::<2>([0x01, 0], masks, tables), [0x1F, 0x63]);
}
