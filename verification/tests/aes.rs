use picaro_rs::aes::{aes_affine_transformation, aes_inversion, aes_s_box};
use picaro_rs::masking::byte_ops::{byte_mult, byte_mult_u128, AES_S_BOX};
use picaro_rs::masking::{merge_u128, split_u128};
use rand_chacha::rand_core::SeedableRng;
use rand_chacha::ChaCha20Rng;

const FIRST_ROW_INVERSES: [u8; 16] = [
    0x00, 0x01, 0x8D, 0xF6, 0xCB, 0x52, 0x7B, 0xD1, 0xE8, 0x4F, 0x29, 0xC0, 0xB0, 0xE1, 0xE5, 0xC7,
];

const FIRST_ROW_S_BOX: [u8; 16] = [
    0x63, 0x7C, 0x77, 0x7B, 0xF2, 0x6B, 0x6F, 0xC5, 0x30, 0x01, 0x67, 0x2B, 0xFE, 0xD7, 0xAB, 0x76,
];

fn inversion_row<const N: usize>(rng: &mut ChaCha20Rng) {
    for i in 0..16 {
        let result = aes_inversion(split_u128::<N>(i, rng), rng);
        assert_eq!(merge_u128(result).to_be_bytes()[15], FIRST_ROW_INVERSES[i as usize]);
    }
}

fn s_box_row<const N: usize>(rng: &mut ChaCha20Rng) {
    for i in 0..16 {
        let result = aes_s_box(split_u128::<N>(i, rng), rng);
        assert_eq!(merge_u128(result).to_be_bytes()[15], FIRST_ROW_S_BOX[i as usize]);
    }
}

#[test]
fn test_aes_inversion() {
    let mut rng = ChaCha20Rng::seed_from_u64(12345);
    inversion_row::<1>(&mut rng);
    inversion_row::<2>(&mut rng);
    inversion_row::<3>(&mut rng);
    inversion_row::<4>(&mut rng);
}

#[test]
fn test_aes_s_box() {
    let mut rng = ChaCha20Rng::seed_from_u64(12345);
    s_box_row::<1>(&mut rng);
    s_box_row::<2>(&mut rng);
    s_box_row::<3>(&mut rng);
    s_box_row::<4>(&mut rng);
}

#[test]
fn inversion() {
    let mut rng = ChaCha20Rng::seed_from_u64(12345);
    inversion_row::<4>(&mut rng);
}

#[test]
fn aes() {
    let mut rng = ChaCha20Rng::seed_from_u64(12345);
    s_box_row::<4>(&mut rng);
}

#[test]
fn aes_byte_mult() {
    assert_eq!(byte_mult::<AES_S_BOX>(0x57, 0x83), 0xC1);
    assert_eq!(byte_mult::<AES_S_BOX>(0x57, 0x13), 0xFE);
    assert_eq!(byte_mult::<AES_S_BOX>(0x57, 0x02), 0xAE);
    assert_eq!(byte_mult::<AES_S_BOX>(0x57, 0x04), 0x47);
}

#[test]
fn inversion_every_byte_at_once() {
    // Each byte of the word is inverted on its own.
    let mut rng = ChaCha20Rng::seed_from_u64(7);
    let x = u128::from_be_bytes([
        0x0F, 0x0E, 0x0D, 0x0C, 0x0B, 0x0A, 0x09, 0x08, 0x07, 0x06, 0x05, 0x04, 0x03, 0x02, 0x01, 0x00,
    ]);
    let inverse = merge_u128(aes_inversion(split_u128::<3>(x, &mut rng), &mut rng)).to_be_bytes();
    for j in 0..16 {
        assert_eq!(inverse[j], FIRST_ROW_INVERSES[15 - j]);
    }
    // Every nonzero byte times its inverse is one.
    let product = byte_mult_u128::<AES_S_BOX>(x, u128::from_be_bytes(inverse)).to_be_bytes();
    for j in 0..15 {
        assert_eq!(product[j], 1);
    }
    assert_eq!(product[15], 0);
}

#[test]
fn affine_transformation_adds_constant_per_share() {
    // The affine map of 0 is 0; each share then gets the constant.
    let shares = aes_affine_transformation([0u128; 3]);
    assert_eq!(shares, [0x63, 0x63, 0x63]);
    let shares = aes_affine_transformation([0u128; 2]);
    assert_eq!(merge_u128(shares), 0);
    // 1 goes to 1 ^ 2 ^ 4 ^ 8 ^ 16 = 0x1F.
    assert_eq!(aes_affine_transformation([1u128]), [0x1F ^ 0x63]);
}
