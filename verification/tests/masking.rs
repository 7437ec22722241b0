use picaro_rs::masking::byte_ops::{byte_mult_u128, byte_square_u128, AES_S_BOX};
use picaro_rs::masking::nibble_ops::{
    nibble_mult, nibble_mult_byte, nibble_mult_u128, nibble_square, nibble_square_byte,
    nibble_square_u128, PICARO_S_BOX,
};
use picaro_rs::masking::share_nibble_ops::{share_nibble_mult, share_nibble_square};
use picaro_rs::masking::share_ops::{share_mult, share_square};
use picaro_rs::masking::{
    merge_u128, merge_u64, merge_u8, refresh_masks, share_add_u112, share_add_u64, share_add_u8,
    split_u128, split_u64, split_u8,
};
use rand_chacha::rand_core::SeedableRng;
use rand_chacha::ChaCha20Rng;

const PX: u16 = AES_S_BOX;
const NX: u8 = PICARO_S_BOX;

fn split(secret: u128, rng: &mut ChaCha20Rng) -> [u128; 4] {
    split_u128::<4>(secret, rng)
}

fn merge(shares: [u128; 4]) -> u128 {
    merge_u128(shares)
}

#[test]
fn split_merge_u128() {
    let mut rng = ChaCha20Rng::seed_from_u64(12345);
    let secret = 12345;

    assert_eq!(merge_u128::<1>(split_u128::<1>(secret, &mut rng)), secret);
    assert_eq!(merge_u128::<2>(split_u128::<2>(secret, &mut rng)), secret);
    assert_eq!(merge_u128::<3>(split_u128::<3>(secret, &mut rng)), secret);
    assert_eq!(merge_u128::<4>(split_u128::<4>(secret, &mut rng)), secret);
}

#[test]
fn split_merge_u64() {
    let mut rng = ChaCha20Rng::seed_from_u64(12345);
    let secret = 12345;

    assert_eq!(merge_u64::<1>(split_u64::<1>(secret, &mut rng)), secret);
    assert_eq!(merge_u64::<2>(split_u64::<2>(secret, &mut rng)), secret);
    assert_eq!(merge_u64::<3>(split_u64::<3>(secret, &mut rng)), secret);
    assert_eq!(merge_u64::<4>(split_u64::<4>(secret, &mut rng)), secret);
}

#[test]
fn split_merge_u8_and_refresh() {
    let mut rng = ChaCha20Rng::seed_from_u64(12345);
    for secret in 0..=u8::MAX {
        assert_eq!(merge_u8(split_u8::<3>(secret, &mut rng)), secret);
    }
    let mut shares = split_u128::<4>(0xCAFE, &mut rng);
    let before = shares;
    refresh_masks(&mut shares, &mut rng);
    assert_ne!(shares, before);
    assert_eq!(merge_u128(shares), 0xCAFE);
    assert_eq!(split_u128::<1>(77, &mut rng), [77]);
}

#[test]
fn share_add_merges_to_sum() {
    let mut rng = ChaCha20Rng::seed_from_u64(99);
    let a = split_u64::<3>(0xF0F0, &mut rng);
    let b = split_u64::<3>(0x0FF0, &mut rng);
    assert_eq!(merge_u64(share_add_u64(a, b)), 0xFF00);
}

#[test]
fn share_ops_linear_addition() {
    let mut rng = ChaCha20Rng::seed_from_u64(12345);

    for a in 0..255 {
        for b in 0..255 {
            let shares = share_add_u112(split(a, &mut rng), split(b, &mut rng));

            assert_eq!(merge(shares), a ^ b);
        }
    }
}

#[test]
fn share_ops_linear_squaring() {
    let mut rng = ChaCha20Rng::seed_from_u64(12345);

    for i in 0..255 {
        let shares = share_square::<PX, 4>(split(i, &mut rng), 1);

        assert_eq!(merge(shares), byte_square_u128::<PX>(i));
    }
}

#[test]
fn share_ops_linear_double_square() {
    let mut rng = ChaCha20Rng::seed_from_u64(12345);

    for i in 0..255 {
        let shares = share_square::<PX, 4>(split(i, &mut rng), 2);

        assert_eq!(merge(shares), byte_square_u128::<PX>(byte_square_u128::<PX>(i)));
    }
}

#[test]
fn share_ops_linear_quadruple_square() {
    let mut rng = ChaCha20Rng::seed_from_u64(12345);

    for i in 0..255 {
        let shares = share_square::<PX, 4>(split(i, &mut rng), 3);

        assert_eq!(
            merge(shares),
            byte_square_u128::<PX>(byte_square_u128::<PX>(byte_square_u128::<PX>(i)))
        );
    }
}

#[test]
fn share_ops_linear_multiplication() {
    let mut rng = ChaCha20Rng::seed_from_u64(12345);

    for a in 0..255 {
        for b in 0..255 {
            let shares = share_mult::<PX, 4>(split(a, &mut rng), split(b, &mut rng), &mut rng);

            assert_eq!(merge(shares), byte_mult_u128::<PX>(a, b));
        }
    }
}

#[test]
fn operations_linear_addition() {
    let mut rng = ChaCha20Rng::seed_from_u64(12345);

    for a in 0..255 {
        for b in 0..255 {
            let shares = share_add_u112(split(a, &mut rng), split(b, &mut rng));

            assert_eq!(merge(shares), a ^ b);
        }
    }
}

#[test]
fn operations_linear_squaring() {
    let mut rng = ChaCha20Rng::seed_from_u64(12345);

    for i in 0..255 {
        let shares = share_square::<AES_S_BOX, 4>(split(i, &mut rng), 1);

        assert_eq!(merge(shares), byte_square_u128::<AES_S_BOX>(i));
    }
}

#[test]
fn operations_linear_double_square() {
    let mut rng = ChaCha20Rng::seed_from_u64(12345);

    for i in 0..255 {
        let shares = share_square::<AES_S_BOX, 4>(split(i, &mut rng), 2);

        assert_eq!(merge(shares), byte_square_u128::<AES_S_BOX>(byte_square_u128::<AES_S_BOX>(i)));
    }
}

#[test]
fn operations_linear_quadruple_square() {
    let mut rng = ChaCha20Rng::seed_from_u64(12345);

    for i in 0..255 {
        let shares = share_square::<AES_S_BOX, 4>(split(i, &mut rng), 3);

        assert_eq!(
            merge(shares),
            byte_square_u128::<AES_S_BOX>(byte_square_u128::<AES_S_BOX>(byte_square_u128::<AES_S_BOX>(i)))
        );
    }
}

#[test]
fn operations_linear_multiplication() {
    let mut rng = ChaCha20Rng::seed_from_u64(12345);

    for a in 0..255 {
        for b in 0..255 {
            let shares = share_mult::<AES_S_BOX, 4>(split(a, &mut rng), split(b, &mut rng), &mut rng);

            assert_eq!(merge(shares), byte_mult_u128::<AES_S_BOX>(a, b));
        }
    }
}

#[test]
fn share_nibble_ops_linear_addition() {
    let mut rng = ChaCha20Rng::seed_from_u64(12345);

    for a in 0..u8::MAX {
        for b in 0..u8::MAX {
            let shares = share_add_u8::<2>(split_u8(a, &mut rng), split_u8(b, &mut rng));

            assert_eq!(merge_u8(shares), a ^ b);
        }
    }
}

#[test]
fn share_nibble_ops_linear_squaring() {
    let mut rng = ChaCha20Rng::seed_from_u64(12345);

    for i in 0..u8::MAX {
        let shares = share_nibble_square::<NX, 2>(split_u8(i, &mut rng));

        assert_eq!(merge_u8(shares), nibble_square_byte::<NX>(i));
    }
}

#[test]
fn share_nibble_ops_linear_multiplication() {
    let mut rng = ChaCha20Rng::seed_from_u64(12345);

    for a in 0..u8::MAX {
        for b in 0..u8::MAX {
            let shares = share_nibble_mult::<NX, 2>(
                split_u8(a, &mut rng),
                split_u8(b, &mut rng),
                &mut rng,
            );

            assert_eq!(merge_u8(shares), nibble_mult_byte::<NX>(a, b));
        }
    }
}

#[test]
fn masked_multiplication_with_many_shares() {
    let mut rng = ChaCha20Rng::seed_from_u64(3);
    let a = 0x0102_0304_0506_0708_090A_0B0C_0D0E_0F10_u128;
    let b = 0xFFEE_DDCC_BBAA_9988_7766_5544_3322_1100_u128;
    let product = byte_mult_u128::<PX>(a, b);
    assert_eq!(merge_u128(share_mult::<PX, 5>(split_u128(a, &mut rng), split_u128(b, &mut rng), &mut rng)), product);
    assert_eq!(merge_u128(share_mult::<PX, 1>(split_u128(a, &mut rng), split_u128(b, &mut rng), &mut rng)), product);
    for x in 0..=u8::MAX {
        for y in [0u8, 1, 0x35, 0xFF] {
            let s = share_nibble_mult::<NX, 3>(split_u8(x, &mut rng), split_u8(y, &mut rng), &mut rng);
            assert_eq!(merge_u8(s), nibble_mult_byte::<NX>(x, y));
        }
    }
}

#[test]
fn nibble_field_values() {
    // In GF(16) with x^4 + x^3 + 1: x * x^3 = x^4 = x^3 + 1.
    assert_eq!(nibble_mult::<NX>(0b0010, 0b1000), 0b1001);
    assert_eq!(nibble_square::<NX>(0b0100), 0b1001);
    assert_eq!(nibble_mult::<NX>(0b0001, 0b1011), 0b1011);
    assert_eq!(nibble_mult::<NX>(0, 0b1011), 0);
    // The two halves of the byte result are exchanged.
    assert_eq!(nibble_mult_byte::<NX>(0x21, 0x81), 0x19);
    assert_eq!(nibble_square_byte::<NX>(0x41), 0x19);
    assert_eq!(nibble_square_u128::<NX>(0x41), 0x19);
    assert_eq!(nibble_mult_u128::<NX>(0x2100, 0x8100), 0x1900);
}

#[test]
fn byte_field_values() {
    // AES: {53} * {CA} = {01}.
    assert_eq!(byte_mult_u128::<AES_S_BOX>(0x53, 0xCA), 0x01);
    assert_eq!(byte_square_u128::<AES_S_BOX>(0x80), 0x9A);
    assert_eq!(byte_square_u128::<AES_S_BOX>(0x8000), 0x9A00);
}

#[test]
fn split_with_one_share_leaves_generator_untouched() {
    let mut rng = ChaCha20Rng::seed_from_u64(2024);
    let before = rng.clone();
    assert_eq!(split_u128::<1>(0xABCD, &mut rng), [0xABCD]);
    assert_eq!(split_u64::<1>(0xAB, &mut rng), [0xAB]);
    assert_eq!(split_u8::<1>(0xA, &mut rng), [0xA]);
    assert!(rng == before);
    let _ = split_u128::<2>(0xABCD, &mut rng);
    assert!(rng != before);
}
