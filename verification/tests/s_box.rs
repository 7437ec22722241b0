use picaro_rs::masking::{merge_u128, merge_u8, split_u128, split_u8};
use picaro_rs::s_box::{s_box, s_box_byte};
use rand_chacha::rand_core::SeedableRng;
use rand_chacha::ChaCha20Rng;

#[test]
fn s_box_byte_values() {
    let mut rng = ChaCha20Rng::seed_from_u64(1234);
    // (h, l) -> (h^2 l, l^2 h): zero and the nibble pairs with a zero half go to zero.
    assert_eq!(merge_u8(s_box_byte(split_u8::<3>(0x00, &mut rng), &mut rng)), 0x00);
    assert_eq!(merge_u8(s_box_byte(split_u8::<3>(0x10, &mut rng), &mut rng)), 0x00);
    assert_eq!(merge_u8(s_box_byte(split_u8::<3>(0x01, &mut rng), &mut rng)), 0x00);
    // h = l = 1: both halves are 1.
    assert_eq!(merge_u8(s_box_byte(split_u8::<3>(0x11, &mut rng), &mut rng)), 0x11);
    // h = x, l = 1: h^2 l = x^2, l^2 h = x.
    assert_eq!(merge_u8(s_box_byte(split_u8::<2>(0x21, &mut rng), &mut rng)), 0x42);
}

#[test]
fn s_box_is_independent_of_masking() {
    let mut rng = ChaCha20Rng::seed_from_u64(1234);
    for b in 0..=u8::MAX {
        let unmasked = merge_u8(s_box_byte(split_u8::<1>(b, &mut rng), &mut rng));
        assert_eq!(unmasked, merge_u8(s_box_byte(split_u8::<2>(b, &mut rng), &mut rng)));
        assert_eq!(unmasked, merge_u8(s_box_byte(split_u8::<4>(b, &mut rng), &mut rng)));
    }
    let state = 0x0011_2233_4455_6677_8899_AABB_CCDD_u128;
    let unmasked = merge_u128(s_box(split_u128::<1>(state, &mut rng), &mut rng));
    let shares = s_box(split_u128::<3>(state, &mut rng), &mut rng);
    assert_eq!(unmasked, merge_u128(shares));
    for share in shares {
        assert_eq!(share >> 112, 0);
    }
    let bytes = unmasked.to_be_bytes();
    assert_eq!(bytes[15], merge_u8(s_box_byte(split_u8::<1>(0xDD, &mut rng), &mut rng)));
    assert_eq!(bytes[0], 0);
    assert_eq!(bytes[1], 0);
}
