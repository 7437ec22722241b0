use picaro_rs::key_schedule::{round_key, OMEGA};

/// Each 32-bit word replaced by the exclusive or of the three others.
fn t(key: u128) -> u128 {
    let w = [(key >> 96) as u32, (key >> 64) as u32, (key >> 32) as u32, key as u32];
    let total = w[0] ^ w[1] ^ w[2] ^ w[3];
    ((((total ^ w[0]) as u128) << 96)
        | (((total ^ w[1]) as u128) << 64)
        | (((total ^ w[2]) as u128) << 32)
        | ((total ^ w[3]) as u128))
}

#[test]
fn round_keys_follow_the_schedule() {
    let key = 0x0011_2233_4455_6677_8899_AABB_CCDD_EEFF_u128;
    assert_eq!(round_key(0, key), key >> 16);
    for round in 1..12u8 {
        let omega = OMEGA[(round - 1) as usize];
        let extended = if round % 2 == 0 { t(key).rotate_right(omega) } else { key.rotate_right(omega) };
        assert_eq!(round_key(round, key), extended >> 16);
        assert_eq!(round_key(round, key) >> 112, 0);
    }
}

#[test]
fn t_of_a_single_word() {
    // Only the first word is set: every other word becomes that word, the first zero.
    let key = 0xDEAD_BEEF_u128 << 96;
    let expected = (0xDEAD_BEEF_u128 << 64) | (0xDEAD_BEEF_u128 << 32) | 0xDEAD_BEEF_u128;
    assert_eq!(round_key(2, key), expected.rotate_right(16) >> 16);
}

#[test]
fn round_keys_are_linear() {
    let a = 0x0123_4567_89AB_CDEF_0F1E_2D3C_4B5A_6978_u128;
    let b = 0xFEDC_BA98_7654_3210_F0E1_D2C3_B4A5_9687_u128;
    for round in 0..12u8 {
        assert_eq!(round_key(round, a ^ b), round_key(round, a) ^ round_key(round, b));
        assert_eq!(round_key(round, 0), 0);
    }
}
