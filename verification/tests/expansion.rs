use picaro_rs::compression::{compression, share_compression, G_LAST_SIX};
use picaro_rs::expansion::{expansion, share_expansion, G_LAST_SIX_TRANSPOSED};
use picaro_rs::masking::{merge_u128, merge_u64, split_u128, split_u64};
use rand_chacha::rand_core::SeedableRng;
use rand_chacha::ChaCha20Rng;

#[test]
fn test_expansion_first_col() {
    let input = 1;

    let output = expansion(input);

    assert_eq!(output, (0x0C09010A0101 << 8 * 8) | input as u128);
}

#[test]
fn test_expansion_all_ones() {
    let input = 0x0101010101010101;

    let output = expansion(input);

    for i in 0..6 {
        let sum = G_LAST_SIX_TRANSPOSED[6 - i - 1]
            .iter()
            .fold(0, |sum: u8, e: &u8| sum ^ *e);

        assert_eq!((output >> 8 * (8 + i)) as u8, sum);
    }
}

fn test_masked_expansion<const SHARE_COUNT: usize>(input: u64, rng: &mut ChaCha20Rng) -> u128 {
    let shares = split_u64::<SHARE_COUNT>(input, rng);
    let expanded = share_expansion(shares);
    merge_u128(expanded)
}

#[test]
fn expansion_masked() {
    let mut rng = ChaCha20Rng::seed_from_u64(12345);

    for i in 0..256 {
        let unmasked = test_masked_expansion::<1>(i, &mut rng);
        assert_eq!(unmasked, test_masked_expansion::<2>(i, &mut rng));
        assert_eq!(unmasked, test_masked_expansion::<3>(i, &mut rng));
        assert_eq!(unmasked, test_masked_expansion::<4>(i, &mut rng));
    }
}

fn test_masked_compression<const SHARE_COUNT: usize>(input: u128, rng: &mut ChaCha20Rng) -> u64 {
    let mut shares = split_u128::<SHARE_COUNT>(input << 16, rng);

    for i in 0..SHARE_COUNT {
        shares[i] >>= 16;
    }

    let compressed = share_compression(shares);
    merge_u64(compressed)
}

#[test]
fn compression_masked() {
    let mut rng = ChaCha20Rng::seed_from_u64(12345);

    for i in 0..256 {
        let unmasked = test_masked_compression::<1>(i, &mut rng);
        assert_eq!(unmasked, test_masked_compression::<2>(i, &mut rng));
        assert_eq!(unmasked, test_masked_compression::<3>(i, &mut rng));
        assert_eq!(unmasked, test_masked_compression::<4>(i, &mut rng));
    }
}

#[test]
fn expansion_keeps_low_half_and_is_linear() {
    let a = 0x0123_4567_89AB_CDEF_u64;
    let b = 0xF0E1_D2C3_B4A5_9687_u64;
    assert_eq!(expansion(a) as u64, a);
    assert_eq!(expansion(a) >> 112, 0);
    assert_eq!(expansion(a ^ b), expansion(a) ^ expansion(b));
    assert_eq!(expansion(0), 0);
}

#[test]
fn expansion_second_byte() {
    // Byte 1 of the input meets column 1 of the transposed table.
    let output = expansion(0x100);
    let expected: u128 = (0x09010A010105 << 64) | 0x100;
    assert_eq!(output, expected);
}

#[test]
fn compression_of_single_bytes() {
    // Bytes of the low half pass through unchanged.
    assert_eq!(compression(1), 1);
    assert_eq!(compression(1 << 56), 1 << 56);
    // The first parity byte meets the first column of the table: byte k of the result
    // gets entry (k, 0).
    assert_eq!(compression(1 << 64), 0x010A_0109_0C06_0501);
    // The last parity byte meets the last column.
    assert_eq!(compression(1 << 104), 0x0605_0101_0A01_090C);
}

#[test]
fn compression_table_is_transposed() {
    // Row j of the table used by the compression is column j of the expansion's table.
    for j in 0..8 {
        for c in 0..6 {
            assert_eq!(G_LAST_SIX[j][c], G_LAST_SIX_TRANSPOSED[c][j]);
        }
    }
}

#[test]
fn compression_is_linear() {
    let a = 0x1234_5678_9ABC_DEF0_1122_3344_5566_u128;
    let b = 0x0F0E_0D0C_0B0A_0908_0706_0504_0302_u128;
    assert_eq!(compression(a ^ b), compression(a) ^ compression(b));
    assert_eq!(compression(0), 0);
}
