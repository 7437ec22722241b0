use picaro_rs::masking::next_u128;
use picaro_rs::{is_weak_key, Picaro};
use rand_chacha::rand_core::SeedableRng;
use rand_chacha::ChaCha20Rng;

/// Tests that:
/// 1. The cipher text is different from the plaintext.
/// 2. Decrypting the ciphertext results in the plaintext.
///
/// Returns the cipher text.
fn encrypt_decrypt<const SHARE_COUNT: usize>(plaintext: u128, key: u128) -> u128 {
    let mut cipher = Picaro::<SHARE_COUNT>::new_from_seed(key, 12345);
    let ciphertext = cipher.encrypt(plaintext);

    assert_ne!(
        plaintext, ciphertext,
        "Ciphertext is same as plaintext (shares={SHARE_COUNT}, plaintext={plaintext}, key={key})"
    );

    let result = cipher.decrypt(ciphertext);
    assert_eq!(
        plaintext, result,
        "Final plaintext doesn't match (shares={SHARE_COUNT}, plaintext={plaintext}, key={key})"
    );

    ciphertext
}

/// For masking levels `0..=3`, tests that:
/// 1. The cipher text is different from the plaintext.
/// 2. Decrypting the ciphertext results in the plaintext.
/// 3. The ciphertext is the same for all masking levels.
fn encrypt_decrypt_masked(plaintext: u128, key: u128) {
    let unmasked = encrypt_decrypt::<1>(plaintext, key);
    assert_eq!(unmasked, encrypt_decrypt::<2>(plaintext, key));
    assert_eq!(unmasked, encrypt_decrypt::<3>(plaintext, key));
    assert_eq!(unmasked, encrypt_decrypt::<4>(plaintext, key));
}

#[test]
fn encrypt_decrypt_first_hundred_plaintext() {
    for i in 0..=100 {
        encrypt_decrypt_masked(i, 01234);
    }
}

#[test]
fn encrypt_decrypt_last_hundred_plaintext() {
    for i in (u128::MAX - 100)..=u128::MAX {
        encrypt_decrypt_masked(i, 01234);
    }
}

#[test]
fn encrypt_decrypt_first_hundred_keys() {
    // Skip first key since it is weak.
    for i in 1..=100 {
        encrypt_decrypt_masked(56789, i);
    }
}

#[test]
fn encrypt_decrypt_last_hundred_keys() {
    // Skip last key since it is weak.
    for i in (u128::MAX - 100)..u128::MAX {
        encrypt_decrypt_masked(56789, i);
    }
}

#[test]
fn encrypt_decrypt_random_hundred_plaintext() {
    let mut rng = ChaCha20Rng::seed_from_u64(01234);
    for _ in 0..100 {
        encrypt_decrypt_masked(next_u128(&mut rng), 56789);
    }
}

#[test]
fn encrypt_decrypt_random_hundred_keys() {
    let mut rng = ChaCha20Rng::seed_from_u64(01234);
    for _ in 0..100 {
        encrypt_decrypt_masked(56789, next_u128(&mut rng));
    }
}

#[test]
fn weak_keys_are_recognised() {
    assert!(is_weak_key(0));
    assert!(is_weak_key(u128::MAX));
    assert!(is_weak_key(0x55555555555555555555555555555555));
    assert!(is_weak_key(0xAAAAAAAAAAAAAAAAAAAAAAAAAAAAAAAA));
    assert!(!is_weak_key(1));
    assert!(!is_weak_key(01234));
    assert!(!is_weak_key(u128::MAX - 1));
}

#[test]
fn ciphertext_does_not_depend_on_seed() {
    let key = 0x0123_4567_89AB_CDEF_FEDC_BA98_7654_3210;
    let a = Picaro::<3>::new_from_seed(key, 1).encrypt(42);
    let b = Picaro::<3>::new_from_seed(key, 999).encrypt(42);
    let c = Picaro::<1>::new_from_seed(key, 7).encrypt(42);
    assert_eq!(a, b);
    assert_eq!(a, c);
}

#[test]
fn encryption_repeats_on_one_cipher() {
    let mut cipher = Picaro::<2>::new_from_seed(0xDEADBEEF, 5);
    let first = cipher.encrypt(1024);
    let second = cipher.encrypt(1024);
    assert_eq!(first, second);
    assert_eq!(cipher.decrypt(first), 1024);
}

#[test]
fn encryption_depends_on_key_and_block() {
    let mut a = Picaro::<1>::new_from_seed(1234, 12345);
    let mut b = Picaro::<1>::new_from_seed(1235, 12345);
    assert_ne!(a.encrypt(1024), b.encrypt(1024));
    assert_ne!(a.encrypt(1024), a.encrypt(1025));
}

/// The unmasked round function, from the public building blocks with one share.
fn round_fn(round: u8, key: u128, right: u64, rng: &mut ChaCha20Rng) -> u64 {
    let state = picaro_rs::expansion::expansion(right) ^ picaro_rs::key_schedule::round_key(round, key);
    let state = picaro_rs::s_box::s_box::<1>([state], rng)[0];
    picaro_rs::compression::compression(state)
}

#[test]
fn encryption_is_the_feistel_network() {
    let mut rng = ChaCha20Rng::seed_from_u64(4321);
    let key = 0x1357_9BDF_0246_8ACE_1357_9BDF_0246_8ACE_u128;
    for block in [0u128, 1, 0xFFFF_0000_FFFF_0000_1234_5678_9ABC_DEF0] {
        let (mut left, mut right) = ((block >> 64) as u64, block as u64);
        for round in 0..12 {
            let next = left ^ round_fn(round, key, right, &mut rng);
            left = right;
            right = next;
        }
        let expected = ((right as u128) << 64) | left as u128;
        assert_eq!(Picaro::<2>::new_from_seed(key, 3).encrypt(block), expected);

        let (mut left, mut right) = ((expected >> 64) as u64, expected as u64);
        for round in (0..12).rev() {
            let next = left ^ round_fn(round, key, right, &mut rng);
            left = right;
            right = next;
        }
        assert_eq!(((right as u128) << 64) | left as u128, block);
    }
}
