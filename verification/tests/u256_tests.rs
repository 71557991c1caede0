use btclib::u256::{DecimalError, U256};

fn from_words(w0: u64, w1: u64, w2: u64, w3: u64) -> U256 {
    U256::from_words([w0, w1, w2, w3])
}

#[test]
fn decimal_round_trip_of_small_numbers() {
    assert_eq!(U256::from_u64(0).to_decimal(), b"0".to_vec());
    assert_eq!(U256::from_u64(7).to_decimal(), b"7".to_vec());
    assert_eq!(U256::from_u64(10).to_decimal(), b"10".to_vec());
    assert_eq!(U256::from_u64(1234567890).to_decimal(), b"1234567890".to_vec());
    assert_eq!(U256::from_decimal(b"1234567890"), Ok(U256::from_u64(1234567890)));
    assert_eq!(U256::from_decimal(b"007"), Ok(U256::from_u64(7)));
    assert_eq!(U256::from_u64(1234567890).to_string(), "1234567890");
}

#[test]
fn decimal_of_the_largest_value() {
    let text = b"115792089237316195423570985008687907853269984665640564039457584007913129639935";
    assert_eq!(U256::max_value().to_decimal(), text.to_vec());
    assert_eq!(U256::from_decimal(text), Ok(U256::max_value()));
    assert_eq!(U256::max_value().to_string().as_bytes(), text);
}

#[test]
fn decimal_of_a_power_of_two() {
    // 2^64
    assert_eq!(from_words(0, 1, 0, 0).to_decimal(), b"18446744073709551616".to_vec());
    assert_eq!(U256::from_decimal(b"18446744073709551616"), Ok(from_words(0, 1, 0, 0)));
    // 2^128
    assert_eq!(
        from_words(0, 0, 1, 0).to_decimal(),
        b"340282366920938463463374607431768211456".to_vec()
    );
}

#[test]
fn decimal_errors() {
    let too_large = b"115792089237316195423570985008687907853269984665640564039457584007913129639936";
    assert_eq!(U256::from_decimal(too_large), Err(DecimalError::Overflow));
    let far_too_large = [b'9'; 200];
    assert_eq!(U256::from_decimal(&far_too_large), Err(DecimalError::Overflow));
    assert_eq!(U256::from_decimal(b"12a"), Err(DecimalError::InvalidCharacter));
    assert_eq!(U256::from_decimal(b"-1"), Err(DecimalError::InvalidCharacter));
    assert_eq!(U256::from_decimal(b"1.5"), Err(DecimalError::InvalidCharacter));
    // A digit that is no digit counts, however large the number.
    let mut mixed = far_too_large.to_vec();
    mixed.push(b'x');
    assert_eq!(U256::from_decimal(&mixed), Err(DecimalError::InvalidCharacter));
    assert_eq!(U256::from_decimal(b""), Ok(U256::zero()));
}

#[test]
fn hexadecimal_text() {
    assert_eq!(U256::zero().to_hex(), b"0".to_vec());
    assert_eq!(U256::from_u64(255).to_hex(), b"ff".to_vec());
    assert_eq!(U256::from_u64(0x1234_abcd).to_hex_string(), "1234abcd");
    assert_eq!(from_words(0, 1, 0, 0).to_hex_string(), "10000000000000000");
    assert_eq!(U256::max_value().to_hex_string(), "f".repeat(64));
    assert_eq!(btclib::min_target().to_hex_string(), "f".repeat(60));
}

#[test]
fn order_goes_by_the_most_significant_word() {
    let small = from_words(u64::MAX, u64::MAX, u64::MAX, 0);
    let large = from_words(0, 0, 0, 1);
    assert!(small.lt(&large));
    assert!(small.le(&large));
    assert!(!large.le(&small));
    assert!(large.le(&large));
    assert!(!large.lt(&large));
    assert!(from_words(1, 2, 0, 0).lt(&from_words(0, 3, 0, 0)));
    assert_eq!(small.min(large), small);
    assert_eq!(large.min(small), small);
    assert!(U256::zero().is_zero());
    assert!(!large.is_zero());
}

#[test]
fn clamp_brings_a_value_between_two_bounds() {
    let low = U256::from_u64(10);
    let high = U256::from_u64(20);
    assert_eq!(U256::from_u64(5).clamp(low, high), low);
    assert_eq!(U256::from_u64(15).clamp(low, high), U256::from_u64(15));
    assert_eq!(U256::from_u64(25).clamp(low, high), high);
    assert_eq!(U256::from_u64(10).clamp(low, low), low);
}

#[test]
fn multiplication_carries_from_word_to_word() {
    let (low, carry) = U256::from_u64(u64::MAX).overflowing_mul_u64(u64::MAX);
    // (2^64 - 1)^2 = 2^128 - 2^65 + 1
    assert_eq!(low, from_words(1, u64::MAX - 1, 0, 0));
    assert_eq!(carry, 0);
    let (low, carry) = U256::max_value().overflowing_mul_u64(2);
    assert_eq!(low, from_words(u64::MAX - 1, u64::MAX, u64::MAX, u64::MAX));
    assert_eq!(carry, 1);
    assert_eq!(U256::max_value().checked_mul_u64(2), None);
    assert_eq!(U256::max_value().checked_mul_u64(1), Some(U256::max_value()));
    assert_eq!(U256::from_u64(6).checked_mul_u64(7), Some(U256::from_u64(42)));
    assert_eq!(btclib::min_target().checked_mul_u64(4), Some(from_words(u64::MAX - 3, u64::MAX, u64::MAX, 0x3_ffff_ffff_ffff)));
    assert_eq!(U256::max_value().checked_mul_u64(0), Some(U256::zero()));
}

#[test]
fn addition_carries_from_word_to_word() {
    let (sum, over) = from_words(u64::MAX, u64::MAX, 0, 0).overflowing_add_u64(1);
    assert_eq!(sum, from_words(0, 0, 1, 0));
    assert!(!over);
    let (sum, over) = U256::max_value().overflowing_add_u64(2);
    assert_eq!(sum, U256::from_u64(1));
    assert!(over);
}

#[test]
fn division_goes_from_the_most_significant_word_down() {
    assert_eq!(U256::from_u64(43).div_rem_u64(7), (U256::from_u64(6), 1));
    // 2^64 / 3 = 6148914691236517205 remainder 1
    assert_eq!(from_words(0, 1, 0, 0).div_rem_u64(3), (U256::from_u64(6148914691236517205), 1));
    assert_eq!(U256::max_value().div_rem_u64(u64::MAX), (from_words(1, 1, 1, 1), 0));
    assert_eq!(U256::max_value().div_u64(1), U256::max_value());
    assert_eq!(btclib::min_target().div_u64(4), from_words(u64::MAX, u64::MAX, u64::MAX, 0x3fff_ffff_ffff));
    assert_eq!(U256::zero().div_rem_u64(9), (U256::zero(), 0));
}

#[test]
fn bytes_come_least_significant_first() {
    let n = from_words(0x0807060504030201, 0, 0, 0xff00000000000000);
    let bytes = n.to_little_endian();
    assert_eq!(&bytes[..8], &[1, 2, 3, 4, 5, 6, 7, 8]);
    assert_eq!(bytes[31], 0xff);
    assert_eq!(U256::from_little_endian(&bytes), n);
    assert_eq!(U256::from_little_endian(&[]), U256::zero());
    assert_eq!(U256::from_little_endian(&[1, 1]), U256::from_u64(257));
    assert_eq!(U256::from_little_endian(&[0xff; 32]), U256::max_value());
    assert_eq!(U256::max_value().to_little_endian(), [0xff; 32]);
}

#[test]
fn the_easiest_target_has_its_top_sixteen_bits_clear() {
    let t = btclib::min_target();
    assert_eq!(t, from_words(u64::MAX, u64::MAX, u64::MAX, 0x0000_ffff_ffff_ffff));
    assert_eq!(btclib::INITIAL_REWARD, 50);
    assert_eq!(btclib::HALVING_INTERVAL, 210);
    assert_eq!(btclib::IDEAL_BLOCK_TIME, 10);
    assert_eq!(btclib::DIFFICULTY_UPDATE_INTERVAL, 50);
    assert_eq!(btclib::MAX_MEMPOOL_TRANSACTION_AGE, 600);
}
