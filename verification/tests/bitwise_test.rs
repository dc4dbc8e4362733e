use xbits::bitwise::{
    bit_all_one, bit_all_zero, bit_be_and, bit_be_or, bit_be_xor, bit_fill, bit_get,
    bit_le_and, bit_le_or, bit_le_xor, bit_leading_zeros, bit_not, bit_reverse, bit_set,
    bit_shl, bit_shr, bit_trailing_zeros,
};

#[test]
fn test_bit_shl() {
    let mut data = vec![0b1111_1111u8, 0b0000_0000];
    assert_eq!(bit_shl(&mut data, 4), true);
    assert_eq!(data, [0b1111_0000, 0b0000_0000]);
}

#[test]
fn test_bit_shr() {
    let mut data = vec![0b1111_1111u8, 0b0000_0000];
    assert_eq!(bit_shr(&mut data, 4), false);
    assert_eq!(data, [0b0000_1111, 0b1111_0000]);
    let mut one = vec![0b1u8];
    assert_eq!(bit_shr(&mut one, 1), true);
}

#[test]
fn test_bit_reverse() {
    let mut data = vec![0b1111_1100u8, 0b1100_0000];
    bit_reverse(&mut data);
    assert_eq!(data, [0b0000_0011, 0b0011_1111]);
}

#[test]
fn test_bit_shl_full_width() {
    // Shifting by the whole width (or more) clears the buffer and
    // reports overflow, even when the buffer held only zeros.
    let mut data = vec![0b0000_1111u8];
    assert_eq!(bit_shl(&mut data, 8), true);
    assert_eq!(data, [0]);
    let mut data = vec![0u8, 0];
    assert_eq!(bit_shl(&mut data, 16), true);
    assert_eq!(data, [0, 0]);
}

#[test]
fn test_bit_shift_round_trip() {
    // Left then right: the high bits that were shifted out are cleared;
    // with no overflow the buffer comes back unchanged.
    let mut data = vec![0b0000_1101u8, 0b1010_0101];
    assert_eq!(bit_shl(&mut data, 4), false);
    assert_eq!(bit_shr(&mut data, 4), false);
    assert_eq!(data, [0b0000_1101, 0b1010_0101]);

    let mut data = vec![0b1011_0001u8];
    assert_eq!(bit_shl(&mut data, 2), true);
    assert_eq!(bit_shr(&mut data, 2), false);
    assert_eq!(data, [0b0011_0001]);
}

#[test]
fn test_bit_not() {
    let mut data = vec![0b0000_1111u8, 0b0000_0011];
    bit_not(&mut data);
    assert_eq!(data, [0b1111_0000, 0b1111_1100]);
}

#[test]
fn test_bit_be_logic() {
    let mut data = vec![0b0011_0011u8, 0b0011_0011];
    bit_be_and(&mut data, &vec![0b1111_1111]);
    assert_eq!(data, [0b0000_0000, 0b0011_0011]);

    let mut data = vec![0b0011_0011u8, 0b0011_0011];
    bit_be_or(&mut data, &vec![0b1111_1111]);
    assert_eq!(data, [0b0011_0011, 0b1111_1111]);

    let mut data = vec![0b0011_0011u8, 0b0011_0011];
    bit_be_xor(&mut data, &vec![0b1111_1111]);
    assert_eq!(data, [0b0011_0011, 0b1100_1100]);
}

#[test]
fn test_bit_le_logic() {
    let mut data = vec![0b0011_0011u8, 0b0011_0011];
    bit_le_and(&mut data, &vec![0b1111_1111]);
    assert_eq!(data, [0b0011_0011, 0b0000_0000]);

    let mut data = vec![0b0011_0011u8, 0b0011_0011];
    bit_le_or(&mut data, &vec![0b1111_1111]);
    assert_eq!(data, [0b1111_1111, 0b0011_0011]);

    let mut data = vec![0b0011_0011u8, 0b0011_0011];
    bit_le_xor(&mut data, &vec![0b1111_1111]);
    assert_eq!(data, [0b1100_1100, 0b0011_0011]);
}

#[test]
fn test_bit_counts() {
    assert_eq!(bit_leading_zeros(&vec![0b0001_0000, 0b1000_0011]), 3);
    assert_eq!(bit_leading_zeros(&vec![0b0000_0000, 0b1000_0011]), 8);
    assert_eq!(bit_leading_zeros(&vec![0b0000_0000, 0b0001_0011]), 11);
    assert_eq!(bit_leading_zeros(&vec![0b0000_0000, 0b0000_0000]), 16);
    assert_eq!(bit_leading_zeros(&vec![0b0000_1111]), 4);
    assert_eq!(bit_leading_zeros(&vec![0, 0]), 16);

    assert_eq!(bit_trailing_zeros(&vec![0b0000_1111, 0b0000_1000]), 3);
    assert_eq!(bit_trailing_zeros(&vec![0b0000_1111, 0b0000_0000]), 8);
    assert_eq!(bit_trailing_zeros(&vec![0b1111_1000, 0b0000_0000]), 11);
    assert_eq!(bit_trailing_zeros(&vec![0b0000_0000, 0b0000_0000]), 16);
}

#[test]
fn test_bit_predicates_and_access() {
    assert_eq!(bit_all_zero(&vec![0, 0, 0]), true);
    assert_eq!(bit_all_zero(&vec![0, 1, 0]), false);
    assert_eq!(bit_all_one(&vec![0xff, 0xff]), true);
    assert_eq!(bit_all_one(&vec![0xff, 0xfe]), false);

    let mut data = vec![0u8, 0];
    bit_set(&mut data, 3, true);
    assert_eq!(data, [0b0001_0000, 0]);
    assert_eq!(bit_get(&data, 3), true);
    assert_eq!(bit_get(&data, 4), false);
    bit_set(&mut data, 3, false);
    assert_eq!(data, [0, 0]);

    let mut data = vec![0u8, 0];
    bit_fill(&mut data, true);
    assert_eq!(data, [0xff, 0xff]);
    bit_fill(&mut data, false);
    assert_eq!(data, [0, 0]);
}

#[test]
fn test_bit_shl_reports_lost_ones() {
    let mut data = vec![0b1111_1111u8, 0b1111_1111];
    assert_eq!(bit_shl(&mut data, 4), true);
    assert_eq!(data, [0b1111_1111, 0b1111_0000]);
}
