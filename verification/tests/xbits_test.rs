use xbits::bitwise::bit_get;
use xbits::{BitsMut, BitsRef, NBits, ToBits};

#[test]
fn test_nbits() {
    let mut nbits = NBits::new(4);
    nbits.0[0] = 0b10101010;
    assert_eq!(nbits.bit(0), true);
    assert_eq!(nbits.bit(1), false);
    assert_eq!(nbits.bit(2), true);
    assert_eq!(nbits.bit(3), false);
    assert_eq!(nbits.bit(4), true);
    assert_eq!(nbits.bit(5), false);
    assert_eq!(nbits.bit(6), true);
    assert_eq!(nbits.bit(7), false);
}

#[test]
fn test_xbits() {
    let buf = vec![0b00000001_u8, 0b00000010, 0b00000100];
    assert_eq!(
        BitsRef(buf.clone()).bit_string(),
        "00000001 00000010 00000100"
    );

    // xor twice with values of different widths restores the buffer
    assert_eq!(
        BitsMut(buf.clone())
            .xor(&5555_u16.to_bits())
            .xor(&5555_u64.to_bits())
            .0,
        buf
    );

    // single-bit reads agree with the bit-sequence view
    let bits = BitsRef(buf.clone()).iter();
    for i in 0..buf.len() {
        assert_eq!(bit_get(&buf, i), bits[i]);
    }

    // a fluent chain ending in a read-only query
    let _ = BitsMut(buf.clone())
        .and(&88_u16.to_bits())
        .not()
        .set(5, true)
        .or(&0xff_u32.to_bits())
        .reverse()
        .shl(3)
        .shr(5)
        .to_ref()
        .leading_zeros();

    // reverse
    let vs = BitsMut(vec![0b1111_1111, 0b1100_0000]).reverse().0;
    assert_eq!(vs, [0b0000_0011, 0b1111_1111]);
}

#[test]
fn test_bitwise() {
    let buf = BitsMut(vec![0b00000001_u8, 0b00000010, 0b00000100])
        .shl(1)
        .or(&0b11111111_u8.to_bits())
        .xor(&0b11110000_u8.to_bits())
        .0;
    assert_eq!(buf, [0b00000010_u8, 0b00000100, 0b00001111]);
    assert_eq!(bit_get(&buf, 6), true);
    assert_eq!(bit_get(&buf, 7), false);
    let buf = BitsMut(buf).set(11, true).0;
    assert_eq!(bit_get(&buf, 11), true);

    let filled = BitsMut(buf).fill(false);
    assert_eq!(filled.to_ref().all_zero(), true);
    let filled = filled.fill(true);
    assert_eq!(filled.to_ref().all_one(), true);
}

#[test]
fn test_bits_ref_queries() {
    let r = BitsRef(vec![0b1111_1111, 0b1100_0000]);
    assert_eq!(r.all_one(), false);
    assert_eq!(r.trailing_zeros(), 6);
    assert_eq!(r.leading_zeros(), 0);
    assert_eq!(r.len(), 16);
    assert_eq!(r.is_empty(), false);
    assert_eq!(r.as_bytes(), &vec![0b1111_1111, 0b1100_0000]);
    assert_eq!(BitsRef(vec![]).is_empty(), true);

    assert_eq!(
        BitsRef(vec![0b1111_1111, 0b1111_1111]).chunks(6),
        vec![0b11_1111, 0b11_1111, 0b11_1100]
    );
    assert_eq!(
        BitsRef(vec![0b1111_0000]).iter(),
        vec![true, true, true, true, false, false, false, false]
    );
}
