use xbits::NBits as Bits;

#[test]
fn test_bits_bitwise() {
    assert_eq!(Bits(vec![0]), Bits(vec![0b0000_1111]).bitand(&Bits(vec![0b1111_0000])));
    assert_eq!(Bits(vec![0b1100]), Bits(vec![0b0000_1111]).bitand(&Bits(vec![0b1111_1100])));

    assert_eq!(Bits(vec![0xff]), Bits(vec![0b0000_1111]).bitor(&Bits(vec![0b1111_0000])));
    assert_eq!(Bits(vec![0x0f]), Bits(vec![0b0000_1111]).bitor(&Bits(vec![0b0000_0011])));

    assert_eq!(Bits(vec![0xff]), Bits(vec![0b0000_1111]).bitxor(&Bits(vec![0b1111_0000])));
    assert_eq!(Bits(vec![0x0f]), Bits(vec![0b1111_1111]).bitxor(&Bits(vec![0b1111_0000])));

    assert_eq!(Bits(vec![0b1111_1111]), Bits(vec![0b0000_0000]).not());
    assert_eq!(Bits(vec![0b1111_0000]), Bits(vec![0b0000_1111]).not());

    let mut bits = Bits(vec![0b0000_1111]);
    bits = bits.bitand(&Bits(vec![0b1111_0000]));
    assert_eq!(bits, Bits(vec![0b0000_0000]));

    let mut bits = Bits(vec![0b0000_1111]);
    bits = bits.bitor(&Bits(vec![0b1111_0000]));
    assert_eq!(bits, Bits(vec![0b1111_1111]));

    let mut bits = Bits(vec![0b0000_1111]);
    bits = bits.bitxor(&Bits(vec![0b1111_0000]));
    assert_eq!(bits, Bits(vec![0b1111_1111]));
}
