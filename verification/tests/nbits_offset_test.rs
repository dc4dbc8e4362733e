use xbits::NBits as Bits;

fn shl(data: &[u8], n: usize) -> Bits {
    Bits(data.to_vec()).shl(n).0
}

fn shr(data: &[u8], n: usize) -> Bits {
    Bits(data.to_vec()).shr(n).0
}

#[test]
fn test_bits_offset() {
    let data = [0b0000_0001];
    assert_eq!(shl(&data, 1), Bits(vec![0b0000_0010]));
    assert_eq!(shl(&data, 2), Bits(vec![0b0000_0100]));
    assert_eq!(shl(&data, 3), Bits(vec![0b0000_1000]));
    assert_eq!(shl(&data, 4), Bits(vec![0b0001_0000]));
    assert_eq!(shl(&data, 5), Bits(vec![0b0010_0000]));
    assert_eq!(shl(&data, 6), Bits(vec![0b0100_0000]));
    assert_eq!(shl(&data, 7), Bits(vec![0b1000_0000]));

    let data = [0b1111_1111, 0b1111_1111];
    assert_eq!(shl(&data, 1), Bits(vec![0b1111_1111, 0b1111_1110]));
    assert_eq!(shl(&data, 2), Bits(vec![0b1111_1111, 0b1111_1100]));
    assert_eq!(shl(&data, 3), Bits(vec![0b1111_1111, 0b1111_1000]));
    assert_eq!(shl(&data, 4), Bits(vec![0b1111_1111, 0b1111_0000]));
    assert_eq!(shl(&data, 5), Bits(vec![0b1111_1111, 0b1110_0000]));
    assert_eq!(shl(&data, 6), Bits(vec![0b1111_1111, 0b1100_0000]));
    assert_eq!(shl(&data, 7), Bits(vec![0b1111_1111, 0b1000_0000]));
    assert_eq!(shl(&data, 8), Bits(vec![0b1111_1111, 0b0000_0000]));
    assert_eq!(shl(&data, 9), Bits(vec![0b1111_1110, 0b0000_0000]));
    assert_eq!(shl(&data, 10), Bits(vec![0b1111_1100, 0b0000_0000]));
    assert_eq!(shl(&data, 11), Bits(vec![0b1111_1000, 0b0000_0000]));
    assert_eq!(shl(&data, 12), Bits(vec![0b1111_0000, 0b0000_0000]));
    assert_eq!(shl(&data, 13), Bits(vec![0b1110_0000, 0b0000_0000]));
    assert_eq!(shl(&data, 14), Bits(vec![0b1100_0000, 0b0000_0000]));
    assert_eq!(shl(&data, 15), Bits(vec![0b1000_0000, 0b0000_0000]));

    let data = [0b1000_0000];
    assert_eq!(shr(&data, 7), Bits(vec![0b0000_0001]));
    assert_eq!(shr(&data, 6), Bits(vec![0b0000_0010]));
    assert_eq!(shr(&data, 5), Bits(vec![0b0000_0100]));
    assert_eq!(shr(&data, 4), Bits(vec![0b0000_1000]));
    assert_eq!(shr(&data, 3), Bits(vec![0b0001_0000]));
    assert_eq!(shr(&data, 2), Bits(vec![0b0010_0000]));
    assert_eq!(shr(&data, 1), Bits(vec![0b0100_0000]));

    let data = [0b1111_1111, 0b1111_1111];
    assert_eq!(shr(&data, 1), Bits(vec![0b0111_1111, 0b1111_1111]));
    assert_eq!(shr(&data, 2), Bits(vec![0b0011_1111, 0b1111_1111]));
    assert_eq!(shr(&data, 3), Bits(vec![0b0001_1111, 0b1111_1111]));
    assert_eq!(shr(&data, 4), Bits(vec![0b0000_1111, 0b1111_1111]));
    assert_eq!(shr(&data, 5), Bits(vec![0b0000_0111, 0b1111_1111]));
    assert_eq!(shr(&data, 6), Bits(vec![0b0000_0011, 0b1111_1111]));
    assert_eq!(shr(&data, 7), Bits(vec![0b0000_0001, 0b1111_1111]));
    assert_eq!(shr(&data, 8), Bits(vec![0b0000_0000, 0b1111_1111]));
    assert_eq!(shr(&data, 9), Bits(vec![0b0000_0000, 0b0111_1111]));
    assert_eq!(shr(&data, 10), Bits(vec![0b0000_0000, 0b0011_1111]));
    assert_eq!(shr(&data, 11), Bits(vec![0b0000_0000, 0b0001_1111]));
    assert_eq!(shr(&data, 12), Bits(vec![0b0000_0000, 0b0000_1111]));
    assert_eq!(shr(&data, 13), Bits(vec![0b0000_0000, 0b0000_0111]));
    assert_eq!(shr(&data, 14), Bits(vec![0b0000_0000, 0b0000_0011]));
    assert_eq!(shr(&data, 15), Bits(vec![0b0000_0000, 0b0000_0001]));
}
