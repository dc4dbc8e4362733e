use xbits::ToBits;

#[test]
fn test_to_bits() {
    assert_eq!(42_u8.to_bits(), vec![42]);
    assert_eq!(42_u16.to_bits(), vec![0, 42]);
    assert_eq!(42_u32.to_bits(), vec![0, 0, 0, 42]);
    assert_eq!(42_u64.to_bits(), vec![0, 0, 0, 0, 0, 0, 0, 42]);
    assert_eq!(42_u128.to_bits(), [&[0; 15][..], &[42]].concat());
}

#[test]
fn test_to_bits_iter() {
    assert_eq!(vec![1u8, 2, 3].to_bits(), vec![1, 2, 3]);
    assert_eq!(vec![1u16, 2, 3].to_bits(), vec![0, 1, 0, 2, 0, 3]);
    assert_eq!(
        vec![1u32, 2, 3].to_bits(),
        vec![0, 0, 0, 1, 0, 0, 0, 2, 0, 0, 0, 3]
    );
}

#[test]
fn test_to_bits_usize() {
    assert_eq!(0x0102_usize.to_bits(), vec![0, 0, 0, 0, 0, 0, 1, 2]);
}
