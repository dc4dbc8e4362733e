use xbits::arith::{bit_be_add, bit_be_cmp, bit_be_div, bit_be_mul, bit_be_rem, bit_be_sub};
use std::cmp::Ordering;

fn be_value(s: &[u8]) -> u64 {
    let mut bytes = [0u8; 8];
    bytes[8 - s.len()..].copy_from_slice(s);
    u64::from_be_bytes(bytes)
}

#[test]
fn test_bits_add() {
    let mut a = vec![0b1111_1111u8, 0b1111_1111];
    assert_eq!(bit_be_add(&mut a, &vec![0b0000_0001]), true);
    assert_eq!(a, [0b0000_0000, 0b0000_0000]);

    let mut a = vec![0b0000_0000u8, 0b0000_0001];
    assert_eq!(bit_be_add(&mut a, &vec![0b1111_1111]), false);
    assert_eq!(a, [0b0000_0001, 0b0000_0000]);
}

#[test]
fn test_bits_sub() {
    let mut a = vec![0b0000_0000u8, 0b0000_0001];
    assert_eq!(bit_be_sub(&mut a, &vec![0b1111_1111]), true);
    assert_eq!(a, [0b1111_1111, 0b0000_0010]);

    let mut a = vec![0b1111_1111u8, 0b0000_0000];
    assert_eq!(bit_be_sub(&mut a, &vec![0b0000_0001]), false);
    assert_eq!(a, [0b1111_1110, 0b1111_1111]);
}

#[test]
fn test_bits_mul() {
    let mut a = vec![0xffu8, 0xff];
    assert_eq!(bit_be_mul(&mut a, &vec![0b0000_0010]), true);
    assert_eq!(a, [0b1111_1111, 0b1111_1110]);

    let mut a = vec![0b0000_0001u8, 0b0000_0001];
    assert_eq!(bit_be_mul(&mut a, &vec![0b1111_1111]), false);
    assert_eq!(a, [0b1111_1111, 0b1111_1111]);
}

#[test]
fn test_bits_div() {
    const TDATA: &[(&[u8], &[u8], &[u8])] = &[
        (&[0b0000_1100], &[0b0000_0011], &[0b0000_0100]),
        (&[0b0011_0000, 0], &[0b0000_1100], &[0b0000_0100, 0]),
        (&[0b1100_1100], &[0, 0b0000_0011], &[0b0100_0100]),
    ];
    for (a, b, c) in TDATA {
        assert_eq!(be_value(a) / be_value(b), be_value(c));
        let mut a = a.to_vec();
        assert_eq!(bit_be_div(&mut a, &b.to_vec()), false);
        assert_eq!(&a, c);
    }
}

#[test]
fn test_bits_rem_matches_integers() {
    const TDATA: &[(&[u8], &[u8])] = &[
        (&[0b1100_0011, 0b0000_0001], &[0b1000_0001]),
        (&[0b0000_0110], &[0b0000_0100]),
        (&[0xff, 0xff], &[0x00, 0x10]),
        (&[0x12, 0x34], &[0x00, 0xff]),
    ];
    for (a, b) in TDATA {
        let mut x = a.to_vec();
        assert_eq!(bit_be_rem(&mut x, &b.to_vec()), false);
        assert_eq!(be_value(&x), be_value(a) % be_value(b));
    }
}

#[test]
fn test_bits_div_rem_consistency() {
    // For nonzero divisors, quotient * divisor + remainder == dividend.
    let cases: &[(&[u8], &[u8])] = &[
        (&[0x00, 0x06], &[0x04]),
        (&[0xab, 0xcd], &[0x00, 0x13]),
        (&[0x01, 0x00, 0x00], &[0x07]),
        (&[0x05], &[0x09]),
    ];
    for (a, b) in cases {
        let mut q = a.to_vec();
        assert_eq!(bit_be_div(&mut q, &b.to_vec()), false);
        let mut r = a.to_vec();
        assert_eq!(bit_be_rem(&mut r, &b.to_vec()), false);
        assert_eq!(be_value(&q) * be_value(b) + be_value(&r), be_value(a));
    }
}

#[test]
fn test_bits_div_by_zero() {
    // Division by zero reports overflow and leaves the dividend alone.
    let mut a = vec![0x12u8, 0x34];
    assert_eq!(bit_be_div(&mut a, &vec![0x00, 0x00]), true);
    assert_eq!(a, [0x12, 0x34]);
    let mut a = vec![0x12u8, 0x34];
    assert_eq!(bit_be_rem(&mut a, &vec![0x00]), true);
    assert_eq!(a, [0x12, 0x34]);
}

#[test]
fn test_bits_cmp() {
    assert_eq!(
        bit_be_cmp(&vec![0b0011_0011, 0b0011_0011], &vec![0b1111_1111]),
        Ordering::Greater
    );
    assert_eq!(
        bit_be_cmp(&vec![0b0000_0000, 0b0011_0011], &vec![0b1111_1111]),
        Ordering::Less
    );
    assert_eq!(
        bit_be_cmp(&vec![0b0011_0011, 0b0011_0011], &vec![0b0000_0000, 0b1111_1111]),
        Ordering::Greater
    );
    assert_eq!(
        bit_be_cmp(&vec![0b0011_0011, 0b0011_0011], &vec![0b1111_1111, 0b0000_0000]),
        Ordering::Less
    );
    // Leading zero bytes never change the ordering.
    assert_eq!(
        bit_be_cmp(&vec![0x00, 0x00, 0x42], &vec![0x42]),
        Ordering::Equal
    );
    assert_eq!(bit_be_cmp(&vec![], &vec![0, 0, 0]), Ordering::Equal);
}

#[test]
fn test_bits_sub_wraps() {
    // Unsigned wraparound on borrow past the top byte.
    let mut a = vec![0x00u8, 0x00];
    assert_eq!(bit_be_sub(&mut a, &vec![0x00, 0x01]), true);
    assert_eq!(a, [0xff, 0xff]);
}

#[test]
fn test_bits_add_then_sub_inverse() {
    // Adding and then subtracting the same operand restores the buffer
    // whenever the addition reports no carry.
    let pairs: &[(&[u8], &[u8])] = &[
        (&[0x12, 0x34], &[0x0f, 0xf0]),
        (&[0x00, 0x01], &[0x7f, 0xfe]),
        (&[0x55, 0x55], &[0x2a, 0xaa]),
    ];
    for (a, b) in pairs {
        let mut x = a.to_vec();
        assert_eq!(bit_be_add(&mut x, &b.to_vec()), false);
        assert_eq!(bit_be_sub(&mut x, &b.to_vec()), false);
        assert_eq!(x, a.to_vec());
    }
}

#[test]
fn test_bits_mul_identity() {
    // Multiplying by a buffer worth one changes nothing.
    let cases: &[&[u8]] = &[&[0x00], &[0xab, 0xcd], &[0xff, 0xff, 0xff]];
    for a in cases {
        let mut x = a.to_vec();
        let one = vec![0u8; x.len() - 1]
            .into_iter()
            .chain([1u8])
            .collect::<Vec<u8>>();
        assert_eq!(bit_be_mul(&mut x, &one), false);
        assert_eq!(x, a.to_vec());
    }
}

#[test]
fn test_bits_add_longer_operand() {
    // Only the low bytes of a wider operand take part; its high bytes
    // never produce a carry on their own.
    let mut a = vec![10u8];
    assert_eq!(bit_be_add(&mut a, &vec![1, 0, 5]), false);
    assert_eq!(a, [15]);
}
