use std::cmp::Ordering;
use xbits::NBits as Bits;

fn nb(bytes: &[u8]) -> Bits {
    Bits(bytes.to_vec())
}

fn nb_add(a: &[u8], b: &[u8]) -> Bits {
    let (r, overflow) = nb(a).add(&nb(b));
    assert!(!overflow);
    r
}

fn nb_sub(a: &[u8], b: &[u8]) -> Bits {
    let (r, overflow) = nb(a).sub(&nb(b));
    assert!(!overflow);
    r
}

fn nb_mul(a: &[u8], b: &[u8]) -> Bits {
    let (r, overflow) = nb(a).mul(&nb(b));
    assert!(!overflow);
    r
}

#[test]
fn test_bits_arith() {
    assert_eq!(nb_add(&[0, 0], &[0, 0]), nb(&[0, 0]));
    assert_eq!(nb_add(&[0, 0], &[255, 255]), nb(&[255, 255]));
    assert_eq!(nb_add(&[55, 255], &[30, 10]), nb(&[86, 9]));
    assert_eq!(nb_add(&[155, 255], &[30, 100]), nb(&[186, 99]));
    assert_eq!(nb_add(&[0, 1, 1], &[5, 255, 255]), nb(&[6, 1, 0]));

    assert_eq!(nb_sub(&[0, 0], &[0, 0]), nb(&[0, 0]));
    assert_eq!(nb_sub(&[255, 255], &[0, 0]), nb(&[255, 255]));
    assert_eq!(nb_sub(&[55, 255], &[30, 10]), nb(&[25, 245]));
    assert_eq!(nb_sub(&[155, 0], &[30, 100]), nb(&[124, 156]));
    assert_eq!(nb_sub(&[155, 100], &[30, 255]), nb(&[124, 101]));
    assert_eq!(nb_sub(&[1, 5, 0], &[0, 255, 255]), nb(&[0, 5, 1]));

    assert_eq!(nb_mul(&[0, 0], &[0, 0]), nb(&[0, 0]));
    assert_eq!(nb_mul(&[0, 0], &[255, 255]), nb(&[0, 0]));
    assert_eq!(nb_mul(&[0, 1], &[255, 10]), nb(&[255, 10]));
    assert_eq!(nb_mul(&[0, 0, 1], &[5, 255, 255]), nb(&[5, 255, 255]));
    assert_eq!(nb_mul(&[1, 1, 1], &[0, 0, 255]), nb(&[255, 255, 255]));
    assert_eq!(nb_mul(&[0, 1, 255], &[0, 0, 255]), nb(&[1, 253, 1]));
}

#[test]
fn test_add_overflow_reported() {
    let (_, overflow) = Bits(vec![255, 255]).add(&Bits(vec![0, 1]));
    assert!(overflow);
}

#[test]
fn test_sub_overflow_reported() {
    let (_, overflow) = Bits(vec![0, 0]).sub(&Bits(vec![0, 1]));
    assert!(overflow);
}

#[test]
fn test_bits_div_rem() {
    let (q, overflow) = Bits(vec![0b0011_0000, 0]).div(&Bits(vec![0b0000_1100]));
    assert!(!overflow);
    assert_eq!(q, Bits(vec![0b0000_0100, 0]));

    let (r, overflow) = Bits(vec![0x00, 0x0e]).rem(&Bits(vec![0x04]));
    assert!(!overflow);
    assert_eq!(r, Bits(vec![0x00, 0x02]));

    let (same, overflow) = Bits(vec![0x12]).div(&Bits(vec![0x00]));
    assert!(overflow);
    assert_eq!(same, Bits(vec![0x12]));
}

#[test]
fn test_bits_cmp_value() {
    assert_eq!(nb(&[0, 0, 42]).cmp_value(&nb(&[42])), Ordering::Equal);
    assert_eq!(nb(&[1, 0]).cmp_value(&nb(&[0xff])), Ordering::Greater);
    assert_eq!(nb(&[0x7f]).cmp_value(&nb(&[0x80])), Ordering::Less);
}
