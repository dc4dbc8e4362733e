//! A fixed-width buffer type with named arithmetic and bitwise methods.
//!
//! `NBits` wraps a byte buffer read as a big-endian unsigned integer of
//! fixed width.  The arithmetic methods return the result together with
//! the carry/borrow/overflow flag; the caller decides what a raised flag
//! means.

use vstd::prelude::*;
use vstd::arithmetic::power2::pow2;
use crate::arith::{bit_be_add, bit_be_cmp, bit_be_div, bit_be_mul, bit_be_rem, bit_be_sub};
use crate::bitwise::{
    bit_be_and,
    bit_be_or,
    bit_be_xor,
    bit_get,
    bit_not,
    bit_shl,
    bit_shr,
    shl_bits,
    shr_bits,
};
use crate::model::{be_val, bits_of, ext_byte};
use core::cmp::Ordering;

verus! {

/// A byte buffer read as a big-endian unsigned integer of fixed width.
#[derive(Debug, Clone, PartialEq, Eq, Hash)]
pub struct NBits(pub Vec<u8>);

impl NBits {
    /// A zero value of `n` bytes.
    pub fn new(n: usize) -> (r: NBits)
        ensures
            r.0@.len() == n,
            forall|i: int| 0 <= i < n ==> r.0@[i] == 0,
            be_val(r.0@) == 0,
    {
        NBits(crate::arith::zero_vec(n))
    }

    /// Reads bit `index`, counting from the most-significant bit of the
    /// first byte.
    pub fn bit(&self, index: usize) -> (r: bool)
        requires
            index < 8 * self.0@.len(),
        ensures
            r == bits_of(self.0@)[index as int],
    {
        bit_get(&self.0, index)
    }

    /// The sum, truncated to this value's width, with the carry flag.
    pub fn add(self, other: &NBits) -> (r: (NBits, bool))
        ensures
            r.0.0@.len() == self.0@.len(),
            be_val(r.0.0@) == (be_val(self.0@) + be_val(other.0@)) % pow2(8 * self.0@.len()),
            r.1 == (be_val(self.0@) + (be_val(other.0@) % pow2(8 * self.0@.len())) >= pow2(
                8 * self.0@.len(),
            )),
    {
        let mut a = self.0;
        let o = bit_be_add(&mut a, &other.0);
        (NBits(a), o)
    }

    /// The difference, wrapped around this value's width, with the
    /// borrow flag.
    pub fn sub(self, other: &NBits) -> (r: (NBits, bool))
        ensures
            r.0.0@.len() == self.0@.len(),
            be_val(r.0.0@) + (be_val(other.0@) % pow2(8 * self.0@.len())) == be_val(self.0@) + (
            if r.1 {
                pow2(8 * self.0@.len())
            } else {
                0nat
            }),
            r.1 == ((be_val(other.0@) % pow2(8 * self.0@.len())) > be_val(self.0@)),
    {
        let mut a = self.0;
        let o = bit_be_sub(&mut a, &other.0);
        (NBits(a), o)
    }

    /// The product, truncated to this value's width, with the overflow
    /// flag.
    pub fn mul(self, other: &NBits) -> (r: (NBits, bool))
        ensures
            r.0.0@.len() == self.0@.len(),
            be_val(r.0.0@) == (be_val(self.0@) * be_val(other.0@)) % pow2(8 * self.0@.len()),
            r.1 == (be_val(self.0@) * be_val(other.0@) >= pow2(8 * self.0@.len()) || be_val(
                other.0@,
            ) >= pow2(8 * self.0@.len())),
    {
        let mut a = self.0;
        let o = bit_be_mul(&mut a, &other.0);
        (NBits(a), o)
    }

    /// The quotient; division by zero raises the flag and returns the
    /// dividend unchanged.
    pub fn div(self, other: &NBits) -> (r: (NBits, bool))
        requires
            8 * self.0@.len() <= usize::MAX,
            8 * other.0@.len() <= usize::MAX,
        ensures
            r.0.0@.len() == self.0@.len(),
            r.1 == (be_val(other.0@) == 0),
            be_val(other.0@) == 0 ==> r.0.0@ == self.0@,
            be_val(other.0@) != 0 ==> be_val(r.0.0@) == be_val(self.0@) / be_val(other.0@),
    {
        let mut a = self.0;
        let o = bit_be_div(&mut a, &other.0);
        (NBits(a), o)
    }

    /// The remainder; division by zero raises the flag and returns the
    /// dividend unchanged.
    pub fn rem(self, other: &NBits) -> (r: (NBits, bool))
        requires
            8 * self.0@.len() <= usize::MAX,
            8 * other.0@.len() <= usize::MAX,
        ensures
            r.0.0@.len() == self.0@.len(),
            r.1 == (be_val(other.0@) == 0),
            be_val(other.0@) == 0 ==> r.0.0@ == self.0@,
            be_val(other.0@) != 0 ==> be_val(r.0.0@) == be_val(self.0@) % be_val(other.0@),
    {
        let mut a = self.0;
        let o = bit_be_rem(&mut a, &other.0);
        (NBits(a), o)
    }

    /// Compares the two values numerically, whatever the widths.
    pub fn cmp_value(&self, other: &NBits) -> (r: Ordering)
        ensures
            r == Ordering::Less <==> be_val(self.0@) < be_val(other.0@),
            r == Ordering::Greater <==> be_val(self.0@) > be_val(other.0@),
            r == Ordering::Equal <==> be_val(self.0@) == be_val(other.0@),
    {
        bit_be_cmp(&self.0, &other.0)
    }

    /// Bitwise AND, the other operand zero-extended at the high end.
    pub fn bitand(self, other: &NBits) -> (r: NBits)
        ensures
            r.0@.len() == self.0@.len(),
            forall|i: int|
                0 <= i < self.0@.len() ==> r.0@[i] == (self.0@[i] & ext_byte(
                    other.0@,
                    self.0@.len() as int,
                    i,
                )),
    {
        let mut a = self.0;
        bit_be_and(&mut a, &other.0);
        NBits(a)
    }

    /// Bitwise OR, the other operand zero-extended at the high end.
    pub fn bitor(self, other: &NBits) -> (r: NBits)
        ensures
            r.0@.len() == self.0@.len(),
            forall|i: int|
                0 <= i < self.0@.len() ==> r.0@[i] == (self.0@[i] | ext_byte(
                    other.0@,
                    self.0@.len() as int,
                    i,
                )),
    {
        let mut a = self.0;
        bit_be_or(&mut a, &other.0);
        NBits(a)
    }

    /// Bitwise XOR, the other operand zero-extended at the high end.
    pub fn bitxor(self, other: &NBits) -> (r: NBits)
        ensures
            r.0@.len() == self.0@.len(),
            forall|i: int|
                0 <= i < self.0@.len() ==> r.0@[i] == (self.0@[i] ^ ext_byte(
                    other.0@,
                    self.0@.len() as int,
                    i,
                )),
    {
        let mut a = self.0;
        bit_be_xor(&mut a, &other.0);
        NBits(a)
    }

    /// Bitwise complement of every byte.
    pub fn not(self) -> (r: NBits)
        ensures
            r.0@.len() == self.0@.len(),
            forall|i: int| 0 <= i < self.0@.len() ==> r.0@[i] == !self.0@[i],
    {
        let mut a = self.0;
        bit_not(&mut a);
        NBits(a)
    }

    /// The value shifted toward the most-significant end, with the
    /// shifted-out-bits flag.
    pub fn shl(self, n: usize) -> (r: (NBits, bool))
        ensures
            r.0.0@.len() == self.0@.len(),
            bits_of(r.0.0@) == shl_bits(bits_of(self.0@), n as int),
            be_val(r.0.0@) == (be_val(self.0@) * pow2(n as nat)) % pow2(8 * self.0@.len()),
            r.1 == (n >= 8 * self.0@.len() || be_val(self.0@) * pow2(n as nat) >= pow2(
                8 * self.0@.len(),
            )),
    {
        let mut a = self.0;
        let o = bit_shl(&mut a, n);
        (NBits(a), o)
    }

    /// The value shifted toward the least-significant end, with the
    /// shifted-out-bits flag.
    pub fn shr(self, n: usize) -> (r: (NBits, bool))
        ensures
            r.0.0@.len() == self.0@.len(),
            bits_of(r.0.0@) == shr_bits(bits_of(self.0@), n as int),
            be_val(r.0.0@) == be_val(self.0@) / pow2(n as nat),
            r.1 == (n >= 8 * self.0@.len() || be_val(self.0@) % pow2(n as nat) != 0),
    {
        let mut a = self.0;
        let o = bit_shr(&mut a, n);
        (NBits(a), o)
    }
}

} // verus!
