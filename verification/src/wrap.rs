//! Wrapper types for fluent bit-level work on a byte buffer: a read-only
//! view with queries and a mutable view whose operations chain.

use vstd::prelude::*;
use vstd::arithmetic::power2::pow2;
use crate::arith::copy_bytes;
use crate::bitwise::{
    bit_all_one,
    bit_all_zero,
    bit_be_and,
    bit_be_or,
    bit_be_xor,
    bit_fill,
    bit_leading_zeros,
    bit_not,
    bit_reverse,
    bit_set,
    bit_shl,
    bit_shr,
    bit_trailing_zeros,
    rev_bits,
    shl_bits,
    shr_bits,
};
use crate::chunks::{bit_chunks, bit_iter, chunk_bits};
use crate::model::{be_val, bits_of, bits_val, byte_bit, ext_byte};

verus! {

/// The characters of one byte, most-significant bit first.
pub open spec fn byte_chars(b: u8) -> Seq<char> {
    Seq::new(
        8,
        |i: int|
            if byte_bit(b, i) {
                '1'
            } else {
                '0'
            },
    )
}

/// The rendering of a buffer: eight binary digits per byte, bytes
/// separated by single spaces.
pub open spec fn bits_string(s: Seq<u8>) -> Seq<char>
    decreases s.len(),
{
    if s.len() == 0 {
        Seq::empty()
    } else if s.len() == 1 {
        byte_chars(s[0])
    } else {
        bits_string(s.drop_last()) + seq![' '] + byte_chars(s.last())
    }
}

/// Relies on `String`'s `FromIterator<char>` implementation: collecting
/// characters yields a string holding exactly that character sequence.
#[verifier::external_body]
fn chars_to_string(chars: &Vec<char>) -> (r: String)
    ensures
        r@ == chars@,
{
    chars.iter().collect()
}

/// A read-only bit-level view of a byte buffer.
#[derive(Debug, Clone, PartialEq, Eq)]
pub struct BitsRef(pub Vec<u8>);

impl BitsRef {
    /// The bytes behind the view.
    pub fn as_bytes(&self) -> (r: &Vec<u8>)
        ensures
            r@ == self.0@,
    {
        &self.0
    }

    /// True when the buffer holds no bytes.
    pub fn is_empty(&self) -> (r: bool)
        ensures
            r == (self.0@.len() == 0),
    {
        self.0.len() == 0
    }

    /// The number of bits in the buffer.
    pub fn len(&self) -> (r: usize)
        requires
            8 * self.0@.len() <= usize::MAX,
        ensures
            r == 8 * self.0@.len(),
    {
        self.0.len() * 8
    }

    /// True exactly when every byte is `0xFF`.
    pub fn all_one(&self) -> (r: bool)
        ensures
            r == (forall|i: int| 0 <= i < self.0@.len() ==> self.0@[i] == 255),
    {
        bit_all_one(&self.0)
    }

    /// True exactly when every byte is `0x00`.
    pub fn all_zero(&self) -> (r: bool)
        ensures
            r == (forall|i: int| 0 <= i < self.0@.len() ==> self.0@[i] == 0),
    {
        bit_all_zero(&self.0)
    }

    /// The zero-bit count from the most-significant end.
    pub fn leading_zeros(&self) -> (r: usize)
        requires
            8 * self.0@.len() <= usize::MAX,
        ensures
            r <= 8 * self.0@.len(),
            forall|i: int| 0 <= i < r ==> !bits_of(self.0@)[i],
            r < 8 * self.0@.len() ==> bits_of(self.0@)[r as int],
    {
        bit_leading_zeros(&self.0)
    }

    /// The zero-bit count from the least-significant end.
    pub fn trailing_zeros(&self) -> (r: usize)
        requires
            8 * self.0@.len() <= usize::MAX,
        ensures
            r <= 8 * self.0@.len(),
            forall|i: int|
                8 * self.0@.len() - r <= i < 8 * self.0@.len() ==> !bits_of(self.0@)[i],
            r < 8 * self.0@.len() ==> bits_of(self.0@)[8 * self.0@.len() - 1 - r],
    {
        bit_trailing_zeros(&self.0)
    }

    /// The buffer's bits, most-significant bit of the first byte first.
    pub fn iter(&self) -> (r: Vec<bool>)
        ensures
            r@ == bits_of(self.0@),
    {
        bit_iter(&self.0)
    }

    /// The buffer's bit stream regrouped into `n`-bit chunks.
    pub fn chunks(&self, n: usize) -> (r: Vec<u64>)
        requires
            1 <= n <= 32,
        ensures
            r@.len() == (8 * self.0@.len() + n - 1) / (n as int),
            forall|k: int|
                0 <= k < r@.len() ==> r@[k] as nat == bits_val(
                    chunk_bits(bits_of(self.0@), n as int, k),
                ),
    {
        bit_chunks(&self.0, n)
    }

    /// The buffer rendered as binary digits, bytes separated by spaces.
    pub fn bit_string(&self) -> (r: String)
        ensures
            r@ == bits_string(self.0@),
    {
        let mut chars: Vec<char> = Vec::new();
        let len = self.0.len();
        let mut j: usize = 0;
        proof {
            assert(self.0@.take(0) =~= Seq::<u8>::empty());
        }
        while j < len
            invariant
                j <= len,
                len == self.0@.len(),
                chars@ == bits_string(self.0@.take(j as int)),
            decreases len - j,
        {
            if j > 0 {
                chars.push(' ');
            }
            let b = self.0[j];
            let ghost sofar = chars@;
            proof {
                vstd::arithmetic::power2::lemma2_to64();
                assert(byte_chars(b).take(0) =~= Seq::<char>::empty());
                assert(sofar + byte_chars(b).take(0) =~= sofar);
            }
            let mut p: u8 = 128;
            let mut t: usize = 0;
            while t < 8
                invariant
                    t <= 8,
                    j < len,
                    len == self.0@.len(),
                    b == self.0@[j as int],
                    t < 8 ==> p as nat == pow2((7 - t) as nat),
                    chars@ == sofar + byte_chars(b).take(t as int),
                decreases 8 - t,
            {
                proof {
                    vstd::arithmetic::power2::lemma_pow2_pos((7 - t) as nat);
                    if t < 7 {
                        vstd::arithmetic::power2::lemma_pow2_unfold((7 - t) as nat);
                    }
                }
                let c = if (b / p) % 2 == 1 {
                    '1'
                } else {
                    '0'
                };
                proof {
                    assert(c == byte_chars(b)[t as int]);
                    assert(chars@.push(c) =~= sofar + byte_chars(b).take(t + 1));
                }
                chars.push(c);
                p = p / 2;
                t = t + 1;
            }
            proof {
                let pre = self.0@.take(j as int);
                let cur = self.0@.take(j + 1);
                assert(cur.drop_last() =~= pre);
                assert(cur.last() == b);
                assert(byte_chars(b).take(8) =~= byte_chars(b));
                if j == 0 {
                    assert(bits_string(pre) =~= Seq::<char>::empty());
                    assert(sofar =~= Seq::<char>::empty());
                    assert(chars@ =~= byte_chars(b));
                    assert(bits_string(cur) == byte_chars(cur[0]));
                } else {
                    assert(sofar =~= bits_string(pre) + seq![' ']);
                    assert(bits_string(cur) == bits_string(pre) + seq![' '] + byte_chars(b));
                    assert(chars@ =~= bits_string(cur));
                }
            }
            j = j + 1;
        }
        proof {
            assert(self.0@.take(len as int) =~= self.0@);
        }
        chars_to_string(&chars)
    }
}

/// A mutable bit-level view of a byte buffer whose operations chain by
/// value.
#[derive(Debug, PartialEq, Eq)]
pub struct BitsMut(pub Vec<u8>);

impl BitsMut {
    /// A read-only view of the current bytes.
    pub fn to_ref(&self) -> (r: BitsRef)
        ensures
            r.0@ == self.0@,
    {
        BitsRef(copy_bytes(&self.0))
    }

    /// Shifts toward the most-significant end, zero-filling low bits.
    pub fn shl(self, n: usize) -> (r: BitsMut)
        ensures
            r.0@.len() == self.0@.len(),
            bits_of(r.0@) == shl_bits(bits_of(self.0@), n as int),
            be_val(r.0@) == (be_val(self.0@) * pow2(n as nat)) % pow2(8 * self.0@.len()),
    {
        let mut a = self.0;
        let _ = bit_shl(&mut a, n);
        BitsMut(a)
    }

    /// Shifts toward the least-significant end, zero-filling high bits.
    pub fn shr(self, n: usize) -> (r: BitsMut)
        ensures
            r.0@.len() == self.0@.len(),
            bits_of(r.0@) == shr_bits(bits_of(self.0@), n as int),
            be_val(r.0@) == be_val(self.0@) / pow2(n as nat),
    {
        let mut a = self.0;
        let _ = bit_shr(&mut a, n);
        BitsMut(a)
    }

    /// OR with `other`, the operands aligned at the low-order end.
    pub fn or(self, other: &Vec<u8>) -> (r: BitsMut)
        ensures
            r.0@.len() == self.0@.len(),
            forall|i: int|
                0 <= i < self.0@.len() ==> r.0@[i] == (self.0@[i] | ext_byte(
                    other@,
                    self.0@.len() as int,
                    i,
                )),
    {
        let mut a = self.0;
        bit_be_or(&mut a, other);
        BitsMut(a)
    }

    /// AND with `other`, the operands aligned at the low-order end.
    pub fn and(self, other: &Vec<u8>) -> (r: BitsMut)
        ensures
            r.0@.len() == self.0@.len(),
            forall|i: int|
                0 <= i < self.0@.len() ==> r.0@[i] == (self.0@[i] & ext_byte(
                    other@,
                    self.0@.len() as int,
                    i,
                )),
    {
        let mut a = self.0;
        bit_be_and(&mut a, other);
        BitsMut(a)
    }

    /// XOR with `other`, the operands aligned at the low-order end.
    pub fn xor(self, other: &Vec<u8>) -> (r: BitsMut)
        ensures
            r.0@.len() == self.0@.len(),
            forall|i: int|
                0 <= i < self.0@.len() ==> r.0@[i] == (self.0@[i] ^ ext_byte(
                    other@,
                    self.0@.len() as int,
                    i,
                )),
    {
        let mut a = self.0;
        bit_be_xor(&mut a, other);
        BitsMut(a)
    }

    /// Complements every byte.
    pub fn not(self) -> (r: BitsMut)
        ensures
            r.0@.len() == self.0@.len(),
            forall|i: int| 0 <= i < self.0@.len() ==> r.0@[i] == !self.0@[i],
    {
        let mut a = self.0;
        bit_not(&mut a);
        BitsMut(a)
    }

    /// Reverses the whole bit sequence.
    pub fn reverse(self) -> (r: BitsMut)
        ensures
            r.0@.len() == self.0@.len(),
            bits_of(r.0@) == rev_bits(bits_of(self.0@)),
    {
        let mut a = self.0;
        bit_reverse(&mut a);
        BitsMut(a)
    }

    /// Sets every bit to the given value.
    pub fn fill(self, value: bool) -> (r: BitsMut)
        ensures
            r.0@.len() == self.0@.len(),
            forall|i: int|
                0 <= i < self.0@.len() ==> r.0@[i] == (if value {
                    255u8
                } else {
                    0u8
                }),
    {
        let mut a = self.0;
        bit_fill(&mut a, value);
        BitsMut(a)
    }

    /// Writes one bit, counted from the most-significant bit of the
    /// first byte.
    pub fn set(self, index: usize, value: bool) -> (r: BitsMut)
        requires
            index < 8 * self.0@.len(),
        ensures
            r.0@.len() == self.0@.len(),
            bits_of(r.0@) == bits_of(self.0@).update(index as int, value),
    {
        let mut a = self.0;
        bit_set(&mut a, index, value);
        BitsMut(a)
    }
}

} // verus!
