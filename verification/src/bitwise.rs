//! The bitwise engine: shifts with cross-byte carry, bit reversal,
//! complement, AND/OR/XOR with big- or little-endian alignment, bit
//! counting, and single-bit access, all over a byte buffer read as a
//! big-endian bit sequence.

use vstd::prelude::*;
use vstd::arithmetic::power2::*;
use vstd::arithmetic::div_mod::{
    lemma_fundamental_div_mod_converse,
    lemma_mod_multiples_vanish,
    lemma_small_mod,
};
use vstd::arithmetic::mul::lemma_mul_is_commutative;
use crate::model::{
    be_val,
    bit_rep,
    bits_of,
    bits_val,
    lemma_be_val_is_bits_val,
    lemma_bit_rep_of_bits_val,
    lemma_bit_rep_val,
    lemma_bits_val_bound,
    lemma_bits_val_split,
    lemma_bits_val_zero_iff,
    lemma_be_val_zero_iff,
    lemma_be_val_bound,
};
use crate::chunks::{bit_iter, from_bits, pad_bit, pad_bits, pow2_u8};

verus! {

/// The bit sequence shifted `n` places toward the most-significant end,
/// zero-filling the vacated low-order places.
pub open spec fn shl_bits(bv: Seq<bool>, n: int) -> Seq<bool> {
    Seq::new(bv.len(), |i: int| i + n < bv.len() && bv[i + n])
}

/// The bit sequence shifted `n` places toward the least-significant end,
/// zero-filling the vacated high-order places.
pub open spec fn shr_bits(bv: Seq<bool>, n: int) -> Seq<bool> {
    Seq::new(bv.len(), |i: int| i - n >= 0 && bv[i - n])
}

/// The bit sequence reversed end to end.
pub open spec fn rev_bits(bv: Seq<bool>) -> Seq<bool> {
    Seq::new(bv.len(), |i: int| bv[bv.len() - 1 - i])
}

/// What a left shift does to the value: multiplication by `pow2(n)`,
/// truncated to the width, with the shifted-out bits worth the rest.
pub proof fn lemma_shl_val(bv: Seq<bool>, n: int)
    requires
        0 <= n <= bv.len(),
    ensures
        bits_val(shl_bits(bv, n)) == (bits_val(bv) * pow2(n as nat)) % pow2(bv.len()),
        (bits_val(bv.take(n)) != 0) <==> (bits_val(bv) * pow2(n as nat) >= pow2(bv.len())),
{
    let len = bv.len();
    let hi = bits_val(bv.take(n));
    let lo = bits_val(bv.skip(n));
    lemma_bits_val_split(bv, n);
    lemma_bits_val_bound(bv.skip(n));
    lemma_pow2_pos(n as nat);
    lemma_pow2_pos(len);
    lemma_pow2_pos((len - n) as nat);
    // The shifted sequence is the low part followed by zeros.
    assert(shl_bits(bv, n) =~= bv.skip(n) + pad_bits(Seq::<bool>::empty(), n as nat));
    crate::model::lemma_bits_val_append(bv.skip(n), pad_bits(Seq::<bool>::empty(), n as nat));
    lemma_bits_val_zero_iff(pad_bits(Seq::<bool>::empty(), n as nat));
    assert(bits_val(pad_bits(Seq::<bool>::empty(), n as nat)) == 0);
    assert(bits_val(shl_bits(bv, n)) == lo * pow2(n as nat));
    // bits_val(bv) * pow2(n) == hi * pow2(len) + lo * pow2(n)
    assert(bits_val(bv) * pow2(n as nat) == hi * pow2(len) + lo * pow2(n as nat)) by {
        assert((hi * pow2((len - n) as nat) + lo) * pow2(n as nat) == hi * pow2(
            (len - n) as nat,
        ) * pow2(n as nat) + lo * pow2(n as nat)) by (nonlinear_arith);
        lemma_pow2_adds((len - n) as nat, n as nat);
        assert(hi * pow2((len - n) as nat) * pow2(n as nat) == hi * pow2(len)) by (nonlinear_arith)
            requires
                pow2((len - n) as nat) * pow2(n as nat) == pow2(len),
        ;
    }
    // lo * pow2(n) < pow2(len)
    assert(lo * pow2(n as nat) < pow2(len)) by {
        lemma_pow2_adds((len - n) as nat, n as nat);
        assert(lo * pow2(n as nat) < pow2((len - n) as nat) * pow2(n as nat)) by (nonlinear_arith)
            requires
                lo < pow2((len - n) as nat),
                pow2(n as nat) > 0,
        ;
    }
    lemma_mul_is_commutative(hi as int, pow2(len) as int);
    lemma_mod_multiples_vanish(hi as int, (lo * pow2(n as nat)) as int, pow2(len) as int);
    lemma_small_mod((lo * pow2(n as nat)) as nat, pow2(len));
    if hi != 0 {
        assert(hi * pow2(len) >= pow2(len)) by (nonlinear_arith)
            requires
                hi >= 1,
                pow2(len) > 0,
        ;
        assert(bits_val(bv) * pow2(n as nat) >= pow2(len));
    } else {
        assert(hi * pow2(len) == 0) by (nonlinear_arith)
            requires
                hi == 0,
        ;
        assert(bits_val(bv) * pow2(n as nat) == lo * pow2(n as nat));
        assert(bits_val(bv) * pow2(n as nat) < pow2(len));
    }
}

/// What a right shift does to the value: division by `pow2(n)`, with the
/// shifted-out bits worth the remainder.
pub proof fn lemma_shr_val(bv: Seq<bool>, n: int)
    requires
        0 <= n <= bv.len(),
    ensures
        bits_val(shr_bits(bv, n)) == bits_val(bv) / pow2(n as nat),
        (bits_val(bv.skip(bv.len() - n)) != 0) <==> (bits_val(bv) % pow2(n as nat) != 0),
{
    let len = bv.len();
    let hi = bits_val(bv.take(len - n));
    let lo = bits_val(bv.skip(len - n));
    lemma_bits_val_split(bv, len - n);
    lemma_bits_val_bound(bv.skip(len - n));
    lemma_pow2_pos(n as nat);
    // The shifted sequence is zeros followed by the high part.
    assert(shr_bits(bv, n) =~= pad_bits(Seq::<bool>::empty(), n as nat) + bv.take(len - n));
    crate::model::lemma_bits_val_append(pad_bits(Seq::<bool>::empty(), n as nat), bv.take(len - n));
    lemma_bits_val_zero_iff(pad_bits(Seq::<bool>::empty(), n as nat));
    assert(bits_val(shr_bits(bv, n)) == hi);
    lemma_fundamental_div_mod_converse(
        bits_val(bv) as int,
        pow2(n as nat) as int,
        hi as int,
        lo as int,
    );
}

/// Shifts the buffer's bits toward the most-significant end by `n`
/// places, zero-filling the vacated low-order bits.  Reports `true` when
/// `n` reaches the buffer's whole bit width, and otherwise exactly when a
/// set bit was shifted out at the high end; the value is multiplied by
/// `pow2(n)` and truncated to the buffer's width.
pub fn bit_shl(data: &mut Vec<u8>, n: usize) -> (r: bool)
    ensures
        final(data)@.len() == old(data)@.len(),
        bits_of(final(data)@) == shl_bits(bits_of(old(data)@), n as int),
        be_val(final(data)@) == (be_val(old(data)@) * pow2(n as nat)) % pow2(
            8 * old(data)@.len(),
        ),
        r == (n >= 8 * old(data)@.len() || be_val(old(data)@) * pow2(n as nat) >= pow2(
            8 * old(data)@.len(),
        )),
        n < 8 * old(data)@.len() ==> r == (bits_val(
            bits_of(old(data)@).take(n as int),
        ) != 0),
{
    let ghost orig = data@;
    let len = data.len();
    if n / 8 >= len {
        proof {
            assert(n >= 8 * len) by (nonlinear_arith)
                requires
                    n / 8 >= len,
                    n >= 0,
            ;
        }
        let mut i: usize = 0;
        while i < len
            invariant
                i <= len,
                data@.len() == len,
                orig.len() == len,
                forall|j: int| 0 <= j < i ==> data@[j] == 0,
            decreases len - i,
        {
            data[i] = 0;
            i = i + 1;
        }
        proof {
            lemma_be_val_zero_iff(data@);
            assert(bits_of(data@) =~= shl_bits(bits_of(orig), n as int)) by {
                assert forall|i: int| 0 <= i < 8 * len implies !bits_of(data@)[i] by {
                    lemma_pow2_pos((7 - (i % 8)) as nat);
                    assert(data@[i / 8] == 0);
                }
            }
            lemma_be_val_bound_times_pow2(orig, n as nat);
        }
        true
    } else {
        proof {
            assert(8 * (n / 8) <= n < 8 * len) by (nonlinear_arith)
                requires
                    n / 8 < len,
                    n >= 0,
            ;
        }
        let bv = bit_iter(data);
        let bv_len = bv.len();
        let mut carry = false;
        let mut i: usize = 0;
        proof {
            assert(bits_of(orig).take(0) =~= Seq::<bool>::empty());
        }
        while i < n
            invariant
                i <= n,
                n < 8 * orig.len(),
                bv@ == bits_of(orig),
                bv@.len() == 8 * orig.len(),
                carry == (bits_val(bits_of(orig).take(i as int)) != 0),
            decreases n - i,
        {
            proof {
                let tk1 = bits_of(orig).take(i + 1);
                assert(tk1.drop_last() =~= bits_of(orig).take(i as int));
                assert(tk1.last() == bv@[i as int]);
            }
            if bv[i] {
                carry = true;
            }
            i = i + 1;
        }
        let mut out_bits: Vec<bool> = Vec::new();
        let mut i: usize = 0;
        while i < bv_len
            invariant
                i <= bv_len,
                n < bv_len,
                bv_len == bv@.len(),
                bv@ == bits_of(orig),
                out_bits@ == shl_bits(bits_of(orig), n as int).take(i as int),
            decreases bv_len - i,
        {
            let b = if n < bv_len - i {
                bv[i + n]
            } else {
                false
            };
            proof {
                assert(out_bits@.push(b) =~= shl_bits(bits_of(orig), n as int).take(i + 1));
            }
            out_bits.push(b);
            i = i + 1;
        }
        proof {
            assert(out_bits@ =~= shl_bits(bits_of(orig), n as int));
        }
        let nb = from_bits(&out_bits);
        proof {
            assert((8 * orig.len() + 7) / 8 == orig.len()) by (nonlinear_arith);
            assert(bits_of(nb@) =~= shl_bits(bits_of(orig), n as int)) by {
                assert(bits_of(nb@) == pad_bits(out_bits@, 8 * ((out_bits@.len() + 7) / 8)));
            }
            lemma_shl_val(bits_of(orig), n as int);
            lemma_be_val_is_bits_val(nb@);
            lemma_be_val_is_bits_val(orig);
            assert(carry == (bits_val(bits_of(orig).take(n as int)) != 0));
        }
        *data = nb;
        carry
    }
}

/// Shifting by at least the whole width: the product is a multiple of
/// the width's power of two, so the truncated result is zero, and a
/// nonzero value is pushed entirely past the width.
proof fn lemma_be_val_bound_times_pow2(s: Seq<u8>, n: nat)
    requires
        n >= 8 * s.len(),
    ensures
        (be_val(s) * pow2(n)) % pow2(8 * s.len()) == 0,
        be_val(s) * pow2(n) >= pow2(8 * s.len()) || be_val(s) == 0,
{
    let w = 8 * s.len();
    lemma_pow2_adds(w, (n - w) as nat);
    lemma_pow2_pos(w);
    lemma_pow2_pos((n - w) as nat);
    assert(be_val(s) * pow2(n) == (be_val(s) * pow2((n - w) as nat)) * pow2(w)) by (nonlinear_arith)
        requires
            pow2(n) == pow2(w) * pow2((n - w) as nat),
    ;
    lemma_mul_is_commutative((be_val(s) * pow2((n - w) as nat)) as int, pow2(w) as int);
    lemma_mod_multiples_vanish((be_val(s) * pow2((n - w) as nat)) as int, 0, pow2(w) as int);
    if be_val(s) != 0 {
        assert((be_val(s) * pow2((n - w) as nat)) * pow2(w) >= pow2(w)) by (nonlinear_arith)
            requires
                be_val(s) >= 1,
                pow2((n - w) as nat) >= 1,
                pow2(w) > 0,
        ;
    }
}

/// Shifts the buffer's bits toward the least-significant end by `n`
/// places, zero-filling the vacated high-order bits.  Reports `true` when
/// `n` reaches the buffer's whole bit width, and otherwise exactly when a
/// set bit was shifted out at the low end; the value is divided by
/// `pow2(n)`.
pub fn bit_shr(data: &mut Vec<u8>, n: usize) -> (r: bool)
    ensures
        final(data)@.len() == old(data)@.len(),
        bits_of(final(data)@) == shr_bits(bits_of(old(data)@), n as int),
        be_val(final(data)@) == be_val(old(data)@) / pow2(n as nat),
        r == (n >= 8 * old(data)@.len() || be_val(old(data)@) % pow2(n as nat) != 0),
        n < 8 * old(data)@.len() ==> r == (bits_val(
            bits_of(old(data)@).skip(8 * old(data)@.len() - n),
        ) != 0),
{
    let ghost orig = data@;
    let len = data.len();
    if n / 8 >= len {
        proof {
            assert(n >= 8 * len) by (nonlinear_arith)
                requires
                    n / 8 >= len,
                    n >= 0,
            ;
        }
        let mut i: usize = 0;
        while i < len
            invariant
                i <= len,
                data@.len() == len,
                orig.len() == len,
                forall|j: int| 0 <= j < i ==> data@[j] == 0,
            decreases len - i,
        {
            data[i] = 0;
            i = i + 1;
        }
        proof {
            lemma_be_val_zero_iff(data@);
            assert(bits_of(data@) =~= shr_bits(bits_of(orig), n as int)) by {
                assert forall|i: int| 0 <= i < 8 * len implies !bits_of(data@)[i] by {
                    lemma_pow2_pos((7 - (i % 8)) as nat);
                    assert(data@[i / 8] == 0);
                }
            }
            lemma_be_val_bound(orig);
            lemma_pow2_pos((8 * len) as nat);
            if n > 8 * len {
                lemma_pow2_strictly_increases((8 * len) as nat, n as nat);
            }
            assert(be_val(orig) < pow2(n as nat));
            assert(be_val(orig) / pow2(n as nat) == 0) by (nonlinear_arith)
                requires
                    be_val(orig) < pow2(n as nat),
                    pow2(n as nat) > 0,
            ;
        }
        true
    } else {
        proof {
            assert(8 * (n / 8) <= n < 8 * len) by (nonlinear_arith)
                requires
                    n / 8 < len,
                    n >= 0,
            ;
        }
        let bv = bit_iter(data);
        let bv_len = bv.len();
        let mut carry = false;
        let mut i: usize = bv_len - n;
        proof {
            assert(bits_of(orig).subrange(bv_len - n, bv_len - n) =~= Seq::<bool>::empty());
        }
        while i < bv_len
            invariant
                bv_len - n <= i <= bv_len,
                n < 8 * orig.len(),
                bv@ == bits_of(orig),
                bv_len == bv@.len(),
                bv@.len() == 8 * orig.len(),
                carry == (bits_val(bits_of(orig).subrange(bv_len - n, i as int)) != 0),
            decreases bv_len - i,
        {
            proof {
                let tk1 = bits_of(orig).subrange(bv_len - n, i + 1);
                assert(tk1.drop_last() =~= bits_of(orig).subrange(bv_len - n, i as int));
                assert(tk1.last() == bv@[i as int]);
            }
            if bv[i] {
                carry = true;
            }
            i = i + 1;
        }
        let mut out_bits: Vec<bool> = Vec::new();
        let mut i: usize = 0;
        while i < bv_len
            invariant
                i <= bv_len,
                n < bv_len,
                bv_len == bv@.len(),
                bv@ == bits_of(orig),
                out_bits@ == shr_bits(bits_of(orig), n as int).take(i as int),
            decreases bv_len - i,
        {
            let b = if i >= n {
                bv[i - n]
            } else {
                false
            };
            proof {
                assert(out_bits@.push(b) =~= shr_bits(bits_of(orig), n as int).take(i + 1));
            }
            out_bits.push(b);
            i = i + 1;
        }
        proof {
            assert(out_bits@ =~= shr_bits(bits_of(orig), n as int));
        }
        let nb = from_bits(&out_bits);
        proof {
            assert((8 * orig.len() + 7) / 8 == orig.len()) by (nonlinear_arith);
            assert(bits_of(nb@) =~= shr_bits(bits_of(orig), n as int)) by {
                assert(bits_of(nb@) == pad_bits(out_bits@, 8 * ((out_bits@.len() + 7) / 8)));
            }
            lemma_shr_val(bits_of(orig), n as int);
            lemma_be_val_is_bits_val(nb@);
            lemma_be_val_is_bits_val(orig);
            assert(bits_of(orig).subrange(bv_len - n, bv_len as int) =~= bits_of(orig).skip(
                8 * orig.len() - n,
            ));
            assert(carry == (bits_val(bits_of(orig).skip(8 * orig.len() - n)) != 0));
        }
        *data = nb;
        carry
    }
}

/// Reverses the whole bit sequence: byte order and the bit order inside
/// each byte both turn around.
pub fn bit_reverse(data: &mut Vec<u8>)
    ensures
        final(data)@.len() == old(data)@.len(),
        bits_of(final(data)@) == rev_bits(bits_of(old(data)@)),
{
    let ghost orig = data@;
    let bv = bit_iter(data);
    let bv_len = bv.len();
    let mut out_bits: Vec<bool> = Vec::new();
    let mut i: usize = 0;
    while i < bv_len
        invariant
            i <= bv_len,
            bv_len == bv@.len(),
            bv@ == bits_of(orig),
            out_bits@ == rev_bits(bits_of(orig)).take(i as int),
        decreases bv_len - i,
    {
        let b = bv[bv_len - 1 - i];
        proof {
            assert(out_bits@.push(b) =~= rev_bits(bits_of(orig)).take(i + 1));
        }
        out_bits.push(b);
        i = i + 1;
    }
    proof {
        assert(out_bits@ =~= rev_bits(bits_of(orig)));
    }
    let nb = from_bits(&out_bits);
    proof {
        assert((8 * orig.len() + 7) / 8 == orig.len()) by (nonlinear_arith);
        assert(bits_of(nb@) =~= rev_bits(bits_of(orig))) by {
            assert(bits_of(nb@) == pad_bits(out_bits@, 8 * ((out_bits@.len() + 7) / 8)));
        }
    }
    *data = nb;
}

/// Complements every byte in place.
pub fn bit_not(data: &mut Vec<u8>)
    ensures
        final(data)@.len() == old(data)@.len(),
        forall|i: int| 0 <= i < old(data)@.len() ==> final(data)@[i] == !old(data)@[i],
{
    let ghost orig = data@;
    let len = data.len();
    let mut i: usize = 0;
    while i < len
        invariant
            i <= len,
            data@.len() == len,
            orig.len() == len,
            forall|j: int| 0 <= j < i ==> data@[j] == !orig[j],
            forall|j: int| i <= j < len ==> data@[j] == orig[j],
        decreases len - i,
    {
        let b = data[i];
        data[i] = !b;
        i = i + 1;
    }
}

/// Combines the buffers byte by byte, aligned at the low-order (right)
/// end, with AND; a missing byte of `other` counts as zero.
pub fn bit_be_and(data: &mut Vec<u8>, other: &Vec<u8>)
    ensures
        final(data)@.len() == old(data)@.len(),
        forall|i: int|
            0 <= i < old(data)@.len() ==> final(data)@[i] == (old(data)@[i] & crate::model::ext_byte(
                other@,
                old(data)@.len() as int,
                i,
            )),
{
    let ghost orig = data@;
    let len = data.len();
    let mut i: usize = 0;
    while i < len
        invariant
            i <= len,
            data@.len() == len,
            orig.len() == len,
            forall|j: int|
                0 <= j < i ==> data@[j] == (orig[j] & crate::model::ext_byte(
                    other@,
                    len as int,
                    j,
                )),
            forall|j: int| i <= j < len ==> data@[j] == orig[j],
        decreases len - i,
    {
        let k = len - 1 - i;
        let eb = if k < other.len() {
            other[other.len() - 1 - k]
        } else {
            0
        };
        assert(eb == crate::model::ext_byte(other@, len as int, i as int));
        let b = data[i];
        data[i] = b & eb;
        i = i + 1;
    }
}

/// Combines the buffers byte by byte, aligned at the low-order (right)
/// end, with OR; a missing byte of `other` counts as zero, which leaves
/// the byte of `data` unchanged.
pub fn bit_be_or(data: &mut Vec<u8>, other: &Vec<u8>)
    ensures
        final(data)@.len() == old(data)@.len(),
        forall|i: int|
            0 <= i < old(data)@.len() ==> final(data)@[i] == (old(data)@[i] | crate::model::ext_byte(
                other@,
                old(data)@.len() as int,
                i,
            )),
{
    let ghost orig = data@;
    let len = data.len();
    let mut i: usize = 0;
    while i < len
        invariant
            i <= len,
            data@.len() == len,
            orig.len() == len,
            forall|j: int|
                0 <= j < i ==> data@[j] == (orig[j] | crate::model::ext_byte(
                    other@,
                    len as int,
                    j,
                )),
            forall|j: int| i <= j < len ==> data@[j] == orig[j],
        decreases len - i,
    {
        let k = len - 1 - i;
        let eb = if k < other.len() {
            other[other.len() - 1 - k]
        } else {
            0
        };
        assert(eb == crate::model::ext_byte(other@, len as int, i as int));
        let b = data[i];
        let nb = b | eb;
        proof {
            assert(b | 0u8 == b) by (bit_vector);
        }
        data[i] = nb;
        i = i + 1;
    }
}

/// Combines the buffers byte by byte, aligned at the low-order (right)
/// end, with XOR; a missing byte of `other` counts as zero.
pub fn bit_be_xor(data: &mut Vec<u8>, other: &Vec<u8>)
    ensures
        final(data)@.len() == old(data)@.len(),
        forall|i: int|
            0 <= i < old(data)@.len() ==> final(data)@[i] == (old(data)@[i] ^ crate::model::ext_byte(
                other@,
                old(data)@.len() as int,
                i,
            )),
{
    let ghost orig = data@;
    let len = data.len();
    let mut i: usize = 0;
    while i < len
        invariant
            i <= len,
            data@.len() == len,
            orig.len() == len,
            forall|j: int|
                0 <= j < i ==> data@[j] == (orig[j] ^ crate::model::ext_byte(
                    other@,
                    len as int,
                    j,
                )),
            forall|j: int| i <= j < len ==> data@[j] == orig[j],
        decreases len - i,
    {
        let k = len - 1 - i;
        let eb = if k < other.len() {
            other[other.len() - 1 - k]
        } else {
            0
        };
        assert(eb == crate::model::ext_byte(other@, len as int, i as int));
        let b = data[i];
        data[i] = b ^ eb;
        i = i + 1;
    }
}

/// Byte `i` of `b` aligned at the first (low) byte: a missing byte
/// counts as zero.
pub open spec fn le_ext_byte(b: Seq<u8>, i: int) -> u8 {
    if i < b.len() {
        b[i]
    } else {
        0
    }
}

/// Combines the buffers byte by byte, aligned at the first byte, with
/// AND; a missing byte of `other` counts as zero.
pub fn bit_le_and(data: &mut Vec<u8>, other: &Vec<u8>)
    ensures
        final(data)@.len() == old(data)@.len(),
        forall|i: int|
            0 <= i < old(data)@.len() ==> final(data)@[i] == (old(data)@[i] & le_ext_byte(
                other@,
                i,
            )),
{
    let ghost orig = data@;
    let len = data.len();
    let mut i: usize = 0;
    while i < len
        invariant
            i <= len,
            data@.len() == len,
            orig.len() == len,
            forall|j: int| 0 <= j < i ==> data@[j] == (orig[j] & le_ext_byte(other@, j)),
            forall|j: int| i <= j < len ==> data@[j] == orig[j],
        decreases len - i,
    {
        let eb = if i < other.len() {
            other[i]
        } else {
            0
        };
        let b = data[i];
        data[i] = b & eb;
        i = i + 1;
    }
}

/// Combines the buffers byte by byte, aligned at the first byte, with
/// OR; a missing byte of `other` counts as zero.
pub fn bit_le_or(data: &mut Vec<u8>, other: &Vec<u8>)
    ensures
        final(data)@.len() == old(data)@.len(),
        forall|i: int|
            0 <= i < old(data)@.len() ==> final(data)@[i] == (old(data)@[i] | le_ext_byte(
                other@,
                i,
            )),
{
    let ghost orig = data@;
    let len = data.len();
    let mut i: usize = 0;
    while i < len
        invariant
            i <= len,
            data@.len() == len,
            orig.len() == len,
            forall|j: int| 0 <= j < i ==> data@[j] == (orig[j] | le_ext_byte(other@, j)),
            forall|j: int| i <= j < len ==> data@[j] == orig[j],
        decreases len - i,
    {
        let eb = if i < other.len() {
            other[i]
        } else {
            0
        };
        let b = data[i];
        data[i] = b | eb;
        i = i + 1;
    }
}

/// Combines the buffers byte by byte, aligned at the first byte, with
/// XOR; a missing byte of `other` counts as zero.
pub fn bit_le_xor(data: &mut Vec<u8>, other: &Vec<u8>)
    ensures
        final(data)@.len() == old(data)@.len(),
        forall|i: int|
            0 <= i < old(data)@.len() ==> final(data)@[i] == (old(data)@[i] ^ le_ext_byte(
                other@,
                i,
            )),
{
    let ghost orig = data@;
    let len = data.len();
    let mut i: usize = 0;
    while i < len
        invariant
            i <= len,
            data@.len() == len,
            orig.len() == len,
            forall|j: int| 0 <= j < i ==> data@[j] == (orig[j] ^ le_ext_byte(other@, j)),
            forall|j: int| i <= j < len ==> data@[j] == orig[j],
        decreases len - i,
    {
        let eb = if i < other.len() {
            other[i]
        } else {
            0
        };
        let b = data[i];
        data[i] = b ^ eb;
        i = i + 1;
    }
}

/// True exactly when every byte is `0x00`.
pub fn bit_all_zero(data: &Vec<u8>) -> (r: bool)
    ensures
        r == (forall|i: int| 0 <= i < data@.len() ==> data@[i] == 0),
{
    let len = data.len();
    let mut ok = true;
    let mut i: usize = 0;
    while i < len
        invariant
            i <= len,
            len == data@.len(),
            ok == (forall|j: int| 0 <= j < i ==> data@[j] == 0),
        decreases len - i,
    {
        if data[i] != 0 {
            ok = false;
        }
        i = i + 1;
    }
    ok
}

/// True exactly when every byte is `0xFF`.
pub fn bit_all_one(data: &Vec<u8>) -> (r: bool)
    ensures
        r == (forall|i: int| 0 <= i < data@.len() ==> data@[i] == 255),
{
    let len = data.len();
    let mut ok = true;
    let mut i: usize = 0;
    while i < len
        invariant
            i <= len,
            len == data@.len(),
            ok == (forall|j: int| 0 <= j < i ==> data@[j] == 255),
        decreases len - i,
    {
        if data[i] != 255 {
            ok = false;
        }
        i = i + 1;
    }
    ok
}

/// Sets every byte to `0xFF` or `0x00`.
pub fn bit_fill(data: &mut Vec<u8>, value: bool)
    ensures
        final(data)@.len() == old(data)@.len(),
        forall|i: int|
            0 <= i < old(data)@.len() ==> final(data)@[i] == (if value {
                255u8
            } else {
                0u8
            }),
{
    let len = data.len();
    let v: u8 = if value {
        255
    } else {
        0
    };
    let mut i: usize = 0;
    while i < len
        invariant
            i <= len,
            data@.len() == len,
            v == (if value {
                255u8
            } else {
                0u8
            }),
            forall|j: int| 0 <= j < i ==> data@[j] == v,
        decreases len - i,
    {
        data[i] = v;
        i = i + 1;
    }
}

/// Reads bit `index` of the buffer's bit sequence.
pub fn bit_get(data: &Vec<u8>, index: usize) -> (r: bool)
    requires
        index < 8 * data@.len(),
    ensures
        r == bits_of(data@)[index as int],
{
    let b = data[index / 8];
    let p = pow2_u8(7 - index % 8);
    proof {
        lemma_pow2_pos((7 - (index % 8) as int) as nat);
    }
    (b / p) % 2 == 1
}

/// Writes bit `index` of the buffer's bit sequence: the value moves by
/// the bit's weight and no other bit changes.
pub fn bit_set(data: &mut Vec<u8>, index: usize, value: bool)
    requires
        index < 8 * old(data)@.len(),
    ensures
        final(data)@.len() == old(data)@.len(),
        bits_of(final(data)@) == bits_of(old(data)@).update(index as int, value),
        be_val(final(data)@) as int == be_val(old(data)@) - (if bits_of(old(data)@)[index as int] {
            pow2((8 * old(data)@.len() - 1 - index) as nat) as int
        } else {
            0
        }) + (if value {
            pow2((8 * old(data)@.len() - 1 - index) as nat) as int
        } else {
            0
        }),
{
    let ghost orig = data@;
    let j = index / 8;
    let t = index % 8;
    let b = data[j];
    let p = pow2_u8(7 - t);
    proof {
        lemma_pow2_pos((7 - t as int) as nat);
    }
    let cur = (b / p) % 2 == 1;
    let ghost obits = bit_rep(b as nat, 8);
    let ghost nbits = obits.update(t as int, value);
    proof {
        lemma_bit_rep_val(b as nat, 8);
        lemma2_to64();
        lemma_small_mod(b as nat, 256);
        assert(bits_val(obits) == b);
        crate::model::lemma_bits_val_update(obits, t as int, value);
        lemma_bits_val_bound(nbits);
        assert(cur == obits[t as int]);
    }
    if value && !cur {
        data[j] = b + p;
        proof {
            assert(bits_val(nbits) == b + p);
        }
    } else if !value && cur {
        data[j] = b - p;
        proof {
            assert(bits_val(nbits) == b - p);
        }
    } else {
        proof {
            assert(nbits =~= obits);
            assert(bits_val(nbits) == b);
        }
    }
    proof {
        let nb = data@[j as int];
        assert(nb == bits_val(nbits));
        lemma_bit_rep_of_bits_val(nbits);
        assert(bit_rep(nb as nat, 8) == nbits);
        assert(bits_of(data@) =~= bits_of(orig).update(index as int, value)) by {
            assert forall|i: int| 0 <= i < 8 * orig.len() implies bits_of(data@)[i] == bits_of(
                orig,
            ).update(index as int, value)[i] by {
                assert(index / 8 == j && index % 8 == t);
                if i / 8 == j {
                    assert(bits_of(data@)[i] == bit_rep(nb as nat, 8)[i % 8]);
                    assert(bits_of(orig)[i] == obits[i % 8]);
                    if i == index {
                        assert(i % 8 == t) by (nonlinear_arith)
                            requires
                                i == index,
                                index / 8 == j,
                                index % 8 == t,
                        ;
                    } else {
                        assert(i % 8 != t || i / 8 != j) by (nonlinear_arith)
                            requires
                                i != index,
                                index == 8 * j + t,
                                0 <= t < 8,
                                0 <= i,
                        ;
                    }
                }
            }
        }
        lemma_be_val_is_bits_val(orig);
        lemma_be_val_is_bits_val(data@);
        crate::model::lemma_bits_val_update(bits_of(orig), index as int, value);
    }
}

/// Counts the zero bits from the most-significant end; the whole bit
/// width when the buffer is zero.
pub fn bit_leading_zeros(data: &Vec<u8>) -> (r: usize)
    requires
        8 * data@.len() <= usize::MAX,
    ensures
        r <= 8 * data@.len(),
        forall|i: int| 0 <= i < r ==> !bits_of(data@)[i],
        r < 8 * data@.len() ==> bits_of(data@)[r as int],
{
    let len = data.len();
    let mut j: usize = 0;
    while j < len
        invariant
            j <= len,
            len == data@.len(),
            8 * len <= usize::MAX,
            forall|i: int| 0 <= i < 8 * j ==> !bits_of(data@)[i],
        decreases len - j,
    {
        let b = data[j];
        if b != 0 {
            let ghost obits = bit_rep(b as nat, 8);
            proof {
                lemma2_to64();
                lemma_bit_rep_val(b as nat, 8);
                lemma_small_mod(b as nat, 256);
                assert(bits_val(obits) == b);
            }
            let mut t: usize = 0;
            let mut p: u8 = 128;
            while (b / p) % 2 == 0
                invariant
                    t < 8,
                    p >= 1,
                    p as nat == pow2((7 - t) as nat),
                    bits_val(bit_rep(b as nat, 8)) == b,
                    b != 0,
                    forall|u: int| 0 <= u < t ==> !bit_rep(b as nat, 8)[u],
                decreases 8 - t,
            {
                proof {
                    assert(!bit_rep(b as nat, 8)[t as int]);
                    if t >= 7 {
                        crate::model::lemma_bits_val_zero_iff(bit_rep(b as nat, 8));
                        assert(forall|u: int| 0 <= u < 8 ==> !bit_rep(b as nat, 8)[u]);
                        assert(false);
                    }
                    lemma_pow2_unfold((7 - t) as nat);
                    lemma_pow2_pos((7 - (t + 1)) as nat);
                }
                t = t + 1;
                p = p / 2;
            }
            proof {
                assert(bit_rep(b as nat, 8)[t as int]);
                assert(j * 8 + t < 8 * len) by (nonlinear_arith)
                    requires
                        j < len,
                        t < 8,
                ;
            }
            let r = j * 8 + t;
            proof {
                assert forall|i: int| 0 <= i < r implies !bits_of(data@)[i] by {
                    if i >= 8 * j {
                        assert(i / 8 == j && i % 8 == i - 8 * j) by (nonlinear_arith)
                            requires
                                8 * j <= i < 8 * j + t,
                                0 <= t < 8,
                        ;
                        assert(bits_of(data@)[i] == bit_rep(b as nat, 8)[i - 8 * j]);
                    }
                }
                assert(r < 8 * len);
                assert(r as int / 8 == j && r as int % 8 == t) by (nonlinear_arith)
                    requires
                        r == 8 * j + t,
                        0 <= t < 8,
                ;
                assert(bits_of(data@)[r as int] == bit_rep(b as nat, 8)[t as int]);
            }
            return r;
        }
        proof {
            assert forall|i: int| 0 <= i < 8 * (j + 1) implies !bits_of(data@)[i] by {
                if i >= 8 * j {
                    assert(i / 8 == j) by (nonlinear_arith)
                        requires
                            8 * j <= i < 8 * (j + 1),
                    ;
                    lemma_pow2_pos((7 - (i % 8)) as nat);
                    assert(data@[i / 8] == 0);
                }
            }
        }
        j = j + 1;
    }
    len * 8
}

/// Counts the zero bits from the least-significant end; the whole bit
/// width when the buffer is zero.
pub fn bit_trailing_zeros(data: &Vec<u8>) -> (r: usize)
    requires
        8 * data@.len() <= usize::MAX,
    ensures
        r <= 8 * data@.len(),
        forall|i: int| 8 * data@.len() - r <= i < 8 * data@.len() ==> !bits_of(data@)[i],
        r < 8 * data@.len() ==> bits_of(data@)[8 * data@.len() - 1 - r],
{
    let len = data.len();
    let mut j: usize = len;
    while j > 0
        invariant
            j <= len,
            len == data@.len(),
            8 * len <= usize::MAX,
            forall|i: int| 8 * j <= i < 8 * len ==> !bits_of(data@)[i],
        decreases j,
    {
        let b = data[j - 1];
        if b != 0 {
            proof {
                lemma2_to64();
                lemma_bit_rep_val(b as nat, 8);
                lemma_small_mod(b as nat, 256);
            }
            let mut s: usize = 0;
            let mut p: u8 = 1;
            while (b / p) % 2 == 0
                invariant
                    s < 8,
                    p >= 1,
                    p as nat == pow2(s as nat),
                    bits_val(bit_rep(b as nat, 8)) == b,
                    b != 0,
                    forall|u: int| 8 - s <= u < 8 ==> !bit_rep(b as nat, 8)[u],
                decreases 8 - s,
            {
                proof {
                    assert(!bit_rep(b as nat, 8)[7 - s as int]);
                    if s >= 7 {
                        crate::model::lemma_bits_val_zero_iff(bit_rep(b as nat, 8));
                        assert(forall|u: int| 0 <= u < 8 ==> !bit_rep(b as nat, 8)[u]);
                        assert(false);
                    }
                    lemma_pow2_unfold((s + 1) as nat);
                    lemma_pow2_strictly_increases(s as nat, 7);
                    lemma2_to64();
                }
                s = s + 1;
                p = p * 2;
            }
            proof {
                assert(bit_rep(b as nat, 8)[7 - s as int]);
            }
            let r = (len - j) * 8 + s;
            proof {
                assert((len - j) * 8 + s < 8 * len) by (nonlinear_arith)
                    requires
                        1 <= j <= len,
                        s < 8,
                ;
                assert(8 * len - r == 8 * (j - 1) + 8 - s);
                assert forall|i: int| 8 * len - r <= i < 8 * len implies !bits_of(data@)[i] by {
                    if i < 8 * j {
                        assert(i / 8 == j - 1 && i % 8 == i - 8 * (j - 1)) by (nonlinear_arith)
                            requires
                                8 * (j - 1) <= i < 8 * j,
                        ;
                        assert(bits_of(data@)[i] == bit_rep(b as nat, 8)[i - 8 * (j - 1)]);
                        assert(i - 8 * (j - 1) >= 8 - s);
                    }
                }
                assert(8 * len - 1 - r == 8 * (j - 1) + 7 - s);
                assert((8 * (j - 1) + 7 - s) / 8 == j - 1 && (8 * (j - 1) + 7 - s) % 8 == 7
                    - s) by (nonlinear_arith)
                    requires
                        0 <= s < 8,
                        j >= 1,
                ;
                assert(bits_of(data@)[8 * len - 1 - r] == bit_rep(b as nat, 8)[7 - s as int]);
            }
            return r;
        }
        proof {
            assert forall|i: int| 8 * (j - 1) <= i < 8 * len implies !bits_of(data@)[i] by {
                if i < 8 * j {
                    assert(i / 8 == j - 1) by (nonlinear_arith)
                        requires
                            8 * (j - 1) <= i < 8 * j,
                    ;
                    lemma_pow2_pos((7 - (i % 8)) as nat);
                    assert(data@[i / 8] == 0);
                }
            }
        }
        j = j - 1;
    }
    len * 8
}

} // verus!
