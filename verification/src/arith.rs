//! The arithmetic engine: big-endian comparison, addition, subtraction,
//! multiplication and long division over fixed-width byte buffers, with
//! carry, borrow and overflow reported explicitly.

use vstd::prelude::*;
use vstd::arithmetic::power2::*;
use vstd::arithmetic::div_mod::{
    lemma_add_mod_noop,
    lemma_div_multiples_vanish,
    lemma_fundamental_div_mod,
    lemma_fundamental_div_mod_converse,
    lemma_mod_bound,
    lemma_mod_multiples_basic,
    lemma_mod_multiples_vanish,
    lemma_small_mod,
};
use vstd::arithmetic::mul::{
    lemma_mul_inequality,
    lemma_mul_is_commutative,
    lemma_mul_is_distributive_add,
    lemma_mul_is_distributive_add_other_way,
};
use crate::model::{
    be_val,
    bits_of,
    bits_val,
    ext_byte,
    ext_seq,
    lemma_be_val_bound,
    lemma_be_val_is_bits_val,
    lemma_be_val_split,
    lemma_be_val_zero_iff,
    lemma_bits_val_bit_extract,
    lemma_bits_val_split,
    lemma_bits_val_zero_iff,
    lemma_ext_seq_val,
};
use crate::bitwise::{bit_all_zero, bit_leading_zeros, bit_set, bit_shl, bit_shr};
use crate::chunks::bit_iter;
use core::cmp::Ordering;

verus! {

/// A fresh all-zero buffer of `n` bytes.
pub(crate) fn zero_vec(n: usize) -> (r: Vec<u8>)
    ensures
        r@.len() == n,
        forall|i: int| 0 <= i < n ==> r@[i] == 0,
        be_val(r@) == 0,
{
    let mut r: Vec<u8> = Vec::new();
    let mut i: usize = 0;
    while i < n
        invariant
            i <= n,
            r@.len() == i,
            forall|j: int| 0 <= j < i ==> r@[j] == 0,
        decreases n - i,
    {
        r.push(0);
        i = i + 1;
    }
    proof {
        lemma_be_val_zero_iff(r@);
    }
    r
}

/// A byte-for-byte copy of the buffer.
pub(crate) fn copy_bytes(src: &Vec<u8>) -> (r: Vec<u8>)
    ensures
        r@ == src@,
{
    let mut r: Vec<u8> = Vec::new();
    let mut i: usize = 0;
    while i < src.len()
        invariant
            i <= src@.len(),
            r@ == src@.take(i as int),
        decreases src@.len() - i,
    {
        let b = src[i];
        proof {
            assert(r@.push(b) =~= src@.take(i + 1));
        }
        r.push(b);
        i = i + 1;
    }
    proof {
        assert(r@ =~= src@);
    }
    r
}

/// The value of a one-byte buffer is the byte.
proof fn lemma_be_val_singleton(b: u8)
    ensures
        be_val(seq![b]) == b,
{
    assert(seq![b].drop_last() =~= Seq::<u8>::empty());
    assert(be_val(Seq::<u8>::empty()) == 0);
}

/// Peeling the first byte off a buffer: its weight is the width of the
/// rest.
proof fn lemma_be_val_first(s: Seq<u8>)
    requires
        s.len() >= 1,
    ensures
        be_val(s) == s[0] * pow2(8 * (s.len() - 1) as nat) + be_val(s.skip(1)),
        be_val(s.skip(1)) < pow2(8 * (s.len() - 1) as nat),
{
    lemma_be_val_split(s, 1);
    assert(s.take(1) =~= seq![s[0]]);
    lemma_be_val_singleton(s[0]);
    lemma_be_val_bound(s.skip(1));
}

/// Equal-length buffers that first differ at byte `i` order by that byte.
proof fn lemma_be_cmp_at(x: Seq<u8>, y: Seq<u8>, i: int)
    requires
        x.len() == y.len(),
        0 <= i < x.len(),
        forall|j: int| 0 <= j < i ==> x[j] == y[j],
        x[i] < y[i],
    ensures
        be_val(x) < be_val(y),
{
    let len = x.len();
    let w = pow2(8 * (len - i - 1) as nat);
    lemma_be_val_split(x, i);
    lemma_be_val_split(y, i);
    assert(x.take(i) =~= y.take(i));
    lemma_be_val_first(x.skip(i));
    lemma_be_val_first(y.skip(i));
    assert(x.skip(i)[0] == x[i] && y.skip(i)[0] == y[i]);
    assert(x.skip(i).skip(1) =~= x.skip(i + 1));
    assert(y.skip(i).skip(1) =~= y.skip(i + 1));
    assert(x.skip(i).len() - 1 == len - i - 1);
    lemma_mul_is_distributive_add_other_way(w as int, x[i] as int, 1);
    assert((x[i] + 1) * w == x[i] * w + w);
    lemma_mul_inequality(x[i] + 1, y[i] as int, w as int);
    assert(be_val(x.skip(i)) < be_val(y.skip(i)));
}

/// Aligns `b` at the low-order end to exactly `n` bytes, zero-filling
/// the high end; dropping bytes is allowed only when they are zero, so
/// the value is kept exactly.
pub fn extend_be(b: &Vec<u8>, n: usize) -> (r: Vec<u8>)
    requires
        b@.len() > n ==> forall|i: int| 0 <= i < b@.len() - n ==> b@[i] == 0,
    ensures
        r@.len() == n,
        r@ == ext_seq(b@, n as nat),
        be_val(r@) == be_val(b@),
{
    let mut r: Vec<u8> = Vec::new();
    let mut i: usize = 0;
    while i < n
        invariant
            i <= n,
            r@.len() == i,
            forall|j: int| 0 <= j < i ==> r@[j] == ext_byte(b@, n as int, j),
        decreases n - i,
    {
        let k = n - 1 - i;
        let eb = if k < b.len() {
            b[b.len() - 1 - k]
        } else {
            0
        };
        assert(eb == ext_byte(b@, n as int, i as int));
        r.push(eb);
        i = i + 1;
    }
    proof {
        assert(r@ =~= ext_seq(b@, n as nat));
        lemma_ext_seq_val(b@, n as nat);
        if b@.len() > n {
            let z = b@.len() - n;
            lemma_be_val_split(b@, z);
            lemma_be_val_zero_iff(b@.take(z));
            assert(be_val(b@.take(z)) == 0) by {
                assert(forall|j: int| 0 <= j < z ==> b@.take(z)[j] == b@[j] && b@[j] == 0);
            }
            lemma_be_val_bound(b@.skip(z));
            assert(be_val(b@) == 0 * pow2(8 * n as nat) + be_val(b@.skip(z)));
            lemma_small_mod(be_val(b@), pow2(8 * n as nat));
        }
    }
    r
}

/// Compares two buffers as big-endian unsigned integers: the shorter
/// operand counts as zero-extended at the high end, so extra leading
/// zero bytes never change the ordering.
pub fn bit_be_cmp(a: &Vec<u8>, b: &Vec<u8>) -> (r: Ordering)
    ensures
        r == Ordering::Less <==> be_val(a@) < be_val(b@),
        r == Ordering::Greater <==> be_val(a@) > be_val(b@),
        r == Ordering::Equal <==> be_val(a@) == be_val(b@),
{
    let m = if a.len() > b.len() {
        a.len()
    } else {
        b.len()
    };
    let ghost ea = ext_seq(a@, m as nat);
    let ghost eb = ext_seq(b@, m as nat);
    proof {
        lemma_ext_seq_val(a@, m as nat);
        lemma_ext_seq_val(b@, m as nat);
        assert(be_val(ea) == be_val(a@));
        assert(be_val(eb) == be_val(b@));
    }
    let mut i: usize = 0;
    while i < m
        invariant
            i <= m,
            m >= a@.len() && m >= b@.len(),
            ea == ext_seq(a@, m as nat),
            eb == ext_seq(b@, m as nat),
            be_val(ea) == be_val(a@),
            be_val(eb) == be_val(b@),
            forall|j: int| 0 <= j < i ==> ea[j] == eb[j],
        decreases m - i,
    {
        let ka = m - 1 - i;
        let xa = if ka < a.len() {
            a[a.len() - 1 - ka]
        } else {
            0
        };
        let xb = if ka < b.len() {
            b[b.len() - 1 - ka]
        } else {
            0
        };
        assert(xa == ea[i as int]);
        assert(xb == eb[i as int]);
        if xa < xb {
            proof {
                lemma_be_cmp_at(ea, eb, i as int);
            }
            return Ordering::Less;
        }
        if xa > xb {
            proof {
                lemma_be_cmp_at(eb, ea, i as int);
            }
            return Ordering::Greater;
        }
        i = i + 1;
    }
    proof {
        assert(ea =~= eb);
    }
    Ordering::Equal
}

/// Adds `b` into `a` byte by byte from the least-significant end,
/// propagating the carry; `b` is read zero-extended (or cut, keeping its
/// low bytes) to `a`'s width.  Reports `true` exactly when a carry runs
/// past `a`'s most-significant byte; the sum is then truncated to `a`'s
/// width.
pub fn bit_be_add(a: &mut Vec<u8>, b: &Vec<u8>) -> (r: bool)
    ensures
        final(a)@.len() == old(a)@.len(),
        be_val(final(a)@) + (if r {
            pow2(8 * old(a)@.len())
        } else {
            0nat
        }) == be_val(old(a)@) + (be_val(b@) % pow2(8 * old(a)@.len())),
        r == (be_val(old(a)@) + (be_val(b@) % pow2(8 * old(a)@.len())) >= pow2(
            8 * old(a)@.len(),
        )),
        be_val(final(a)@) == (be_val(old(a)@) + be_val(b@)) % pow2(8 * old(a)@.len()),
{
    let ghost orig = a@;
    let len = a.len();
    let ghost eseq = ext_seq(b@, len as nat);
    let ghost p = pow2(8 * len as nat);
    let mut carry = false;
    let mut k: usize = 0;
    proof {
        assert(orig.skip(len as int) =~= Seq::<u8>::empty());
        assert(eseq.skip(len as int) =~= Seq::<u8>::empty());
        assert(a@.skip(len as int) =~= Seq::<u8>::empty());
        lemma2_to64();
    }
    while k < len
        invariant
            k <= len,
            a@.len() == len,
            orig.len() == len,
            eseq == ext_seq(b@, len as nat),
            a@.take(len - k) == orig.take(len - k),
            be_val(orig.skip(len - k)) + be_val(eseq.skip(len - k)) == (if carry {
                pow2(8 * k as nat)
            } else {
                0nat
            }) + be_val(a@.skip(len - k)),
        decreases len - k,
    {
        let idx = len - 1 - k;
        let eb = if k < b.len() {
            b[b.len() - 1 - k]
        } else {
            0
        };
        assert(eb == eseq[idx as int]);
        let ghost aprev = a@;
        let av = a[idx];
        proof {
            assert(aprev[idx as int] == orig[idx as int]) by {
                assert(aprev.take(len - k)[idx as int] == orig.take(len - k)[idx as int]);
            }
        }
        let s: u16 = av as u16 + eb as u16 + (if carry {
            1
        } else {
            0
        });
        let nb: u8 = (s % 256) as u8;
        let c2 = s >= 256;
        a[idx] = nb;
        proof {
            let w = pow2(8 * k as nat);
            let w2 = pow2(8 * (k + 1) as nat);
            lemma_pow2_adds(8 * k as nat, 8);
            lemma2_to64();
            assert(w2 == w * 256);
            let cn: nat = if carry {
                1nat
            } else {
                0nat
            };
            let cn2: nat = if c2 {
                1nat
            } else {
                0nat
            };
            assert(av + eb + cn == cn2 * 256 + nb);
            // Values of the one-byte-longer suffixes.
            lemma_be_val_first(orig.skip(idx as int));
            lemma_be_val_first(eseq.skip(idx as int));
            lemma_be_val_first(a@.skip(idx as int));
            assert(orig.skip(idx as int).skip(1) =~= orig.skip(len - k));
            assert(eseq.skip(idx as int).skip(1) =~= eseq.skip(len - k));
            assert(a@.skip(idx as int).skip(1) =~= aprev.skip(len - k)) by {
                assert(a@ == aprev.update(idx as int, nb));
            }
            assert(orig.skip(idx as int)[0] == orig[idx as int]);
            assert(eseq.skip(idx as int)[0] == eseq[idx as int]);
            assert(a@.skip(idx as int)[0] == nb);
            let os = be_val(orig.skip(len - k));
            let es = be_val(eseq.skip(len - k));
            let ns = be_val(aprev.skip(len - k));
            assert(os + es == cn * w + ns);
            assert((orig[idx as int] * w + os) + (eseq[idx as int] * w + es) == cn2 * (w * 256) + (
            nb * w + ns)) by (nonlinear_arith)
                requires
                    os + es == cn * w + ns,
                    av + eb + cn == cn2 * 256 + nb,
                    av == orig[idx as int],
                    eb == eseq[idx as int],
            ;
            assert(a@.take(len - (k + 1)) =~= orig.take(len - (k + 1))) by {
                assert(forall|j: int|
                    0 <= j < len - k - 1 ==> a@[j] == aprev[j] && aprev.take(len - k)[j]
                        == orig.take(len - k)[j]);
            }
        }
        carry = c2;
        k = k + 1;
    }
    proof {
        assert(orig.skip(0) =~= orig);
        assert(eseq.skip(0) =~= eseq);
        assert(a@.skip(0) =~= a@);
        lemma_ext_seq_val(b@, len as nat);
        lemma_be_val_bound(a@);
        let va = be_val(orig);
        let vb = be_val(b@);
        let vbp = vb % p;
        let newv = be_val(a@);
        assert(va + vbp == (if carry {
            p
        } else {
            0nat
        }) + newv);
        lemma_pow2_pos(8 * len as nat);
        // carry is forced by the bound on the result.
        if carry {
            assert(va + vbp >= p);
            assert(newv == (va + vbp) - p);
            lemma_mod_multiples_vanish(1, newv as int, p as int);
            lemma_small_mod(newv, p);
            assert((va + vbp) % p == newv);
        } else {
            assert(va + vbp < p) by {
                lemma_be_val_bound(orig);
                lemma_mod_bound(vb as int, p as int);
            }
            lemma_small_mod((va + vbp) as nat, p);
        }
        lemma_add_mod_noop(va as int, vb as int, p as int);
        lemma_be_val_bound(orig);
        lemma_small_mod(va, p);
        assert((va + vbp) % p == (va + vb) % p);
    }
    carry
}

/// Subtracts `b` from `a` byte by byte from the least-significant end,
/// propagating the borrow; `b` is read zero-extended (or cut, keeping
/// its low bytes) to `a`'s width.  Reports `true` exactly when a borrow
/// runs past `a`'s most-significant byte: the difference then wraps
/// around `a`'s width (unsigned wraparound, not a trap).
pub fn bit_be_sub(a: &mut Vec<u8>, b: &Vec<u8>) -> (r: bool)
    ensures
        final(a)@.len() == old(a)@.len(),
        be_val(final(a)@) + (be_val(b@) % pow2(8 * old(a)@.len())) == be_val(old(a)@) + (if r {
            pow2(8 * old(a)@.len())
        } else {
            0nat
        }),
        r == ((be_val(b@) % pow2(8 * old(a)@.len())) > be_val(old(a)@)),
{
    let ghost orig = a@;
    let len = a.len();
    let ghost eseq = ext_seq(b@, len as nat);
    let ghost p = pow2(8 * len as nat);
    let mut borrow = false;
    let mut k: usize = 0;
    proof {
        assert(orig.skip(len as int) =~= Seq::<u8>::empty());
        assert(eseq.skip(len as int) =~= Seq::<u8>::empty());
        assert(a@.skip(len as int) =~= Seq::<u8>::empty());
        lemma2_to64();
    }
    while k < len
        invariant
            k <= len,
            a@.len() == len,
            orig.len() == len,
            eseq == ext_seq(b@, len as nat),
            a@.take(len - k) == orig.take(len - k),
            be_val(a@.skip(len - k)) + be_val(eseq.skip(len - k)) == be_val(orig.skip(len - k))
                + (if borrow {
                pow2(8 * k as nat)
            } else {
                0nat
            }),
        decreases len - k,
    {
        let idx = len - 1 - k;
        let eb = if k < b.len() {
            b[b.len() - 1 - k]
        } else {
            0
        };
        assert(eb == eseq[idx as int]);
        let ghost aprev = a@;
        let av = a[idx];
        proof {
            assert(aprev[idx as int] == orig[idx as int]) by {
                assert(aprev.take(len - k)[idx as int] == orig.take(len - k)[idx as int]);
            }
        }
        let s: u16 = av as u16 + 256 - eb as u16 - (if borrow {
            1
        } else {
            0
        });
        let nb: u8 = (s % 256) as u8;
        let c2 = s < 256;
        a[idx] = nb;
        proof {
            let w = pow2(8 * k as nat);
            let w2 = pow2(8 * (k + 1) as nat);
            lemma_pow2_adds(8 * k as nat, 8);
            lemma2_to64();
            assert(w2 == w * 256);
            let cn: nat = if borrow {
                1nat
            } else {
                0nat
            };
            let cn2: nat = if c2 {
                1nat
            } else {
                0nat
            };
            assert(av + cn2 * 256 == nb + eb + cn);
            lemma_be_val_first(orig.skip(idx as int));
            lemma_be_val_first(eseq.skip(idx as int));
            lemma_be_val_first(a@.skip(idx as int));
            assert(orig.skip(idx as int).skip(1) =~= orig.skip(len - k));
            assert(eseq.skip(idx as int).skip(1) =~= eseq.skip(len - k));
            assert(a@.skip(idx as int).skip(1) =~= aprev.skip(len - k)) by {
                assert(a@ == aprev.update(idx as int, nb));
            }
            let os = be_val(orig.skip(len - k));
            let es = be_val(eseq.skip(len - k));
            let ns = be_val(aprev.skip(len - k));
            assert(ns + es == os + cn * w);
            assert((nb * w + ns) + (eseq[idx as int] * w + es) == (orig[idx as int] * w + os) + cn2
                * (w * 256)) by (nonlinear_arith)
                requires
                    ns + es == os + cn * w,
                    av + cn2 * 256 == nb + eb + cn,
                    av == orig[idx as int],
                    eb == eseq[idx as int],
            ;
            assert(a@.take(len - (k + 1)) =~= orig.take(len - (k + 1))) by {
                assert(forall|j: int|
                    0 <= j < len - k - 1 ==> a@[j] == aprev[j] && aprev.take(len - k)[j]
                        == orig.take(len - k)[j]);
            }
        }
        borrow = c2;
        k = k + 1;
    }
    proof {
        assert(orig.skip(0) =~= orig);
        assert(eseq.skip(0) =~= eseq);
        assert(a@.skip(0) =~= a@);
        lemma_ext_seq_val(b@, len as nat);
        lemma_be_val_bound(a@);
        lemma_be_val_bound(orig);
        lemma_mod_bound(be_val(b@) as int, p as int);
        lemma_pow2_pos(8 * len as nat);
    }
    borrow
}

/// Multiplies `a` in place by `b`, shift-and-add over the bits of `b`
/// from the least-significant end: for each set bit at position `i`, `a`
/// shifted left by `i` is accumulated.  The product is truncated to
/// `a`'s width; overflow reports that the true product (or `b` alone)
/// does not fit that width.
pub fn bit_be_mul(a: &mut Vec<u8>, b: &Vec<u8>) -> (r: bool)
    ensures
        final(a)@.len() == old(a)@.len(),
        be_val(final(a)@) == (be_val(old(a)@) * be_val(b@)) % pow2(8 * old(a)@.len()),
        r == (be_val(old(a)@) * be_val(b@) >= pow2(8 * old(a)@.len()) || be_val(b@) >= pow2(
            8 * old(a)@.len(),
        )),
{
    let ghost orig = a@;
    let ghost va = be_val(a@);
    let ghost vb = be_val(b@);
    let len = a.len();
    let ghost p = pow2(8 * len as nat);
    let bvb = bit_iter(b);
    let nb = bvb.len();
    let mut acc = zero_vec(len);
    let mut overflow = false;
    let mut j: usize = 0;
    proof {
        lemma_pow2_pos(8 * len as nat);
        lemma2_to64();
        assert(vb % pow2(0) == 0) by {
            assert(vb % 1 == 0) by (nonlinear_arith);
        }
        assert(va * 0 == 0) by (nonlinear_arith);
        lemma_small_mod(0, p);
    }
    while j < nb
        invariant
            j <= nb,
            a@ == orig,
            a@.len() == len,
            acc@.len() == len,
            bvb@ == bits_of(b@),
            nb == bvb@.len(),
            nb == 8 * b@.len(),
            vb == be_val(b@),
            va == be_val(orig),
            p == pow2(8 * len as nat),
            be_val(acc@) == (va * (vb % pow2(j as nat))) % p,
            overflow == (va * (vb % pow2(j as nat)) >= p || (vb % pow2(j as nat)) >= p),
        decreases nb - j,
    {
        let ghost w = pow2(j as nat);
        let ghost lowj = vb % pow2(j as nat);
        let ghost lowj1 = vb % pow2((j + 1) as nat);
        let bit = bvb[nb - 1 - j];
        proof {
            lemma_pow2_pos(j as nat);
            lemma_pow2_pos(8 * len as nat);
            lemma_be_val_is_bits_val(b@);
            lemma_bits_val_bit_extract(bits_of(b@), j as int);
            assert(bit == ((vb / pow2(j as nat)) % 2 == 1));
            vstd::arithmetic::div_mod::lemma_breakdown(vb as int, pow2(j as nat) as int, 2);
            lemma_pow2_unfold((j + 1) as nat);
            assert(pow2(j as nat) * 2 == pow2((j + 1) as nat));
            assert(lowj1 == pow2(j as nat) * ((vb / pow2(j as nat)) % 2) + lowj);
            lemma_mod_bound(vb as int, pow2((j + 1) as nat) as int);
        }
        if bit {
            proof {
                assert(lowj1 == w + lowj);
            }
            let mut multiple = copy_bytes(a);
            let o1 = bit_shl(&mut multiple, j);
            let ghost mv = be_val(multiple@);
            let ghost accprev = acc@;
            let o2 = bit_be_add(&mut acc, &multiple);
            proof {
                // The new accumulator value: always (va * lowj1) % p.
                lemma_mod_bound((va * w) as int, p as int);
                lemma_small_mod(mv, p);
                assert(be_val(acc@) + (if o2 {
                    p
                } else {
                    0nat
                }) == be_val(accprev) + mv);
                lemma_be_val_bound(acc@);
                if o2 {
                    lemma_mod_multiples_vanish(1, be_val(acc@) as int, p as int);
                    lemma_small_mod(be_val(acc@), p);
                    assert((be_val(accprev) + mv) % p == be_val(acc@));
                } else {
                    lemma_small_mod((be_val(accprev) + mv) as nat, p);
                }
                lemma_add_mod_noop((va * lowj) as int, (va * w) as int, p as int);
                vstd::arithmetic::div_mod::lemma_mod_twice((va * lowj) as int, p as int);
                vstd::arithmetic::div_mod::lemma_mod_twice((va * w) as int, p as int);
                assert((be_val(accprev) + mv) % p == ((va * lowj) % p + (va * w) % p) % p);
                lemma_mul_is_distributive_add(va as int, lowj as int, w as int);
                assert(va * lowj1 == va * lowj + va * w);
                assert(be_val(acc@) == (va * lowj1) % p);
                // The overflow flag.
                if overflow {
                    assert(lowj <= lowj1);
                    lemma_mul_inequality(lowj as int, lowj1 as int, va as int);
                    lemma_mul_is_commutative(lowj as int, va as int);
                    lemma_mul_is_commutative(lowj1 as int, va as int);
                    assert(va * lowj <= va * lowj1);
                } else {
                    assert(va * lowj < p && lowj < p);
                    assert(be_val(accprev) == va * lowj) by {
                        lemma_small_mod((va * lowj) as nat, p);
                    }
                    if j >= 8 * len {
                        assert(o1);
                        if j > 8 * len {
                            lemma_pow2_strictly_increases(8 * len as nat, j as nat);
                        }
                        assert(w >= p);
                        assert(lowj1 >= p);
                    } else {
                        assert(o1 == (va * w >= p));
                        if o1 {
                            assert(va * lowj1 >= va * w);
                            assert(va * lowj1 >= p);
                        } else {
                            assert(mv == va * w) by {
                                lemma_small_mod((va * w) as nat, p);
                            }
                            assert(o2 == (va * lowj + va * w >= p));
                            assert(o2 == (va * lowj1 >= p));
                            if !o2 {
                                assert(lowj1 < pow2((j + 1) as nat));
                                if j + 1 < 8 * len {
                                    lemma_pow2_strictly_increases((j + 1) as nat, 8 * len as nat);
                                }
                                assert(lowj1 < p);
                            }
                        }
                    }
                }
            }
            overflow = overflow || o1 || o2;
        } else {
            proof {
                assert(lowj1 == pow2(j as nat) * 0 + lowj);
                assert(lowj1 == lowj);
            }
        }
        j = j + 1;
    }
    proof {
        lemma_be_val_bound(b@);
        lemma_small_mod(vb, pow2(8 * b@.len()));
        assert(vb % pow2(nb as nat) == vb);
    }
    *a = acc;
    overflow
}

/// A bit sequence that starts with a set bit is worth at least the
/// weight of that bit.
proof fn lemma_bits_val_first_set(bv: Seq<bool>)
    requires
        bv.len() >= 1,
        bv[0],
    ensures
        bits_val(bv) >= pow2((bv.len() - 1) as nat),
{
    lemma_bits_val_split(bv, 1);
    let first = bv.take(1);
    assert(first.drop_last() =~= Seq::<bool>::empty());
    assert(first.last() == bv[0]);
    assert(bits_val(Seq::<bool>::empty()) == 0);
    assert(bits_val(first) == 1);
}

/// Bytes whose bits are all clear are zero.
proof fn lemma_bytes_zero_of_bits(s: Seq<u8>, k: int)
    requires
        0 <= k <= s.len(),
        forall|i: int| 0 <= i < 8 * k ==> !bits_of(s)[i],
    ensures
        forall|j: int| 0 <= j < k ==> s[j] == 0,
{
    assert forall|j: int| 0 <= j < k implies s[j] == 0 by {
        let ob = crate::model::bit_rep(s[j] as nat, 8);
        assert(forall|u: int| 0 <= u < 8 ==> ob[u] == bits_of(s)[8 * j + u]) by {
            assert forall|u: int| 0 <= u < 8 implies ob[u] == bits_of(s)[8 * j + u] by {
                assert((8 * j + u) / 8 == j && (8 * j + u) % 8 == u) by (nonlinear_arith)
                    requires
                        0 <= u < 8,
                        j >= 0,
                ;
            }
        }
        lemma_bits_val_zero_iff(ob);
        assert(bits_val(ob) == 0);
        crate::model::lemma_bit_rep_val(s[j] as nat, 8);
        lemma2_to64();
        lemma_small_mod(s[j] as nat, 256);
    }
}

/// A value divisible by `pow2(e + 1)` is divisible by `pow2(e)` and has
/// bit `e` clear.
proof fn lemma_divisible_bit_clear(x: nat, e: nat)
    requires
        x % pow2((e + 1) as nat) == 0,
    ensures
        x % pow2(e) == 0,
        (x / pow2(e)) % 2 == 0,
{
    lemma_pow2_pos(e);
    lemma_pow2_pos((e + 1) as nat);
    let c = x as int / pow2((e + 1) as nat) as int;
    lemma_fundamental_div_mod(x as int, pow2((e + 1) as nat) as int);
    assert(x == pow2((e + 1) as nat) * c);
    lemma_pow2_unfold((e + 1) as nat);
    assert(x == (c * 2) * pow2(e) + 0) by (nonlinear_arith)
        requires
            x == pow2((e + 1) as nat) * c,
            pow2((e + 1) as nat) == 2 * pow2(e),
    ;
    lemma_fundamental_div_mod_converse(x as int, pow2(e) as int, c * 2, 0);
    assert(x % pow2(e) == 0);
    assert(x / pow2(e) == c * 2);
    lemma_mod_multiples_basic(c, 2);
}

/// Restoring binary long division: after the call, `a` holds the
/// remainder and the returned buffer holds the quotient, both to `a`'s
/// original width.
fn divmod(a: &mut Vec<u8>, b: &Vec<u8>) -> (q: Vec<u8>)
    requires
        be_val(b@) != 0,
        8 * old(a)@.len() <= usize::MAX,
        8 * b@.len() <= usize::MAX,
    ensures
        final(a)@.len() == old(a)@.len(),
        q@.len() == old(a)@.len(),
        be_val(q@) == be_val(old(a)@) / be_val(b@),
        be_val(final(a)@) == be_val(old(a)@) % be_val(b@),
{
    let ghost orig = a@;
    let ghost va = be_val(a@);
    let ghost vb = be_val(b@);
    let la = a.len();
    let lb = b.len();
    let lza = bit_leading_zeros(a);
    let lzb = bit_leading_zeros(b);
    let bits_a = la * 8 - lza;
    let bits_b = lb * 8 - lzb;
    proof {
        // Effective bit lengths bound the values from above and below.
        lemma_be_val_is_bits_val(orig);
        lemma_be_val_is_bits_val(b@);
        lemma_bits_val_split(bits_of(orig), lza as int);
        lemma_bits_val_split(bits_of(b@), lzb as int);
        lemma_bits_val_zero_iff(bits_of(orig).take(lza as int));
        lemma_bits_val_zero_iff(bits_of(b@).take(lzb as int));
        assert(bits_val(bits_of(orig).take(lza as int)) == 0);
        assert(bits_val(bits_of(b@).take(lzb as int)) == 0);
        assert(bits_val(bits_of(orig).take(lza as int)) * pow2(
            (bits_of(orig).len() - lza) as nat,
        ) == 0) by (nonlinear_arith)
            requires
                bits_val(bits_of(orig).take(lza as int)) == 0,
        ;
        assert(bits_val(bits_of(b@).take(lzb as int)) * pow2((bits_of(b@).len() - lzb) as nat)
            == 0) by (nonlinear_arith)
            requires
                bits_val(bits_of(b@).take(lzb as int)) == 0,
        ;
        assert(va == bits_val(bits_of(orig).skip(lza as int)));
        assert(vb == bits_val(bits_of(b@).skip(lzb as int)));
        crate::model::lemma_bits_val_bound(bits_of(orig).skip(lza as int));
        crate::model::lemma_bits_val_bound(bits_of(b@).skip(lzb as int));
        assert(va < pow2(bits_a as nat));
        assert(vb < pow2(bits_b as nat));
        if lzb == 8 * lb {
            assert(bits_of(b@).skip(lzb as int).len() == 0);
            assert(vb == 0);
        }
        assert(lzb < 8 * lb);
        lemma_bits_val_first_set(bits_of(b@).skip(lzb as int));
        assert(vb >= pow2((bits_b - 1) as nat));
    }
    if bits_a < bits_b {
        proof {
            lemma_pow2_pos(bits_a as nat);
            if bits_a < bits_b - 1 {
                lemma_pow2_strictly_increases(bits_a as nat, (bits_b - 1) as nat);
            }
            assert(va < vb);
            lemma_fundamental_div_mod_converse(va as int, vb as int, 0, va as int);
        }
        let q = zero_vec(la);
        return q;
    }
    // Align the divisor to the dividend's effective bit length.
    proof {
        if lb > la {
            assert(8 * lb - lzb <= 8 * la);
            lemma_bytes_zero_of_bits(b@, lb - la);
        }
    }
    let mut d = extend_be(b, la);
    let diff = bits_a - bits_b;
    proof {
        // The aligned divisor fits: vb * pow2(diff) < pow2(8 * la).
        lemma_pow2_adds(bits_b as nat, diff as nat);
        lemma_pow2_pos(diff as nat);
        assert(vb * pow2(diff as nat) < pow2(bits_a as nat)) by (nonlinear_arith)
            requires
                vb < pow2(bits_b as nat),
                pow2(diff as nat) > 0,
                pow2(bits_a as nat) == pow2(bits_b as nat) * pow2(diff as nat),
        ;
        lemma_pow2_pos(diff as nat);
        if bits_a < 8 * la {
            lemma_pow2_strictly_increases(bits_a as nat, (8 * la) as nat);
        }
        assert(vb * pow2(diff as nat) < pow2((8 * la) as nat));
        lemma_small_mod((vb * pow2(diff as nat)) as nat, pow2((8 * la) as nat));
    }
    let _ = bit_shl(&mut d, diff);
    proof {
        assert(be_val(d@) == vb * pow2(diff as nat));
    }
    let mut q = zero_vec(la);
    proof {
        lemma_pow2_pos((diff + 1) as nat);
        lemma_small_mod(0, pow2((diff + 1) as nat));
        assert(va == 0 * vb + va) by (nonlinear_arith);
        // va < vb * pow2(diff + 1)
        lemma_pow2_adds((bits_b - 1) as nat, (diff + 1) as nat);
        assert(pow2(bits_a as nat) == pow2((bits_b - 1) as nat) * pow2((diff + 1) as nat));
        lemma_mul_inequality(
            pow2((bits_b - 1) as nat) as int,
            vb as int,
            pow2((diff + 1) as nat) as int,
        );
        assert(va < vb * pow2((diff + 1) as nat));
    }
    let mut j: usize = 0;
    while j <= diff
        invariant
            j <= diff + 1,
            diff < 8 * la,
            8 * la <= usize::MAX,
            a@.len() == la,
            q@.len() == la,
            d@.len() == la,
            vb == be_val(b@),
            vb > 0,
            va == be_val(orig),
            j <= diff ==> be_val(d@) == vb * pow2((diff - j) as nat),
            va == be_val(q@) * vb + be_val(a@),
            be_val(a@) < vb * pow2((diff + 1 - j) as nat),
            be_val(q@) % pow2((diff + 1 - j) as nat) == 0,
        decreases diff + 1 - j,
    {
        let i = diff - j;
        let ghost wi = pow2(i as nat);
        proof {
            lemma_pow2_pos(i as nat);
            lemma_pow2_unfold((i + 1) as nat);
            assert(pow2((i + 1) as nat) == 2 * wi);
            assert(vb * pow2((i + 1) as nat) == 2 * (vb * wi)) by (nonlinear_arith)
                requires
                    pow2((i + 1) as nat) == 2 * wi,
            ;
        }
        let c = bit_be_cmp(a, &d);
        if !matches!(c, Ordering::Less) {
            let ghost aprev = a@;
            let ghost qprev = q@;
            proof {
                assert(be_val(aprev) >= vb * wi);
                lemma_be_val_bound(d@);
                assert(vb * wi < pow2((8 * la) as nat));
                lemma_small_mod((vb * wi) as nat, pow2((8 * la) as nat));
            }
            let brw = bit_be_sub(a, &d);
            proof {
                assert(!brw);
                assert(be_val(a@) + vb * wi == be_val(aprev));
            }
            let idx = la * 8 - 1 - i;
            proof {
                // The quotient's bit `i` (from the low end) is still clear.
                lemma_divisible_bit_clear(be_val(qprev), i as nat);
                lemma_be_val_is_bits_val(qprev);
                lemma_bits_val_bit_extract(bits_of(qprev), i as int);
                assert(!bits_of(qprev)[idx as int]);
            }
            bit_set(&mut q, idx, true);
            proof {
                assert(be_val(q@) == be_val(qprev) + wi);
                // The running identity survives setting the bit.
                lemma_mul_is_distributive_add_other_way(
                    vb as int,
                    be_val(qprev) as int,
                    wi as int,
                );
                assert((be_val(qprev) + wi) * vb == be_val(qprev) * vb + wi * vb);
                lemma_mul_is_commutative(wi as int, vb as int);
                assert(be_val(q@) * vb + be_val(a@) == be_val(qprev) * vb + be_val(aprev));
                // The next bit down is clear again.
                lemma_divisible_bit_clear(be_val(qprev), i as nat);
                let k = be_val(qprev) as int / wi as int;
                lemma_fundamental_div_mod(be_val(qprev) as int, wi as int);
                assert(be_val(qprev) == wi * k);
                assert(be_val(q@) == (k + 1) * wi) by (nonlinear_arith)
                    requires
                        be_val(q@) == be_val(qprev) + wi,
                        be_val(qprev) == wi * k,
                ;
                lemma_mod_multiples_basic(k + 1, wi as int);
                assert(be_val(q@) % wi == 0);
            }
        } else {
            proof {
                assert(be_val(a@) < vb * wi);
                lemma_divisible_bit_clear(be_val(q@), i as nat);
            }
        }
        let ghost dprev = d@;
        let _ = bit_shr(&mut d, 1);
        proof {
            lemma2_to64();
            assert(pow2(1) == 2);
            if j < diff {
                assert(be_val(dprev) == vb * wi);
                lemma_pow2_unfold(i as nat);
                assert(vb * wi == 2 * (vb * pow2((i - 1) as nat))) by (nonlinear_arith)
                    requires
                        wi == 2 * pow2((i - 1) as nat),
                ;
                lemma_div_multiples_vanish((vb * pow2((i - 1) as nat)) as int, 2);
                assert(be_val(d@) == vb * pow2((i - 1) as nat));
            }
        }
        j = j + 1;
    }
    proof {
        lemma2_to64();
        assert(pow2(0) == 1);
        assert(vb * pow2(0) == vb) by (nonlinear_arith)
            requires
                pow2(0) == 1,
        ;
        assert(be_val(a@) < vb);
        lemma_fundamental_div_mod_converse(
            va as int,
            vb as int,
            be_val(q@) as int,
            be_val(a@) as int,
        );
    }
    q
}

/// Divides `a` in place by `b`: `a` is replaced by the quotient.
/// Division by zero is reported as overflow and leaves `a` unchanged;
/// otherwise the flag is `false` and the quotient is exact.
pub fn bit_be_div(a: &mut Vec<u8>, b: &Vec<u8>) -> (r: bool)
    requires
        8 * old(a)@.len() <= usize::MAX,
        8 * b@.len() <= usize::MAX,
    ensures
        final(a)@.len() == old(a)@.len(),
        r == (be_val(b@) == 0),
        be_val(b@) == 0 ==> final(a)@ == old(a)@,
        be_val(b@) != 0 ==> be_val(final(a)@) == be_val(old(a)@) / be_val(b@),
{
    proof {
        lemma_be_val_zero_iff(b@);
    }
    if bit_all_zero(b) {
        return true;
    }
    let q = divmod(a, b);
    *a = q;
    false
}

/// Reduces `a` in place modulo `b`: `a` is replaced by the remainder.
/// Division by zero is reported as overflow and leaves `a` unchanged;
/// otherwise the flag is `false` and the remainder is exact.
pub fn bit_be_rem(a: &mut Vec<u8>, b: &Vec<u8>) -> (r: bool)
    requires
        8 * old(a)@.len() <= usize::MAX,
        8 * b@.len() <= usize::MAX,
    ensures
        final(a)@.len() == old(a)@.len(),
        r == (be_val(b@) == 0),
        be_val(b@) == 0 ==> final(a)@ == old(a)@,
        be_val(b@) != 0 ==> be_val(final(a)@) == be_val(old(a)@) % be_val(b@),
{
    proof {
        lemma_be_val_zero_iff(b@);
    }
    if bit_all_zero(b) {
        return true;
    }
    let _q = divmod(a, b);
    false
}

} // verus!
