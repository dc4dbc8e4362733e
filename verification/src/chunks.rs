//! The bit-sequence view of a buffer and the chunk codec: the bit stream
//! of a buffer, its packing back into bytes, and the regrouping of the
//! stream into fixed-width integer chunks and back.

use vstd::prelude::*;
use vstd::arithmetic::power2::*;
use crate::model::{bits_of, bits_val, be_val, bit_rep, byte_bit, lemma_bits_val_bound, lemma_bits_of_push, lemma_bit_rep_of_bits_val};

verus! {

/// Bit `i` of `bv` read as if `bv` were zero-padded on the right.
pub open spec fn pad_bit(bv: Seq<bool>, i: int) -> bool {
    i < bv.len() && bv[i]
}

/// `bv` zero-padded (or cut) at the right end to exactly `n` bits.
pub open spec fn pad_bits(bv: Seq<bool>, n: nat) -> Seq<bool> {
    Seq::new(n, |i: int| pad_bit(bv, i))
}

/// `pow2(e)` for a sub-byte exponent, as a byte.
pub(crate) fn pow2_u8(e: usize) -> (r: u8)
    requires
        e < 8,
    ensures
        r as nat == pow2(e as nat),
{
    proof {
        lemma2_to64();
    }
    if e == 0 {
        1
    } else if e == 1 {
        2
    } else if e == 2 {
        4
    } else if e == 3 {
        8
    } else if e == 4 {
        16
    } else if e == 5 {
        32
    } else if e == 6 {
        64
    } else {
        128
    }
}

/// The bit sequence of the buffer, most-significant bit of the first
/// byte first: a restartable bit-level view of `data`.
pub fn bit_iter(data: &Vec<u8>) -> (r: Vec<bool>)
    ensures
        r@ == bits_of(data@),
{
    let mut r: Vec<bool> = Vec::new();
    let mut j: usize = 0;
    while j < data.len()
        invariant
            j <= data@.len(),
            r@ == bits_of(data@).take(8 * j as int),
        decreases data@.len() - j,
    {
        let b = data[j];
        proof {
            lemma2_to64();
        }
        let mut p: u8 = 128;
        let mut t: usize = 0;
        while t < 8
            invariant
                t <= 8,
                j < data@.len(),
                b == data@[j as int],
                t < 8 ==> p as nat == pow2((7 - t) as nat),
                r@ == bits_of(data@).take(8 * j as int + t as int),
            decreases 8 - t,
        {
            proof {
                lemma_pow2_pos((7 - t) as nat);
            }
            r.push((b / p) % 2 == 1);
            proof {
                let i = 8 * j as int + t as int;
                assert(i / 8 == j as int && i % 8 == t as int) by (nonlinear_arith)
                    requires
                        0 <= t < 8,
                        j >= 0,
                        i == 8 * j as int + t as int,
                ;
                assert(bits_of(data@)[i] == byte_bit(b, t as int));
                assert(r@ =~= bits_of(data@).take(i + 1));
                if t < 7 {
                    lemma_pow2_unfold((7 - t) as nat);
                }
            }
            p = p / 2;
            t = t + 1;
        }
        j = j + 1;
    }
    proof {
        assert(r@ =~= bits_of(data@));
    }
    r
}

/// The eight padded bits that make up byte `j` of the packed form of `bv`.
pub open spec fn byte_chunk(bv: Seq<bool>, j: int) -> Seq<bool> {
    Seq::new(8, |u: int| pad_bit(bv, 8 * j + u))
}

/// Packs a finite bit sequence into bytes, most-significant bit first,
/// zero-padding the final byte when the length is not a multiple of 8.
pub fn from_bits(bits: &Vec<bool>) -> (r: Vec<u8>)
    ensures
        r@.len() == (bits@.len() + 7) / 8,
        bits_of(r@) == pad_bits(bits@, 8 * ((bits@.len() + 7) / 8)),
{
    let total = bits.len();
    let nbytes = total / 8 + (if total % 8 == 0 {
        0
    } else {
        1
    });
    proof {
        lemma_ceil_div8(total as nat);
    }
    let mut out: Vec<u8> = Vec::new();
    let mut j: usize = 0;
    while j < nbytes
        invariant
            j <= nbytes,
            nbytes == (bits@.len() + 7) / 8,
            total == bits@.len(),
            out@.len() == j,
            bits_of(out@) == Seq::new(8 * j as nat, |i: int| pad_bit(bits@, i)),
        decreases nbytes - j,
    {
        let ghost chunk = byte_chunk(bits@, j as int);
        let mut v: u8 = 0;
        let mut t: usize = 0;
        while t < 8
            invariant
                t <= 8,
                j < nbytes,
                nbytes == (bits@.len() + 7) / 8,
                total == bits@.len(),
                chunk == byte_chunk(bits@, j as int),
                v as nat == bits_val(chunk.take(t as int)),
            decreases 8 - t,
        {
            proof {
                lemma_bits_val_bound(chunk.take(t as int));
                lemma2_to64();
                if t < 7 {
                    lemma_pow2_strictly_increases(t as nat, 7);
                }
                assert(v < 128);
                assert(chunk.take(t as int + 1).drop_last() =~= chunk.take(t as int));
                lemma_ceil_div8(total as nat);
                assert(j <= total / 8);
                assert((total / 8) * 8 <= total) by (nonlinear_arith);
                assert(j * 8 <= (total / 8) * 8) by (nonlinear_arith)
                    requires
                        0 <= j <= total / 8,
                ;
            }
            let base = j * 8;
            let bit = if base < total && t < total - base {
                bits[base + t]
            } else {
                false
            };
            assert(bit == chunk[t as int]);
            v = v * 2 + (if bit {
                1
            } else {
                0
            });
            t = t + 1;
        }
        proof {
            assert(chunk.take(8) =~= chunk);
            lemma_bits_of_push(out@, v);
            lemma_bit_rep_of_bits_val(chunk);
            assert(bit_rep(v as nat, 8) == chunk);
            assert(bits_of(out@.push(v)) =~= Seq::new(
                8 * (j + 1) as nat,
                |i: int| pad_bit(bits@, i),
            )) by {
                assert(bits_of(out@.push(v)) =~= bits_of(out@) + chunk);
                assert forall|i: int| 0 <= i < 8 * (j + 1) implies (bits_of(out@) + chunk)[i]
                    == pad_bit(bits@, i) by {
                    if i < 8 * j as int {
                        assert((bits_of(out@) + chunk)[i] == bits_of(out@)[i]);
                    } else {
                        assert((bits_of(out@) + chunk)[i] == chunk[i - 8 * j as int]);
                        assert(chunk[i - 8 * j as int] == pad_bit(bits@, i));
                    }
                }
            }
        }
        out.push(v);
        j = j + 1;
    }
    out
}

/// The byte count of a packed bit sequence: `ceil(l / 8)` two ways.
proof fn lemma_ceil_div8(l: nat)
    ensures
        l / 8 + (if l % 8 == 0 {
            0nat
        } else {
            1nat
        }) == (l + 7) / 8,
{
    assert(l / 8 + (if l % 8 == 0 {
        0nat
    } else {
        1nat
    }) == (l + 7) / 8) by (nonlinear_arith);
}

/// The chunk count of a grouped bit sequence: `ceil(l / n)` two ways.
proof fn lemma_ceil_div(l: nat, n: nat)
    requires
        n >= 1,
    ensures
        l / n + (if l % n == 0 {
            0nat
        } else {
            1nat
        }) == (l + n - 1) / (n as int),
{
    let q = l / n;
    let r = l % n;
    vstd::arithmetic::div_mod::lemma_fundamental_div_mod(l as int, n as int);
    vstd::arithmetic::div_mod::lemma_mod_bound(l as int, n as int);
    vstd::arithmetic::mul::lemma_mul_is_commutative(n as int, q as int);
    assert(l == q * n + r);
    if r == 0 {
        vstd::arithmetic::div_mod::lemma_fundamental_div_mod_converse(
            (l + n - 1) as int,
            n as int,
            q as int,
            (n - 1) as int,
        );
    } else {
        vstd::arithmetic::mul::lemma_mul_is_distributive_add_other_way(
            n as int,
            q as int,
            1,
        );
        vstd::arithmetic::div_mod::lemma_fundamental_div_mod_converse(
            (l + n - 1) as int,
            n as int,
            (q + 1) as int,
            (r - 1) as int,
        );
    }
}

/// `pow2(e)` as a 64-bit word.
pub(crate) fn pow2_u64(e: usize) -> (r: u64)
    requires
        e < 64,
    ensures
        r as nat == pow2(e as nat),
{
    let mut r: u64 = 1;
    let mut i: usize = 0;
    proof {
        lemma2_to64();
    }
    while i < e
        invariant
            i <= e,
            e < 64,
            r as nat == pow2(i as nat),
        decreases e - i,
    {
        proof {
            lemma_pow2_strictly_increases(i as nat, 63);
            lemma2_to64_rest();
            lemma_pow2_unfold((i + 1) as nat);
        }
        r = r * 2;
        i = i + 1;
    }
    r
}

/// The `n` bits that chunk `k` of the grouped bit stream holds.
pub open spec fn chunk_bits(bv: Seq<bool>, n: int, k: int) -> Seq<bool> {
    Seq::new(n as nat, |t: int| pad_bit(bv, k * n + t))
}

/// Regroups the buffer's bit stream into `n`-bit chunks, scanning left to
/// right and packing each chunk most-significant bit first.  A final
/// partial chunk is padded with zero bits at its low end.  Every chunk
/// is returned in a 64-bit word, which any width up to 32 bits fits, so
/// no chunk value can ever fail to convert.
pub fn bit_chunks(data: &Vec<u8>, n: usize) -> (r: Vec<u64>)
    requires
        1 <= n <= 32,
    ensures
        r@.len() == (8 * data@.len() + n - 1) / (n as int),
        forall|k: int|
            0 <= k < r@.len() ==> r@[k] as nat == bits_val(
                chunk_bits(bits_of(data@), n as int, k),
            ),
{
    let bv = bit_iter(data);
    let total = bv.len();
    let count = total / n + (if total % n == 0 {
        0
    } else {
        1
    });
    proof {
        lemma_ceil_div(total as nat, n as nat);
    }
    let mut out: Vec<u64> = Vec::new();
    let mut k: usize = 0;
    while k < count
        invariant
            k <= count,
            1 <= n <= 32,
            total == 8 * data@.len(),
            bv@ == bits_of(data@),
            count == (8 * data@.len() + n - 1) / (n as int),
            count == total as nat / n as nat + (if total as nat % n as nat == 0 {
                0nat
            } else {
                1nat
            }),
            out@.len() == k,
            forall|q: int|
                0 <= q < k ==> out@[q] as nat == bits_val(
                    chunk_bits(bits_of(data@), n as int, q),
                ),
        decreases count - k,
    {
        let ghost chunk = chunk_bits(bits_of(data@), n as int, k as int);
        let mut acc: u64 = 0;
        let mut t: usize = 0;
        while t < n
            invariant
                t <= n,
                1 <= n <= 32,
                k < count,
                total == 8 * data@.len(),
                bv@ == bits_of(data@),
                count == total as nat / n as nat + (if total as nat % n as nat == 0 {
                    0nat
                } else {
                    1nat
                }),
                chunk == chunk_bits(bits_of(data@), n as int, k as int),
                acc as nat == bits_val(chunk.take(t as int)),
            decreases n - t,
        {
            proof {
                lemma_bits_val_bound(chunk.take(t as int));
                lemma2_to64();
                if (t as nat) < 32 {
                    lemma_pow2_strictly_increases(t as nat, 32);
                }
                assert(acc < 0x1_0000_0000);
                assert(chunk.take(t as int + 1).drop_last() =~= chunk.take(t as int));
                assert(k <= total / n);
                assert((total / n) * n <= total) by (nonlinear_arith);
                assert(k * n <= (total / n) * n) by (nonlinear_arith)
                    requires
                        0 <= k <= total / n,
                        n >= 1,
                ;
            }
            let base = k * n;
            let bit = if base < total && t < total - base {
                bv[base + t]
            } else {
                false
            };
            assert(bit == chunk[t as int]);
            acc = acc * 2 + (if bit {
                1
            } else {
                0
            });
            t = t + 1;
        }
        proof {
            assert(chunk.take(n as int) =~= chunk);
        }
        out.push(acc);
        k = k + 1;
    }
    out
}

/// Bit `t` of the `n`-bit, msb-first rendering of chunk value `c`: only
/// the low `n` bits of `c` take part.
pub open spec fn chunk_bit(c: u64, n: int, t: int) -> bool {
    ((c as nat % pow2(n as nat)) / pow2((n - 1 - t) as nat)) % 2 == 1
}

/// The bit stream that a chunk sequence stands for: each chunk
/// contributes the low `n` of its bits, most-significant first.
pub open spec fn chunks_bits(cs: Seq<u64>, n: int) -> Seq<bool> {
    Seq::new((cs.len() * n) as nat, |i: int| chunk_bit(cs[i / n], n, i % n))
}

/// The inverse of [`bit_chunks`]: masks each chunk to its low `n` bits,
/// concatenates them most-significant bit first, and packs the stream
/// into bytes, zero-padding the final byte.
pub fn from_bit_chunks(chunks: &Vec<u64>, n: usize) -> (r: Vec<u8>)
    requires
        1 <= n <= 32,
    ensures
        r@.len() == (chunks@.len() * (n as nat) + 7) / 8,
        bits_of(r@) == pad_bits(chunks_bits(chunks@, n as int), 8 * ((chunks@.len() * (n as nat) + 7) / 8)),
{
    let mut bits: Vec<bool> = Vec::new();
    let mut k: usize = 0;
    while k < chunks.len()
        invariant
            k <= chunks@.len(),
            1 <= n <= 32,
            bits@.len() == k * n,
            forall|i: int| 0 <= i < k * n ==> bits@[i] == chunk_bit(chunks@[i / (n as int)], n as int, i % (n as int)),
        decreases chunks@.len() - k,
    {
        let c = chunks[k];
        let p = pow2_u64(n);
        proof {
            lemma_pow2_pos(n as nat);
        }
        let m = c % p;
        let mut t: usize = 0;
        while t < n
            invariant
                t <= n,
                1 <= n <= 32,
                k < chunks@.len(),
                c == chunks@[k as int],
                p as nat == pow2(n as nat),
                m == c % p,
                bits@.len() == k * n + t,
                forall|i: int|
                    0 <= i < k * n + t ==> bits@[i] == chunk_bit(
                        chunks@[i / (n as int)],
                        n as int,
                        i % (n as int),
                    ),
            decreases n - t,
        {
            let q = pow2_u64(n - 1 - t);
            proof {
                lemma_pow2_pos((n - 1 - t) as nat);
            }
            let bit = (m / q) % 2 == 1;
            proof {
                let i = k * n + t;
                assert((i as int) / (n as int) == k as int && (i as int) % (n as int)
                    == t as int) by (nonlinear_arith)
                    requires
                        0 <= t < n,
                        k >= 0,
                        i == k * n + t,
                ;
                assert(bit == chunk_bit(c, n as int, t as int));
            }
            bits.push(bit);
            t = t + 1;
        }
        proof {
            assert((k + 1) * n == k * n + n) by (nonlinear_arith);
        }
        k = k + 1;
    }
    proof {
        assert(bits@ =~= chunks_bits(chunks@, n as int)) by {
            assert(bits@.len() == chunks@.len() * n);
        }
    }
    let r = from_bits(&bits);
    r
}

/// A residual fragment of 0 to 7 bits, held in the high-order end of one
/// byte while a chunk-encoding pass is in flight.
pub struct TinyBits {
    /// The fragment, stored in the high bits of the byte.
    pub data: u8,
    /// How many of the byte's high bits belong to the fragment.
    pub len: usize,
}

impl TinyBits {
    /// A fragment of `len` bits held in the high end of `data`.
    pub fn new(data: u8, len: usize) -> (r: TinyBits)
        requires
            len < 8,
        ensures
            r.data == data,
            r.len == len,
    {
        TinyBits { data, len }
    }

    /// The number of bits in the fragment.
    pub fn len(&self) -> (r: usize)
        ensures
            r == self.len,
    {
        self.len
    }

    /// The fragment flushed as a final zero-padded byte: empty when the
    /// fragment holds no bits.
    pub fn value(&self) -> (r: Vec<u8>)
        ensures
            r@ == if self.len > 0 {
                seq![self.data]
            } else {
                Seq::<u8>::empty()
            },
    {
        let mut r: Vec<u8> = Vec::new();
        if self.len > 0 {
            r.push(self.data);
            proof {
                assert(r@ =~= seq![self.data]);
            }
        } else {
            proof {
                assert(r@ =~= Seq::<u8>::empty());
            }
        }
        r
    }

    /// Inserts the fragment in front of a 64-bit window whose payload sits
    /// at the high-order end: the window moves down by the fragment's
    /// length and the fragment fills the freed top bits.
    pub fn prefix_to(&self, value: &mut u64)
        requires
            self.len < 8,
        ensures
            *final(value) == if self.len == 0 {
                *old(value)
            } else {
                (*old(value) >> (self.len as u64)) | ((self.data as u64) << 56u64)
            },
    {
        if self.len > 0 {
            *value = (*value >> (self.len as u64)) | ((self.data as u64) << 56u64);
        }
    }
}

} // verus!
