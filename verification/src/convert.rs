//! Conversions from fixed-width unsigned integers (and sequences of
//! them) to big-endian byte buffers.

use vstd::prelude::*;
use vstd::arithmetic::power2::*;
use vstd::arithmetic::div_mod::{
    lemma_div_denominator,
    lemma_fundamental_div_mod,
    lemma_mod_bound,
    lemma_small_mod,
};
use vstd::seq_lib::*;
use crate::model::be_val;

verus! {

/// The `n`-byte big-endian rendering of `v % pow2(8 * n)`.
pub open spec fn be_bytes(v: nat, n: nat) -> Seq<u8>
    decreases n,
{
    if n == 0 {
        Seq::empty()
    } else {
        be_bytes(v / 256, (n - 1) as nat).push((v % 256) as u8)
    }
}

/// The rendering has one byte per position.
proof fn lemma_be_bytes_len(v: nat, n: nat)
    ensures
        be_bytes(v, n).len() == n,
    decreases n,
{
    if n > 0 {
        lemma_be_bytes_len(v / 256, (n - 1) as nat);
    }
}

/// Each byte of the rendering reads the matching window of the value.
proof fn lemma_be_bytes_index(v: nat, n: nat, j: int)
    requires
        0 <= j < n,
    ensures
        be_bytes(v, n)[j] == ((v / pow2((8 * (n - 1 - j)) as nat)) % 256) as u8,
    decreases n,
{
    lemma2_to64();
    lemma_be_bytes_len(v, n);
    lemma_be_bytes_len(v / 256, (n - 1) as nat);
    if j == n - 1 {
        assert(v / pow2(0) == v) by {
            assert(v / 1 == v) by (nonlinear_arith);
        }
    } else {
        lemma_be_bytes_index(v / 256, (n - 1) as nat, j);
        lemma_pow2_adds(8, (8 * (n - 2 - j)) as nat);
        lemma_pow2_pos((8 * (n - 2 - j)) as nat);
        lemma_div_denominator(v as int, 256, pow2((8 * (n - 2 - j)) as nat) as int);
        assert((v / 256) / pow2((8 * (n - 2 - j)) as nat) == v / pow2((8 * (n - 1 - j)) as nat));
    }
}

/// The rendering holds exactly the value, reduced to the width.
pub proof fn lemma_be_bytes_val(v: nat, n: nat)
    ensures
        be_val(be_bytes(v, n)) == v % pow2(8 * n),
    decreases n,
{
    lemma2_to64();
    if n == 0 {
        assert(v % 1 == 0) by (nonlinear_arith);
    } else {
        lemma_be_bytes_val(v / 256, (n - 1) as nat);
        let inner = be_bytes(v / 256, (n - 1) as nat);
        assert(be_bytes(v, n).drop_last() =~= inner);
        assert(be_val(be_bytes(v, n)) == be_val(inner) * 256 + (v % 256));
        lemma_pow2_pos((8 * (n - 1)) as nat);
        vstd::arithmetic::div_mod::lemma_breakdown(
            v as int,
            256,
            pow2((8 * (n - 1)) as nat) as int,
        );
        lemma_pow2_adds(8, (8 * (n - 1)) as nat);
        assert(256 * pow2((8 * (n - 1)) as nat) == pow2(8 * n));
    }
}

/// Renders the low `n` bytes of a wide word, most-significant byte
/// first.
fn be_bytes_of_u128(v: u128, n: usize) -> (r: Vec<u8>)
    requires
        n <= 16,
    ensures
        r@ == be_bytes(v as nat, n as nat),
{
    let mut r: Vec<u8> = Vec::new();
    let mut i: usize = 0;
    while i < n
        invariant
            i <= n,
            r@.len() == i,
            forall|j: int| 0 <= j < i ==> r@[j] == 0u8,
        decreases n - i,
    {
        r.push(0);
        i = i + 1;
    }
    let mut x = v;
    let mut k: usize = 0;
    proof {
        lemma2_to64();
        assert(x as nat == v as nat / pow2(0)) by {
            assert(v as nat / 1 == v as nat) by (nonlinear_arith);
        }
    }
    while k < n
        invariant
            k <= n,
            n <= 16,
            r@.len() == n,
            x as nat == v as nat / pow2((8 * k) as nat),
            forall|j: int|
                n - k <= j < n ==> r@[j] == ((v as nat / pow2((8 * (n - 1 - j)) as nat))
                    % 256) as u8,
        decreases n - k,
    {
        let idx = n - 1 - k;
        r[idx] = (x % 256) as u8;
        proof {
            assert(8 * (n - 1 - idx) == 8 * k);
            lemma_pow2_adds((8 * k) as nat, 8);
            lemma_pow2_pos((8 * k) as nat);
            lemma2_to64();
            lemma_div_denominator(v as int, pow2((8 * k) as nat) as int, 256);
            assert((x as nat) / 256 == v as nat / pow2((8 * (k + 1)) as nat));
        }
        x = x / 256;
        k = k + 1;
    }
    proof {
        lemma_be_bytes_len(v as nat, n as nat);
        assert(r@ =~= be_bytes(v as nat, n as nat)) by {
            assert forall|j: int| 0 <= j < n implies r@[j] == be_bytes(v as nat, n as nat)[j] by {
                lemma_be_bytes_index(v as nat, n as nat, j);
            }
        }
    }
    r
}

/// A value that renders itself as a big-endian byte buffer.
pub trait ToBits: Sized {
    /// The byte buffer the value stands for.
    spec fn to_bits_spec(&self) -> Seq<u8>;

    /// Renders the value as big-endian bytes.
    fn to_bits(self) -> (r: Vec<u8>)
        ensures
            r@ == self.to_bits_spec(),
    ;
}

impl ToBits for u8 {
    open spec fn to_bits_spec(&self) -> Seq<u8> {
        be_bytes(*self as nat, 1)
    }

    fn to_bits(self) -> (r: Vec<u8>) {
        be_bytes_of_u128(self as u128, 1)
    }
}

impl ToBits for u16 {
    open spec fn to_bits_spec(&self) -> Seq<u8> {
        be_bytes(*self as nat, 2)
    }

    fn to_bits(self) -> (r: Vec<u8>) {
        be_bytes_of_u128(self as u128, 2)
    }
}

impl ToBits for u32 {
    open spec fn to_bits_spec(&self) -> Seq<u8> {
        be_bytes(*self as nat, 4)
    }

    fn to_bits(self) -> (r: Vec<u8>) {
        be_bytes_of_u128(self as u128, 4)
    }
}

impl ToBits for u64 {
    open spec fn to_bits_spec(&self) -> Seq<u8> {
        be_bytes(*self as nat, 8)
    }

    fn to_bits(self) -> (r: Vec<u8>) {
        be_bytes_of_u128(self as u128, 8)
    }
}

impl ToBits for u128 {
    open spec fn to_bits_spec(&self) -> Seq<u8> {
        be_bytes(*self as nat, 16)
    }

    fn to_bits(self) -> (r: Vec<u8>) {
        be_bytes_of_u128(self, 16)
    }
}

impl ToBits for usize {
    open spec fn to_bits_spec(&self) -> Seq<u8> {
        be_bytes(*self as nat, 8)
    }

    fn to_bits(self) -> (r: Vec<u8>) {
        be_bytes_of_u128(self as u128, 8)
    }
}

impl<T: ToBits + Copy> ToBits for Vec<T> {
    open spec fn to_bits_spec(&self) -> Seq<u8> {
        self@.flat_map(|x: T| x.to_bits_spec())
    }

    fn to_bits(self) -> (r: Vec<u8>) {
        let ghost f = |x: T| x.to_bits_spec();
        let mut out: Vec<u8> = Vec::new();
        let mut i: usize = 0;
        proof {
            assert(self@.take(0) =~= Seq::<T>::empty());
            Seq::<T>::empty().lemma_flat_map_push(f, self@[0]);
            assert(Seq::<T>::empty().flat_map(f) =~= Seq::<u8>::empty());
        }
        while i < self.len()
            invariant
                i <= self@.len(),
                out@ == self@.take(i as int).flat_map(|x: T| x.to_bits_spec()),
            decreases self@.len() - i,
        {
            let mut piece = self[i].to_bits();
            proof {
                let pre = self@.take(i as int);
                pre.lemma_flat_map_push(|x: T| x.to_bits_spec(), self@[i as int]);
                assert(pre.push(self@[i as int]) =~= self@.take(i + 1));
            }
            out.append(&mut piece);
            i = i + 1;
        }
        proof {
            assert(self@.take(self@.len() as int) =~= self@);
        }
        out
    }
}

} // verus!
