//! Laws that relate the engine's operations to one another, stated over
//! the same model the operations' contracts use.

use vstd::prelude::*;
use vstd::arithmetic::power2::*;
use vstd::arithmetic::div_mod::{
    lemma_div_nonincreasing,
    lemma_fundamental_div_mod,
    lemma_mod_bound,
    lemma_small_mod,
};
use crate::bitwise::{shl_bits, shr_bits};
use crate::chunks::{chunk_bit, chunk_bits, chunks_bits, pad_bit, pad_bits};
use crate::model::{
    be_val,
    bit_rep,
    bits_of,
    bits_val,
    ext_seq,
    lemma_be_val_bound,
    lemma_bit_rep_of_bits_val,
    lemma_bits_of_injective,
    lemma_bits_val_bound,
    lemma_bits_val_zero_iff,
    lemma_ext_seq_val,
};

verus! {

/// Shift round-trip, left then right: shifting a bit sequence up by `n`
/// and back down recovers it with its high `n` bits cleared, and
/// exactly when no set bit was shifted out (the left shift reported no
/// overflow) it recovers the sequence unchanged.
pub proof fn lemma_shl_shr_round_trip(bv: Seq<bool>, n: int)
    requires
        0 <= n <= bv.len(),
    ensures
        shr_bits(shl_bits(bv, n), n) == Seq::new(bv.len(), |i: int| i >= n && bv[i]),
        bits_val(bv.take(n)) == 0 ==> shr_bits(shl_bits(bv, n), n) == bv,
{
    assert(shr_bits(shl_bits(bv, n), n) =~= Seq::new(bv.len(), |i: int| i >= n && bv[i]));
    if bits_val(bv.take(n)) == 0 {
        lemma_bits_val_zero_iff(bv.take(n));
        assert(shr_bits(shl_bits(bv, n), n) =~= bv) by {
            assert(forall|i: int| 0 <= i < n ==> !bv.take(n)[i]);
            assert(forall|i: int| 0 <= i < n ==> bv.take(n)[i] == bv[i]);
        }
    }
}

/// Shift round-trip, right then left: shifting a bit sequence down by
/// `n` and back up recovers it with its low `n` bits cleared, and
/// exactly when no set bit was shifted out (the right shift reported no
/// overflow) it recovers the sequence unchanged.
pub proof fn lemma_shr_shl_round_trip(bv: Seq<bool>, n: int)
    requires
        0 <= n <= bv.len(),
    ensures
        shl_bits(shr_bits(bv, n), n) == Seq::new(bv.len(), |i: int| i < bv.len() - n && bv[i]),
        bits_val(bv.skip(bv.len() - n)) == 0 ==> shl_bits(shr_bits(bv, n), n) == bv,
{
    assert(shl_bits(shr_bits(bv, n), n) =~= Seq::new(
        bv.len(),
        |i: int| i < bv.len() - n && bv[i],
    ));
    if bits_val(bv.skip(bv.len() - n)) == 0 {
        lemma_bits_val_zero_iff(bv.skip(bv.len() - n));
        assert(shl_bits(shr_bits(bv, n), n) =~= bv) by {
            assert forall|i: int| bv.len() - n <= i < bv.len() implies !bv[i] by {
                assert(!bv.skip(bv.len() - n)[i - (bv.len() - n)]);
            }
        }
    }
}

/// Add/sub inverse: for equal-width operands whose sum does not
/// overflow, adding `b` reports no carry, and subtracting `b` from the
/// sum reports no borrow and recovers `a` exactly.
pub proof fn lemma_add_sub_inverse(a: Seq<u8>, b: Seq<u8>)
    requires
        a.len() == b.len(),
        be_val(a) + be_val(b) < pow2(8 * a.len()),
    ensures
        !(be_val(a) + (be_val(b) % pow2(8 * a.len())) >= pow2(8 * a.len())),
        !((be_val(b) % pow2(8 * a.len())) > ((be_val(a) + be_val(b)) % pow2(8 * a.len()))),
        ((be_val(a) + be_val(b)) % pow2(8 * a.len())) - (be_val(b) % pow2(8 * a.len())) == be_val(
            a,
        ),
{
    let p = pow2(8 * a.len());
    lemma_be_val_bound(b);
    lemma_small_mod(be_val(b), p);
    lemma_small_mod((be_val(a) + be_val(b)) as nat, p);
}

/// Multiplication identity: multiplying any nonempty buffer by a buffer
/// worth one keeps its value and reports no overflow.
pub proof fn lemma_mul_identity(a: Seq<u8>, one: Seq<u8>)
    requires
        a.len() >= 1,
        be_val(one) == 1,
    ensures
        (be_val(a) * be_val(one)) % pow2(8 * a.len()) == be_val(a),
        !(be_val(a) * be_val(one) >= pow2(8 * a.len()) || be_val(one) >= pow2(8 * a.len())),
{
    let p = pow2(8 * a.len());
    assert(be_val(a) * 1 == be_val(a)) by (nonlinear_arith);
    lemma_be_val_bound(a);
    lemma_small_mod(be_val(a), p);
    lemma_pow2_strictly_increases(0, 8 * a.len());
    lemma2_to64();
}

/// Division/remainder consistency: for nonzero `b`, the quotient times
/// the divisor plus the remainder is exactly the dividend; the partial
/// products never exceed the dividend, so the multiply-back cannot
/// overflow the dividend's width.
pub proof fn lemma_div_rem_consistency(a: Seq<u8>, b: Seq<u8>)
    requires
        be_val(b) != 0,
    ensures
        (be_val(a) / be_val(b)) * be_val(b) + (be_val(a) % be_val(b)) == be_val(a),
        (be_val(a) / be_val(b)) * be_val(b) <= be_val(a),
        be_val(a) / be_val(b) < pow2(8 * a.len()),
{
    let va = be_val(a);
    let vb = be_val(b);
    lemma_fundamental_div_mod(va as int, vb as int);
    lemma_mod_bound(va as int, vb as int);
    vstd::arithmetic::mul::lemma_mul_is_commutative((va / vb) as int, vb as int);
    lemma_div_nonincreasing(va as int, vb as int);
    lemma_be_val_bound(a);
}

/// Comparison consistency: zero-extending an operand at the high end
/// keeps its value, so the ordering that comparison returns for
/// operands of differing widths is the numeric ordering of their
/// zero-extended interpretations.
pub proof fn lemma_cmp_zero_extension(a: Seq<u8>, b: Seq<u8>, l: nat)
    requires
        a.len() <= l,
        b.len() <= l,
    ensures
        be_val(ext_seq(a, l)) == be_val(a),
        be_val(ext_seq(b, l)) == be_val(b),
        (be_val(a) < be_val(b)) == (be_val(ext_seq(a, l)) < be_val(ext_seq(b, l))),
        (be_val(a) == be_val(b)) == (be_val(ext_seq(a, l)) == be_val(ext_seq(b, l))),
{
    lemma_ext_seq_val(a, l);
    lemma_ext_seq_val(b, l);
}

/// Chunk round-trip: when a buffer's bit length is a multiple of the
/// chunk width, regrouping the bit stream into chunks and packing those
/// chunks back into bytes reproduces the buffer exactly.  The two
/// premises mirror what [`crate::chunks::bit_chunks`] and
/// [`crate::chunks::from_bit_chunks`] ensure about their results.
pub proof fn lemma_chunk_round_trip(x: Seq<u8>, cs: Seq<u64>, y: Seq<u8>, n: int)
    requires
        1 <= n <= 32,
        (8 * x.len()) as int % n == 0,
        cs.len() == (8 * x.len() + n - 1) / n,
        forall|k: int|
            0 <= k < cs.len() ==> cs[k] as nat == bits_val(chunk_bits(bits_of(x), n, k)),
        y.len() == (cs.len() * n + 7) / 8,
        bits_of(y) == pad_bits(chunks_bits(cs, n), (8 * ((cs.len() * n + 7) / 8)) as nat),
    ensures
        y == x,
{
    let total: int = (8 * x.len()) as int;
    lemma_pow2_pos(n as nat);
    // With no partial chunk, the chunk count is exact and covers the
    // buffer bit for bit.
    assert(cs.len() == total / n) by {
        let q = total / n;
        lemma_fundamental_div_mod(total as int, n);
        assert(total == n * q);
        assert(total + n - 1 == q * n + (n - 1)) by (nonlinear_arith)
            requires
                total == n * q,
        ;
        vstd::arithmetic::div_mod::lemma_fundamental_div_mod_converse(
            (total + n - 1) as int,
            n,
            q as int,
            n - 1,
        );
    }
    assert(cs.len() * n == total) by {
        lemma_fundamental_div_mod(total as int, n);
        vstd::arithmetic::mul::lemma_mul_is_commutative(cs.len() as int, n);
    }
    assert(y.len() == x.len()) by {
        assert((8 * x.len() + 7) / 8 == x.len()) by (nonlinear_arith);
    }
    // The chunk stream renders back into the original bits.
    assert(chunks_bits(cs, n) =~= bits_of(x)) by {
        assert forall|i: int| 0 <= i < total implies chunks_bits(cs, n)[i] == bits_of(x)[i] by {
            let k = i / n;
            let t = i % n;
            lemma_mod_bound(i, n);
            lemma_fundamental_div_mod(i, n);
            assert(0 <= k < cs.len()) by (nonlinear_arith)
                requires
                    0 <= i < cs.len() * n,
                    n >= 1,
                    k == i / n,
                    i == n * (i / n) + i % n,
                    0 <= i % n < n,
            ;
            lemma_fundamental_div_mod(i, n);
            let chunk = chunk_bits(bits_of(x), n, k);
            lemma_bits_val_bound(chunk);
            lemma_small_mod(cs[k] as nat, pow2(n as nat));
            lemma_bit_rep_of_bits_val(chunk);
            assert(chunk_bit(cs[k], n, t) == bit_rep(cs[k] as nat % pow2(n as nat), n as nat)[t]);
            assert(chunk_bit(cs[k], n, t) == chunk[t]);
            assert(chunk[t] == pad_bit(bits_of(x), k * n + t));
            assert(k * n + t == i) by (nonlinear_arith)
                requires
                    i == n * k + t,
            ;
        }
    }
    // Padding to the same length changes nothing, so the bits agree.
    assert(bits_of(y) =~= bits_of(x));
    lemma_bits_of_injective(y, x);
}

} // verus!
