//! The mathematical model: a byte buffer as a bit sequence and as a
//! big-endian unsigned integer, with the lemmas that connect the two.

use vstd::prelude::*;
use vstd::arithmetic::power2::*;
use vstd::arithmetic::div_mod::*;
use vstd::arithmetic::mul::*;

verus! {

/// Bit `i` of byte `b`, counting the most-significant bit as bit 0.
pub open spec fn byte_bit(b: u8, i: int) -> bool {
    (b as nat / pow2((7 - i) as nat)) % 2 == 1
}

/// The bit sequence of a byte buffer: 8 bits per byte, most-significant
/// bit first, bytes in buffer order.
pub open spec fn bits_of(s: Seq<u8>) -> Seq<bool> {
    Seq::new(8 * s.len(), |i: int| byte_bit(s[i / 8], i % 8))
}

/// The buffer read as a big-endian unsigned integer.
pub open spec fn be_val(s: Seq<u8>) -> nat
    decreases s.len(),
{
    if s.len() == 0 {
        0
    } else {
        be_val(s.drop_last()) * 256 + s.last() as nat
    }
}

/// A bit sequence read as an unsigned integer, most-significant bit first.
pub open spec fn bits_val(bv: Seq<bool>) -> nat
    decreases bv.len(),
{
    if bv.len() == 0 {
        0
    } else {
        bits_val(bv.drop_last()) * 2 + (if bv.last() {
            1nat
        } else {
            0nat
        })
    }
}

/// The `n`-bit, msb-first representation of `v % pow2(n)`.
pub open spec fn bit_rep(v: nat, n: nat) -> Seq<bool> {
    Seq::new(n, |i: int| (v / pow2((n - 1 - i) as nat)) % 2 == 1)
}

/// Byte `i` of `b` zero-extended (or truncated) at the high-order end to
/// length `l`: the bytes are aligned at the low-order (right) end.
pub open spec fn ext_byte(b: Seq<u8>, l: int, i: int) -> u8 {
    if l - 1 - i < b.len() {
        b[b.len() - (l - i)]
    } else {
        0
    }
}

/// `b` zero-extended (or truncated, when only zero bytes are dropped) at
/// the high-order end to exactly `l` bytes.
pub open spec fn ext_seq(b: Seq<u8>, l: nat) -> Seq<u8> {
    Seq::new(l, |i: int| ext_byte(b, l as int, i))
}

/// A bit sequence is worth less than `pow2` of its length.
pub proof fn lemma_bits_val_bound(bv: Seq<bool>)
    ensures
        bits_val(bv) < pow2(bv.len()),
    decreases bv.len(),
{
    if bv.len() == 0 {
        lemma2_to64();
    } else {
        lemma_bits_val_bound(bv.drop_last());
        lemma_pow2_unfold(bv.len());
    }
}

/// Concatenation of bit sequences: the left part is shifted up by the
/// length of the right part.
pub proof fn lemma_bits_val_append(a: Seq<bool>, b: Seq<bool>)
    ensures
        bits_val(a + b) == bits_val(a) * pow2(b.len()) + bits_val(b),
    decreases b.len(),
{
    if b.len() == 0 {
        assert(a + b =~= a);
        lemma2_to64();
    } else {
        lemma_bits_val_append(a, b.drop_last());
        assert((a + b).drop_last() =~= a + b.drop_last());
        assert((a + b).last() == b.last());
        lemma_pow2_unfold(b.len());
        assert(bits_val(a) * pow2((b.len() - 1) as nat) * 2 == bits_val(a) * pow2(b.len())) by {
            lemma_mul_is_associative(
                bits_val(a) as int,
                pow2((b.len() - 1) as nat) as int,
                2,
            );
        }
        assert(bits_val(a + b) == (bits_val(a) * pow2((b.len() - 1) as nat) + bits_val(
            b.drop_last(),
        )) * 2 + (if b.last() {
            1nat
        } else {
            0nat
        }));
        lemma_mul_is_distributive_add_other_way(
            2,
            bits_val(a) * pow2((b.len() - 1) as nat) as int,
            bits_val(b.drop_last()) as int,
        );
    }
}

/// Splitting a bit sequence at `k` splits its value.
pub proof fn lemma_bits_val_split(bv: Seq<bool>, k: int)
    requires
        0 <= k <= bv.len(),
    ensures
        bits_val(bv) == bits_val(bv.take(k)) * pow2((bv.len() - k) as nat) + bits_val(bv.skip(k)),
{
    assert(bv =~= bv.take(k) + bv.skip(k));
    lemma_bits_val_append(bv.take(k), bv.skip(k));
}

/// The `n`-bit representation holds exactly `v % pow2(n)`.
pub proof fn lemma_bit_rep_val(v: nat, n: nat)
    ensures
        bits_val(bit_rep(v, n)) == v % pow2(n),
    decreases n,
{
    if n == 0 {
        lemma2_to64();
        assert(v % 1 == 0) by (nonlinear_arith);
    } else {
        lemma_bit_rep_val(v / 2, (n - 1) as nat);
        assert(bit_rep(v, n).drop_last() =~= bit_rep(v / 2, (n - 1) as nat)) by {
            assert forall|i: int| 0 <= i < n - 1 implies bit_rep(v, n)[i] == bit_rep(
                v / 2,
                (n - 1) as nat,
            )[i] by {
                lemma_pow2_unfold((n - 1 - i) as nat);
                lemma_pow2_pos((n - 2 - i) as nat);
                lemma_div_denominator(v as int, 2, pow2((n - 2 - i) as nat) as int);
            }
        }
        lemma2_to64();
        assert(bit_rep(v, n).last() == ((v / pow2(0)) % 2 == 1));
        assert(v / 1 == v) by (nonlinear_arith);
        assert(v / pow2(0) == v);
        let l: nat = if v % 2 == 1 {
            1nat
        } else {
            0nat
        };
        assert(v % 2 < 2) by {
            lemma_mod_bound(v as int, 2);
        }
        assert(l == v % 2);
        assert(bits_val(bit_rep(v, n)) == ((v / 2) % pow2((n - 1) as nat)) * 2 + v % 2);
        lemma_pow2_pos((n - 1) as nat);
        lemma_breakdown(v as int, 2, pow2((n - 1) as nat) as int);
        lemma_pow2_unfold(n);
        assert((v % (2 * pow2((n - 1) as nat))) == 2 * ((v / 2) % pow2((n - 1) as nat)) + v % 2);
        assert(2 * pow2((n - 1) as nat) == pow2(n));
    }
}

/// Reading bit `j` (counted from the least-significant end) out of a bit
/// sequence's value.
pub proof fn lemma_bits_val_bit_extract(bv: Seq<bool>, j: int)
    requires
        0 <= j < bv.len(),
    ensures
        (bits_val(bv) / pow2(j as nat)) % 2 == (if bv[bv.len() - 1 - j] {
            1nat
        } else {
            0nat
        }),
{
    let k = bv.len() - 1 - j;
    lemma_bits_val_split(bv, k + 1);
    let hi = bv.take(k + 1);
    let lo = bv.skip(k + 1);
    lemma_bits_val_bound(lo);
    lemma_pow2_pos(j as nat);
    assert(bits_val(bv) == bits_val(hi) * pow2(j as nat) + bits_val(lo));
    lemma_fundamental_div_mod_converse(
        bits_val(bv) as int,
        pow2(j as nat) as int,
        bits_val(hi) as int,
        bits_val(lo) as int,
    );
    assert(bits_val(bv) / pow2(j as nat) == bits_val(hi));
    let b: nat = if hi.last() {
        1nat
    } else {
        0nat
    };
    assert(bits_val(hi) == bits_val(hi.drop_last()) * 2 + b);
    lemma_mod_multiples_vanish(bits_val(hi.drop_last()) as int, b as int, 2);
    assert(bits_val(hi) % 2 == b % 2);
    assert(b % 2 == b) by (nonlinear_arith)
        requires
            b < 2,
    ;
    assert(hi.last() == bv[k]);
}

/// A bit sequence is recovered from its value.
pub proof fn lemma_bit_rep_of_bits_val(bv: Seq<bool>)
    ensures
        bit_rep(bits_val(bv), bv.len()) =~= bv,
{
    let n = bv.len();
    assert forall|i: int| 0 <= i < n implies bit_rep(bits_val(bv), n)[i] == bv[i] by {
        lemma_bits_val_bit_extract(bv, n - 1 - i);
    }
}

/// Appending a byte appends its eight bits.
pub proof fn lemma_bits_of_push(s: Seq<u8>, b: u8)
    ensures
        bits_of(s.push(b)) =~= bits_of(s) + bit_rep(b as nat, 8),
{
}

/// The bits of a prefix are a prefix of the bits.
pub proof fn lemma_bits_of_take(s: Seq<u8>, k: int)
    requires
        0 <= k <= s.len(),
    ensures
        bits_of(s.take(k)) =~= bits_of(s).take(8 * k),
{
}

/// The bits of a suffix are a suffix of the bits.
pub proof fn lemma_bits_of_skip(s: Seq<u8>, k: int)
    requires
        0 <= k <= s.len(),
    ensures
        bits_of(s.skip(k)) =~= bits_of(s).skip(8 * k),
{
    assert forall|i: int| 0 <= i < 8 * (s.len() - k) implies bits_of(s.skip(k))[i] == bits_of(
        s,
    ).skip(8 * k)[i] by {
        assert((i + 8 * k) / 8 == i / 8 + k) by (nonlinear_arith)
            requires
                k >= 0,
        ;
        assert((i + 8 * k) % 8 == i % 8) by (nonlinear_arith)
            requires
                k >= 0,
        ;
    }
}

/// The big-endian byte value and the msb-first bit value agree.
pub proof fn lemma_be_val_is_bits_val(s: Seq<u8>)
    ensures
        be_val(s) == bits_val(bits_of(s)),
    decreases s.len(),
{
    if s.len() == 0 {
        assert(bits_of(s) =~= Seq::<bool>::empty());
    } else {
        let d = s.drop_last();
        let b = s.last();
        lemma_be_val_is_bits_val(d);
        assert(s =~= d.push(b));
        lemma_bits_of_push(d, b);
        lemma_bits_val_append(bits_of(d), bit_rep(b as nat, 8));
        lemma_bit_rep_val(b as nat, 8);
        lemma2_to64();
        lemma_small_mod(b as nat, 256);
    }
}

/// A buffer's value is below `pow2` of its bit length.
pub proof fn lemma_be_val_bound(s: Seq<u8>)
    ensures
        be_val(s) < pow2(8 * s.len()),
{
    lemma_be_val_is_bits_val(s);
    lemma_bits_val_bound(bits_of(s));
}

/// Splitting a buffer at byte `k` splits its value.
pub proof fn lemma_be_val_split(s: Seq<u8>, k: int)
    requires
        0 <= k <= s.len(),
    ensures
        be_val(s) == be_val(s.take(k)) * pow2(8 * (s.len() - k) as nat) + be_val(s.skip(k)),
{
    lemma_be_val_is_bits_val(s);
    lemma_be_val_is_bits_val(s.take(k));
    lemma_be_val_is_bits_val(s.skip(k));
    lemma_bits_of_take(s, k);
    lemma_bits_of_skip(s, k);
    lemma_bits_val_split(bits_of(s), 8 * k);
}

/// Buffers of equal length with equal bits are equal.
pub proof fn lemma_bits_of_injective(s: Seq<u8>, t: Seq<u8>)
    requires
        s.len() == t.len(),
        bits_of(s) == bits_of(t),
    ensures
        s =~= t,
{
    assert forall|j: int| 0 <= j < s.len() implies s[j] == t[j] by {
        let sb = bit_rep(s[j] as nat, 8);
        let tb = bit_rep(t[j] as nat, 8);
        assert(sb =~= tb) by {
            assert forall|i: int| 0 <= i < 8 implies sb[i] == tb[i] by {
                assert((8 * j + i) / 8 == j && (8 * j + i) % 8 == i) by (nonlinear_arith)
                    requires
                        0 <= i < 8,
                ;
                assert(bits_of(s)[8 * j + i] == sb[i]);
                assert(bits_of(t)[8 * j + i] == tb[i]);
            }
        }
        lemma_bit_rep_val(s[j] as nat, 8);
        lemma_bit_rep_val(t[j] as nat, 8);
        lemma2_to64();
        lemma_small_mod(s[j] as nat, 256);
        lemma_small_mod(t[j] as nat, 256);
    }
}

/// Buffers of equal length with equal values are equal: the big-endian
/// reading is one-to-one at a fixed width.
pub proof fn lemma_be_val_injective(s: Seq<u8>, t: Seq<u8>)
    requires
        s.len() == t.len(),
        be_val(s) == be_val(t),
    ensures
        s =~= t,
    decreases s.len(),
{
    if s.len() > 0 {
        assert(be_val(s) == be_val(s.drop_last()) * 256 + s.last());
        assert(be_val(t) == be_val(t.drop_last()) * 256 + t.last());
        lemma_fundamental_div_mod_converse(
            be_val(s) as int,
            256,
            be_val(s.drop_last()) as int,
            s.last() as int,
        );
        lemma_fundamental_div_mod_converse(
            be_val(t) as int,
            256,
            be_val(t.drop_last()) as int,
            t.last() as int,
        );
        assert(s.last() == t.last());
        assert(be_val(s.drop_last()) == be_val(t.drop_last()));
        lemma_be_val_injective(s.drop_last(), t.drop_last());
        assert forall|i: int| 0 <= i < s.len() implies s[i] == t[i] by {
            if i < s.len() - 1 {
                assert(s.drop_last()[i] == t.drop_last()[i]);
            }
        }
    }
}

/// A buffer is worth zero exactly when every byte is zero.
pub proof fn lemma_be_val_zero_iff(s: Seq<u8>)
    ensures
        be_val(s) == 0 <==> (forall|i: int| 0 <= i < s.len() ==> s[i] == 0),
    decreases s.len(),
{
    if s.len() > 0 {
        lemma_be_val_zero_iff(s.drop_last());
        if be_val(s) == 0 {
            assert(be_val(s.drop_last()) * 256 + s.last() as nat == 0);
            assert(be_val(s.drop_last()) == 0);
            assert forall|i: int| 0 <= i < s.len() implies s[i] == 0 by {
                if i < s.len() - 1 {
                    assert(s[i] == s.drop_last()[i]);
                }
            }
        }
        if forall|i: int| 0 <= i < s.len() ==> s[i] == 0 {
            assert forall|i: int| 0 <= i < s.len() - 1 implies s.drop_last()[i] == 0 by {
                assert(s.drop_last()[i] == s[i]);
            }
            assert(be_val(s.drop_last()) == 0);
            assert(s.last() == 0);
        }
    }
}

/// A bit sequence is worth zero exactly when every bit is clear.
pub proof fn lemma_bits_val_zero_iff(bv: Seq<bool>)
    ensures
        bits_val(bv) == 0 <==> (forall|i: int| 0 <= i < bv.len() ==> !bv[i]),
    decreases bv.len(),
{
    if bv.len() > 0 {
        lemma_bits_val_zero_iff(bv.drop_last());
        if bits_val(bv) == 0 {
            assert(bits_val(bv.drop_last()) == 0);
            assert forall|i: int| 0 <= i < bv.len() implies !bv[i] by {
                if i < bv.len() - 1 {
                    assert(bv[i] == bv.drop_last()[i]);
                }
            }
        }
        if forall|i: int| 0 <= i < bv.len() ==> !bv[i] {
            assert forall|i: int| 0 <= i < bv.len() - 1 implies !bv.drop_last()[i] by {
                assert(bv.drop_last()[i] == bv[i]);
            }
            assert(bits_val(bv.drop_last()) == 0);
            assert(!bv.last());
        }
    }
}

/// Aligning a buffer at the low end to length `l` keeps its value modulo
/// `pow2(8 * l)`; when nothing but zero bytes is dropped, the value is kept
/// exactly.
pub proof fn lemma_ext_seq_val(b: Seq<u8>, l: nat)
    ensures
        be_val(ext_seq(b, l)) == be_val(b) % pow2(8 * l),
        b.len() <= l ==> be_val(ext_seq(b, l)) == be_val(b),
{
    let e = ext_seq(b, l);
    lemma_pow2_pos(8 * l);
    if b.len() <= l {
        let z = (l - b.len()) as int;
        assert(e.skip(z) =~= b);
        assert(forall|i: int| 0 <= i < z ==> e.take(z)[i] == 0);
        lemma_be_val_zero_iff(e.take(z));
        assert(be_val(e.take(z)) == 0);
        lemma_be_val_split(e, z);
        assert(be_val(e) == 0 * pow2(8 * (e.len() - z) as nat) + be_val(e.skip(z)));
        assert(be_val(e) == be_val(b));
        lemma_be_val_bound(b);
        if 8 * b.len() <= 8 * l {
            lemma_pow2_adds(8 * b.len(), (8 * l - 8 * b.len()) as nat);
            lemma_pow2_pos((8 * l - 8 * b.len()) as nat);
            assert(pow2(8 * b.len()) <= pow2(8 * l)) by (nonlinear_arith)
                requires
                    pow2(8 * l) == pow2(8 * b.len()) * pow2((8 * l - 8 * b.len()) as nat),
                    pow2((8 * l - 8 * b.len()) as nat) >= 1,
                    pow2(8 * b.len()) >= 0,
            ;
        }
        lemma_small_mod(be_val(b), pow2(8 * l));
        assert(be_val(e) == be_val(b) % pow2(8 * l));
        assert(be_val(e) == be_val(b));
    } else {
        let z = (b.len() - l) as int;
        assert(e =~= b.skip(z));
        lemma_be_val_split(b, z);
        assert(b.skip(z).len() == l);
        assert(be_val(b) == be_val(b.take(z)) * pow2(8 * l) + be_val(b.skip(z)));
        lemma_be_val_bound(b.skip(z));
        assert(be_val(b.skip(z)) < pow2(8 * l));
        lemma_mod_multiples_vanish(
            be_val(b.take(z)) as int,
            be_val(b.skip(z)) as int,
            pow2(8 * l) as int,
        );
        assert((pow2(8 * l) * be_val(b.take(z)) + be_val(b.skip(z))) % pow2(8 * l) == be_val(
            b.skip(z),
        ) % pow2(8 * l));
        lemma_small_mod(be_val(b.skip(z)), pow2(8 * l));
        assert(be_val(e) == be_val(b) % pow2(8 * l));
    }
}

/// Updating one bit moves the value by the bit's weight.
pub proof fn lemma_bits_val_update(bv: Seq<bool>, j: int, v: bool)
    requires
        0 <= j < bv.len(),
    ensures
        bits_val(bv.update(j, v)) == bits_val(bv) - (if bv[j] {
            pow2((bv.len() - 1 - j) as nat)
        } else {
            0nat
        }) + (if v {
            pow2((bv.len() - 1 - j) as nat)
        } else {
            0nat
        }),
{
    let n = bv.len();
    let u = bv.update(j, v);
    let w = pow2((n - 1 - j) as nat);
    lemma_split_three(bv, j);
    lemma_split_three(u, j);
    assert(u.take(j) =~= bv.take(j));
    assert(u.skip(j + 1) =~= bv.skip(j + 1));
}

/// A bit sequence splits around position `j` into a prefix, the bit
/// itself with its weight, and a suffix.
pub proof fn lemma_split_three(bv: Seq<bool>, j: int)
    requires
        0 <= j < bv.len(),
    ensures
        bits_val(bv) == bits_val(bv.take(j)) * pow2((bv.len() - j) as nat) + (if bv[j] {
            pow2((bv.len() - 1 - j) as nat)
        } else {
            0nat
        }) + bits_val(bv.skip(j + 1)),
{
    let n = bv.len();
    lemma_bits_val_split(bv, j);
    lemma_bits_val_split(bv.skip(j), 1);
    assert(bv.skip(j).skip(1) =~= bv.skip(j + 1));
    let first = bv.skip(j).take(1);
    assert(first.len() == 1 && first[0] == bv[j]);
    assert(first.drop_last() =~= Seq::<bool>::empty());
    assert(bits_val(Seq::<bool>::empty()) == 0);
    assert(first.last() == bv[j]);
    assert(bits_val(first) == (if bv[j] {
        1nat
    } else {
        0nat
    }));
    if bv[j] {
        assert(bits_val(bv.skip(j)) == 1 * pow2((n - 1 - j) as nat) + bits_val(bv.skip(j + 1)));
    } else {
        assert(bits_val(bv.skip(j)) == 0 * pow2((n - 1 - j) as nat) + bits_val(bv.skip(j + 1)));
    }
}

} // verus!
