//! Bit strings and their numeric value.
//!
//! Addresses travel through the trie as sequences of bits, highest first.
//! This module ties those sequences to the unsigned integers the rest of
//! the crate computes with: [`addr_bit`] reads one bit of an integer,
//! [`bits_val`] is the value of a bit string, and [`pow2_u128`] computes a
//! power of two at run time.

use vstd::prelude::*;
use vstd::arithmetic::power2::{
    pow2, lemma_pow2_unfold, lemma_pow2_adds, lemma_pow2_pos, lemma_pow2_strictly_increases,
};
use vstd::arithmetic::div_mod::{lemma_div_denominator, lemma_mod_breakdown};

verus! {

/// Bit `i` (counting from the least significant) of `a`.
pub open spec fn addr_bit(a: u128, i: nat) -> bool {
    (a as nat / pow2(i)) % 2 == 1
}

/// The numeric value of a bit string, highest bit first.
pub open spec fn bits_val(s: Seq<bool>) -> nat
    decreases s.len(),
{
    if s.len() == 0 {
        0
    } else {
        2 * bits_val(s.drop_last()) + (if s.last() {
            1nat
        } else {
            0nat
        })
    }
}

/// The low `w` bits of `a` as a bit string, highest first.
pub open spec fn addr_bits(a: u128, w: nat) -> Seq<bool> {
    Seq::new(w, |i: int| addr_bit(a, (w - 1 - i) as nat))
}

/// A bit string's value stays below `2^len`.
pub proof fn lemma_bits_val_bound(s: Seq<bool>)
    ensures
        bits_val(s) < pow2(s.len()),
    decreases s.len(),
{
    if s.len() == 0 {
        vstd::arithmetic::power2::lemma2_to64();
    } else {
        lemma_bits_val_bound(s.drop_last());
        lemma_pow2_unfold(s.len());
    }
}

/// Appending a bit doubles the value and adds the bit.
pub proof fn lemma_bits_val_push(s: Seq<bool>, b: bool)
    ensures
        bits_val(s.push(b)) == 2 * bits_val(s) + (if b {
            1nat
        } else {
            0nat
        }),
{
    assert(s.push(b).drop_last() =~= s);
    assert(s.push(b).last() == b);
}

/// The value of the high `k`-bit slice of `addr_bits(a, w)`: it is
/// `a`, shifted down past the unread bits, reduced to `k` bits.
pub proof fn lemma_addr_bits_prefix_val(a: u128, w: nat, k: nat)
    requires
        k <= w,
    ensures
        bits_val(addr_bits(a, w).take(k as int)) == (a as nat / pow2((w - k) as nat)) % pow2(k),
    decreases k,
{
    let s = addr_bits(a, w);
    if k == 0 {
        assert(s.take(0) =~= Seq::<bool>::empty());
        vstd::arithmetic::power2::lemma2_to64();
    } else {
        lemma_addr_bits_prefix_val(a, w, (k - 1) as nat);
        lemma_pow2_pos((w - k) as nat);
        lemma_pow2_pos((k - 1) as nat);
        let t = s.take(k as int);
        assert(t.drop_last() =~= s.take(k - 1));
        assert(t.last() == addr_bit(a, (w - k) as nat));
        let q = a as nat / pow2((w - k) as nat);
        // a / 2^(w-k) splits as (a / 2^(w-k+1)) * 2 + bit, and reducing
        // modulo 2^k keeps k-1 high bits plus that bit.
        assert(pow2((w - k + 1) as nat) == pow2((w - k) as nat) * 2) by {
            lemma_pow2_adds((w - k) as nat, 1);
            vstd::arithmetic::power2::lemma2_to64();
        }
        assert(a as nat / pow2((w - k + 1) as nat) == q / 2) by {
            lemma_pow2_pos((w - k) as nat);
            lemma_div_denominator(a as int, pow2((w - k) as nat) as int, 2);
        }
        assert(pow2(k) == 2 * pow2((k - 1) as nat)) by {
            lemma_pow2_unfold(k);
        }
        lemma_mod_breakdown(q as int, 2int, pow2((k - 1) as nat) as int);
        assert(q % pow2(k) == 2 * ((q / 2) % pow2((k - 1) as nat)) + q % 2);
        assert((q % 2 == 1) == addr_bit(a, (w - k) as nat));
        lemma_bits_val_push(s.take(k - 1), t.last());
        assert(s.take(k - 1).push(t.last()) =~= t);
    }
}

/// A bit string's value splits at any cut: high part shifted past the
/// low part, plus the low part.
pub proof fn lemma_bits_val_split(s: Seq<bool>, m: nat)
    requires
        m <= s.len(),
    ensures
        bits_val(s) == bits_val(s.take(m as int)) * pow2((s.len() - m) as nat) + bits_val(
            s.skip(m as int),
        ),
    decreases s.len() - m,
{
    if m == s.len() {
        assert(s.take(m as int) =~= s);
        assert(s.skip(m as int) =~= Seq::<bool>::empty());
        vstd::arithmetic::power2::lemma2_to64();
    } else {
        lemma_bits_val_split(s.drop_last(), m);
        assert(s.drop_last().take(m as int) =~= s.take(m as int));
        assert(s.drop_last().skip(m as int) =~= s.skip(m as int).drop_last());
        assert(s.skip(m as int).len() > 0);
        assert(s.skip(m as int).last() == s.last());
        lemma_pow2_unfold((s.len() - m) as nat);
        let h = bits_val(s.take(m as int));
        let p = pow2((s.len() - 1 - m) as nat);
        assert(2 * (h * p) == h * (2 * p)) by (nonlinear_arith);
    }
}

/// Two bit strings that agree up to `k` and differ there compare by
/// that bit once left-aligned to a common width `w`.
pub proof fn lemma_lex_lt(x: Seq<bool>, y: Seq<bool>, k: nat, w: nat)
    requires
        x.take(k as int) == y.take(k as int),
        k < x.len() <= w,
        k < y.len() <= w,
        !x[k as int],
        y[k as int],
    ensures
        bits_val(x) * pow2((w - x.len()) as nat) < bits_val(y) * pow2((w - y.len()) as nat),
{
    let lx = x.len();
    let ly = y.len();
    lemma_bits_val_split(x, (k + 1) as nat);
    lemma_bits_val_split(y, (k + 1) as nat);
    assert(x.take(k + 1 as int) =~= x.take(k as int).push(x[k as int]));
    assert(y.take(k + 1 as int) =~= y.take(k as int).push(y[k as int]));
    lemma_bits_val_push(x.take(k as int), x[k as int]);
    lemma_bits_val_push(y.take(k as int), y[k as int]);
    let h = bits_val(x.take(k as int));
    assert(bits_val(x.take(k + 1 as int)) == 2 * h);
    assert(bits_val(y.take(k + 1 as int)) == 2 * h + 1);
    let lowx = bits_val(x.skip(k + 1 as int));
    let lowy = bits_val(y.skip(k + 1 as int));
    lemma_bits_val_bound(x.skip(k + 1 as int));
    lemma_bits_val_bound(y.skip(k + 1 as int));
    assert(x.skip(k + 1 as int).len() == lx - k - 1);
    assert(y.skip(k + 1 as int).len() == ly - k - 1);
    lemma_pow2_adds((lx - k - 1) as nat, (w - lx) as nat);
    lemma_pow2_adds((ly - k - 1) as nat, (w - ly) as nat);
    lemma_pow2_pos((w - lx) as nat);
    lemma_pow2_pos((w - ly) as nat);
    lemma_pow2_pos((w - k - 1) as nat);
    // Left-aligned values, decomposed around the cut.
    assert(bits_val(x) * pow2((w - lx) as nat) == (2 * h) * pow2((w - k - 1) as nat) + lowx * pow2(
        (w - lx) as nat,
    )) by (nonlinear_arith)
        requires
            bits_val(x) == (2 * h) * pow2((lx - k - 1) as nat) + lowx,
            pow2((lx - k - 1) as nat) * pow2((w - lx) as nat) == pow2((w - k - 1) as nat),
    ;
    assert(bits_val(y) * pow2((w - ly) as nat) == (2 * h + 1) * pow2((w - k - 1) as nat) + lowy
        * pow2((w - ly) as nat)) by (nonlinear_arith)
        requires
            bits_val(y) == (2 * h + 1) * pow2((ly - k - 1) as nat) + lowy,
            pow2((ly - k - 1) as nat) * pow2((w - ly) as nat) == pow2((w - k - 1) as nat),
    ;
    assert(lowx * pow2((w - lx) as nat) < pow2((w - k - 1) as nat)) by (nonlinear_arith)
        requires
            lowx < pow2((lx - k - 1) as nat),
            pow2((lx - k - 1) as nat) * pow2((w - lx) as nat) == pow2((w - k - 1) as nat),
            pow2((w - lx) as nat) > 0,
    ;
    assert((2 * h) * pow2((w - k - 1) as nat) + pow2((w - k - 1) as nat) == (2 * h + 1) * pow2(
        (w - k - 1) as nat,
    )) by (nonlinear_arith);
}

/// Powers of two do not shrink as the exponent grows.
pub proof fn lemma_pow2_le(e1: nat, e2: nat)
    requires
        e1 <= e2,
    ensures
        pow2(e1) <= pow2(e2),
{
    if e1 < e2 {
        lemma_pow2_strictly_increases(e1, e2);
    }
}

/// Masking with one keeps exactly the parity.
pub proof fn lemma_u128_and_one(x: u128)
    ensures
        x & 1 == x % 2,
{
    assert(x & 1 == x % 2) by (bit_vector);
}

/// Run-time power of two.
pub fn pow2_u128(k: usize) -> (r: u128)
    requires
        k < 128,
    ensures
        r == pow2(k as nat),
{
    let mut r: u128 = 1;
    let mut i: usize = 0;
    proof {
        vstd::arithmetic::power2::lemma2_to64();
    }
    while i < k
        invariant
            i <= k < 128,
            r == pow2(i as nat),
        decreases k - i,
    {
        proof {
            lemma_pow2_unfold((i + 1) as nat);
            lemma_pow2_strictly_increases((i + 1) as nat, 128);
            pow2_128_fact();
        }
        r = r * 2;
        i = i + 1;
    }
    r
}

/// `2^128` is just past the largest `u128`.
pub proof fn pow2_128_fact()
    ensures
        pow2(128) == 0x100000000000000000000000000000000,
{
    vstd::arithmetic::power2::lemma2_to64();
    vstd::arithmetic::power2::lemma2_to64_rest();
    lemma_pow2_adds(64, 64);
    assert(pow2(64) == 0x10000000000000000);
}

} // verus!
