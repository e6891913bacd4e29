//! Bit counting: parity of the number of set bits, and the count of rising
//! (0 to 1) transitions when a word is scanned from least to most
//! significant bit.

use vstd::prelude::*;
use crate::rotation::rotl;

verus! {

/// The number of set bits in `v`.
pub open spec fn popcount(v: nat) -> nat
    decreases v,
{
    if v == 0 {
        0
    } else {
        popcount(v / 2) + v % 2
    }
}

/// Even parity: true iff the number of set bits in `v` is even.
pub open spec fn even_parity(v: u32) -> bool {
    popcount(v as nat) % 2 == 0
}

/// Parity as an xor-fold of all 32 bits into bit 0; this closed form is what
/// the bit-vector solver can reason about directly.
spec fn fold_parity(v: u32) -> bool {
    let x16: u32 = v ^ (v >> 16u32);
    let x8: u32 = x16 ^ (x16 >> 8u32);
    let x4: u32 = x8 ^ (x8 >> 4u32);
    let x2: u32 = x4 ^ (x4 >> 2u32);
    let x1: u32 = x2 ^ (x2 >> 1u32);
    x1 & 1 == 0
}

/// The xor-fold computes even parity.
proof fn lemma_fold_parity_eq(v: u32)
    ensures
        fold_parity(v) == even_parity(v),
    decreases v,
{
    if v == 0 {
        assert(fold_parity(0u32)) by (bit_vector);
    } else {
        assert(v >> 1u32 == v / 2 && v & 1u32 == v % 2) by (bit_vector);
        lemma_fold_parity_eq(v >> 1u32);
        assert(fold_parity(v) == (fold_parity(v >> 1u32) == (v & 1u32 == 0))) by (bit_vector);
        assert(popcount(v as nat) == popcount((v >> 1u32) as nat) + (v % 2) as nat);
    }
}

/// Determine the parity of a given value.
///
/// Returns true iff the number of set bits in `val` is even.
pub fn calc_parity(val: u32) -> (r: bool)
    ensures
        r == even_parity(val),
{
    let mut v: u32 = val;
    let mut parity: bool = true;
    while v != 0
        invariant
            parity == (fold_parity(v) == fold_parity(val)),
        decreases v,
    {
        proof {
            assert((fold_parity((v & ((v - 1) as u32)) as u32) != fold_parity(v)) && ((v & ((v
                - 1) as u32)) < v)) by (bit_vector)
                requires
                    v != 0u32,
            ;
        }
        parity = !parity;
        v = v & (v - 1);
    }
    proof {
        assert(fold_parity(0u32)) by (bit_vector);
        lemma_fold_parity_eq(val);
    }
    parity
}

/// The number of rising (0 to 1) transitions in `v`, scanned from least to
/// most significant bit, when the bit just below the current position was
/// `prev` (0 or 1).
pub open spec fn rising_from(v: nat, prev: nat) -> nat
    decreases v,
{
    if v == 0 {
        0
    } else {
        (if v % 2 == 1 && prev == 0 {
            1nat
        } else {
            0nat
        }) + rising_from(v / 2, v % 2)
    }
}

/// The number of rising transitions in `v`, with an implicit 0 below the
/// least significant bit.
pub open spec fn rising_transitions(v: u32) -> nat {
    rising_from(v as nat, 0)
}

/// A value has no more rising transitions than its own magnitude.
proof fn lemma_rising_from_bound(v: nat, prev: nat)
    ensures
        rising_from(v, prev) <= v,
    decreases v,
{
    if v > 0 {
        lemma_rising_from_bound(v / 2, v % 2);
    }
}

/// Count the number of transitions between bits in a value.
///
/// Counts only rising (0 to 1) edges, treating an implicit 0 below the least
/// significant bit as the initial previous state.
pub fn count_bit_transitions(val: u32) -> (r: u32)
    ensures
        r as nat == rising_transitions(val),
{
    proof {
        lemma_rising_from_bound(val as nat, 0);
    }
    let mut v: u32 = val;
    let mut transitions: u32 = 0;
    let mut prev_bit: u32 = 0;
    while v != 0
        invariant
            prev_bit == 0 || prev_bit == 1,
            transitions as nat + rising_from(v as nat, prev_bit as nat) == rising_transitions(
                val,
            ),
            rising_transitions(val) <= val as nat,
        decreases v,
    {
        proof {
            assert(v & 1u32 == v % 2 && v >> 1u32 == v / 2) by (bit_vector);
        }
        let new_bit = v & 1;
        if new_bit > prev_bit {
            transitions = transitions + 1;
        }
        prev_bit = new_bit;
        v = v >> 1;
    }
    transitions
}

/// Parity is xor-additive: the parity of `x ^ y` is even exactly when the
/// parities of `x` and `y` agree.
proof fn lemma_fold_parity_xor(x: u32, y: u32)
    ensures
        fold_parity(x ^ y) == (fold_parity(x) == fold_parity(y)),
{
    assert(fold_parity(x ^ y) == (fold_parity(x) == fold_parity(y))) by (bit_vector);
}

/// A left shift that loses no bits keeps the parity.
proof fn lemma_fold_parity_shl(x: u32, s: u32)
    requires
        s < 32,
        (x << s) >> s == x,
    ensures
        fold_parity(x << s) == fold_parity(x),
    decreases s,
{
    if s == 0 {
        assert(x << 0u32 == x) by (bit_vector);
    } else {
        assert(((x << ((s - 1) as u32)) >> ((s - 1) as u32) == x) && (x << s == (x << ((s
            - 1) as u32)) << 1u32) && (((x << ((s - 1) as u32)) << 1u32) >> 1u32 == (x << ((s
            - 1) as u32)))) by (bit_vector)
            requires
                1u32 <= s < 32u32,
                (x << s) >> s == x,
        ;
        lemma_fold_parity_shl(x, (s - 1) as u32);
        let y: u32 = x << ((s - 1) as u32);
        assert(fold_parity(y << 1u32) == fold_parity(y)) by (bit_vector)
            requires
                (y << 1u32) >> 1u32 == y,
        ;
    }
}

/// Law: parity is invariant under rotation; a cyclic shift permutes the bits
/// of a word without setting or clearing any.
pub proof fn lemma_parity_rotation_invariant(val: u32, shift: u32, bits: u32)
    requires
        1 <= bits < 32,
        shift < bits,
        val < (1u32 << bits),
    ensures
        even_parity(rotl(val, shift, bits)) == even_parity(val),
{
    lemma_fold_parity_eq(val);
    lemma_fold_parity_eq(rotl(val, shift, bits));
    let back: u32 = (bits - shift) as u32;
    let low_mask: u32 = ((1u32 << back) - 1) as u32;
    let upper: u32 = val >> back;
    let lower: u32 = val & low_mask;
    // A rotation splits the word in two and swaps the pieces; each piece is
    // shifted without losing bits, so each keeps its parity.
    assert((rotl(val, shift, bits) == (lower << shift) ^ upper) && ((lower << shift) >> shift
        == lower) && (val == (upper << back) ^ lower) && ((upper << back) >> back == upper))
        by (bit_vector)
        requires
            1u32 <= bits < 32u32,
            shift < bits,
            val < (1u32 << bits),
            back == (bits - shift) as u32,
            low_mask == ((1u32 << back) - 1) as u32,
            upper == val >> back,
            lower == val & low_mask,
    ;
    lemma_fold_parity_shl(lower, shift);
    lemma_fold_parity_shl(upper, back);
    lemma_fold_parity_xor(lower << shift, upper);
    lemma_fold_parity_xor(upper << back, lower);
}

/// The all-ones word of a given width has exactly that many set bits.
pub proof fn lemma_popcount_all_ones(bits: u32)
    requires
        bits < 32,
    ensures
        popcount((((1u32 << bits) - 1) as u32) as nat) == bits as nat,
    decreases bits,
{
    if bits == 0 {
        assert(((1u32 << 0u32) - 1) as u32 == 0u32) by (bit_vector);
    } else {
        lemma_popcount_all_ones((bits - 1) as u32);
        let m: u32 = ((1u32 << bits) - 1) as u32;
        let m1: u32 = ((1u32 << ((bits - 1) as u32)) - 1) as u32;
        assert(m / 2 == m1 && m % 2 == 1u32 && m != 0u32) by (bit_vector)
            requires
                1u32 <= bits < 32u32,
                m == ((1u32 << bits) - 1) as u32,
                m1 == ((1u32 << ((bits - 1) as u32)) - 1) as u32,
        ;
        assert(popcount(m as nat) == popcount(m1 as nat) + 1);
    }
}

} // verus!
