//! Cyclic rotation of fixed-width bit words and the canonical (smallest)
//! rotation, which identifies all rotations of a code with one representative.

use vstd::prelude::*;

verus! {

/// The mask with the low `bits` bits set: a code of width `bits` satisfies
/// `val & width_mask(bits) == val`.
pub open spec fn width_mask(bits: u32) -> u32 {
    ((1u32 << bits) - 1) as u32
}

/// Cyclic left rotation of `val` by `shift` positions within a `bits`-wide
/// field: the bits shifted out at the top re-enter at the bottom.
pub open spec fn rotl(val: u32, shift: u32, bits: u32) -> u32 {
    ((val << shift) & width_mask(bits)) | ((val & width_mask(bits)) >> ((bits - shift) as u32))
}

/// Perform a bitwise rotation to the left.
///
/// `bits` is the rotation amount and `total_bits` the field width.
pub fn bitwise_rotate_left(val: u32, bits: u32, total_bits: u32) -> (r: u32)
    requires
        1 <= total_bits < 32,
        bits < total_bits,
    ensures
        r == rotl(val, bits, total_bits),
{
    proof {
        assert(1u32 << total_bits >= 1u32) by (bit_vector)
            requires
                total_bits < 32u32,
        ;
    }
    let mask: u32 = (1u32 << total_bits) - 1;
    ((val << bits) & mask) | ((val & mask) >> (total_bits - bits))
}

/// The smallest value among `val` and its rotations by `1 .. k` positions.
pub open spec fn smallest_rotation_upto(val: u32, bits: u32, k: u32) -> u32
    decreases k,
{
    if k <= 1 {
        val
    } else {
        let prev = smallest_rotation_upto(val, bits, (k - 1) as u32);
        let rot = rotl(val, (k - 1) as u32, bits);
        if rot < prev {
            rot
        } else {
            prev
        }
    }
}

/// The canonical rotation of `val`: the numerically smallest of all `bits`
/// cyclic rotations of `val`.
pub open spec fn smallest_rotation(val: u32, bits: u32) -> u32 {
    smallest_rotation_upto(val, bits, bits)
}

/// Find the smallest representation of a value through bitwise rotations.
pub fn find_smallest_rotation(val: u32, total_bits: u32) -> (r: u32)
    requires
        1 <= total_bits < 32,
        val < (1u32 << total_bits),
    ensures
        r == smallest_rotation(val, total_bits),
{
    let mut smallest: u32 = val;
    let mut i: u32 = 1;
    while i < total_bits
        invariant
            1 <= total_bits < 32,
            1 <= i <= total_bits,
            smallest == smallest_rotation_upto(val, total_bits, i),
        decreases total_bits - i,
    {
        let rotated = bitwise_rotate_left(val, i, total_bits);
        if rotated < smallest {
            smallest = rotated;
        }
        i = i + 1;
    }
    smallest
}

/// Rotating by zero positions leaves a `bits`-wide value unchanged.
proof fn lemma_rotl_zero(val: u32, bits: u32)
    requires
        bits < 32,
        val < (1u32 << bits),
    ensures
        rotl(val, 0, bits) == val,
{
    assert(rotl(val, 0u32, bits) == val) by (bit_vector)
        requires
            bits < 32u32,
            val < (1u32 << bits),
    ;
}

/// Two successive rotations amount to one rotation by the sum of the
/// shifts, reduced modulo the width.
#[verifier::rlimit(100)]
proof fn lemma_rotl_compose(val: u32, s1: u32, s2: u32, bits: u32)
    requires
        1 <= bits < 32,
        s1 < bits,
        s2 < bits,
        val < (1u32 << bits),
    ensures
        rotl(rotl(val, s1, bits), s2, bits) == rotl(val, ((s1 + s2) as u32) % bits, bits),
{
    if s1 + s2 < bits {
        assert(((s1 + s2) as u32) % bits == (s1 + s2) as u32) by (bit_vector)
            requires
                1u32 <= bits < 32u32,
                s1 + s2 < bits,
        ;
        assert(rotl(rotl(val, s1, bits), s2, bits) == rotl(val, (s1 + s2) as u32, bits))
            by (bit_vector)
            requires
                1u32 <= bits < 32u32,
                s1 < bits,
                s2 < bits,
                s1 + s2 < bits,
                val < (1u32 << bits),
        ;
    } else {
        assert(((s1 + s2) as u32) % bits == (s1 + s2 - bits) as u32) by (bit_vector)
            requires
                1u32 <= bits < 32u32,
                s1 < bits,
                s2 < bits,
                s1 + s2 >= bits,
        ;
        assert(rotl(rotl(val, s1, bits), s2, bits) == rotl(val, (s1 + s2 - bits) as u32, bits))
            by (bit_vector)
            requires
                1u32 <= bits < 32u32,
                s1 < bits,
                s2 < bits,
                s1 + s2 >= bits,
                val < (1u32 << bits),
        ;
    }
}

/// Law: rotating left by `shift` and then by `(bits - shift) % bits` restores
/// the original value, and rotating by zero is the identity.
pub proof fn lemma_rotate_round_trip(val: u32, shift: u32, bits: u32)
    requires
        1 <= bits < 32,
        shift < bits,
        val < (1u32 << bits),
    ensures
        rotl(rotl(val, shift, bits), ((bits - shift) as u32) % bits, bits) == val,
        rotl(val, 0, bits) == val,
{
    lemma_rotl_zero(val, bits);
    assert(rotl(rotl(val, shift, bits), ((bits - shift) as u32) % bits, bits) == val)
        by (bit_vector)
        requires
            1u32 <= bits < 32u32,
            shift < bits,
            val < (1u32 << bits),
    ;
}

/// The canonical rotation is no larger than the value itself and no larger
/// than any rotation considered so far.
proof fn lemma_smallest_upto_le(val: u32, bits: u32, k: u32)
    requires
        1 <= k,
    ensures
        smallest_rotation_upto(val, bits, k) <= val,
        forall|s: u32| 1 <= s < k ==> smallest_rotation_upto(val, bits, k) <= #[trigger] rotl(val, s, bits),
    decreases k,
{
    if k > 1 {
        lemma_smallest_upto_le(val, bits, (k - 1) as u32);
    }
}

/// The canonical rotation is the value itself or one of its rotations.
proof fn lemma_smallest_upto_exists(val: u32, bits: u32, k: u32)
    requires
        1 <= k,
    ensures
        smallest_rotation_upto(val, bits, k) == val || exists|s: u32|
            1 <= s < k && smallest_rotation_upto(val, bits, k) == rotl(val, s, bits),
    decreases k,
{
    if k > 1 {
        lemma_smallest_upto_exists(val, bits, (k - 1) as u32);
        if smallest_rotation_upto(val, bits, k) != smallest_rotation_upto(val, bits, (k - 1) as u32) {
            assert(smallest_rotation_upto(val, bits, k) == rotl(val, (k - 1) as u32, bits));
        }
    }
}

/// Law: the canonical rotation never exceeds the value, and it is a lower
/// bound on every rotation of the value.
pub proof fn lemma_smallest_rotation_le(val: u32, bits: u32)
    requires
        1 <= bits < 32,
        val < (1u32 << bits),
    ensures
        smallest_rotation(val, bits) <= val,
        smallest_rotation(val, bits) < (1u32 << bits),
        forall|s: u32| s < bits ==> smallest_rotation(val, bits) <= #[trigger] rotl(val, s, bits),
{
    lemma_smallest_upto_le(val, bits, bits);
    lemma_rotl_zero(val, bits);
}

/// Law: canonicalizing twice gives the same value as canonicalizing once.
pub proof fn lemma_smallest_rotation_idempotent(val: u32, bits: u32)
    requires
        1 <= bits < 32,
        val < (1u32 << bits),
    ensures
        smallest_rotation(smallest_rotation(val, bits), bits) == smallest_rotation(val, bits),
{
    let c = smallest_rotation(val, bits);
    lemma_smallest_rotation_le(val, bits);
    lemma_smallest_upto_exists(val, bits, bits);
    lemma_smallest_upto_le(c, bits, bits);
    lemma_smallest_upto_exists(c, bits, bits);
    lemma_rotl_zero(val, bits);
    if smallest_rotation(c, bits) != c {
        // The canonical rotation of c is a strict rotation of c, and every
        // rotation of c is a rotation of val, hence at least c: contradiction.
        let s = choose|s: u32| 1 <= s < bits && smallest_rotation(c, bits) == rotl(c, s, bits);
        if c == val {
            assert(smallest_rotation(c, bits) >= c);
        } else {
            let s0 = choose|s0: u32| 1 <= s0 < bits && c == rotl(val, s0, bits);
            lemma_rotl_compose(val, s0, s, bits);
            let t = ((s0 + s) as u32) % bits;
            assert(rotl(c, s, bits) == rotl(val, t, bits));
            assert(t < bits);
            assert(smallest_rotation(c, bits) >= c);
        }
        assert(false);
    }
}

} // verus!
