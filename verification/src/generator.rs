//! Enumeration of valid target codes: rotation-canonical words of a given
//! even width with even parity, at least one diametrically opposite pair of
//! filled segments, and optionally a fixed number of rising transitions.

use vstd::prelude::*;
use crate::rotation::width_mask;
use crate::rotation::smallest_rotation;
use crate::rotation::find_smallest_rotation;
use crate::rotation::lemma_smallest_rotation_le;
use crate::rotation::lemma_smallest_rotation_idempotent;
use crate::parity::even_parity;
use crate::parity::rising_transitions;
use crate::parity::calc_parity;
use crate::parity::count_bit_transitions;

verus! {

/// True iff at least one angular position has both its segment and the
/// diametrically opposite segment (half the width apart) filled: the bitwise
/// AND of the lower half with the right-aligned upper half is nonzero.
pub open spec fn has_opposite_pair(val: u32, bits: u32) -> bool {
    (val & width_mask((bits / 2) as u32)) & ((val & (width_mask((bits / 2) as u32) << ((bits
        / 2) as u32))) >> ((bits / 2) as u32)) != 0
}

/// The candidate word enumerated at index `i`: the index shifted up one
/// position with a 1 appended, so every candidate ends in 1.
pub open spec fn candidate(i: u32) -> u32 {
    ((i << 1u32) + 1) as u32
}

/// The acceptance test for a canonicalized candidate, apart from novelty:
/// even parity, an opposite pair, and the requested transition count if any.
pub open spec fn code_ok(code: u32, bits: u32, transitions: Option<u32>) -> bool {
    &&& even_parity(code)
    &&& has_opposite_pair(code, bits)
    &&& match transitions {
        Some(t) => rising_transitions(code) == t as nat,
        None => true,
    }
}

/// The codes accepted after examining the first `n` candidates: each
/// candidate is canonicalized, filtered by `code_ok`, deduplicated, and the
/// enumeration stops once the result holds `max_codes` codes.
pub open spec fn generated_upto(
    bits: u32,
    transitions: Option<u32>,
    max_codes: Option<usize>,
    n: nat,
) -> Seq<u32>
    decreases n,
{
    if n == 0 {
        Seq::empty()
    } else {
        let prev = generated_upto(bits, transitions, max_codes, (n - 1) as nat);
        let capped = match max_codes {
            Some(m) => prev.len() >= m,
            None => false,
        };
        if capped {
            prev
        } else {
            let code = smallest_rotation(candidate((n - 1) as u32), bits);
            if code_ok(code, bits, transitions) && !prev.contains(code) {
                prev.push(code)
            } else {
                prev
            }
        }
    }
}

/// The full enumeration examines one candidate per word that ends in 1 and
/// starts (within the width) with 0: `2^(bits - 2)` of them.
pub open spec fn generated_codes(
    bits: u32,
    transitions: Option<u32>,
    max_codes: Option<usize>,
) -> Seq<u32> {
    generated_upto(bits, transitions, max_codes, (1u32 << ((bits - 2) as u32)) as nat)
}

/// Every accepted code is canonical, in range, satisfies the acceptance
/// test, appears once, and the cap is respected.
proof fn lemma_generated_upto_sound(
    bits: u32,
    transitions: Option<u32>,
    max_codes: Option<usize>,
    n: nat,
)
    requires
        2 <= bits < 32,
        n <= (1u32 << ((bits - 2) as u32)) as nat,
    ensures
        forall|k: int|
            0 <= k < generated_upto(bits, transitions, max_codes, n).len() ==> {
                let code = #[trigger] generated_upto(bits, transitions, max_codes, n)[k];
                code_ok(code, bits, transitions) && code == smallest_rotation(code, bits) && code
                    < (1u32 << bits)
            },
        generated_upto(bits, transitions, max_codes, n).no_duplicates(),
        match max_codes {
            Some(m) => generated_upto(bits, transitions, max_codes, n).len() <= m,
            None => true,
        },
    decreases n,
{
    if n > 0 {
        lemma_generated_upto_sound(bits, transitions, max_codes, (n - 1) as nat);
        let prev = generated_upto(bits, transitions, max_codes, (n - 1) as nat);
        let cur = generated_upto(bits, transitions, max_codes, n);
        let i = (n - 1) as u32;
        assert(candidate(i) < (1u32 << bits)) by (bit_vector)
            requires
                2u32 <= bits < 32u32,
                i < (1u32 << ((bits - 2) as u32)),
        ;
        let code = smallest_rotation(candidate(i), bits);
        lemma_smallest_rotation_le(candidate(i), bits);
        lemma_smallest_rotation_idempotent(candidate(i), bits);
        if cur != prev {
            assert(cur == prev.push(code));
            assert forall|k1: int, k2: int|
                0 <= k1 < k2 < cur.len() implies cur[k1] != cur[k2] by {
                if k2 == cur.len() - 1 {
                    assert(!prev.contains(cur[k2]));
                }
            }
            assert(cur.no_duplicates());
        }
    }
}

/// Once the result holds `max_codes` codes, examining further candidates
/// changes nothing.
proof fn lemma_generated_upto_saturates(
    bits: u32,
    transitions: Option<u32>,
    max_codes: Option<usize>,
    n1: nat,
    n2: nat,
)
    requires
        n1 <= n2,
        match max_codes {
            Some(m) => generated_upto(bits, transitions, max_codes, n1).len() >= m,
            None => false,
        },
    ensures
        generated_upto(bits, transitions, max_codes, n2) == generated_upto(
            bits,
            transitions,
            max_codes,
            n1,
        ),
    decreases n2,
{
    if n2 > n1 {
        lemma_generated_upto_saturates(bits, transitions, max_codes, n1, (n2 - 1) as nat);
    }
}

/// Linear membership test against the codes accepted so far.
fn contains_code(codes: &Vec<u32>, code: u32) -> (r: bool)
    ensures
        r == codes@.contains(code),
{
    let mut j: usize = 0;
    while j < codes.len()
        invariant
            j <= codes@.len(),
            forall|k: int| 0 <= k < j ==> codes@[k] != code,
        decreases codes@.len() - j,
    {
        if codes[j] == code {
            return true;
        }
        j = j + 1;
    }
    false
}

/// Generate unique codes based on a given number of bits and optional constraints.
///
/// Candidates are the words that end in 1 and start (within the width) with
/// 0; each is canonicalized to its smallest rotation and accepted iff it has
/// even parity, at least one pair of diametrically opposite filled segments,
/// the requested number of rising transitions (when one is requested), and
/// was not accepted before. Enumeration stops as soon as the result holds
/// `max_codes` codes.
pub fn generate_codes(bits: u32, transitions: Option<u32>, max_codes: Option<usize>) -> (codes:
    Vec<u32>)
    requires
        2 <= bits < 32,
        bits % 2 == 0,
    ensures
        codes@ == generated_codes(bits, transitions, max_codes),
        forall|k: int|
            0 <= k < codes@.len() ==> {
                &&& even_parity(#[trigger] codes@[k])
                &&& has_opposite_pair(codes@[k], bits)
                &&& codes@[k] == smallest_rotation(codes@[k], bits)
                &&& codes@[k] < (1u32 << bits)
                &&& match transitions {
                    Some(t) => rising_transitions(codes@[k]) == t as nat,
                    None => true,
                }
            },
        codes@.no_duplicates(),
        match max_codes {
            Some(m) => codes@.len() <= m,
            None => true,
        },
{
    let mut codes: Vec<u32> = Vec::new();
    let n: u32 = 1u32 << (bits - 2);
    if let Some(m) = max_codes {
        if m == 0 {
            proof {
                lemma_generated_upto_saturates(bits, transitions, max_codes, 0, n as nat);
                lemma_generated_upto_sound(bits, transitions, max_codes, n as nat);
            }
            return codes;
        }
    }
    let mut i: u32 = 0;
    while i < n
        invariant_except_break
            match max_codes {
                Some(m) => codes@.len() < m,
                None => true,
            },
        invariant
            2 <= bits < 32,
            bits % 2 == 0,
            n == 1u32 << ((bits - 2) as u32),
            i <= n,
            codes@ == generated_upto(bits, transitions, max_codes, i as nat),
        ensures
            codes@ == generated_codes(bits, transitions, max_codes),
        decreases n - i,
    {
        proof {
            assert((i << 1u32) + 1 < (1u32 << bits) && ((i << 1u32) + 1) as u32 == (i << 1u32)
                + 1) by (bit_vector)
                requires
                    2u32 <= bits < 32u32,
                    i < (1u32 << ((bits - 2) as u32)),
            ;
        }
        // Add 1 bit to the end of the enumeration index
        let cand: u32 = (i << 1) + 1;

        // Perform cyclic shift to minimize value
        let code = find_smallest_rotation(cand, bits);

        // Check which pairs of opposite segments are both 1
        let half_bits = bits >> 1;
        proof {
            assert(1u32 << half_bits >= 1u32 && half_bits == (bits / 2) as u32) by (bit_vector)
                requires
                    2u32 <= bits < 32u32,
                    half_bits == bits >> 1u32,
            ;
        }
        let half_mask: u32 = (1u32 << half_bits) - 1;
        let diff = (code & half_mask) & ((code & (half_mask << half_bits)) >> half_bits);

        // Find parity
        let parity = calc_parity(code);

        // Count number of transitions, where one is requested
        let transitions_ok = match transitions {
            Some(t) => count_bit_transitions(code) == t,
            None => true,
        };

        i = i + 1;
        if parity && diff > 0 && transitions_ok && !contains_code(&codes, code) {
            codes.push(code);
            if let Some(m) = max_codes {
                if codes.len() >= m {
                    proof {
                        lemma_generated_upto_saturates(
                            bits,
                            transitions,
                            max_codes,
                            i as nat,
                            n as nat,
                        );
                    }
                    break ;
                }
            }
        }
    }
    proof {
        lemma_generated_upto_sound(
            bits,
            transitions,
            max_codes,
            (1u32 << ((bits - 2) as u32)) as nat,
        );
    }
    codes
}

} // verus!
