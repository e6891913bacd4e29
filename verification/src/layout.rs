//! Arc layout: which angular segments of a target's ring are filled for a
//! given code. Segment 0 corresponds to the most significant bit of the
//! `bits`-wide word, so the indices come out most-significant-bit first.

use vstd::prelude::*;
use crate::parity::popcount;

verus! {

/// True iff segment `i` of a `bits`-wide code is filled: the bit tested is
/// `bits - 1 - i`, so segment 0 is the most significant bit.
pub open spec fn segment_filled(code: u32, bits: u32, i: u32) -> bool {
    (1u32 << ((bits - 1 - i) as u32)) & code != 0
}

/// The filled segment indices among segments `0 .. n`, in increasing order.
pub open spec fn segments_upto(code: u32, bits: u32, n: u32) -> Seq<u32>
    decreases n,
{
    if n == 0 {
        Seq::empty()
    } else {
        let prev = segments_upto(code, bits, (n - 1) as u32);
        if segment_filled(code, bits, (n - 1) as u32) {
            prev.push((n - 1) as u32)
        } else {
            prev
        }
    }
}

/// The filled segment indices of a full `bits`-wide code.
pub open spec fn filled_segments_spec(code: u32, bits: u32) -> Seq<u32> {
    segments_upto(code, bits, bits)
}

/// Splitting off the lowest bit of a word splits its popcount.
proof fn lemma_popcount_step(v: u32)
    ensures
        popcount(v as nat) == popcount((v >> 1u32) as nat) + (v % 2) as nat,
{
    assert(v >> 1u32 == v / 2) by (bit_vector);
    if v == 0 {
        assert(popcount(0) == 0);
    }
}

/// The first `n` segments hold as many filled entries as the top `n` bits of
/// the code hold set bits.
proof fn lemma_segments_upto_len(code: u32, bits: u32, n: u32)
    requires
        n <= bits,
        1 <= bits < 32,
        code < (1u32 << bits),
    ensures
        segments_upto(code, bits, n).len() == popcount((code >> ((bits - n) as u32)) as nat),
    decreases n,
{
    if n == 0 {
        assert(code >> bits == 0u32) by (bit_vector)
            requires
                bits < 32u32,
                code < (1u32 << bits),
        ;
    } else {
        lemma_segments_upto_len(code, bits, (n - 1) as u32);
        let k: u32 = (bits - n) as u32;
        lemma_popcount_step(code >> k);
        assert(((code >> k) >> 1u32 == code >> ((k + 1) as u32)) && (((code >> k) % 2 == 1)
            == ((1u32 << k) & code != 0))) by (bit_vector)
            requires
                k < 32u32,
        ;
        assert(segment_filled(code, bits, (n - 1) as u32) == ((1u32 << k) & code != 0));
    }
}

/// The filled segments of the first `n` come in increasing order, lie below
/// `n`, and are exactly the filled ones.
proof fn lemma_segments_upto_props(code: u32, bits: u32, n: u32)
    requires
        n <= bits,
    ensures
        forall|k: int|
            0 <= k < segments_upto(code, bits, n).len() ==> {
                let i = #[trigger] segments_upto(code, bits, n)[k];
                i < n && segment_filled(code, bits, i)
            },
        forall|k1: int, k2: int|
            0 <= k1 < k2 < segments_upto(code, bits, n).len() ==> segments_upto(code, bits, n)[k1]
                < segments_upto(code, bits, n)[k2],
        forall|i: u32|
            i < n && #[trigger] segment_filled(code, bits, i) ==> segments_upto(
                code,
                bits,
                n,
            ).contains(i),
    decreases n,
{
    if n > 0 {
        lemma_segments_upto_props(code, bits, (n - 1) as u32);
        let prev = segments_upto(code, bits, (n - 1) as u32);
        let cur = segments_upto(code, bits, n);
        assert forall|i: u32| i < n && #[trigger] segment_filled(code, bits, i) implies cur.contains(
            i,
        ) by {
            if i < n - 1 {
                assert(prev.contains(i));
                let k = choose|k: int| 0 <= k < prev.len() && prev[k] == i;
                assert(cur[k] == i);
            } else {
                assert(cur[cur.len() - 1] == i);
            }
        }
    }
}

/// The ordered filled segment indices of `code`: one entry per set bit, in
/// increasing segment order (most significant bit first).
pub fn filled_segments(code: u32, bits: u32) -> (segments: Vec<u32>)
    requires
        1 <= bits < 32,
        code < (1u32 << bits),
    ensures
        segments@ == filled_segments_spec(code, bits),
        segments@.len() == popcount(code as nat),
        forall|k: int|
            0 <= k < segments@.len() ==> #[trigger] segments@[k] < bits && segment_filled(
                code,
                bits,
                segments@[k],
            ),
        forall|k1: int, k2: int|
            0 <= k1 < k2 < segments@.len() ==> segments@[k1] < segments@[k2],
        forall|i: u32|
            i < bits && #[trigger] segment_filled(code, bits, i) ==> segments@.contains(i),
{
    let mut segments: Vec<u32> = Vec::new();
    let mut i: u32 = 0;
    while i < bits
        invariant
            1 <= bits < 32,
            i <= bits,
            segments@ == segments_upto(code, bits, i),
        decreases bits - i,
    {
        if (1u32 << (bits - 1 - i)) & code != 0 {
            segments.push(i);
        }
        i = i + 1;
    }
    proof {
        lemma_segments_upto_len(code, bits, bits);
        assert(code >> 0u32 == code) by (bit_vector);
        lemma_segments_upto_props(code, bits, bits);
    }
    segments
}

} // verus!
