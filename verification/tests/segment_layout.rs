use scomp_link::filled_segments;
use scomp_link::generate_codes;

#[test]
fn test_filled_segments_basic() {
    // 5 is 101 over 3 bits: segments 0 (bit 2) and 2 (bit 0) are filled.
    assert_eq!(filled_segments(5, 3), vec![0, 2]);
}

#[test]
fn test_filled_segments_empty_code() {
    // No set bits: no filled segments.
    assert!(filled_segments(0, 8).is_empty());
}

#[test]
fn test_filled_segments_full_code() {
    // All bits set: every segment is filled, in increasing order.
    assert_eq!(filled_segments(255, 8), (0..8).collect::<Vec<u32>>());
}

#[test]
fn test_filled_segments_count_and_order() {
    // One entry per set bit, indices strictly increasing and in range.
    for bits in [4u32, 6, 8, 12] {
        for code in 0..(1u32 << bits) {
            let segments = filled_segments(code, bits);
            assert_eq!(segments.len(), code.count_ones() as usize);
            for window in segments.windows(2) {
                assert!(window[0] < window[1]);
            }
            for &i in &segments {
                assert!(i < bits);
                assert!(code & (1 << (bits - 1 - i)) != 0);
            }
        }
    }
}

#[test]
fn test_filled_segments_of_generated_codes() {
    // Layout of every generated code names exactly its set bits.
    let bits = 8u32;
    for code in generate_codes(bits, None, None) {
        let segments = filled_segments(code, bits);
        assert_eq!(segments.len(), code.count_ones() as usize);
    }
}
