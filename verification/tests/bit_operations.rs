use scomp_link::bitwise_rotate_left;
use scomp_link::calc_parity;
use scomp_link::count_bit_transitions;
use scomp_link::find_smallest_rotation;

#[test]
fn test_bitwise_rotate_left_basic() {
    // Test 8-bit rotation: 10110000 (176) rotated left by 2 bits
    // Should become: 11000010 (194)
    let result = bitwise_rotate_left(176, 2, 8);
    assert_eq!(result, 194);
}

#[test]
fn test_bitwise_rotate_left_full_rotation() {
    // Test full rotation returns original value
    let val = 170; // 10101010
    let bits = 8;
    let result = bitwise_rotate_left(val, bits, bits);
    assert_eq!(result, val);
}

#[test]
fn test_bitwise_rotate_left_zero_rotation() {
    // Test zero rotation returns original value
    let val = 170;
    let result = bitwise_rotate_left(val, 0, 8);
    assert_eq!(result, val);
}

#[test]
fn test_bitwise_rotate_left_single_bit() {
    // 1 rotated left by 1 in 2 bits becomes 2
    let result = bitwise_rotate_left(1, 1, 2);
    assert_eq!(result, 2);
}

#[test]
fn test_find_smallest_rotation_basic() {
    // For 12-bit value 2816 (101100000000), smallest rotation should be smaller
    let result = find_smallest_rotation(2816, 12);
    assert!(result <= 2816);
}

#[test]
fn test_find_smallest_rotation_already_smallest() {
    // 1 is already the smallest rotation
    let result = find_smallest_rotation(1, 8);
    assert_eq!(result, 1);
}

#[test]
fn test_find_smallest_rotation_symmetric() {
    // For symmetric patterns like 15 (1111), rotation should return same value
    let result = find_smallest_rotation(15, 4);
    assert_eq!(result, 15);
}

#[test]
fn test_calc_parity_even() {
    // 3 has two 1 bits (11), so even parity
    assert!(calc_parity(3));
}

#[test]
fn test_calc_parity_odd() {
    // 7 has three 1 bits (111), so odd parity
    assert!(!calc_parity(7));
}

#[test]
fn test_count_bit_transitions_basic() {
    // 5 is 101, has 2 transitions (0→1, 1→0, 0→1)
    let result = count_bit_transitions(5);
    assert_eq!(result, 2);
}

#[test]
fn test_count_bit_transitions_no_transitions() {
    // 0 has no transitions
    let result = count_bit_transitions(0);
    assert_eq!(result, 0);
}

#[test]
fn test_count_bit_transitions_alternating() {
    // 10 is 1010, has 2 transitions
    let result = count_bit_transitions(10);
    assert_eq!(result, 2);
}

#[test]
fn test_rotation_round_trip_all_widths() {
    // Rotating left by `shift` and then by `(bits - shift) % bits` restores
    // the value, for every width up to 16 and every shift below the width.
    for bits in 2..=16u32 {
        let mask: u32 = (1u32 << bits) - 1;
        for val in (0..=mask).step_by(7) {
            for shift in 0..bits {
                let once = bitwise_rotate_left(val, shift, bits);
                let back = bitwise_rotate_left(once, (bits - shift) % bits, bits);
                assert_eq!(back, val);
            }
            assert_eq!(bitwise_rotate_left(val, 0, bits), val);
        }
    }
}

#[test]
fn test_smallest_rotation_le_and_idempotent() {
    // The canonical rotation never exceeds the value and canonicalizing
    // twice equals canonicalizing once.
    for bits in 2..=12u32 {
        let mask: u32 = (1u32 << bits) - 1;
        for val in 0..=mask {
            let canon = find_smallest_rotation(val, bits);
            assert!(canon <= val);
            assert_eq!(find_smallest_rotation(canon, bits), canon);
        }
    }
}

#[test]
fn test_parity_invariant_under_rotation() {
    // Rotation permutes bits, so parity never changes.
    for bits in 2..=12u32 {
        let mask: u32 = (1u32 << bits) - 1;
        for val in (0..=mask).step_by(3) {
            let p = calc_parity(val);
            for shift in 0..bits {
                assert_eq!(calc_parity(bitwise_rotate_left(val, shift, bits)), p);
            }
        }
    }
}

#[test]
fn test_count_bit_transitions_rising_only() {
    // Only 0→1 edges are counted: 6 is 110, one rising edge; 11 is 1011, two.
    assert_eq!(count_bit_transitions(6), 1);
    assert_eq!(count_bit_transitions(11), 2);
    assert_eq!(count_bit_transitions(1), 1);
    assert_eq!(count_bit_transitions(u32::MAX), 1);
}
