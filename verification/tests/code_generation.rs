use scomp_link::calc_parity;
use scomp_link::count_bit_transitions;
use scomp_link::find_smallest_rotation;
use scomp_link::generate_codes;

#[test]
fn test_generate_codes_basic() {
    let codes = generate_codes(6, None, Some(5));
    assert!(!codes.is_empty());
    assert!(codes.len() <= 5);

    // All codes should have even parity
    for &code in &codes {
        assert!(calc_parity(code));
    }
}

#[test]
fn test_generate_codes_with_transitions() {
    let codes = generate_codes(8, Some(2), Some(3));

    // Check that all codes have exactly 2 transitions
    for &code in &codes {
        assert_eq!(count_bit_transitions(code), 2);
    }
}

#[test]
fn test_generate_codes_parity_constraint() {
    let codes = generate_codes(6, None, Some(10));

    // All generated codes should have even parity
    for &code in &codes {
        assert!(calc_parity(code), "Code {} should have even parity", code);
    }
}

#[test]
fn test_generate_codes_uniqueness() {
    let codes = generate_codes(8, None, Some(10));

    // Check for duplicates
    for i in 0..codes.len() {
        for j in (i + 1)..codes.len() {
            assert_ne!(codes[i], codes[j], "Found duplicate codes");
        }
    }
}

#[test]
fn test_full_code_generation_pipeline() {
    // Generate codes
    let codes = generate_codes(6, None, Some(3));

    // Verify all codes meet requirements
    for &code in &codes {
        // Even parity
        assert!(calc_parity(code));

        // Check opposite segments requirement
        let half_bits = 6 >> 1;
        let diff = (code & ((1 << half_bits) - 1))
            & ((code & (((1 << half_bits) - 1) << half_bits)) >> half_bits);
        assert!(diff > 0);

        // Should be minimal rotation
        let minimal = find_smallest_rotation(code, 6);
        assert_eq!(code, minimal);
    }
}

#[test]
fn test_generate_codes_six_bit_fixture() {
    // Regression fixture: the first three 6-bit codes, in discovery order.
    assert_eq!(generate_codes(6, None, Some(3)), vec![9, 15, 23]);
}

#[test]
fn test_generate_codes_eight_bit_fixture() {
    // Regression fixture: the first three 8-bit codes with two rising
    // transitions, in discovery order.
    assert_eq!(generate_codes(8, Some(2), Some(3)), vec![17, 23, 27]);
}

#[test]
fn test_generate_codes_all_properties() {
    // Every returned code is canonical, has even parity, has an opposite
    // pair, is in range, and respects a requested transition count.
    for bits in [6u32, 8, 10] {
        let codes = generate_codes(bits, None, None);
        assert!(!codes.is_empty());
        for &code in &codes {
            assert!(code < (1 << bits));
            assert!(calc_parity(code));
            assert_eq!(find_smallest_rotation(code, bits), code);
            let half_bits = bits >> 1;
            let diff = (code & ((1 << half_bits) - 1))
                & ((code & (((1 << half_bits) - 1) << half_bits)) >> half_bits);
            assert!(diff > 0);
        }
        let with_transitions = generate_codes(bits, Some(3), None);
        for &code in &with_transitions {
            assert_eq!(count_bit_transitions(code), 3);
        }
    }
}

#[test]
fn test_generate_codes_zero_cap() {
    // A cap of zero is already reached before the first candidate.
    assert!(generate_codes(8, None, Some(0)).is_empty());
}

#[test]
fn test_generate_codes_smallest_width() {
    // Width 2 admits no code: the only candidate, 01, canonicalizes to 1,
    // which has odd parity.
    assert!(generate_codes(2, None, None).is_empty());
}

#[test]
fn test_generate_codes_cap_is_prefix() {
    // Truncation keeps the first discovered codes, in order.
    let all = generate_codes(8, None, None);
    let capped = generate_codes(8, None, Some(4));
    assert_eq!(capped.len(), 4);
    assert_eq!(&all[..4], &capped[..]);
}
