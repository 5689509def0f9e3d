use hancock_pattern::rotation::{minimal_rotation, rotation_precedes};

#[test]
fn rotations_of_one_cycle_share_the_canonical_form() {
    assert_eq!(minimal_rotation(&[3, 1, 2]), vec![1, 2, 3]);
    assert_eq!(minimal_rotation(&[2, 3, 1]), vec![1, 2, 3]);
    assert_eq!(minimal_rotation(&[1, 2, 3]), vec![1, 2, 3]);
}

#[test]
fn canonical_form_of_a_single_value() {
    assert_eq!(minimal_rotation(&[5]), vec![5]);
    assert_eq!(minimal_rotation(&[0]), vec![0]);
}

#[test]
fn canonical_form_keeps_the_cyclic_order() {
    assert_eq!(minimal_rotation(&[3, 2, 1]), vec![1, 3, 2]);
    assert_eq!(minimal_rotation(&[256, 169]), vec![169, 256]);
    assert_eq!(minimal_rotation(&[1, 3, 2, 1, 1]), vec![1, 1, 1, 3, 2]);
}

#[test]
fn canonical_form_with_repeated_patterns() {
    assert_eq!(minimal_rotation(&[2, 1, 2, 1]), vec![1, 2, 1, 2]);
    assert_eq!(minimal_rotation(&[1, 2, 1, 2]), vec![1, 2, 1, 2]);
    assert_eq!(minimal_rotation(&[7, 7, 7]), vec![7, 7, 7]);
}

#[test]
fn canonical_form_decides_at_the_first_difference() {
    assert_eq!(minimal_rotation(&[2, 1, 9, 1, 8]), vec![1, 8, 2, 1, 9]);
    assert_eq!(minimal_rotation(&[u32::MAX, 0, u32::MAX, 1]), vec![0, u32::MAX, 1, u32::MAX]);
}

#[test]
fn canonicalizing_twice_changes_nothing() {
    for cycle in [vec![3u32, 1, 2], vec![9, 9, 1], vec![4, 3, 2, 1], vec![1, 2, 1, 2], vec![8]] {
        let once = minimal_rotation(&cycle);
        let twice = minimal_rotation(&once);
        assert_eq!(once, twice);
    }
}

#[test]
fn every_rotation_has_the_same_canonical_form() {
    let cycle = vec![5u32, 1, 4, 1, 3];
    let expected = minimal_rotation(&cycle);
    assert_eq!(expected, vec![1, 3, 5, 1, 4]);
    for k in 0..cycle.len() {
        let mut rotated = cycle[k..].to_vec();
        rotated.extend_from_slice(&cycle[..k]);
        assert_eq!(minimal_rotation(&rotated), expected);
    }
}

#[test]
fn rotation_precedes_compares_rotations() {
    let cycle = [3u32, 1, 2];
    assert!(rotation_precedes(&cycle, 1, 0));
    assert!(!rotation_precedes(&cycle, 0, 1));
    assert!(rotation_precedes(&cycle, 1, 2));
    assert!(rotation_precedes(&cycle, 2, 0));
    assert!(!rotation_precedes(&cycle, 0, 0));
}

#[test]
fn rotation_precedes_is_false_on_equal_rotations() {
    let cycle = [1u32, 2, 1, 2];
    assert!(!rotation_precedes(&cycle, 0, 2));
    assert!(!rotation_precedes(&cycle, 2, 0));
    assert!(rotation_precedes(&cycle, 0, 1));
}
