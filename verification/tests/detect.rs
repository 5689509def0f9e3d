use hancock_pattern::detect::{detect_cycle, first_position, try_detect_cycle};
use hancock_pattern::error::ClassifyError;

#[test]
fn fixed_point_is_a_cycle_of_length_one() {
    assert_eq!(detect_cycle(1, 10, 100), Some(vec![1]));
    assert_eq!(try_detect_cycle(1, 10, 100), Ok(Some(vec![1])));
}

#[test]
fn fixed_point_needs_two_steps_to_show() {
    assert_eq!(detect_cycle(1, 10, 0), None);
    assert_eq!(detect_cycle(1, 10, 1), None);
    assert_eq!(detect_cycle(1, 10, 2), Some(vec![1]));
}

#[test]
fn zero_is_a_fixed_point() {
    assert_eq!(detect_cycle(0, 10, 100), Some(vec![0]));
}

#[test]
fn trajectories_in_base_ten() {
    assert_eq!(detect_cycle(2, 10, 100), Some(vec![169, 256]));
    assert_eq!(detect_cycle(7, 10, 100), Some(vec![169, 256]));
    assert_eq!(detect_cycle(3, 10, 100), Some(vec![81]));
    assert_eq!(detect_cycle(9, 10, 100), Some(vec![81]));
    assert_eq!(detect_cycle(255, 10, 100), Some(vec![81]));
}

#[test]
fn cycle_entered_at_its_larger_value_is_rotated() {
    // 79 -> 256 -> 169 -> 256: the cycle is met as [256, 169].
    assert_eq!(detect_cycle(79, 10, 100), Some(vec![169, 256]));
}

#[test]
fn starting_value_is_not_part_of_the_history() {
    // 81 -> 81: the start is only matched once the map has produced it twice.
    assert_eq!(detect_cycle(81, 10, 1), None);
    assert_eq!(detect_cycle(81, 10, 2), Some(vec![81]));
}

#[test]
fn bound_decides_whether_the_cycle_is_seen() {
    // 2 -> 4 -> 16 -> 49 -> 169 -> 256 -> 169
    assert_eq!(detect_cycle(2, 10, 4), None);
    assert_eq!(detect_cycle(2, 10, 5), None);
    assert_eq!(detect_cycle(2, 10, 6), Some(vec![169, 256]));
    assert_eq!(detect_cycle(255, 10, 2), None);
}

#[test]
fn binary_trajectories_reach_one() {
    for n in 1..=3 {
        assert_eq!(detect_cycle(n, 2, 100), Some(vec![1]));
    }
}

#[test]
fn try_detect_cycle_rejects_a_base_below_two() {
    assert_eq!(try_detect_cycle(5, 0, 100), Err(ClassifyError::InvalidBase));
    assert_eq!(try_detect_cycle(5, 1, 100), Err(ClassifyError::InvalidBase));
    assert_eq!(try_detect_cycle(5, 1, 0), Err(ClassifyError::InvalidBase));
}

#[test]
fn try_detect_cycle_reports_overflow() {
    assert_eq!(try_detect_cycle(u32::MAX, 65536, 1), Err(ClassifyError::ValueOverflow));
    assert_eq!(try_detect_cycle(511, 65536, 100), Err(ClassifyError::ValueOverflow));
    assert_eq!(try_detect_cycle(3, 65536, 100), Err(ClassifyError::ValueOverflow));
}

#[test]
fn try_detect_cycle_ignores_overflow_beyond_the_bound() {
    assert_eq!(try_detect_cycle(u32::MAX, 65536, 0), Ok(None));
    // 3 -> 9 -> 81 -> 6561 -> 43046721 -> 3109289121 fit; the next square does not.
    assert_eq!(try_detect_cycle(3, 65536, 5), Ok(None));
    assert_eq!(try_detect_cycle(3, 65536, 6), Err(ClassifyError::ValueOverflow));
}

#[test]
fn try_detect_cycle_in_the_largest_base() {
    assert_eq!(try_detect_cycle(u32::MAX, u32::MAX, 100), Ok(Some(vec![1])));
}

#[test]
fn first_position_finds_the_earliest_occurrence() {
    let values = vec![4u32, 16, 49, 16];
    assert_eq!(first_position(&values, 16), Some(1));
    assert_eq!(first_position(&values, 4), Some(0));
    assert_eq!(first_position(&values, 5), None);
    assert_eq!(first_position(&Vec::new(), 5), None);
}
