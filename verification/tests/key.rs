use hancock_pattern::key::{cycle_string, decimal, join, value_string};

#[test]
fn decimal_writes_numbers_in_base_ten() {
    assert_eq!(decimal(0), "0");
    assert_eq!(decimal(7), "7");
    assert_eq!(decimal(10), "10");
    assert_eq!(decimal(1203), "1203");
    assert_eq!(decimal(u32::MAX), "4294967295");
}

#[test]
fn decimal_agrees_with_the_standard_numeral() {
    for n in (0..5000u32).chain([9999, 10000, 99999, 100000, 1 << 31, u32::MAX - 1]) {
        assert_eq!(decimal(n), n.to_string());
    }
}

#[test]
fn join_puts_the_separator_between_parts() {
    let parts = vec!["a".to_string(), "bc".to_string(), "".to_string(), "d".to_string()];
    assert_eq!(join(&parts, "-"), "a-bc--d");
    assert_eq!(join(&parts, ""), "abcd");
    assert_eq!(join(&parts, ", "), "a, bc, , d");
}

#[test]
fn join_of_one_part_or_none_has_no_separator() {
    assert_eq!(join(&vec!["a".to_string()], ", "), "a");
    assert_eq!(join(&Vec::new(), ", "), "");
}

#[test]
fn value_string_joins_the_digits_with_dots() {
    assert_eq!(value_string(169, 10), "1.6.9");
    assert_eq!(value_string(0, 10), "0");
    assert_eq!(value_string(255, 16), "15.15");
    assert_eq!(value_string(256, 16), "1.0.0");
    assert_eq!(value_string(5, 2), "1.0.1");
    assert_eq!(value_string(65535, 65536), "65535");
    assert_eq!(value_string(u32::MAX, 65536), "65535.65535");
}

#[test]
fn cycle_string_lists_the_values_in_order() {
    assert_eq!(cycle_string(&[169, 256], 10), "1.6.9, 2.5.6");
    assert_eq!(cycle_string(&[1], 2), "1");
    assert_eq!(cycle_string(&[81], 10), "8.1");
    assert_eq!(cycle_string(&[36, 100, 225], 16), "2.4, 6.4, 14.1");
    assert_eq!(cycle_string(&[], 10), "");
}

#[test]
fn cycle_string_agrees_with_formatting_by_hand() {
    let cycle = [0u32, 9, 10, 99, 1000, 123456, u32::MAX];
    for base in [2u32, 7, 10, 16, 1000] {
        let mut values = Vec::new();
        for x in cycle {
            let mut digits = Vec::new();
            let mut rest = x;
            loop {
                digits.push((rest % base).to_string());
                rest /= base;
                if rest == 0 {
                    break;
                }
            }
            digits.reverse();
            values.push(digits.join("."));
        }
        assert_eq!(cycle_string(&cycle, base), values.join(", "));
    }
}
