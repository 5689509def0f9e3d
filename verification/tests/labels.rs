use hancock_pattern::label::{
    get_label, is_other, label_precedes, ordered_labels, other_label, text_precedes, LABEL_COUNT,
};

fn strings(texts: &[&str]) -> Vec<String> {
    texts.iter().map(|t| t.to_string()).collect()
}

#[test]
fn label_encoding_of_the_first_indices() {
    assert_eq!(get_label(0), "a");
    assert_eq!(get_label(1), "b");
    assert_eq!(get_label(25), "z");
}

#[test]
fn label_encoding_with_two_letters() {
    assert_eq!(get_label(26), "aa");
    assert_eq!(get_label(27), "ab");
    assert_eq!(get_label(51), "az");
    assert_eq!(get_label(52), "ba");
    assert_eq!(get_label(77), "bz");
    assert_eq!(get_label(78), "ca");
}

#[test]
fn label_encoding_of_the_last_index() {
    assert_eq!(LABEL_COUNT, 702);
    assert_eq!(get_label(LABEL_COUNT - 1), "zz");
    assert_eq!(get_label(676), "za");
}

#[test]
fn labels_are_all_different() {
    let mut seen = std::collections::HashSet::new();
    for idx in 0..LABEL_COUNT {
        let label = get_label(idx);
        assert_ne!(label, "other");
        assert!(seen.insert(label));
    }
    assert_eq!(seen.len(), LABEL_COUNT);
}

#[test]
fn labels_follow_the_formula() {
    let letters: Vec<char> = "abcdefghijklmnopqrstuvwxyz".chars().collect();
    for idx in 0..LABEL_COUNT {
        let expected = if idx < 26 {
            letters[idx].to_string()
        } else {
            format!("{}{}", letters[idx / 26 - 1], letters[idx % 26])
        };
        assert_eq!(get_label(idx), expected);
    }
}

#[test]
fn other_label_is_the_reserved_word() {
    assert_eq!(other_label(), "other");
    assert!(is_other("other"));
    assert!(is_other(&other_label()));
    assert!(!is_other("a"));
    assert!(!is_other("othe"));
    assert!(!is_other("others"));
    assert!(!is_other(""));
}

#[test]
fn text_precedes_orders_as_strings() {
    assert!(text_precedes("a", "b"));
    assert!(!text_precedes("b", "a"));
    assert!(text_precedes("a", "aa"));
    assert!(!text_precedes("aa", "a"));
    assert!(text_precedes("az", "b"));
    assert!(text_precedes("", "a"));
    assert!(!text_precedes("a", "a"));
    assert!(!text_precedes("", ""));
    assert!(text_precedes("other", "z"));
}

#[test]
fn text_precedes_agrees_with_the_standard_order() {
    let samples = ["", "a", "aa", "ab", "b", "ba", "other", "z", "zz", "é", "日本", "A"];
    for a in samples {
        for b in samples {
            assert_eq!(text_precedes(a, b), a < b);
        }
    }
}

#[test]
fn reserved_label_is_listed_last() {
    assert!(label_precedes("a", "other"));
    assert!(label_precedes("z", "other"));
    assert!(label_precedes("zz", "other"));
    assert!(!label_precedes("other", "a"));
    assert!(!label_precedes("other", "zz"));
    assert!(!label_precedes("other", "other"));
}

#[test]
fn real_labels_are_listed_in_string_order() {
    assert!(label_precedes("a", "b"));
    assert!(label_precedes("a", "aa"));
    assert!(label_precedes("az", "b"));
    assert!(!label_precedes("b", "az"));
    assert!(!label_precedes("b", "b"));
}

#[test]
fn ordered_labels_lists_each_label_once() {
    let labels = strings(&["b", "other", "a", "b", "aa", "other", "a"]);
    assert_eq!(ordered_labels(&labels), strings(&["a", "aa", "b", "other"]));
}

#[test]
fn ordered_labels_of_nothing_is_empty() {
    assert_eq!(ordered_labels(&Vec::new()), Vec::<String>::new());
}

#[test]
fn ordered_labels_without_the_reserved_label() {
    let labels = strings(&["c", "b", "a", "c"]);
    assert_eq!(ordered_labels(&labels), strings(&["a", "b", "c"]));
}

#[test]
fn ordered_labels_of_only_the_reserved_label() {
    let labels = strings(&["other", "other"]);
    assert_eq!(ordered_labels(&labels), strings(&["other"]));
}

#[test]
fn ordered_labels_puts_two_letter_labels_between_letters() {
    let labels: Vec<String> = (0..60).map(get_label).collect();
    let ordered = ordered_labels(&labels);
    let mut expected = labels.clone();
    expected.sort();
    assert_eq!(ordered, expected);
    assert_eq!(ordered[0], "a");
    assert_eq!(ordered[1], "aa");
    assert_eq!(ordered[27], "b");
}
