use hancock_pattern::classify::{classify, Classification};
use hancock_pattern::error::ClassifyError;
use hancock_pattern::label::{get_label, ordered_labels, LABEL_COUNT};

fn strings(texts: &[&str]) -> Vec<String> {
    texts.iter().map(|t| t.to_string()).collect()
}

fn run(n_max: u32, base: u32, max_iter: usize) -> Classification {
    match classify(n_max, base, max_iter) {
        Ok(c) => c,
        Err(e) => panic!("classification failed: {:?}", e),
    }
}

fn failure(n_max: u32, base: u32, max_iter: usize) -> Option<ClassifyError> {
    match classify(n_max, base, max_iter) {
        Ok(_) => None,
        Err(e) => Some(e),
    }
}

#[test]
fn binary_cluster_shares_one_label() {
    let c = run(3, 2, 100);
    assert_eq!(c.labels, strings(&["a", "a", "a"]));
    assert_eq!(c.table.len(), 1);
    assert_eq!(c.table.cycles(), &vec![vec![1u32]]);
    assert_eq!(c.table.cycle_of("a"), Some(&vec![1u32]));
}

#[test]
fn zero_bound_labels_everything_other() {
    let c = run(10, 10, 0);
    assert_eq!(c.labels, vec!["other".to_string(); 10]);
    assert_eq!(c.table.len(), 0);
    assert!(c.table.cycles().is_empty());
    assert_eq!(c.table.cycle_of("a"), None);
}

#[test]
fn empty_range_gives_an_empty_classification() {
    let c = run(0, 10, 100);
    assert!(c.labels.is_empty());
    assert_eq!(c.table.len(), 0);
}

#[test]
fn base_ten_labels_in_order_of_first_appearance() {
    let c = run(10, 10, 100);
    assert_eq!(c.labels, strings(&["a", "b", "c", "b", "b", "c", "b", "a", "c", "a"]));
    assert_eq!(c.table.cycles(), &vec![vec![1u32], vec![169, 256], vec![81]]);
}

#[test]
fn base_three_finds_four_cycles() {
    let c = run(20, 3, 100);
    assert_eq!(
        c.labels,
        strings(&[
            "a", "b", "a", "b", "a", "b", "a", "c", "a", "b", "a", "b", "a", "c", "a", "c", "d",
            "b", "a", "c",
        ])
    );
    assert_eq!(c.table.cycles(), &vec![vec![1u32], vec![4], vec![16], vec![25]]);
}

#[test]
fn short_bound_mixes_cycles_and_other() {
    let c = run(12, 10, 3);
    assert_eq!(
        c.labels,
        strings(&[
            "a", "other", "b", "other", "other", "b", "other", "other", "b", "a", "other", "b",
        ])
    );
    assert_eq!(c.table.cycles(), &vec![vec![1u32], vec![81]]);
}

#[test]
fn new_cycle_gets_the_next_unused_label() {
    let c = run(255, 7, 100);
    let mut used = 0;
    for (i, label) in c.labels.iter().enumerate() {
        let seen_before = c.labels[..i].contains(label);
        if !seen_before {
            assert_eq!(*label, get_label(used));
            used += 1;
        }
    }
    assert_eq!(used, c.table.len());
    assert_eq!(used, 6);
}

#[test]
fn table_maps_both_ways() {
    let c = run(255, 10, 100);
    assert_eq!(c.table.len(), 3);
    for (i, cycle) in c.table.cycles().iter().enumerate() {
        let label = get_label(i);
        assert_eq!(c.table.position(cycle), Some(i));
        assert_eq!(c.table.label_of(cycle), Some(label.clone()));
        assert_eq!(c.table.cycle_of(&label), Some(cycle));
    }
    assert_eq!(c.table.label_of(&[256, 169]), None);
    assert_eq!(c.table.label_of(&[]), None);
    assert_eq!(c.table.position(&[2]), None);
    assert_eq!(c.table.cycle_of("d"), None);
    assert_eq!(c.table.cycle_of("other"), None);
    assert_eq!(c.table.cycle_of(""), None);
}

#[test]
fn every_label_belongs_to_the_cycle_of_its_integer() {
    let c = run(255, 10, 100);
    assert_eq!(c.labels.len(), 255);
    for (i, label) in c.labels.iter().enumerate() {
        let n = (i + 1) as u32;
        let detected = hancock_pattern::detect::detect_cycle(n, 10, 100);
        match detected {
            Some(cycle) => assert_eq!(c.table.label_of(&cycle), Some(label.clone())),
            None => assert_eq!(label, "other"),
        }
    }
}

#[test]
fn classifying_twice_gives_the_same_result() {
    let first = run(100, 16, 50);
    let second = run(100, 16, 50);
    assert_eq!(first.labels, second.labels);
    assert_eq!(first.table.cycles(), second.table.cycles());
}

#[test]
fn longer_range_extends_the_shorter_one() {
    let short = run(40, 10, 100);
    let long = run(90, 10, 100);
    assert_eq!(short.labels[..], long.labels[..40]);
    let kept = short.table.len();
    assert_eq!(short.table.cycles()[..], long.table.cycles()[..kept]);
}

#[test]
fn base_below_two_is_rejected() {
    assert_eq!(failure(10, 0, 100), Some(ClassifyError::InvalidBase));
    assert_eq!(failure(10, 1, 100), Some(ClassifyError::InvalidBase));
    assert_eq!(failure(0, 1, 0), Some(ClassifyError::InvalidBase));
}

#[test]
fn overflowing_trajectory_is_rejected() {
    assert_eq!(failure(600, 65536, 100), Some(ClassifyError::ValueOverflow));
    assert_eq!(failure(3, 65536, 6), Some(ClassifyError::ValueOverflow));
}

#[test]
fn overflow_is_not_reported_before_it_is_reached() {
    assert_eq!(failure(2, 65536, 100), None);
    assert_eq!(failure(3, 65536, 5), None);
}

#[test]
fn record_labels_by_first_appearance() {
    let c = Classification::new();
    let c = c.record(Some(vec![7])).ok().unwrap();
    let c = c.record(None).ok().unwrap();
    let c = c.record(Some(vec![3, 5])).ok().unwrap();
    let c = c.record(Some(vec![7])).ok().unwrap();
    assert_eq!(c.labels, strings(&["a", "other", "b", "a"]));
    assert_eq!(c.table.cycles(), &vec![vec![7u32], vec![3, 5]]);
}

#[test]
fn record_fails_when_the_labels_run_out() {
    let mut c = Classification::new();
    for i in 0..LABEL_COUNT {
        c = c.record(Some(vec![i as u32])).ok().unwrap();
    }
    assert_eq!(c.table.len(), LABEL_COUNT);
    assert_eq!(c.labels[LABEL_COUNT - 1], "zz");
    // Known cycles and integers without a cycle still get their labels.
    c = c.record(Some(vec![5])).ok().unwrap();
    c = c.record(None).ok().unwrap();
    assert_eq!(c.labels[LABEL_COUNT], "f");
    assert_eq!(c.labels[LABEL_COUNT + 1], "other");
    match c.record(Some(vec![LABEL_COUNT as u32])) {
        Err(e) => assert_eq!(e, ClassifyError::LabelsExhausted),
        Ok(_) => panic!("a label was given although none was left"),
    }
}

#[test]
fn distinct_labels_of_a_run_are_listed_with_other_last() {
    let c = run(12, 10, 3);
    assert_eq!(ordered_labels(&c.labels), strings(&["a", "b", "other"]));
    let full = run(255, 7, 100);
    assert_eq!(ordered_labels(&full.labels), strings(&["a", "b", "c", "d", "e", "f"]));
}
