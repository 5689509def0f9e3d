use std::collections::HashMap;

use hancock_pattern::classify::classify;
use hancock_pattern::detect::try_detect_cycle;
use hancock_pattern::digits::{sum_digits, to_base_digits};
use hancock_pattern::label::get_label;
use hancock_pattern::rotation::minimal_rotation;

fn naive_digits(mut n: u32, base: u32) -> Vec<u32> {
    if n == 0 {
        return vec![0];
    }
    let mut digits = Vec::new();
    while n > 0 {
        digits.push(n % base);
        n /= base;
    }
    digits.reverse();
    digits
}

fn naive_least_rotation(cycle: &[u32]) -> Vec<u32> {
    let mut rotations = Vec::new();
    for i in 0..cycle.len() {
        let mut rot = cycle[i..].to_vec();
        rot.extend_from_slice(&cycle[..i]);
        rotations.push(rot);
    }
    rotations.into_iter().min().unwrap()
}

/// `None` stands for a value beyond 32 bits.
fn naive_detect(n: u32, base: u32, max_iter: usize) -> Option<Option<Vec<u32>>> {
    let mut history: Vec<u64> = Vec::new();
    let mut x = n as u64;
    for _ in 0..max_iter {
        let s: u64 = naive_digits(x as u32, base).iter().map(|d| *d as u64).sum();
        x = s * s;
        if x > u32::MAX as u64 {
            return None;
        }
        if let Some(idx) = history.iter().position(|&v| v == x) {
            let cycle: Vec<u32> = history[idx..].iter().map(|v| *v as u32).collect();
            return Some(Some(naive_least_rotation(&cycle)));
        }
        history.push(x);
    }
    Some(None)
}

#[test]
fn digits_agree_with_repeated_division() {
    for base in [2u32, 3, 5, 10, 16, 60, 255, 256, 65536, u32::MAX] {
        for n in (0..2000u32).chain([65535, 65536, 1 << 24, u32::MAX - 1, u32::MAX]) {
            let digits = naive_digits(n, base);
            assert_eq!(to_base_digits(n, base), digits);
            let total: u64 = digits.iter().map(|d| *d as u64).sum();
            assert_eq!(sum_digits(n, base) as u64, if n == 0 { 0 } else { total });
        }
    }
}

#[test]
fn least_rotation_agrees_with_the_minimum_of_all_rotations() {
    // All cycles over {0, 1, 2} of length up to 6.
    for len in 1..=6u32 {
        for code in 0..3u32.pow(len) {
            let mut cycle = Vec::new();
            let mut rest = code;
            for _ in 0..len {
                cycle.push(rest % 3);
                rest /= 3;
            }
            assert_eq!(minimal_rotation(&cycle), naive_least_rotation(&cycle));
        }
    }
}

#[test]
fn detection_agrees_with_a_direct_search() {
    for base in [2u32, 3, 7, 10, 12, 16, 100, 1000, 2048, 5000, 65536] {
        for max_iter in [0usize, 1, 2, 3, 5, 10, 100] {
            for n in (0..300u32).chain([4095, 65535, 1_000_000, u32::MAX]) {
                let expected = naive_detect(n, base, max_iter);
                let got = try_detect_cycle(n, base, max_iter).ok();
                assert_eq!(got, expected, "n = {}, base = {}, bound = {}", n, base, max_iter);
            }
        }
    }
}

#[test]
fn classification_agrees_with_a_direct_scan() {
    for base in 2..=40u32 {
        let n_max = 400u32;
        let run = match classify(n_max, base, 100) {
            Ok(run) => run,
            Err(e) => panic!("classification failed in base {}: {:?}", base, e),
        };
        let mut cycle_to_label: HashMap<Vec<u32>, String> = HashMap::new();
        let mut label_to_cycle: HashMap<String, Vec<u32>> = HashMap::new();
        let mut expected = Vec::new();
        for n in 1..=n_max {
            let label = match naive_detect(n, base, 100).unwrap() {
                Some(cycle) => {
                    if !cycle_to_label.contains_key(&cycle) {
                        let label = get_label(cycle_to_label.len());
                        cycle_to_label.insert(cycle.clone(), label.clone());
                        label_to_cycle.insert(label, cycle.clone());
                    }
                    cycle_to_label[&cycle].clone()
                },
                None => "other".to_string(),
            };
            expected.push(label);
        }
        assert_eq!(run.labels, expected);
        assert_eq!(run.table.len(), cycle_to_label.len());
        for (cycle, label) in cycle_to_label.iter() {
            assert_eq!(run.table.label_of(cycle), Some(label.clone()));
        }
        for (label, cycle) in label_to_cycle.iter() {
            assert_eq!(run.table.cycle_of(label), Some(cycle));
        }
    }
}
