use hancock_pattern::classify::classify;
use hancock_pattern::label::ordered_labels;
use hancock_pattern::plot::{label_rows, row_colors, row_of};
use plotters::style::{Color, Palette, Palette99};

fn strings(texts: &[&str]) -> Vec<String> {
    texts.iter().map(|t| t.to_string()).collect()
}

#[test]
fn row_colors_start_with_the_palette() {
    assert_eq!(row_colors(3), vec![(230, 25, 75), (60, 180, 75), (255, 225, 25)]);
}

#[test]
fn row_colors_of_no_row_is_empty() {
    assert!(row_colors(0).is_empty());
}

#[test]
fn row_colors_repeat_after_the_palette_ends() {
    let colors = row_colors(43);
    assert_eq!(colors.len(), 43);
    assert_eq!(colors[20], (0, 0, 0));
    assert_eq!(colors[21], (230, 25, 75));
    assert_eq!(colors[42], colors[0]);
}

#[test]
fn row_colors_are_the_colors_that_the_palette_picks() {
    let colors = row_colors(60);
    for (i, color) in colors.iter().enumerate() {
        assert_eq!(*color, Palette99::pick(i).rgb());
    }
}

#[test]
fn row_of_finds_the_first_row_with_the_label() {
    let list = strings(&["a", "b", "other", "b"]);
    assert_eq!(row_of(&list, &"a".to_string()), Some(0));
    assert_eq!(row_of(&list, &"b".to_string()), Some(1));
    assert_eq!(row_of(&list, &"other".to_string()), Some(2));
    assert_eq!(row_of(&list, &"c".to_string()), None);
    assert_eq!(row_of(&Vec::new(), &"a".to_string()), None);
}

#[test]
fn label_rows_gives_each_integer_the_row_of_its_label() {
    let labels = strings(&["a", "other", "b", "other", "a"]);
    let list = strings(&["a", "b", "other"]);
    assert_eq!(label_rows(&labels, &list), Some(vec![0, 2, 1, 2, 0]));
}

#[test]
fn label_rows_fails_on_a_label_that_is_not_listed() {
    let labels = strings(&["a", "c"]);
    let list = strings(&["a", "b"]);
    assert_eq!(label_rows(&labels, &list), None);
    assert_eq!(label_rows(&labels, &Vec::new()), None);
}

#[test]
fn label_rows_of_no_label_is_empty() {
    assert_eq!(label_rows(&Vec::new(), &strings(&["a"])), Some(Vec::new()));
}

#[test]
fn rows_of_a_run_follow_the_ordered_labels() {
    let run = match classify(12, 10, 3) {
        Ok(run) => run,
        Err(e) => panic!("classification failed: {:?}", e),
    };
    let list = ordered_labels(&run.labels);
    assert_eq!(list, strings(&["a", "b", "other"]));
    assert_eq!(label_rows(&run.labels, &list), Some(vec![0, 2, 1, 2, 2, 1, 2, 2, 1, 0, 2, 1]));
}
