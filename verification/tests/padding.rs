use pagepack::downloader::{asset_name, pad_width};
use pagepack::strutil::{dec_string, join_with, pad_string, prefix_before};

#[test]
fn width_of_empty_collection_is_one() {
    assert_eq!(pad_width(0), 1);
}

#[test]
fn width_of_single_digit_collections_is_one() {
    assert_eq!(pad_width(1), 1);
    assert_eq!(pad_width(9), 1);
}

#[test]
fn width_of_two_digit_collections_is_two() {
    assert_eq!(pad_width(10), 2);
    assert_eq!(pad_width(42), 2);
    assert_eq!(pad_width(99), 2);
}

#[test]
fn width_of_three_digit_collections_is_three() {
    assert_eq!(pad_width(100), 3);
}

#[test]
fn decimal_rendering() {
    assert_eq!(dec_string(0), "0");
    assert_eq!(dec_string(7), "7");
    assert_eq!(dec_string(10), "10");
    assert_eq!(dec_string(90217), "90217");
}

#[test]
fn zero_padding() {
    assert_eq!(pad_string(0, 1), "0");
    assert_eq!(pad_string(3, 4), "0003");
    assert_eq!(pad_string(12, 2), "12");
    assert_eq!(pad_string(12, 5), "00012");
    assert_eq!(pad_string(123, 2), "123");
}

#[test]
fn asset_names_carry_index_and_extension() {
    assert_eq!(asset_name(0, 1, "http://x/1.png"), "0.png");
    assert_eq!(asset_name(1, 1, "http://x/2.jpg"), "1.jpg");
    assert_eq!(asset_name(7, 3, "http://x/a/b/c.webp"), "007.webp");
    assert_eq!(asset_name(2, 2, "http://x/noext"), "02");
}

#[test]
fn padded_names_sort_as_indices() {
    let mut names: Vec<String> = Vec::new();
    for i in 0..12usize {
        names.push(asset_name(i, 2, "http://x/a.png"));
    }
    let mut sorted = names.clone();
    sorted.sort();
    assert_eq!(names, sorted);
    for i in 0..names.len() {
        for j in (i + 1)..names.len() {
            assert_ne!(names[i], names[j]);
        }
    }
}

#[test]
fn prefix_before_cuts_at_first_occurrence() {
    assert_eq!(prefix_before("a - b - c", " - "), "a");
    assert_eq!(prefix_before("no separator", " - "), "no separator");
    assert_eq!(prefix_before("", " - "), "");
    assert_eq!(prefix_before("x \u{2013} site", " \u{2013} "), "x");
}

#[test]
fn join_with_separator() {
    let parts: Vec<String> = vec!["a".to_string(), "b".to_string(), "c".to_string()];
    assert_eq!(join_with(&parts, "\n\n"), "a\n\nb\n\nc");
    let one: Vec<String> = vec!["solo".to_string()];
    assert_eq!(join_with(&one, ", "), "solo");
    let none: Vec<String> = Vec::new();
    assert_eq!(join_with(&none, ", "), "");
}
