use protox::descriptor::{FieldLabel, FieldType};
use protox::naming::{make_absolute_name, make_name, parse_namespace, rfind_dot};
use protox::pass::{compare_paths, contains_i32, find_location, index_to_i32, split_name};
use protox::descriptor::Location;
use protox::span::{make_span, normalize_span, SourceSpan};
use protox::names::{DuplicateNameError, NameLocation};

#[test]
fn make_name_joins_with_a_dot() {
    assert_eq!(make_name("", "Foo"), "Foo");
    assert_eq!(make_name("a.b", "Foo"), "a.b.Foo");
    assert_eq!(make_name("a", ""), "a.");
}

#[test]
fn make_absolute_name_adds_a_leading_dot() {
    assert_eq!(make_absolute_name("", "Foo"), ".Foo");
    assert_eq!(make_absolute_name("a.b", "Foo"), ".a.b.Foo");
}

#[test]
fn parse_namespace_drops_the_last_component() {
    assert_eq!(parse_namespace("a.b.c"), "a.b");
    assert_eq!(parse_namespace("a"), "");
    assert_eq!(parse_namespace(""), "");
    assert_eq!(parse_namespace("a."), "a");
    assert_eq!(parse_namespace(&make_name("x.y", "z")), "x.y");
}

#[test]
fn rfind_dot_finds_the_last_dot() {
    assert_eq!(rfind_dot("a.b.c"), Some(3));
    assert_eq!(rfind_dot("abc"), None);
    assert_eq!(rfind_dot("é.x"), Some(1));
}

#[test]
fn split_name_splits_on_every_dot() {
    assert_eq!(split_name("a.b.c"), vec!["a", "b", "c"]);
    assert_eq!(split_name("a"), vec!["a"]);
    assert_eq!(split_name("a..b"), vec!["a", "", "b"]);
    assert_eq!(split_name(".a"), vec!["", "a"]);
}

#[test]
fn normalize_span_expands_three_elements() {
    assert_eq!(normalize_span(&[1, 2, 5]), Some([1, 2, 1, 5]));
    assert_eq!(normalize_span(&[1, 2, 3, 4]), Some([1, 2, 3, 4]));
    assert_eq!(normalize_span(&[1, 2]), None);
    assert_eq!(normalize_span(&[1, 2, 3, 4, 5]), None);
}

#[test]
fn make_span_resolves_lines_and_columns() {
    let text = "ab\ncde\nf";
    assert_eq!(make_span([0, 0, 0, 2], Some(text)), Some(SourceSpan::new(0, 2)));
    assert_eq!(make_span([1, 1, 2, 1], Some(text)), Some(SourceSpan::new(4, 4)));
    assert_eq!(make_span([1, 1, 2, 1], None), None);
    assert_eq!(make_span([3, 0, 3, 1], Some(text)), None);
    assert_eq!(make_span([1, 2, 1, 1], Some(text)), None);
    assert_eq!(make_span([-1, 0, 0, 1], Some(text)), None);
}

#[test]
fn make_span_counts_bytes() {
    let text = "é\nx";
    assert_eq!(make_span([1, 0, 1, 1], Some(text)), Some(SourceSpan::new(3, 1)));
}

#[test]
fn compare_paths_orders_lexicographically() {
    assert_eq!(compare_paths(&[4, 0, 1], &[4, 0, 1]), 0);
    assert_eq!(compare_paths(&[4, 0], &[4, 0, 1]), -1);
    assert_eq!(compare_paths(&[4, 1], &[4, 0, 1]), 1);
    assert_eq!(compare_paths(&[], &[]), 0);
}

#[test]
fn find_location_searches_sorted_paths() {
    let locs: Vec<Location> = vec![vec![2], vec![4, 0, 1], vec![4, 1, 1], vec![5, 0, 1]]
        .into_iter()
        .map(|path| Location { path, span: vec![0, 0, 1] })
        .collect();
    assert_eq!(find_location(&locs, &[4, 1, 1]), Some(2));
    assert_eq!(find_location(&locs, &[2]), Some(0));
    assert_eq!(find_location(&locs, &[5, 0, 1]), Some(3));
    assert_eq!(find_location(&locs, &[4, 2, 1]), None);
    assert_eq!(find_location(&[], &[1]), None);
}

#[test]
fn index_and_membership_helpers() {
    assert_eq!(index_to_i32(7), 7);
    assert!(contains_i32(&vec![1, 3], 3));
    assert!(!contains_i32(&vec![1, 3], 2));
}

#[test]
fn wire_numbers_map_to_types_and_labels() {
    assert_eq!(FieldType::from_i32(1), Some(FieldType::Double));
    assert_eq!(FieldType::from_i32(9), Some(FieldType::Str));
    assert_eq!(FieldType::from_i32(18), Some(FieldType::Sint64));
    assert_eq!(FieldType::from_i32(0), None);
    assert_eq!(FieldType::from_i32(19), None);
    assert_eq!(FieldLabel::from_i32(3), Some(FieldLabel::Repeated));
    assert_eq!(FieldLabel::from_i32(4), None);
}

#[test]
fn labels_of_a_single_located_definition() {
    let err = DuplicateNameError {
        name: "X".to_string(),
        first: NameLocation::Import("b.proto".to_string()),
        second: NameLocation::Root(SourceSpan::new(4, 1)),
    };
    assert_eq!(err.labels(), Some(vec![("defined here".to_string(), SourceSpan::new(4, 1))]));
    let err = DuplicateNameError {
        name: "X".to_string(),
        first: NameLocation::Root(SourceSpan::new(2, 1)),
        second: NameLocation::Unknown,
    };
    assert_eq!(err.labels(), Some(vec![("defined here".to_string(), SourceSpan::new(2, 1))]));
    assert_eq!(err.message(), "name 'X' is defined twice");
}
