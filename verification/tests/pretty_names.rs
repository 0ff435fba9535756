use compiler_core::checking::pretty_names::{push_decimal, try_next_suffix, PrettyNames};
use compiler_core::checking::types::Name;
use compiler_core::files::FileId;

fn smol_str(text: &str) -> String {
    text.to_owned()
}

#[test]
fn allocate_display_name_skips_reserved_suffixes() {
    let mut names = PrettyNames::new();

    assert_eq!(names.allocate_display_name(smol_str("t")), smol_str("t"));
    assert_eq!(names.allocate_display_name(smol_str("t1")), smol_str("t1"));
    assert_eq!(names.allocate_display_name(smol_str("t3")), smol_str("t3"));
    assert_eq!(names.allocate_display_name(smol_str("t2")), smol_str("t2"));
    assert_eq!(names.allocate_display_name(smol_str("t")), smol_str("t4"));
}

#[test]
fn allocate_display_name_checks_actual_candidates() {
    let mut names = PrettyNames::new();

    assert_eq!(names.allocate_display_name(smol_str("t01")), smol_str("t01"));
    assert_eq!(names.allocate_display_name(smol_str("t")), smol_str("t"));
    assert_eq!(names.allocate_display_name(smol_str("t")), smol_str("t1"));
    assert_eq!(names.allocate_display_name(smol_str("t0")), smol_str("t0"));
    assert_eq!(names.allocate_display_name(smol_str("t0")), smol_str("t02"));
}

#[test]
fn allocate_display_name_allows_max_suffix_candidate() {
    let mut names = PrettyNames::new();
    names.set_next_suffix("t", u32::MAX);

    assert_eq!(names.allocate_display_name(smol_str("t")), smol_str("t4294967295"));
}

#[test]
fn display_names_are_stable_and_use_the_default_base() {
    let file = FileId::new(0);
    let first = Name { file, unique: 0 };
    let second = Name { file, unique: 1 };
    let third = Name { file, unique: 2 };
    let mut names = PrettyNames::new();
    assert_eq!(names.display_name(None, first), "t");
    assert_eq!(names.display_name(None, second), "t1");
    assert_eq!(names.display_name(None, first), "t");
    assert_eq!(names.display_name(Some("a"), third), "a");
    names.set_default_name("k");
    let fourth = Name { file, unique: 3 };
    assert_eq!(names.display_name(None, fourth), "k");
    names.reset();
    assert_eq!(names.display_name(None, second), "k");
}

#[test]
fn assigned_names_are_reserved() {
    let file = FileId::new(0);
    let mut names = PrettyNames::new();
    names.assign_display_name(Name { file, unique: 7 }, "t".to_owned());
    assert_eq!(names.allocate_display_name("t".to_owned()), "t1");
    assert_eq!(names.display_name(None, Name { file, unique: 7 }), "t");
}

#[test]
fn decimal_suffixes() {
    let mut text = String::from("t");
    push_decimal(&mut text, 0);
    assert_eq!(text, "t0");
    let mut text = String::new();
    push_decimal(&mut text, 4294967295);
    assert_eq!(text, "4294967295");
    assert_eq!(try_next_suffix(1), Some(2));
    assert_eq!(try_next_suffix(u32::MAX), None);
}

#[test]
fn a_sequence_of_allocations_gives_distinct_names() {
    let mut names = PrettyNames::new();
    let first = names.allocate_display_name(smol_str("t"));
    let second = names.allocate_display_name(smol_str("t"));
    let third = names.allocate_display_name(smol_str("t1"));
    let fourth = names.allocate_display_name(smol_str("a"));
    let fifth = names.allocate_display_name(smol_str("t"));
    assert_eq!(
        vec![first, second, third, fourth, fifth],
        vec!["t".to_string(), "t1".to_string(), "t11".to_string(), "a".to_string(), "t2".to_string()]
    );
}
