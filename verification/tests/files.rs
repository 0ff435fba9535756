use compiler_core::files::{Files, ForeignFiles};

#[test]
fn test_basic() {
    let mut files = Files::default();

    let k = "src/Main.purs";
    let v = "module Main where\n\n";

    let id = files.insert(k, v);

    assert_eq!(files.id(k), Some(id));
    assert_eq!(files.path(id), k);
    assert_eq!(files.content(id), v);
}

#[test]
fn test_remove_files() {
    let mut files = Files::default();
    let content = "module Main where\n";
    let removed_id = files.insert("src/Main.purs", content);
    let retained_id = files.insert("src/Retained.purs", "module Retained where\n");

    assert_eq!(files.remove("src/Main.purs"), Some(removed_id));
    assert_eq!(files.id("src/Main.purs"), None);
    assert_eq!(files.path(retained_id), "src/Retained.purs");

    let replacement_id = files.insert("src/Main.purs", content);
    assert_ne!(replacement_id, removed_id);

    let retained_file_count = files.len();
    let mut previous_id = replacement_id;
    for number in 0..32 {
        let path = format!("src/Temporary-{number}.purs");
        let temporary_id = files.insert(path.as_str(), content);
        assert!(temporary_id > previous_id);
        assert_eq!(files.remove(&path), Some(temporary_id));
        previous_id = temporary_id;
    }
    assert_eq!(files.len(), retained_file_count);
}

#[test]
fn test_foreign_files() {
    let mut files = ForeignFiles::default();

    let path = "src/Main.js";
    let content = "export const life = 42;\n";
    let id = files.insert(path, content);

    assert_eq!(files.id(path), Some(id));
    assert_eq!(files.path(id), path);
    assert_eq!(files.content(id), content);

    let retained_path = "src/Retained.js";
    let retained_id = files.insert(retained_path, "export const retained = 1;");

    assert_eq!(files.remove(path), Some(id));
    assert_eq!(files.id(path), None);
    assert!(!files.contains(id));
    assert_eq!(files.path(retained_id), retained_path);

    let replacement_id = files.insert(path, content);
    assert_ne!(replacement_id, id);
    assert_eq!(files.remove(path), Some(replacement_id));

    let retained_file_count = files.len();
    let mut previous_id = replacement_id;
    for number in 0..32 {
        let path = format!("src/Temporary-{number}.js");
        let temporary_id = files.insert(path.as_str(), content);
        assert!(temporary_id > previous_id);
        assert_eq!(files.remove(&path), Some(temporary_id));
        previous_id = temporary_id;
    }
    assert_eq!(files.len(), retained_file_count);
}

#[test]
fn reinserting_a_path_keeps_its_identifier_and_replaces_content() {
    let mut files = Files::default();
    let first = files.insert("src/Main.purs", "module Main where\n");
    let second = files.insert("src/Main.purs", "module Main where\nx = 1\n");
    assert_eq!(first, second);
    assert_eq!(files.content(first), "module Main where\nx = 1\n");
    assert_eq!(files.len(), 1);
}

#[test]
fn identifiers_are_listed_in_increasing_order() {
    let mut files = Files::default();
    let a = files.insert("src/A.purs", "a");
    let b = files.insert("src/B.purs", "b");
    let c = files.insert("src/C.purs", "c");
    assert_eq!(files.remove("src/B.purs"), Some(b));
    assert_eq!(files.iter_id(), vec![a, c]);
    assert!(files.contains(a));
    assert!(!files.contains(b));
    assert_eq!(a.into_raw(), 0);
    assert_eq!(c.into_raw(), 2);
    assert_eq!(compiler_core::files::FileId::new(2), c);
    assert_eq!(files.remove("src/Missing.purs"), None);
}

#[test]
fn identifiers_are_not_handed_out_again_after_removal() {
    let mut files = Files::default();
    let a = files.insert("a.purs", "one");
    let b = files.insert("b.purs", "two");
    assert_eq!(files.remove("a.purs"), Some(a));
    assert_eq!(files.remove("b.purs"), Some(b));
    let c = files.insert("a.purs", "three");
    assert!(c.into_raw() > b.into_raw() && b.into_raw() > a.into_raw());
    assert_eq!(files.insert("a.purs", "four"), c);
    assert_eq!(files.content(c), "four");
}
