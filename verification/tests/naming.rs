use compiler_core::checking::evidence::EvidenceBinderId;
use compiler_core::corefn::model::Identifier;
use compiler_core::corefn::naming::{
    class_dictionary_name, constructor_fields, evidence_binder_name, fresh_identifier, generated_term_name,
};
use compiler_core::ids::TermItemId;

#[test]
fn dictionaries_are_named_after_their_class() {
    assert_eq!(class_dictionary_name("Show"), "Show$Dict");
    assert_eq!(class_dictionary_name(""), "$Dict");
}

#[test]
fn generated_names_carry_their_number() {
    assert_eq!(generated_term_name(TermItemId(0)), "$instance0");
    assert_eq!(generated_term_name(TermItemId(42)), "$instance42");
    assert_eq!(evidence_binder_name(EvidenceBinderId(7)), Identifier("$dict7".to_string()));
    assert_eq!(evidence_binder_name(EvidenceBinderId(1234567)), Identifier("$dict1234567".to_string()));
}

#[test]
fn constructor_fields_are_numbered_from_zero() {
    let fields = constructor_fields(3);
    assert_eq!(
        fields,
        vec![
            Identifier("value0".to_string()),
            Identifier("value1".to_string()),
            Identifier("value2".to_string()),
        ]
    );
    assert!(constructor_fields(0).is_empty());
    assert_eq!(constructor_fields(11)[10], Identifier("value10".to_string()));
}

#[test]
fn fresh_identifiers_count_up() {
    let mut generated = 0;
    assert_eq!(fresh_identifier(&mut generated, "case"), Identifier("$case0".to_string()));
    assert_eq!(fresh_identifier(&mut generated, "case"), Identifier("$case1".to_string()));
    assert_eq!(fresh_identifier(&mut generated, "let"), Identifier("$let2".to_string()));
    assert_eq!(generated, 3);
}
