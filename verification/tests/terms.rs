use compiler_core::checking::derive::{Mappings, TraversalParameter, Variance};
use compiler_core::checking::terms::{expected_record_field, find_expected_field, ElaboratedExpression, RecordMode};
use compiler_core::checking::tree::pretty::character_literal;
use compiler_core::checking::tree::ExpressionId;
use compiler_core::checking::types::{RowField, TypeId};

fn field(label: &str, id: u32) -> RowField {
    RowField { label: label.to_string(), id: TypeId(id) }
}

fn elaborated(id: u32) -> ElaboratedExpression {
    ElaboratedExpression { type_id: TypeId(id), expression: ExpressionId(id) }
}

#[test]
fn character_literals_escape_special_characters() {
    assert_eq!(character_literal('\n'), "'\\n'");
    assert_eq!(character_literal('\r'), "'\\r'");
    assert_eq!(character_literal('\t'), "'\\t'");
    assert_eq!(character_literal('\\'), "'\\\\'");
    assert_eq!(character_literal('\''), "'\\''");
    assert_eq!(character_literal('\0'), "'\\0'");
}

#[test]
fn character_literals_write_control_characters_in_hexadecimal() {
    assert_eq!(character_literal('\u{7}'), "'\\x07'");
    assert_eq!(character_literal('\u{1b}'), "'\\x1b'");
    assert_eq!(character_literal('\u{7f}'), "'\\x7f'");
    assert_eq!(character_literal('\u{85}'), "'\\x85'");
}

#[test]
fn character_literals_keep_other_characters() {
    assert_eq!(character_literal('a'), "'a'");
    assert_eq!(character_literal(' '), "' '");
    assert_eq!(character_literal('"'), "'\"'");
    assert_eq!(character_literal('λ'), "'λ'");
    assert_eq!(character_literal('\u{a0}'), "'\u{a0}'");
}

#[test]
fn variance_flips_and_flips_back() {
    assert_eq!(Variance::Covariant.flip(), Variance::Contravariant);
    assert_eq!(Variance::Contravariant.flip(), Variance::Covariant);
    assert_eq!(Variance::Covariant.flip().flip(), Variance::Covariant);
}

#[test]
fn mappings_give_the_function_for_each_parameter() {
    let functor = Mappings::Functor(elaborated(1));
    assert_eq!(functor.mapping_for(TraversalParameter::First), Some(elaborated(1)));
    assert_eq!(functor.mapping_for(TraversalParameter::Second), None);
    let bifunctor = Mappings::Bifunctor { first: elaborated(2), second: elaborated(3) };
    assert_eq!(bifunctor.mapping_for(TraversalParameter::First), Some(elaborated(2)));
    assert_eq!(bifunctor.mapping_for(TraversalParameter::Second), Some(elaborated(3)));
}

#[test]
fn expected_fields_are_found_by_label() {
    let fields = [field("a", 1), field("b", 2), field("a", 3)];
    assert_eq!(find_expected_field(&fields, "a"), Some(TypeId(1)));
    assert_eq!(find_expected_field(&fields, "b"), Some(TypeId(2)));
    assert_eq!(find_expected_field(&fields, "c"), None);
    assert_eq!(find_expected_field(&[], "a"), None);
}

#[test]
fn inferred_records_expect_no_fields() {
    let fields = [field("x", 7)];
    assert_eq!(expected_record_field(RecordMode::Infer, "x"), None);
    assert_eq!(expected_record_field(RecordMode::Check { expected_fields: &fields }, "x"), Some(TypeId(7)));
    assert_eq!(expected_record_field(RecordMode::Check { expected_fields: &fields }, "y"), None);
}
