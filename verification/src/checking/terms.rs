//! The results of checking terms, and the expected fields of records.
use vstd::prelude::*;

use super::evidence::EvidenceVarId;
use super::tree::ExpressionId;
use super::types::{ForallBinder, RowField, TypeId};

verus! {

/// A checked expression together with its type.
#[derive(Debug, Clone, Copy, PartialEq, Eq, Structural)]
pub struct ElaboratedExpression {
    pub type_id: TypeId,
    pub expression: ExpressionId,
}

/// An application whose function is not yet anchored to an expression: the
/// implicit applications to make first, then the argument and result types.
pub struct UnanchoredApplication {
    pub implicit: Vec<ImplicitApplication>,
    pub argument: TypeId,
    pub result: TypeId,
}

pub enum ImplicitApplication {
    Type { argument: TypeId, result: TypeId },
    Evidence { evidence: EvidenceVarId, result: TypeId },
}

/// What the head of a function type allows next.
pub enum CallableAnalysis {
    Forall { binder: ForallBinder, body: TypeId },
    Constraint { constraint: TypeId, result: TypeId },
    Function { argument: TypeId, result: TypeId },
    NotCallable,
}

/// Whether a record is inferred or checked against known fields.
#[derive(Clone, Copy)]
pub enum RecordMode<'a> {
    Infer,
    Check { expected_fields: &'a [RowField] },
}

/// The type of the first field labelled `label`, if any.
pub open spec fn first_field_type(fields: Seq<RowField>, label: Seq<char>) -> Option<TypeId>
    decreases fields.len(),
{
    if fields.len() == 0 {
        None
    } else if fields[0].label@ == label {
        Some(fields[0].id)
    } else {
        first_field_type(fields.drop_first(), label)
    }
}

/// The expected type of the field labelled `label`: that of the first such
/// field.
pub fn find_expected_field(expected_fields: &[RowField], label: &str) -> (found: Option<TypeId>)
    ensures
        found == first_field_type(expected_fields@, label@),
{
    let wanted = label.to_owned();
    assert(expected_fields@.skip(0) =~= expected_fields@);
    let mut k: usize = 0;
    while k < expected_fields.len()
        invariant
            wanted@ == label@,
            k <= expected_fields@.len(),
            first_field_type(expected_fields@, label@) == first_field_type(expected_fields@.skip(k as int), label@),
        decreases expected_fields@.len() - k,
    {
        let ghost rest = expected_fields@.skip(k as int);
        assert(rest.drop_first() =~= expected_fields@.skip(k as int + 1));
        assert(rest[0] == expected_fields@[k as int]);
        if expected_fields[k].label == wanted {
            return Some(expected_fields[k].id);
        }
        k = k + 1;
    }
    assert(expected_fields@.skip(k as int) =~= Seq::<RowField>::empty());
    None
}

/// The expected type of a record field: none when inferring, otherwise that
/// of the first expected field labelled `label`.
pub fn expected_record_field(mode: RecordMode<'_>, label: &str) -> (found: Option<TypeId>)
    ensures
        found == match mode {
            RecordMode::Infer => None,
            RecordMode::Check { expected_fields } => first_field_type(expected_fields@, label@),
        },
{
    match mode {
        RecordMode::Infer => None,
        RecordMode::Check { expected_fields } => find_expected_field(expected_fields, label),
    }
}

/// The type found for a label is that of the first field with the label;
/// nothing is found exactly when no field has it.
pub proof fn law_first_field_found(fields: Seq<RowField>, label: Seq<char>)
    ensures
        first_field_type(fields, label) is None <==> forall|i: int| 0 <= i < fields.len() ==> (#[trigger] fields[i]).label@ != label,
        first_field_type(fields, label) is Some ==> exists|i: int|
            0 <= i < fields.len() && (#[trigger] fields[i]).label@ == label && first_field_type(fields, label) == Some(
                fields[i].id,
            ) && forall|j: int| 0 <= j < i ==> (#[trigger] fields[j]).label@ != label,
    decreases fields.len(),
{
    if fields.len() > 0 {
        let rest = fields.drop_first();
        law_first_field_found(rest, label);
        assert forall|i: int| 0 < i < fields.len() implies fields[i] == rest[i - 1] by {}
        if fields[0].label@ != label {
            if first_field_type(rest, label) is Some {
                let i = choose|i: int|
                    0 <= i < rest.len() && (#[trigger] rest[i]).label@ == label && first_field_type(rest, label) == Some(
                        rest[i].id,
                    ) && forall|j: int| 0 <= j < i ==> (#[trigger] rest[j]).label@ != label;
                assert(fields[i + 1] == rest[i]);
                assert forall|j: int| 0 <= j < i + 1 implies (#[trigger] fields[j]).label@ != label by {
                    if j > 0 {
                        assert(fields[j] == rest[j - 1]);
                    }
                }
            } else {
                assert forall|i: int| 0 <= i < fields.len() implies (#[trigger] fields[i]).label@ != label by {
                    if i > 0 {
                        assert(fields[i] == rest[i - 1]);
                    }
                }
            }
        }
    }
}

} // verus!
