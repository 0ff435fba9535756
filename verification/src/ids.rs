//! Identifiers of items, expressions and binders of a lowered source module.
use vstd::prelude::*;

use crate::files::FileId;

verus! {

/// A source expression of a lowered module.
#[derive(Debug, Clone, Copy, PartialEq, Eq, PartialOrd, Ord, Hash, Structural)]
pub struct ExpressionId(pub u32);

/// A source binder (pattern) of a lowered module.
#[derive(Debug, Clone, Copy, PartialEq, Eq, PartialOrd, Ord, Hash, Structural)]
pub struct BinderId(pub u32);

/// A group of `let` bindings sharing one name.
#[derive(Debug, Clone, Copy, PartialEq, Eq, PartialOrd, Ord, Hash, Structural)]
pub struct LetBindingNameGroupId(pub u32);

/// A record pun such as `{ x }`.
#[derive(Debug, Clone, Copy, PartialEq, Eq, PartialOrd, Ord, Hash, Structural)]
pub struct RecordPunId(pub u32);

/// A term-level item (value, constructor, class member, ...) of a module.
#[derive(Debug, Clone, Copy, PartialEq, Eq, PartialOrd, Ord, Hash, Structural)]
pub struct TermItemId(pub u32);

/// A type-level item (data type, class, synonym, ...) of a module.
#[derive(Debug, Clone, Copy, PartialEq, Eq, PartialOrd, Ord, Hash, Structural)]
pub struct TypeItemId(pub u32);

/// A term-level operator declaration of a module.
#[derive(Debug, Clone, Copy, PartialEq, Eq, PartialOrd, Ord, Hash, Structural)]
pub struct TermOperatorId(pub u32);

/// A statement of a `do` or `ado` block.
#[derive(Debug, Clone, Copy, PartialEq, Eq, PartialOrd, Ord, Hash, Structural)]
pub struct DoStatementId(pub u32);

/// A value equation or other equation-like declaration of a module.
#[derive(Debug, Clone, Copy, PartialEq, Eq, PartialOrd, Ord, Hash, Structural)]
pub struct EquationSourceId(pub u32);

/// What a term variable of a lowered module refers to.
#[derive(Debug, Clone, Copy, PartialEq, Eq, Hash, Structural)]
pub enum TermVariableResolution {
    Binder(BinderId),
    Let(LetBindingNameGroupId),
    RecordPun(RecordPunId),
    Reference(FileId, TermItemId),
}

/// How a string literal was written.
#[derive(Debug, Clone, Copy, PartialEq, Eq, PartialOrd, Ord, Hash, Structural)]
pub enum StringKind {
    String,
    RawString,
}

} // verus!
