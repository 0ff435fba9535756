//! Checked Core semantic trees produced by source checking rules, with the
//! tables that link source expressions, binders and terms to their checked
//! nodes.
use rustc_hash::FxHashMap;
use vstd::prelude::*;

use super::evidence::{EvidenceBinderId, EvidenceVarId};
use super::types::TypeId;
use crate::files::FileId;
use crate::hashed::{map_get, map_insert};
use crate::ids::{BinderId, ExpressionId, StringKind, TermItemId, TermVariableResolution};

verus! {

/// A checked expression: its position among the checked expressions.
#[derive(Debug, Clone, Copy, PartialEq, Eq, PartialOrd, Ord, Hash, Structural)]
pub struct CheckedExpressionId(pub u32);

/// A checked binder: its position among the checked binders.
#[derive(Debug, Clone, Copy, PartialEq, Eq, PartialOrd, Ord, Hash, Structural)]
pub struct CheckedBinderId(pub u32);

#[derive(Debug, Clone, PartialEq, Eq)]
pub struct CheckedExpression {
    pub type_id: TypeId,
    pub kind: CheckedExpressionKind,
}

#[derive(Debug, Clone, PartialEq, Eq)]
pub enum CheckedExpressionKind {
    Variable { resolution: TermVariableResolution },
    Constructor { file_id: FileId, item_id: TermItemId },
    Literal { literal: CheckedLiteral },
    Case { scrutinees: Vec<CheckedExpressionId>, alternatives: Vec<CheckedCaseAlternative> },
    Lambda { binders: Vec<CheckedBinderId>, expression: CheckedExpressionId },
    TermApplication { function: CheckedExpressionId, argument: CheckedExpressionId },
    TypeApplication { function: CheckedExpressionId, argument: TypeId },
    EvidenceApplication { expression: CheckedExpressionId, evidence: Vec<EvidenceVarId> },
    EvidenceAbstraction { binders: Vec<EvidenceBinderId>, expression: CheckedExpressionId },
}

#[derive(Debug, Clone, PartialEq, Eq)]
pub struct CheckedCaseAlternative {
    pub binders: Vec<CheckedBinderId>,
    pub results: Vec<CheckedGuardedExpression>,
}

#[derive(Debug, Clone, PartialEq, Eq)]
pub struct CheckedGuardedExpression {
    pub guards: Vec<CheckedPatternGuard>,
    pub expression: CheckedExpressionId,
}

#[derive(Debug, Clone, Copy, PartialEq, Eq, Structural)]
pub enum CheckedPatternGuard {
    Boolean { expression: CheckedExpressionId },
    Pattern { binder: CheckedBinderId, expression: CheckedExpressionId },
}

#[derive(Debug, Clone, PartialEq, Eq)]
pub enum CheckedLiteral {
    String { kind: StringKind, value: Option<String> },
    Char(Option<char>),
    Boolean(bool),
    Integer(Option<i32>),
    Number(Option<String>),
}

#[derive(Debug, Clone, PartialEq, Eq)]
pub struct CheckedBinder {
    /// The canonical allocation origin; additional lowering aliases live in
    /// `binders_by_source`.
    pub source: Option<BinderId>,
    pub type_id: TypeId,
    pub kind: CheckedBinderKind,
}

#[derive(Debug, Clone, PartialEq, Eq)]
pub enum CheckedBinderKind {
    Variable,
    Named { binder: CheckedBinderId },
    Wildcard,
    Constructor { file_id: FileId, item_id: TermItemId, arguments: Vec<CheckedBinderId> },
}

/// The checked nodes of a module. Each table is keyed by the raw identifier
/// of the source expression, binder or term item, which it links to its
/// checked node; a source is linked at most once.
pub struct CheckedCore {
    pub expressions: Vec<CheckedExpression>,
    pub binders: Vec<CheckedBinder>,
    pub term_roots: FxHashMap<u32, CheckedExpressionId>,
    pub expressions_by_source: FxHashMap<u32, CheckedExpressionId>,
    pub binders_by_source: FxHashMap<u32, CheckedBinderId>,
}

impl Default for CheckedCore {
    fn default() -> (core: CheckedCore)
        ensures
            core.expressions@ == Seq::<CheckedExpression>::empty(),
            core.binders@ == Seq::<CheckedBinder>::empty(),
            core.term_roots@ == Map::<u32, CheckedExpressionId>::empty(),
            core.expressions_by_source@ == Map::<u32, CheckedExpressionId>::empty(),
            core.binders_by_source@ == Map::<u32, CheckedBinderId>::empty(),
    {
        CheckedCore {
            expressions: Vec::new(),
            binders: Vec::new(),
            term_roots: FxHashMap::default(),
            expressions_by_source: FxHashMap::default(),
            binders_by_source: FxHashMap::default(),
        }
    }
}

impl CheckedCore {
    /// Adds a checked expression; its identifier is its position.
    pub fn allocate_expression(&mut self, type_id: TypeId, kind: CheckedExpressionKind) -> (id: CheckedExpressionId)
        requires
            old(self).expressions@.len() < u32::MAX,
        ensures
            id.0 == old(self).expressions@.len(),
            final(self).expressions@ == old(self).expressions@.push(CheckedExpression { type_id, kind }),
            final(self).binders == old(self).binders,
            final(self).term_roots == old(self).term_roots,
            final(self).expressions_by_source == old(self).expressions_by_source,
            final(self).binders_by_source == old(self).binders_by_source,
    {
        let id = CheckedExpressionId(self.expressions.len() as u32);
        self.expressions.push(CheckedExpression { type_id, kind });
        id
    }

    /// Adds a checked binder for the source binder `source` and links the two.
    pub fn allocate_source_binder(&mut self, source: BinderId, type_id: TypeId, kind: CheckedBinderKind) -> (id:
        CheckedBinderId)
        requires
            old(self).binders@.len() < u32::MAX,
            !old(self).binders_by_source@.contains_key(source.0),
        ensures
            id.0 == old(self).binders@.len(),
            final(self).binders@ == old(self).binders@.push(CheckedBinder { source: Some(source), type_id, kind }),
            final(self).binders_by_source@ == old(self).binders_by_source@.insert(source.0, id),
            final(self).expressions == old(self).expressions,
            final(self).term_roots == old(self).term_roots,
            final(self).expressions_by_source == old(self).expressions_by_source,
    {
        let id = CheckedBinderId(self.binders.len() as u32);
        self.binders.push(CheckedBinder { source: Some(source), type_id, kind });
        self.record_binder(source, id);
        id
    }

    /// Adds a checked binder that no source binder produced.
    pub fn allocate_synthesized_binder(&mut self, type_id: TypeId, kind: CheckedBinderKind) -> (id: CheckedBinderId)
        requires
            old(self).binders@.len() < u32::MAX,
        ensures
            id.0 == old(self).binders@.len(),
            final(self).binders@ == old(self).binders@.push(CheckedBinder { source: None, type_id, kind }),
            final(self).binders_by_source == old(self).binders_by_source,
            final(self).expressions == old(self).expressions,
            final(self).term_roots == old(self).term_roots,
            final(self).expressions_by_source == old(self).expressions_by_source,
    {
        let id = CheckedBinderId(self.binders.len() as u32);
        self.binders.push(CheckedBinder { source: None, type_id, kind });
        id
    }

    /// Links the source expression `source` to its checked expression; a
    /// source expression is checked once.
    pub fn record_expression(&mut self, source: ExpressionId, checked: CheckedExpressionId)
        requires
            !old(self).expressions_by_source@.contains_key(source.0),
        ensures
            final(self).expressions_by_source@ == old(self).expressions_by_source@.insert(source.0, checked),
            final(self).expressions == old(self).expressions,
            final(self).binders == old(self).binders,
            final(self).term_roots == old(self).term_roots,
            final(self).binders_by_source == old(self).binders_by_source,
    {
        map_insert(&mut self.expressions_by_source, source.0, checked);
    }

    /// Links the source binder `source` to its checked binder; a source
    /// binder is checked once.
    pub fn record_binder(&mut self, source: BinderId, checked: CheckedBinderId)
        requires
            !old(self).binders_by_source@.contains_key(source.0),
        ensures
            final(self).binders_by_source@ == old(self).binders_by_source@.insert(source.0, checked),
            final(self).expressions == old(self).expressions,
            final(self).binders == old(self).binders,
            final(self).term_roots == old(self).term_roots,
            final(self).expressions_by_source == old(self).expressions_by_source,
    {
        map_insert(&mut self.binders_by_source, source.0, checked);
    }

    /// Links the term item `source` to the root of its checked body; a term
    /// is checked once.
    pub fn record_term_root(&mut self, source: TermItemId, checked: CheckedExpressionId)
        requires
            !old(self).term_roots@.contains_key(source.0),
        ensures
            final(self).term_roots@ == old(self).term_roots@.insert(source.0, checked),
            final(self).expressions == old(self).expressions,
            final(self).binders == old(self).binders,
            final(self).expressions_by_source == old(self).expressions_by_source,
            final(self).binders_by_source == old(self).binders_by_source,
    {
        map_insert(&mut self.term_roots, source.0, checked);
    }

    /// The checked expression of the source expression `source`, if any.
    pub fn lookup_expression(&self, source: ExpressionId) -> (checked: Option<CheckedExpressionId>)
        ensures
            checked == (if self.expressions_by_source@.contains_key(source.0) {
                Some(self.expressions_by_source@[source.0])
            } else {
                None
            }),
    {
        map_get(&self.expressions_by_source, &source.0)
    }

    /// The checked binder of the source binder `source`, if any.
    pub fn lookup_binder(&self, source: BinderId) -> (checked: Option<CheckedBinderId>)
        ensures
            checked == (if self.binders_by_source@.contains_key(source.0) {
                Some(self.binders_by_source@[source.0])
            } else {
                None
            }),
    {
        map_get(&self.binders_by_source, &source.0)
    }

    /// The root of the checked body of the term item `source`, if any.
    pub fn lookup_term_root(&self, source: TermItemId) -> (checked: Option<CheckedExpressionId>)
        ensures
            checked == (if self.term_roots@.contains_key(source.0) {
                Some(self.term_roots@[source.0])
            } else {
                None
            }),
    {
        map_get(&self.term_roots, &source.0)
    }
}

} // verus!
