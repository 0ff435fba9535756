//! The checked tree of a module: its expressions, binders and declarations,
//! each kind numbered by position, and the declarations of its term and type
//! items.
pub mod pretty;

use rustc_hash::FxHashMap;
use vstd::prelude::*;

use super::evidence::{Evidence, EvidenceVarId};
use super::types::{ForallBinderId, Role, SuperclassId, TypeId};
use crate::files::FileId;
use crate::hashed::{map_get, map_insert};
use crate::ids::{EquationSourceId, RecordPunId, StringKind, TermItemId, TermVariableResolution, TypeItemId};

verus! {

/// An expression of the checked tree.
#[derive(Debug, Clone, Copy, PartialEq, Eq, PartialOrd, Ord, Hash, Structural)]
pub struct ExpressionId(pub u32);

/// A binder of the checked tree.
#[derive(Debug, Clone, Copy, PartialEq, Eq, PartialOrd, Ord, Hash, Structural)]
pub struct BinderId(pub u32);

/// A term declaration of the checked tree.
#[derive(Debug, Clone, Copy, PartialEq, Eq, PartialOrd, Ord, Hash, Structural)]
pub struct TermDeclarationId(pub u32);

/// A type declaration of the checked tree.
#[derive(Debug, Clone, Copy, PartialEq, Eq, PartialOrd, Ord, Hash, Structural)]
pub struct TypeDeclarationId(pub u32);

#[derive(Debug, PartialEq, Eq)]
pub struct TermDeclaration {
    pub type_id: TypeId,
    pub kind: TermDeclarationKind,
}

#[derive(Debug, PartialEq, Eq)]
pub enum TermDeclarationKind {
    Value(ValueDeclaration),
    Constructor(DataConstructor),
    Instance(InstanceDeclaration),
}

#[derive(Debug, PartialEq, Eq)]
pub struct ValueDeclaration {
    pub evidences: Vec<Evidence>,
    pub equations: Vec<Equation>,
}

/// A data constructor: the types of its arguments.
#[derive(Debug, Clone, PartialEq, Eq)]
pub struct DataConstructor {
    pub arguments: Vec<TypeId>,
}

#[derive(Debug, PartialEq, Eq)]
pub struct InstanceDeclaration {
    pub class: (FileId, TypeItemId),
    pub rigid_parameters: Vec<TypeId>,
    pub evidences: Vec<InstanceEvidence>,
    pub superclasses: Vec<InstanceSuperclass>,
    pub members: Vec<InstanceMember>,
}

/// A dictionary an instance declaration receives, with its constraint.
#[derive(Debug, Clone, PartialEq, Eq)]
pub struct InstanceEvidence {
    pub constraint: TypeId,
    pub evidence: Evidence,
}

/// The dictionary an instance supplies for one superclass of its class.
#[derive(Debug, Clone, Copy, PartialEq, Eq, Structural)]
pub struct InstanceSuperclass {
    pub id: SuperclassId,
    pub constraint: TypeId,
    pub evidence: EvidenceVarId,
}

#[derive(Debug, PartialEq, Eq)]
pub struct InstanceMember {
    pub resolution: (FileId, TermItemId),
    pub implementation_type: TypeId,
    pub evidences: Vec<Evidence>,
    pub equations: Vec<Equation>,
}

#[derive(Debug, PartialEq, Eq)]
pub struct TypeDeclaration {
    pub kind: TypeId,
    pub roles: Vec<Role>,
    pub declaration: TypeDeclarationKind,
}

#[derive(Debug, PartialEq, Eq)]
pub enum TypeDeclarationKind {
    Data(DataDeclaration),
    Newtype(DataDeclaration),
    Class(ClassDeclaration),
}

#[derive(Debug, PartialEq, Eq)]
pub struct DataDeclaration {
    pub parameters: Vec<ForallBinderId>,
    pub constructors: Vec<TermDeclarationId>,
}

#[derive(Debug, PartialEq, Eq)]
pub struct ClassDeclaration {
    pub kind_binders: Vec<ForallBinderId>,
    pub type_parameters: Vec<ForallBinderId>,
    pub superclasses: Vec<ClassSuperclass>,
    pub members: Vec<ClassMember>,
}

/// A superclass constraint of a class declaration.
#[derive(Debug, Clone, Copy, PartialEq, Eq, Structural)]
pub struct ClassSuperclass {
    pub id: SuperclassId,
    pub constraint: TypeId,
}

#[derive(Debug, Clone, Copy, PartialEq, Eq, Structural)]
pub struct ClassMember {
    pub source: TermItemId,
    pub field_type: TypeId,
}

#[derive(Debug, PartialEq, Eq)]
pub struct Equation {
    pub source: EquationSourceId,
    pub binders: Vec<BinderId>,
    pub guarded_expression: GuardedExpression,
}

#[derive(Debug, PartialEq, Eq)]
pub struct GuardedExpression {
    pub alternatives: Vec<GuardedAlternative>,
}

#[derive(Debug, PartialEq, Eq)]
pub struct GuardedAlternative {
    pub pattern_guards: Vec<PatternGuard>,
    pub where_expression: WhereExpression,
}

#[derive(Debug, Clone, Copy, PartialEq, Eq, Structural)]
pub enum PatternGuard {
    Boolean { expression: ExpressionId },
    Pattern { binder: BinderId, expression: ExpressionId },
}

#[derive(Debug, Clone, Copy, PartialEq, Eq, Structural)]
pub struct WhereExpression {
    pub expression: ExpressionId,
}

impl GuardedExpression {
    /// A guarded expression with one alternative and no guards.
    pub fn unconditional(where_expression: WhereExpression) -> (guarded: GuardedExpression)
        ensures
            guarded.alternatives@.len() == 1,
            guarded.alternatives@[0].pattern_guards@.len() == 0,
            guarded.alternatives@[0].where_expression == where_expression,
    {
        let alternative = GuardedAlternative { pattern_guards: Vec::new(), where_expression };
        let mut alternatives: Vec<GuardedAlternative> = Vec::new();
        alternatives.push(alternative);
        GuardedExpression { alternatives }
    }
}

#[derive(Debug, PartialEq, Eq)]
pub struct Binder {
    pub source: crate::ids::BinderId,
    pub type_id: TypeId,
    pub kind: BinderKind,
}

#[derive(Debug, PartialEq, Eq)]
pub enum BinderKind {
    Error,
    Typed { binder: BinderId, annotation: TypeId },
    Integer { value: i32 },
    Number { negative: bool, value: String },
    Variable,
    Named { name: String, binder: BinderId },
    Wildcard,
    String { value: String },
    Char { value: char },
    Boolean { value: bool },
    Array { elements: Vec<BinderId> },
    Record { fields: Vec<RecordBinderField> },
    Constructor { resolution: (FileId, TermItemId), arguments: Vec<BinderId> },
}

#[derive(Debug, PartialEq, Eq)]
pub enum RecordBinderField {
    Field { label: String, binder: BinderId },
    Pun { label: String },
}

#[derive(Debug, PartialEq, Eq)]
pub struct Expression {
    pub type_id: TypeId,
    pub kind: ExpressionKind,
}

#[derive(Debug, PartialEq, Eq)]
pub enum ExpressionKind {
    Error,
    String { kind: StringKind, value: String },
    Char { value: char },
    Boolean { value: bool },
    Integer { value: i32 },
    Number { value: String },
    Array { elements: Vec<ExpressionId> },
    Record { fields: Vec<RecordExpressionField> },
    Constructor { resolution: (FileId, TermItemId) },
    Variable { resolution: TermVariableResolution },
    RecordPun { source: RecordPunId, resolution: TermVariableResolution },
    TermApplication { function: ExpressionId, argument: ExpressionId },
    TypeApplication { function: ExpressionId, argument: TypeId },
    EvidenceApplication { function: ExpressionId, evidence: EvidenceVarId },
}

#[derive(Debug, PartialEq, Eq)]
pub enum RecordExpressionField {
    Field { label: String, expression: ExpressionId },
    Pun { source: RecordPunId, label: String, expression: ExpressionId },
}

/// The checked tree of a module. Nodes of each kind are numbered by their
/// position; the declarations of term and type items are found by the
/// item's raw identifier.
pub struct Module {
    pub expressions: Vec<Expression>,
    pub binders: Vec<Binder>,
    pub term_declarations: Vec<TermDeclaration>,
    pub type_declarations: Vec<TypeDeclaration>,
    pub terms: FxHashMap<u32, TermDeclarationId>,
    pub types: FxHashMap<u32, TypeDeclarationId>,
}

impl Module {
    /// The declaration of each term item, by the item's raw identifier.
    pub open spec fn terms(&self) -> Map<u32, TermDeclarationId> {
        self.terms@
    }

    /// The declaration of each type item, by the item's raw identifier.
    pub open spec fn types(&self) -> Map<u32, TypeDeclarationId> {
        self.types@
    }
}

impl Default for Module {
    fn default() -> (module: Module)
        ensures
            module.expressions@ == Seq::<Expression>::empty(),
            module.binders@ == Seq::<Binder>::empty(),
            module.term_declarations@ == Seq::<TermDeclaration>::empty(),
            module.type_declarations@ == Seq::<TypeDeclaration>::empty(),
            module.terms() == Map::<u32, TermDeclarationId>::empty(),
            module.types() == Map::<u32, TypeDeclarationId>::empty(),
    {
        Module {
            expressions: Vec::new(),
            binders: Vec::new(),
            term_declarations: Vec::new(),
            type_declarations: Vec::new(),
            terms: FxHashMap::default(),
            types: FxHashMap::default(),
        }
    }
}

impl Module {
    /// Adds an expression; its identifier is its position.
    pub fn allocate_expression(&mut self, expression: Expression) -> (id: ExpressionId)
        requires
            old(self).expressions@.len() < u32::MAX,
        ensures
            id.0 == old(self).expressions@.len(),
            final(self).expressions@ == old(self).expressions@.push(expression),
            final(self).binders == old(self).binders,
            final(self).term_declarations == old(self).term_declarations,
            final(self).type_declarations == old(self).type_declarations,
            final(self).terms() == old(self).terms(),
            final(self).types() == old(self).types(),
    {
        let id = ExpressionId(self.expressions.len() as u32);
        self.expressions.push(expression);
        id
    }

    /// Adds a binder; its identifier is its position.
    pub fn allocate_binder(&mut self, binder: Binder) -> (id: BinderId)
        requires
            old(self).binders@.len() < u32::MAX,
        ensures
            id.0 == old(self).binders@.len(),
            final(self).binders@ == old(self).binders@.push(binder),
            final(self).expressions == old(self).expressions,
            final(self).term_declarations == old(self).term_declarations,
            final(self).type_declarations == old(self).type_declarations,
            final(self).terms() == old(self).terms(),
            final(self).types() == old(self).types(),
    {
        let id = BinderId(self.binders.len() as u32);
        self.binders.push(binder);
        id
    }

    /// Adds the declaration of the term item `source`, replacing any it had.
    pub fn insert_term(&mut self, source: TermItemId, term: TermDeclaration) -> (id: TermDeclarationId)
        requires
            old(self).term_declarations@.len() < u32::MAX,
        ensures
            id.0 == old(self).term_declarations@.len(),
            final(self).term_declarations@ == old(self).term_declarations@.push(term),
            final(self).terms() == old(self).terms().insert(source.0, id),
            final(self).expressions == old(self).expressions,
            final(self).binders == old(self).binders,
            final(self).type_declarations == old(self).type_declarations,
            final(self).types() == old(self).types(),
    {
        let id = TermDeclarationId(self.term_declarations.len() as u32);
        self.term_declarations.push(term);
        map_insert(&mut self.terms, source.0, id);
        id
    }

    /// The declaration of the term item `source`, if it has one.
    pub fn lookup_term(&self, source: TermItemId) -> (id: Option<TermDeclarationId>)
        ensures
            id == (if self.terms().contains_key(source.0) {
                Some(self.terms()[source.0])
            } else {
                None
            }),
    {
        map_get(&self.terms, &source.0)
    }

    /// Adds the declaration of the type item `source`, replacing any it had.
    pub fn insert_type_declaration(&mut self, source: TypeItemId, declaration: TypeDeclaration) -> (id:
        TypeDeclarationId)
        requires
            old(self).type_declarations@.len() < u32::MAX,
        ensures
            id.0 == old(self).type_declarations@.len(),
            final(self).type_declarations@ == old(self).type_declarations@.push(declaration),
            final(self).types() == old(self).types().insert(source.0, id),
            final(self).expressions == old(self).expressions,
            final(self).binders == old(self).binders,
            final(self).term_declarations == old(self).term_declarations,
            final(self).terms() == old(self).terms(),
    {
        let id = TypeDeclarationId(self.type_declarations.len() as u32);
        self.type_declarations.push(declaration);
        map_insert(&mut self.types, source.0, id);
        id
    }

    /// The declaration of the type item `source`, if it has one.
    pub fn lookup_type_declaration(&self, source: TypeItemId) -> (id: Option<TypeDeclarationId>)
        ensures
            id == (if self.types().contains_key(source.0) {
                Some(self.types()[source.0])
            } else {
                None
            }),
    {
        map_get(&self.types, &source.0)
    }
}

/// A declaration inserted for an item is what a lookup of that item finds
/// afterwards, until another is inserted for it; the other items keep theirs.
pub proof fn law_insert_term_then_lookup(
    terms: Map<u32, TermDeclarationId>,
    source: TermItemId,
    id: TermDeclarationId,
    other: TermItemId,
)
    ensures
        terms.insert(source.0, id).contains_key(source.0),
        terms.insert(source.0, id)[source.0] == id,
        other != source ==> terms.insert(source.0, id).contains_key(other.0) == terms.contains_key(other.0),
        other != source && terms.contains_key(other.0) ==> terms.insert(source.0, id)[other.0] == terms[other.0],
{
}

} // verus!
