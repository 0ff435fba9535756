//! A small, semantic Core language that checked modules are elaborated into.
//!
//! Core nodes deliberately have no type field. Checked types remain available
//! as side-table facts, which keeps recovery nodes and desugaring-generated
//! nodes from requiring invented checker identities.
use rustc_hash::FxHashMap;
use vstd::prelude::*;

use crate::checking::evidence::EvidenceBinderId;
use crate::checking::types::{InstanceCandidateOrigin, TypeId};
use crate::files::FileId;
use crate::hashed::map_get;
use crate::ids::{
    BinderId, ExpressionId, LetBindingNameGroupId, RecordPunId, StringKind, TermItemId, TypeItemId,
};

verus! {

/// An expression of a [`CoreModule`]: the position of its node.
#[derive(Debug, Clone, Copy, PartialEq, Eq, PartialOrd, Ord, Hash, Structural)]
pub struct CoreExpressionId(pub u32);

#[derive(Debug, Clone, Copy, PartialEq, Eq, PartialOrd, Ord, Hash, Structural)]
pub struct CorePatternId(pub u32);

#[derive(Debug, Clone, Copy, PartialEq, Eq, PartialOrd, Ord, Hash, Structural)]
pub struct CoreAlternativeId(pub u32);

#[derive(Debug, Clone, Copy, PartialEq, Eq, PartialOrd, Ord, Hash, Structural)]
pub struct CoreBindingId(pub u32);

#[derive(Debug, Clone, Copy, PartialEq, Eq, PartialOrd, Ord, Hash, Structural)]
pub struct CoreBindingGroupId(pub u32);

/// Core expressions contain only semantic forms. In particular, source
/// annotations, parentheses, operator chains, do notation, and equations have
/// already disappeared before a value enters the module.
#[derive(Debug, Clone, PartialEq, Eq)]
pub enum CoreExpression {
    Variable(CoreVariable),
    Literal(CoreLiteral),
    Lambda { pattern: CorePatternId, body: CoreExpressionId },
    Apply { function: CoreExpressionId, argument: CoreExpressionId },
    TypeApply { function: CoreExpressionId, argument: CoreTypeArgument },
    Let { group: CoreBindingGroupId, body: CoreExpressionId },
    Case { scrutinees: Vec<CoreExpressionId>, alternatives: Vec<CoreAlternativeId> },
    IfThenElse { condition: CoreExpressionId, then: CoreExpressionId, else_: CoreExpressionId },
    Array(Vec<CoreExpressionId>),
    Record(Vec<CoreRecordField>),
    Dictionary { superclasses: Vec<CoreSuperclassField>, members: Vec<CoreRecordField> },
    /// A compiler-generated dictionary. The checked requirements are already
    /// solved; a backend implements the class-specific stock/newtype primitive
    /// without re-running constraint solving.
    DerivedDictionary {
        strategy: CoreDeriveStrategy,
        class: Option<(FileId, TypeItemId)>,
        /// Method-local proof assumptions used by `requirements`.
        local_binders: Vec<CoreDerivedBinder>,
        requirements: Vec<CoreDerivedRequirement>,
    },
    Access { record: CoreExpressionId, label: CoreLabel },
    Update { record: CoreExpressionId, updates: Vec<CoreRecordUpdate> },
    SuperclassProjection { dictionary: CoreExpressionId, index: usize },
    Error(CoreError),
}

#[derive(Debug, Clone, Copy, PartialEq, Eq, Structural)]
pub enum CoreTypeArgument {
    Checked(TypeId),
    Missing,
}

#[derive(Debug, Clone, Copy, PartialEq, Eq, Hash, Structural)]
pub enum CoreVariable {
    Binder(BinderId),
    Synthetic(u32),
    Let(LetBindingNameGroupId),
    RecordPun(RecordPunId),
    Item(FileId, TermItemId),
    Evidence(EvidenceBinderId),
    Instance(InstanceCandidateOrigin),
}

#[derive(Debug, Clone, PartialEq, Eq)]
pub enum CoreLiteral {
    String { kind: StringKind, value: Option<String> },
    Char(Option<char>),
    Boolean(bool),
    Integer(Option<i32>),
    Number { negative: bool, value: Option<String> },
}

#[derive(Debug, Clone, PartialEq, Eq)]
pub enum CorePattern {
    Variable(CoreVariable),
    Literal(CoreLiteral),
    Constructor { constructor: Option<(FileId, TermItemId)>, arguments: Vec<CorePatternId> },
    Named { variable: CoreVariable, pattern: CorePatternId },
    Wildcard,
    Array(Vec<CorePatternId>),
    Record(Vec<CoreRecordPatternField>),
    Error(CoreError),
}

#[derive(Debug, Clone, PartialEq, Eq)]
pub struct CoreRecordPatternField {
    pub label: CoreLabel,
    pub pattern: CorePatternId,
}

#[derive(Debug, Clone, PartialEq, Eq)]
pub struct CoreAlternative {
    pub patterns: Vec<CorePatternId>,
    pub body: CoreExpressionId,
}

#[derive(Debug, Clone, PartialEq, Eq)]
pub struct CoreBinding {
    pub source: CoreBindingSource,
    pub value: CoreBindingValue,
}

#[derive(Debug, Clone, Copy, PartialEq, Eq, Structural)]
pub enum CoreBindingSource {
    Item(TermItemId),
    Let(LetBindingNameGroupId),
    Synthetic(u32),
}

#[derive(Debug, Clone, Copy, PartialEq, Eq, Structural)]
pub enum CoreBindingValue {
    Expression(CoreExpressionId),
    External(CoreExternalBinding),
}

#[derive(Debug, Clone, Copy, PartialEq, Eq, Structural)]
pub enum CoreExternalBinding {
    ClassMember,
    Constructor,
    Foreign,
}

#[derive(Debug, Clone, PartialEq, Eq)]
pub struct CoreBindingGroup {
    pub recursive: bool,
    pub bindings: Vec<CoreBindingId>,
}

#[derive(Debug, Clone, PartialEq, Eq)]
pub struct CoreRecordField {
    pub label: CoreLabel,
    pub value: CoreExpressionId,
}

/// A class dictionary keeps declaration-order superclass slots explicit.
/// Compiler-known proofs have no runtime expression, but retaining their slot
/// keeps superclass projection indices stable for the remaining dictionaries.
#[derive(Debug, Clone, Copy, PartialEq, Eq, Structural)]
pub enum CoreSuperclassField {
    Runtime(CoreExpressionId),
    Erased,
}

#[derive(Debug, Clone, Copy, PartialEq, Eq, Structural)]
pub enum CoreDeriveStrategy {
    Stock,
    Newtype,
}

#[derive(Debug, Clone, Copy, PartialEq, Eq, Structural)]
pub struct CoreDerivedBinder {
    pub binder: EvidenceBinderId,
    pub constraint: Option<TypeId>,
    pub erased: bool,
}

#[derive(Debug, Clone, Copy, PartialEq, Eq, Structural)]
pub struct CoreDerivedRequirement {
    /// The final checker-canonicalized constraint for this generated use.
    pub constraint: Option<TypeId>,
    pub evidence: CoreDerivedEvidence,
}

#[derive(Debug, Clone, Copy, PartialEq, Eq, Structural)]
pub enum CoreDerivedEvidence {
    Runtime(CoreExpressionId),
    Erased,
}

#[derive(Debug, Clone, PartialEq, Eq)]
pub struct CoreRecordUpdate {
    pub path: Vec<CoreLabel>,
    pub value: CoreExpressionId,
}

#[derive(Debug, Clone, PartialEq, Eq)]
pub enum CoreLabel {
    Source(String),
    Item(FileId, TermItemId),
    Missing,
}

/// Recovery is explicit and limited to malformed or already-errored input.
#[derive(Debug, Clone, Copy, PartialEq, Eq, Structural)]
pub enum CoreError {
    /// A source-level typed hole, retained as deliberate recovery syntax.
    Hole,
    MissingExpression,
    MissingPattern,
    MalformedOperator,
    MalformedSection,
    PatternMatchFailure,
    Evidence,
}

/// A module-local Core program. Nodes of each kind are numbered by their
/// position in the corresponding list, in allocation order.
#[derive(Debug)]
pub struct CoreModule {
    pub expressions: Vec<CoreExpression>,
    pub patterns: Vec<CorePattern>,
    pub alternatives: Vec<CoreAlternative>,
    pub bindings: Vec<CoreBinding>,
    pub binding_groups: Vec<CoreBindingGroup>,
    /// Top-level groups in dependency order.
    pub top_level: Vec<CoreBindingGroupId>,
    /// Every grouped source term item points at its Core binding; the key is
    /// the item's raw identifier.
    pub items: FxHashMap<u32, CoreBindingId>,
    /// Dictionary origins resolve directly to their module-local definitions,
    /// one entry per origin.
    pub instances: Vec<(InstanceCandidateOrigin, CoreBindingId)>,
    pub lets: FxHashMap<LetBindingNameGroupId, CoreBindingId>,
    /// Source expressions alias their final elaborated node; the key is the
    /// source expression's raw identifier.
    pub expressions_by_source: FxHashMap<u32, CoreExpressionId>,
    pub expressions_by_core: FxHashMap<CoreExpressionId, ExpressionId>,
    /// Checked source facts remain keyed by source identity.
    pub expression_types: FxHashMap<ExpressionId, TypeId>,
    pub pun_types: FxHashMap<RecordPunId, TypeId>,
    pub patterns_by_source: FxHashMap<BinderId, CorePatternId>,
    pub pattern_types: FxHashMap<BinderId, TypeId>,
    pub binding_types: FxHashMap<CoreBindingId, TypeId>,
}

impl Default for CoreModule {
    fn default() -> (module: CoreModule)
        ensures
            module.expressions@ == Seq::<CoreExpression>::empty(),
            module.patterns@ == Seq::<CorePattern>::empty(),
            module.alternatives@ == Seq::<CoreAlternative>::empty(),
            module.bindings@ == Seq::<CoreBinding>::empty(),
            module.binding_groups@ == Seq::<CoreBindingGroup>::empty(),
            module.top_level@ == Seq::<CoreBindingGroupId>::empty(),
            module.expressions_by_source@ == Map::<u32, CoreExpressionId>::empty(),
    {
        CoreModule {
            expressions: Vec::new(),
            patterns: Vec::new(),
            alternatives: Vec::new(),
            bindings: Vec::new(),
            binding_groups: Vec::new(),
            top_level: Vec::new(),
            items: FxHashMap::default(),
            instances: Vec::new(),
            lets: FxHashMap::default(),
            expressions_by_source: FxHashMap::default(),
            expressions_by_core: FxHashMap::default(),
            expression_types: FxHashMap::default(),
            pun_types: FxHashMap::default(),
            patterns_by_source: FxHashMap::default(),
            pattern_types: FxHashMap::default(),
            binding_types: FxHashMap::default(),
        }
    }
}

/// The two modules agree on everything but their node lists.
pub open spec fn same_tables(a: CoreModule, b: CoreModule) -> bool {
    &&& a.top_level == b.top_level
    &&& a.items == b.items
    &&& a.instances == b.instances
    &&& a.lets == b.lets
    &&& a.expressions_by_source == b.expressions_by_source
    &&& a.expressions_by_core == b.expressions_by_core
    &&& a.expression_types == b.expression_types
    &&& a.pun_types == b.pun_types
    &&& a.patterns_by_source == b.patterns_by_source
    &&& a.pattern_types == b.pattern_types
    &&& a.binding_types == b.binding_types
}

impl CoreModule {
    /// Adds an expression node; its identifier is its position.
    pub fn allocate_expression(&mut self, kind: CoreExpression) -> (id: CoreExpressionId)
        requires
            old(self).expressions@.len() < u32::MAX,
        ensures
            id.0 == old(self).expressions@.len(),
            final(self).expressions@ == old(self).expressions@.push(kind),
            final(self).patterns == old(self).patterns,
            final(self).alternatives == old(self).alternatives,
            final(self).bindings == old(self).bindings,
            final(self).binding_groups == old(self).binding_groups,
            same_tables(*final(self), *old(self)),
    {
        let id = CoreExpressionId(self.expressions.len() as u32);
        self.expressions.push(kind);
        id
    }

    pub fn allocate_pattern(&mut self, kind: CorePattern) -> (id: CorePatternId)
        requires
            old(self).patterns@.len() < u32::MAX,
        ensures
            id.0 == old(self).patterns@.len(),
            final(self).patterns@ == old(self).patterns@.push(kind),
            final(self).expressions == old(self).expressions,
            final(self).alternatives == old(self).alternatives,
            final(self).bindings == old(self).bindings,
            final(self).binding_groups == old(self).binding_groups,
            same_tables(*final(self), *old(self)),
    {
        let id = CorePatternId(self.patterns.len() as u32);
        self.patterns.push(kind);
        id
    }

    pub fn allocate_alternative(&mut self, patterns: Vec<CorePatternId>, body: CoreExpressionId) -> (id:
        CoreAlternativeId)
        requires
            old(self).alternatives@.len() < u32::MAX,
        ensures
            id.0 == old(self).alternatives@.len(),
            final(self).alternatives@ == old(self).alternatives@.push(CoreAlternative { patterns, body }),
            final(self).expressions == old(self).expressions,
            final(self).patterns == old(self).patterns,
            final(self).bindings == old(self).bindings,
            final(self).binding_groups == old(self).binding_groups,
            same_tables(*final(self), *old(self)),
    {
        let id = CoreAlternativeId(self.alternatives.len() as u32);
        self.alternatives.push(CoreAlternative { patterns, body });
        id
    }

    pub fn allocate_binding(&mut self, binding: CoreBinding) -> (id: CoreBindingId)
        requires
            old(self).bindings@.len() < u32::MAX,
        ensures
            id.0 == old(self).bindings@.len(),
            final(self).bindings@ == old(self).bindings@.push(binding),
            final(self).expressions == old(self).expressions,
            final(self).patterns == old(self).patterns,
            final(self).alternatives == old(self).alternatives,
            final(self).binding_groups == old(self).binding_groups,
            same_tables(*final(self), *old(self)),
    {
        let id = CoreBindingId(self.bindings.len() as u32);
        self.bindings.push(binding);
        id
    }

    pub fn allocate_binding_group(&mut self, group: CoreBindingGroup) -> (id: CoreBindingGroupId)
        requires
            old(self).binding_groups@.len() < u32::MAX,
        ensures
            id.0 == old(self).binding_groups@.len(),
            final(self).binding_groups@ == old(self).binding_groups@.push(group),
            final(self).expressions == old(self).expressions,
            final(self).patterns == old(self).patterns,
            final(self).alternatives == old(self).alternatives,
            final(self).bindings == old(self).bindings,
            same_tables(*final(self), *old(self)),
    {
        let id = CoreBindingGroupId(self.binding_groups.len() as u32);
        self.binding_groups.push(group);
        id
    }

    /// The final elaborated node of a source expression, if it has one.
    pub fn lookup_expression(&self, source: ExpressionId) -> (expression: Option<CoreExpressionId>)
        ensures
            expression == (if self.expressions_by_source@.contains_key(source.0) {
                Some(self.expressions_by_source@[source.0])
            } else {
                None
            }),
    {
        map_get(&self.expressions_by_source, &source.0)
    }
}

} // verus!
