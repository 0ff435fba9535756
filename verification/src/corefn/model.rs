//! The CoreFn module representation, as the PureScript compiler writes it.
use std::collections::BTreeMap;
use vstd::prelude::*;

use crate::text::{join, push_char, split};

verus! {

#[derive(Debug, PartialEq, Eq)]
pub struct Module {
    pub source_span: SourceSpan,
    pub module_name: ModuleName,
    pub file_path: String,
    pub imports: Vec<Import>,
    pub exports: Vec<Identifier>,
    pub re_exports: BTreeMap<String, Vec<Identifier>>,
    pub foreign: Vec<Identifier>,
    pub decls: Vec<Bind>,
    pub built_with: String,
    pub comments: Vec<Comment>,
}

/// A module name as its dot-separated components.
#[derive(Clone, Debug, PartialEq, Eq, PartialOrd, Ord)]
pub struct ModuleName(pub Vec<String>);

impl View for ModuleName {
    type V = Seq<Seq<char>>;

    open spec fn view(&self) -> Seq<Seq<char>> {
        self.0@.map_values(|component: String| component@)
    }
}

impl ModuleName {
    /// The module name written as `name`, such as `Data.Maybe`.
    pub fn from_dotted(name: &str) -> (module_name: ModuleName)
        ensures
            module_name@ == split(name@, '.'),
    {
        let characters = crate::text::chars_of(name);
        let mut components: Vec<String> = Vec::new();
        let mut current = String::new();
        let mut k: usize = 0;
        while k < characters.len()
            invariant
                k <= characters@.len(),
                characters@ == name@,
                components@.map_values(|component: String| component@).push(current@) == split(
                    characters@.take(k as int),
                    '.',
                ),
            decreases characters@.len() - k,
        {
            let character = characters[k];
            let ghost pieces = components@.map_values(|component: String| component@).push(
                current@,
            );
            proof {
                assert(characters@.take(k + 1).drop_last() =~= characters@.take(k as int));
                assert(characters@.take(k + 1).last() == character);
            }
            if character == '.' {
                let ghost finished = current@;
                components.push(current);
                current = String::new();
                assert(components@.map_values(|component: String| component@).push(current@)
                    =~= pieces.push(Seq::<char>::empty()));
            } else {
                let ghost before = current@;
                push_char(&mut current, character);
                assert(components@.map_values(|component: String| component@).push(current@)
                    =~= pieces.update(pieces.len() - 1, pieces.last().push(character)));
            }
            k = k + 1;
        }
        components.push(current);
        assert(characters@.take(k as int) =~= name@);
        ModuleName(components)
    }

    /// The module name with its components joined by dots.
    pub fn to_dotted(&self) -> (name: String)
        ensures
            name@ == join(self@, '.'),
    {
        let mut name = String::new();
        let mut k: usize = 0;
        while k < self.0.len()
            invariant
                k <= self@.len(),
                name@ == join(self@.take(k as int), '.'),
            decreases self@.len() - k,
        {
            let ghost before = name@;
            if k > 0 {
                push_char(&mut name, '.');
            }
            let characters = crate::text::chars_of(self.0[k].as_str());
            let mut j: usize = 0;
            while j < characters.len()
                invariant
                    j <= characters@.len(),
                    name@ == (if k > 0 {
                        before.push('.')
                    } else {
                        before
                    }) + characters@.take(j as int),
                decreases characters@.len() - j,
            {
                push_char(&mut name, characters[j]);
                j = j + 1;
                assert(name@ =~= (if k > 0 {
                    before.push('.')
                } else {
                    before
                }) + characters@.take(j as int));
            }
            proof {
                assert(characters@.take(j as int) =~= self@[k as int]);
                let taken = self@.take(k + 1);
                assert(taken.drop_last() =~= self@.take(k as int));
                if k == 0 {
                    assert(before =~= Seq::<char>::empty());
                    assert(name@ =~= taken[0]);
                } else {
                    assert(taken.last() == self@[k as int]);
                }
            }
            k = k + 1;
        }
        assert(self@.take(k as int) =~= self@);
        name
    }
}

#[derive(Clone, Debug, PartialEq, Eq, PartialOrd, Ord)]
pub struct Identifier(pub String);

impl From<String> for Identifier {
    fn from(value: String) -> (identifier: Identifier) {
        Identifier(value)
    }
}

impl vstd::std_specs::convert::FromSpecImpl<String> for Identifier {
    open spec fn obeys_from_spec() -> bool {
        true
    }

    open spec fn from_spec(value: String) -> Identifier {
        Identifier(value)
    }
}

/// A PureScript string, including values containing unpaired UTF-16 surrogates.
#[derive(Clone, Debug, PartialEq, Eq, PartialOrd, Ord)]
pub enum PureScriptString {
    String(String),
    CodeUnits(Vec<u16>),
}

impl From<String> for PureScriptString {
    fn from(value: String) -> (string: PureScriptString) {
        PureScriptString::String(value)
    }
}

impl vstd::std_specs::convert::FromSpecImpl<String> for PureScriptString {
    open spec fn obeys_from_spec() -> bool {
        true
    }

    open spec fn from_spec(value: String) -> PureScriptString {
        PureScriptString::String(value)
    }
}

/// A JSON number, held as the bits of its IEEE-754 double so that equality is
/// bitwise and reflexive.
#[derive(Clone, Copy, Debug, PartialEq, Eq, Structural)]
pub struct CoreFnNumber(pub u64);

#[derive(Clone, Debug, PartialEq, Eq)]
pub struct Import {
    pub annotation: Annotation,
    pub module_name: ModuleName,
}

#[derive(Clone, Debug, PartialEq, Eq)]
pub enum Comment {
    LineComment(String),
    BlockComment(String),
}

#[derive(Clone, Debug, PartialEq, Eq)]
pub struct SourceSpan {
    pub start: SourcePosition,
    pub end: SourcePosition,
}

impl SourceSpan {
    /// The span of generated code: both ends at line 0, column 0.
    pub fn null() -> (span: SourceSpan)
        ensures
            span == (SourceSpan { start: SourcePosition([0, 0]), end: SourcePosition([0, 0]) }),
    {
        let position = SourcePosition([0, 0]);
        SourceSpan { start: position, end: position }
    }
}

/// A line and column, both starting at 1.
#[derive(Clone, Copy, Debug, PartialEq, Eq)]
pub struct SourcePosition(pub [u32; 2]);

#[derive(Clone, Debug, PartialEq, Eq)]
pub struct Annotation {
    pub source_span: SourceSpan,
    pub meta: Option<Meta>,
}

impl Annotation {
    pub fn new(source_span: SourceSpan) -> (annotation: Annotation)
        ensures
            annotation == (Annotation { source_span, meta: None }),
    {
        Annotation { source_span, meta: None }
    }

    pub fn with_meta(source_span: SourceSpan, meta: Meta) -> (annotation: Annotation)
        ensures
            annotation == (Annotation { source_span, meta: Some(meta) }),
    {
        Annotation { source_span, meta: Some(meta) }
    }
}

#[derive(Clone, Debug, PartialEq, Eq)]
pub enum Meta {
    IsConstructor { constructor_type: ConstructorType, identifiers: Vec<Identifier> },
    IsNewtype,
    IsTypeClassConstructor,
    IsForeign,
    IsWhere,
    IsSyntheticApp,
}

#[derive(Clone, Copy, Debug, PartialEq, Eq, Structural)]
pub enum ConstructorType {
    ProductType,
    SumType,
}

#[derive(Clone, Debug, PartialEq, Eq)]
pub enum Qualified<T> {
    ByModuleName { module_name: ModuleName, identifier: T },
    BySourcePosition { source_position: SourcePosition, identifier: T },
}

#[derive(Clone, Debug, PartialEq, Eq)]
pub enum Literal<T> {
    IntLiteral(i32),
    NumberLiteral(CoreFnNumber),
    StringLiteral(PureScriptString),
    CharLiteral(char),
    BooleanLiteral(bool),
    ArrayLiteral(Vec<T>),
    ObjectLiteral(Vec<(PureScriptString, T)>),
}

#[derive(Debug, PartialEq, Eq)]
pub enum Bind {
    NonRec { annotation: Annotation, identifier: Identifier, expression: Expression },
    Rec { binds: Vec<RecBind> },
}

#[derive(Debug, PartialEq, Eq)]
pub struct RecBind {
    pub identifier: Identifier,
    pub annotation: Annotation,
    pub expression: Expression,
}

#[derive(Debug, PartialEq, Eq)]
pub enum Expression {
    Var { annotation: Annotation, value: Qualified<Identifier> },
    Literal { annotation: Annotation, value: Literal<Box<Expression>> },
    Constructor {
        annotation: Annotation,
        data_type: String,
        constructor_name: String,
        field_names: Vec<Identifier>,
    },
    Accessor { annotation: Annotation, field_name: PureScriptString, expression: Box<Expression> },
    ObjectUpdate {
        annotation: Annotation,
        expression: Box<Expression>,
        copy: Option<Vec<PureScriptString>>,
        updates: Vec<(PureScriptString, Expression)>,
    },
    Abs { annotation: Annotation, argument: Identifier, body: Box<Expression> },
    App { annotation: Annotation, abstraction: Box<Expression>, argument: Box<Expression> },
    Case {
        annotation: Annotation,
        case_expressions: Vec<Expression>,
        case_alternatives: Vec<CaseAlternative>,
    },
    Let { annotation: Annotation, binds: Vec<Bind>, expression: Box<Expression> },
}

#[derive(Debug, PartialEq, Eq)]
pub enum CaseAlternative {
    Unguarded { binders: Vec<Binder>, is_guarded: bool, expression: Expression },
    Guarded { binders: Vec<Binder>, is_guarded: bool, expressions: Vec<GuardedExpression> },
}

impl CaseAlternative {
    pub fn unguarded(binders: Vec<Binder>, expression: Expression) -> (alternative: CaseAlternative)
        ensures
            alternative == (CaseAlternative::Unguarded { binders, is_guarded: false, expression }),
    {
        CaseAlternative::Unguarded { binders, is_guarded: false, expression }
    }

    pub fn guarded(binders: Vec<Binder>, expressions: Vec<GuardedExpression>) -> (alternative:
        CaseAlternative)
        ensures
            alternative == (CaseAlternative::Guarded { binders, is_guarded: true, expressions }),
    {
        CaseAlternative::Guarded { binders, is_guarded: true, expressions }
    }
}

#[derive(Debug, PartialEq, Eq)]
pub struct GuardedExpression {
    pub guard: Expression,
    pub expression: Expression,
}

#[derive(Debug, PartialEq, Eq)]
pub enum Binder {
    VarBinder { annotation: Annotation, identifier: Identifier },
    NullBinder { annotation: Annotation },
    LiteralBinder { annotation: Annotation, literal: Literal<Box<Binder>> },
    ConstructorBinder {
        annotation: Annotation,
        data_type: Qualified<String>,
        constructor_name: Qualified<String>,
        binders: Vec<Binder>,
    },
    NamedBinder { annotation: Annotation, identifier: Identifier, binder: Box<Binder> },
}

/// Reading a module name back from its dotted form gives the same name,
/// when no component contains a dot and the name has a component.
pub proof fn law_module_name_round_trip(components: Seq<Seq<char>>)
    requires
        components.len() >= 1,
        forall|k: int| 0 <= k < components.len() ==> !(#[trigger] components[k]).contains('.'),
    ensures
        split(join(components, '.'), '.') == components,
{
    crate::text::law_split_join(components, '.');
}

/// Writing a module name read from a dotted name gives the dotted name back.
pub proof fn law_dotted_round_trip(name: Seq<char>)
    ensures
        join(split(name, '.'), '.') == name,
{
    crate::text::law_join_split(name, '.');
}

} // verus!
