use compiler_core::corefn::comments::leading_comments;
use compiler_core::corefn::model::{
    Annotation, Binder, CaseAlternative, Comment, ConstructorType, Expression, GuardedExpression, Identifier,
    Literal, Meta, ModuleName, Qualified, SourcePosition, SourceSpan,
};
use compiler_core::corefn::number::number_without_separators;

#[test]
fn collects_comments_before_the_module_header() {
    let source = "-- line\n{- block {- nested -} end -}\nmodule Main where\n-- declaration";

    assert_eq!(
        leading_comments(source),
        vec![
            Comment::LineComment(" line".to_owned()),
            Comment::BlockComment(" block {- nested -} end ".to_owned()),
        ]
    );
}

#[test]
fn unterminated_block_comment_runs_to_the_end() {
    assert_eq!(
        leading_comments("  {- open {- inner -}"),
        vec![Comment::BlockComment(" open {- inner -}".to_owned())]
    );
    assert_eq!(leading_comments("module Main where\n-- later"), vec![]);
    assert_eq!(leading_comments(""), vec![]);
    assert_eq!(leading_comments("--"), vec![Comment::LineComment(String::new())]);
    assert_eq!(
        leading_comments("\u{3000}-- wide\r\n"),
        vec![Comment::LineComment(" wide\r".to_owned())]
    );
}

#[test]
fn module_names_round_trip_through_dotted_form() {
    let name = ModuleName::from_dotted("Test.Main");
    assert_eq!(name, ModuleName(vec!["Test".to_owned(), "Main".to_owned()]));
    assert_eq!(name.to_dotted(), "Test.Main");
    assert_eq!(ModuleName::from_dotted("Main").0, vec!["Main".to_owned()]);
    assert_eq!(ModuleName::from_dotted("A..B").0, vec!["A".to_owned(), String::new(), "B".to_owned()]);
    assert_eq!(ModuleName::from_dotted("A..B").to_dotted(), "A..B");
    assert_eq!(ModuleName::from_dotted("").0, vec![String::new()]);
}

#[test]
fn annotations_and_spans() {
    let span = SourceSpan::null();
    assert_eq!(span, SourceSpan { start: SourcePosition([0, 0]), end: SourcePosition([0, 0]) });
    let annotation = Annotation::new(span.clone());
    assert_eq!(annotation.meta, None);
    let meta = Meta::IsConstructor { constructor_type: ConstructorType::ProductType, identifiers: vec![] };
    let annotation = Annotation::with_meta(span, meta.clone());
    assert_eq!(annotation.meta, Some(meta));
}

fn variable(name: &str) -> Expression {
    Expression::Var {
        annotation: Annotation::new(SourceSpan::null()),
        value: Qualified::BySourcePosition {
            source_position: SourcePosition([1, 1]),
            identifier: Identifier(name.to_string()),
        },
    }
}

#[test]
fn case_alternatives_record_whether_they_are_guarded() {
    let binder = Binder::NullBinder { annotation: Annotation::new(SourceSpan::null()) };
    let unguarded = CaseAlternative::unguarded(vec![binder], variable("x"));
    assert!(matches!(unguarded, CaseAlternative::Unguarded { is_guarded: false, .. }));

    let literal = Binder::LiteralBinder {
        annotation: Annotation::new(SourceSpan::null()),
        literal: Literal::BooleanLiteral(true),
    };
    let guarded = CaseAlternative::guarded(
        vec![literal],
        vec![GuardedExpression { guard: variable("p"), expression: variable("y") }],
    );
    assert!(matches!(guarded, CaseAlternative::Guarded { is_guarded: true, .. }));
}

#[test]
fn number_literals_lose_their_separators() {
    assert_eq!(number_without_separators("1_000.25e-2"), "1000.25e-2");
    assert_eq!(number_without_separators("42"), "42");
    assert_eq!(number_without_separators("_1__2_"), "12");
    assert_eq!(number_without_separators(""), "");
}
