use compiler_core::documenting::annotation::{
    documentation_line_content, extract_annotation, signature_equation_documentation,
};

#[test]
fn documentation_lines_lose_their_marker() {
    assert_eq!(documentation_line_content("-- | Hello"), Some("Hello".to_string()));
    assert_eq!(documentation_line_content("   --   |  indented  "), Some(" indented".to_string()));
    assert_eq!(documentation_line_content("--|"), Some(String::new()));
    assert_eq!(documentation_line_content("-- plain comment"), None);
    assert_eq!(documentation_line_content("value = 1"), None);
}

#[test]
fn annotations_join_their_documentation_lines() {
    let text = "-- | First line.\n-- | Second line.\n-- not documentation\n-- |\n";
    assert_eq!(extract_annotation(text), Some("First line.\nSecond line.\n".to_string()));
    assert_eq!(extract_annotation("-- plain\n"), None);
    assert_eq!(extract_annotation(""), None);
}

#[test]
fn equation_documentation_used_when_signature_has_none() {
    let equation = extract_annotation("-- | Equation documentation.\n");
    assert_eq!(
        signature_equation_documentation(Some(""), equation.as_deref()),
        "Equation documentation."
    );
}

#[test]
fn signature_documentation_is_preferred() {
    assert_eq!(signature_equation_documentation(Some("Signature."), Some("Equation.")), "Signature.");
    assert_eq!(signature_equation_documentation(None, Some("Equation.")), "Equation.");
    assert_eq!(signature_equation_documentation(Some(""), None), "");
    assert_eq!(signature_equation_documentation(None, None), "");
}

#[test]
fn constructor_documentation_lines_are_extracted() {
    assert_eq!(
        extract_annotation("  -- | `Nothing` is `null`.\n"),
        Some("`Nothing` is `null`.".to_string())
    );
    assert_eq!(
        extract_annotation("  -- | `Just x` is the non-null value `x`.\n"),
        Some("`Just x` is the non-null value `x`.".to_string())
    );
}
