use kimun_editor::markdown::block_opener::{OpenerShape, opener_shape};

#[test]
fn indented_code_detects_tab_and_4_spaces() {
    assert!(opener_shape("\tcode").indented_code);
    assert!(opener_shape("    code").indented_code);
    assert!(opener_shape("     code").indented_code);
    assert!(!opener_shape("   code").indented_code);
    assert!(!opener_shape("code").indented_code);
}

#[test]
fn indented_code_rejects_whitespace_only() {
    // Whitespace-only lines never open indented code in pulldown's
    // tokenization, so the predicate requires non-whitespace content
    // after the 4+ space (or tab) prefix.
    assert!(!opener_shape("    ").indented_code);
    assert!(!opener_shape("     ").indented_code);
    assert!(!opener_shape("\t").indented_code);
    assert!(!opener_shape("\t   ").indented_code);
    assert!(opener_shape("    x").indented_code);
    assert!(opener_shape("\tx").indented_code);
}

#[test]
fn list_marker_recognizes_pulldown_pattern() {
    // A marker followed by ONLY whitespace is a paragraph, not a list.
    assert!(opener_shape("* a").list_marker);
    assert!(opener_shape("- a").list_marker);
    assert!(opener_shape("+ a").list_marker);
    assert!(opener_shape("1. a").list_marker);
    assert!(opener_shape("12) a").list_marker);
    assert!(opener_shape("   * a").list_marker);
    assert!(!opener_shape("*").list_marker);
    assert!(!opener_shape("* ").list_marker);
    assert!(!opener_shape("*     ").list_marker);
    assert!(!opener_shape("1.").list_marker);
    assert!(!opener_shape("1. ").list_marker);
    assert!(!opener_shape("    * a").list_marker); // 4-space indent = code
    assert!(!opener_shape("1234567890. a").list_marker); // > 9 digits
}

#[test]
fn blockquote_marker_recognizes_leading_gt() {
    assert!(opener_shape(">").blockquote);
    assert!(opener_shape("> a").blockquote);
    assert!(opener_shape("   > a").blockquote);
    assert!(!opener_shape("    > a").blockquote); // 4-space indent = code
    assert!(!opener_shape("a > b").blockquote);
    assert!(!opener_shape("").blockquote);
}

#[test]
fn html_block_opener_detects_leading_lt() {
    assert!(opener_shape("<div>").html_block);
    assert!(opener_shape("  <div>").html_block);
    assert!(opener_shape("   <table>").html_block);
    assert!(!opener_shape("    <div>").html_block); // 4-space indent = code
    assert!(!opener_shape("text <span>").html_block);
}

#[test]
fn fence_marker_requires_three_run() {
    assert!(opener_shape("```").fence);
    assert!(opener_shape("~~~rust").fence);
    assert!(opener_shape("   ```").fence);
    assert!(!opener_shape("``").fence);
    assert!(!opener_shape("    ```").fence); // 4-space indent = code
    assert!(!opener_shape("``~").fence); // no mixing / short run
}

#[test]
fn setext_underline_all_same_char() {
    assert!(opener_shape("===").setext_underline);
    assert!(opener_shape("---").setext_underline);
    assert!(opener_shape("  ==  ").setext_underline);
    assert!(!opener_shape("=-=").setext_underline);
    assert!(!opener_shape("").setext_underline);
}

#[test]
fn plain_prose_has_no_shape() {
    assert_eq!(opener_shape("just some words"), OpenerShape::default());
    assert_eq!(opener_shape(""), OpenerShape::default());
}

#[test]
fn equality_detects_any_flip() {
    // The guard relies on `!=` catching a flip in any single field.
    assert_ne!(opener_shape("x"), opener_shape("> x")); // blockquote gained
    assert_ne!(opener_shape("x"), opener_shape("- x")); // list gained
    assert_ne!(opener_shape("text"), opener_shape("```")); // fence gained
    // Pure content edit inside a list item: shape unchanged.
    assert_eq!(opener_shape("- a"), opener_shape("- ab"));
}
