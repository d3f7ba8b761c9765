use kimun_editor::indent::{Caret, indent_lines};

fn rows(t: &[&str]) -> Vec<String> {
    t.iter().map(|s| s.to_string()).collect()
}

#[test]
fn hard_tab_indent_adds_one_tab_and_moves_the_cursor_by_one() {
    let out = indent_lines(&rows(&["a", "b"]), Caret::Cursor(1, 1), 4, true, false);
    assert_eq!(out.lines, rows(&["a", "\tb"]));
    assert_eq!(out.caret, Caret::Cursor(1, 2));
    assert!(out.changed);
}

#[test]
fn hard_tab_dedent_removes_a_tab_but_never_spaces() {
    let out = indent_lines(&rows(&["\t\tx", "  y"]), Caret::Selection(0, 0, 1, 3), 4, true, true);
    assert_eq!(out.lines, rows(&["\tx", "  y"]));
    assert!(out.changed);
}

#[test]
fn a_selection_ending_at_column_zero_leaves_that_row_alone() {
    let out = indent_lines(&rows(&["a", "b", "c"]), Caret::Selection(0, 0, 1, 0), 2, false, false);
    assert_eq!(out.lines, rows(&["  a", "b", "c"]));
    assert_eq!(out.caret, Caret::Selection(0, 2, 1, 0));
}

#[test]
fn dedent_moves_a_column_left_but_not_below_zero() {
    let out = indent_lines(&rows(&["    abc"]), Caret::Cursor(0, 2), 4, false, true);
    assert_eq!(out.lines, rows(&["abc"]));
    assert_eq!(out.caret, Caret::Cursor(0, 0));
    let out = indent_lines(&rows(&["      abc"]), Caret::Cursor(0, 7), 4, false, true);
    assert_eq!(out.lines, rows(&["  abc"]));
    assert_eq!(out.caret, Caret::Cursor(0, 3));
}

#[test]
fn dedent_stops_at_the_first_tab_or_text() {
    let out = indent_lines(&rows(&[" \t x", "  x"]), Caret::Selection(0, 0, 1, 1), 4, false, true);
    assert_eq!(out.lines, rows(&[" x", "x"]));
}

#[test]
fn a_zero_width_step_changes_nothing() {
    let lines = rows(&["  a"]);
    let out = indent_lines(&lines, Caret::Cursor(0, 1), 0, false, false);
    assert_eq!(out.lines, lines);
    assert_eq!(out.caret, Caret::Cursor(0, 1));
    assert!(!out.changed);
}
