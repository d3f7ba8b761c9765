use kimun_editor::markdown::{LineMarks, MarkdownSpanner, ParsedLine};

#[test]
fn mapping_a_column_inside_a_link_does_not_reveal_it() {
    let line = "[[note]] x";
    // The note index reports the wikilink `[[note]]` at chars 0..8.
    let mut marks = LineMarks::none();
    marks.wikilinks.push((0, 8));
    let parsed = ParsedLine::parse_marked(line, marks);

    let collapsed = MarkdownSpanner::rendered_col_with_reveal(line, &parsed, 0, 2, None, true, false);
    assert_eq!(collapsed, 0, "with the caret away, the hidden `[[` occupies no screen columns");

    let revealed = MarkdownSpanner::rendered_col_with_reveal(line, &parsed, 0, 2, Some(2), true, false);
    assert_eq!(revealed, 2, "the caret's own element renders raw");

    assert_eq!(MarkdownSpanner::rendered_cursor_col_with(line, &parsed, 0, 2, true, false), revealed);
}

#[test]
fn click_maps_over_revealed_blockquote_marker_on_cursor_row() {
    assert_eq!(MarkdownSpanner::rendered_col_to_logical("> hi", 0, 0, true, false), 0);
    assert_eq!(MarkdownSpanner::rendered_col_to_logical("> hi", 0, 2, true, false), 2);
}

#[test]
fn blockquote_marker_visible_only_when_cursor_on_line() {
    let with_cursor = MarkdownSpanner::visible_positions("> hi", Some(2), false);
    assert_eq!(&with_cursor[0..2], &[true, true]);
    let no_cursor = MarkdownSpanner::visible_positions("> hi", None, false);
    assert_eq!(&no_cursor[0..2], &[false, false]);
}

#[test]
fn blockquote_marker_stays_visible_when_cursor_in_inner_element() {
    let vis = MarkdownSpanner::visible_positions("> **b**", Some(4), false);
    assert_eq!(&vis[0..2], &[true, true]);
}

#[test]
fn cursor_advances_over_blockquote_marker_on_its_line() {
    let col = MarkdownSpanner::rendered_cursor_col("> ", 0, 2, true, false);
    assert_eq!(col, 2);
}

fn check_placeholder_width() {
    let line = "a ![](x.png) b";
    let mut marks = LineMarks::none();
    marks.images.push((2, 12, "x.png".to_string()));
    let parsed = ParsedLine::parse_marked(line, marks);
    let after_placeholder =
        MarkdownSpanner::rendered_cursor_col_with(line, &parsed, 0, "a ![](x.png) b".chars().count(), true, false);
    assert_eq!(after_placeholder, 11);
}

#[test]
fn markdown_rendered_cursor_col_accounts_for_placeholder_width() {
    check_placeholder_width();
}

#[test]
fn mod_rendered_cursor_col_accounts_for_placeholder_width() {
    check_placeholder_width();
}

fn check_heading_trailing_spaces() {
    let line = "# Hello   ";
    let col = MarkdownSpanner::rendered_cursor_col(line, 0, 9, true, false);
    assert_eq!(col, 9, "cursor in trailing space of heading should map to rendered col 9");
}

#[test]
fn markdown_heading_trailing_spaces_cursor_col_correct() {
    check_heading_trailing_spaces();
}

#[test]
fn mod_heading_trailing_spaces_cursor_col_correct() {
    check_heading_trailing_spaces();
}

fn check_trailing_spaces() {
    let line = "hello   ";
    let col = MarkdownSpanner::rendered_cursor_col(line, 0, 7, true, false);
    assert_eq!(col, 7);
}

#[test]
fn markdown_trailing_spaces_cursor_col_correct() {
    check_trailing_spaces();
}

#[test]
fn mod_trailing_spaces_cursor_col_correct() {
    check_trailing_spaces();
}

fn check_wikilink_cursor_col() {
    let col = MarkdownSpanner::rendered_cursor_col("[[Hi]]", 0, 2, true, false);
    assert_eq!(col, 2);
    let col2 = MarkdownSpanner::rendered_cursor_col("See [[Hi]] x", 0, 0, true, false);
    assert_eq!(col2, 0);
}

#[test]
fn markdown_wikilink_cursor_col_accounts_for_brackets() {
    check_wikilink_cursor_col();
}

#[test]
fn mod_wikilink_cursor_col_accounts_for_brackets() {
    check_wikilink_cursor_col();
}

#[test]
fn force_raw_expands_tabs_both_ways() {
    assert_eq!(MarkdownSpanner::rendered_cursor_col("\tx", 0, 1, true, true), 4);
    assert_eq!(MarkdownSpanner::rendered_cursor_col("\tx", 0, 2, true, true), 5);
    assert_eq!(MarkdownSpanner::rendered_col_to_logical("\tx", 0, 4, true, true), 1);
    assert_eq!(MarkdownSpanner::rendered_col_to_logical("\tx", 0, 0, true, true), 0);
}

#[test]
fn bold_sigils_hidden_off_caret_and_shown_on_it() {
    // "**b** c": the `**` pairs are hidden unless the caret is in the element.
    let away = MarkdownSpanner::visible_positions("**b** c", None, false);
    assert_eq!(away, vec![false, false, true, false, false, true, true]);
    let on = MarkdownSpanner::visible_positions("**b** c", Some(2), false);
    assert_eq!(on, vec![true; 7]);
    // Rendered column of the `c` with the caret away: "b c" → 2.
    assert_eq!(MarkdownSpanner::rendered_col_with_reveal("**b** c", &ParsedLine::parse("**b** c"), 0, 6, None, true, false), 2);
    // And back: rendered col 2 is logical col 6.
    assert_eq!(MarkdownSpanner::rendered_col_to_logical("**b** c", 0, 2, true, false), 6);
}

#[test]
fn horizontal_rule_maps_columns_one_to_one() {
    assert_eq!(MarkdownSpanner::rendered_cursor_col("---", 1, 3, true, false), 2);
    assert_eq!(MarkdownSpanner::rendered_col_to_logical("***", 1, 1, true, false), 2);
    assert_eq!(MarkdownSpanner::visible_positions("___", None, false), vec![true; 3]);
}

#[test]
fn fully_concealed_row_reveals_whole_on_caret() {
    // `[](u)` conceals every char; with the caret on the row it draws in full.
    let on = MarkdownSpanner::visible_positions("[](u)", Some(5), false);
    assert_eq!(on, vec![true; 5]);
}

#[test]
fn rendered_column_never_moves_left() {
    let line = "a **bold** [x](u) end";
    let parsed = ParsedLine::parse(line);
    let mut prev = 0;
    for c in 0..=line.chars().count() {
        let col = MarkdownSpanner::rendered_col_with_reveal(line, &parsed, 0, c, None, true, false);
        assert!(col >= prev);
        prev = col;
    }
    assert_eq!(prev, "a bold x end".chars().count());
}

#[test]
fn a_drawn_column_maps_back_to_itself() {
    let line = "a **b** c";
    let parsed = ParsedLine::parse(line);
    for c in [0usize, 1, 4, 7, 8, 9] {
        let r = MarkdownSpanner::rendered_col_with_reveal(line, &parsed, 0, c, None, true, false);
        assert_eq!(MarkdownSpanner::rendered_col_to_logical_with(line, &parsed, 0, r, None, true, false), c);
    }
    // A hidden sigil maps to the drawn char after it.
    let r = MarkdownSpanner::rendered_col_with_reveal(line, &parsed, 0, 2, None, true, false);
    assert_eq!(MarkdownSpanner::rendered_col_to_logical_with(line, &parsed, 0, r, None, true, false), 4);
    // Raw rows: every boundary round-trips, tabs included.
    for c in [0usize, 1, 2] {
        let r = MarkdownSpanner::rendered_col_with_reveal("\tx", &parsed, 0, c, None, true, true);
        assert_eq!(MarkdownSpanner::rendered_col_to_logical_with("\tx", &parsed, 0, r, None, true, true), c);
    }
}
