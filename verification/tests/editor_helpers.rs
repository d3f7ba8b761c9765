use kimun_editor::editor::{char_col_to_byte, has_trigger_before_cursor, linkable_url, try_build_markdown_link};

#[test]
fn has_trigger_before_cursor_finds_bracket() {
    assert!(has_trigger_before_cursor("hello [[foo", 11));
    assert!(has_trigger_before_cursor("[[a b c", 7));
}

#[test]
fn has_trigger_before_cursor_finds_hashtag() {
    assert!(has_trigger_before_cursor("text #tag", 9));
}

#[test]
fn has_trigger_before_cursor_no_trigger_bails() {
    assert!(!has_trigger_before_cursor("plain prose here", 16));
    assert!(!has_trigger_before_cursor("", 0));
}

#[test]
fn has_trigger_before_cursor_handles_multibyte_no_panic() {
    let line = "你好世界".to_string() + &"a".repeat(80);
    let col = line.chars().count();
    assert!(!has_trigger_before_cursor(&line, col));

    let with_emoji = "🦀".repeat(20) + "[[note";
    let col = with_emoji.chars().count();
    assert!(has_trigger_before_cursor(&with_emoji, col));

    let accented = "é".repeat(100);
    let col = accented.chars().count();
    assert!(!has_trigger_before_cursor(&accented, col));
}

#[test]
fn has_trigger_before_cursor_ignores_chars_after_cursor() {
    assert!(!has_trigger_before_cursor("foo [[bar", 3));
}

#[test]
fn has_trigger_before_cursor_wikilink_with_spaces() {
    assert!(has_trigger_before_cursor("[[my note title", 15));
}

#[test]
fn try_build_markdown_link_wraps_selection_when_clip_is_url() {
    assert_eq!(
        try_build_markdown_link("https://example.com", Some("click here")).as_deref(),
        Some("[click here](https://example.com)"),
    );
}

#[test]
fn try_build_markdown_link_trims_url_whitespace() {
    assert_eq!(
        try_build_markdown_link("  https://example.com\n", Some("link")).as_deref(),
        Some("[link](https://example.com)"),
    );
}

#[test]
fn try_build_markdown_link_returns_none_when_no_selection() {
    assert_eq!(try_build_markdown_link("https://example.com", None), None);
}

#[test]
fn try_build_markdown_link_returns_none_when_not_url() {
    assert_eq!(try_build_markdown_link("plain text", Some("sel")), None);
}

#[test]
fn try_build_markdown_link_returns_none_when_selection_empty() {
    assert_eq!(try_build_markdown_link("https://example.com", Some("")), None);
}

#[test]
fn try_build_markdown_link_escapes_close_bracket_in_selection() {
    assert_eq!(
        try_build_markdown_link("https://example.com", Some("a]b")).as_deref(),
        Some(r"[a\]b](https://example.com)"),
    );
}

#[test]
fn try_build_markdown_link_wraps_ftp_url() {
    assert_eq!(
        try_build_markdown_link("ftp://files.example.com/x", Some("download")).as_deref(),
        Some("[download](ftp://files.example.com/x)"),
    );
}

#[test]
fn try_build_markdown_link_wraps_mailto_url() {
    assert_eq!(
        try_build_markdown_link("mailto:user@example.com", Some("email me")).as_deref(),
        Some("[email me](mailto:user@example.com)"),
    );
}

#[test]
fn linkable_url_accepts_supported_schemes() {
    assert_eq!(linkable_url("https://example.com").as_deref(), Some("https://example.com"));
    assert_eq!(
        linkable_url("http://example.com/path?q=1#frag").as_deref(),
        Some("http://example.com/path?q=1#frag")
    );
    assert_eq!(linkable_url("  https://example.com  ").as_deref(), Some("https://example.com"));
    assert_eq!(linkable_url("ftp://files.example.com/x").as_deref(), Some("ftp://files.example.com/x"));
    assert_eq!(linkable_url("ftps://files.example.com/x").as_deref(), Some("ftps://files.example.com/x"));
    assert_eq!(linkable_url("mailto:user@example.com").as_deref(), Some("mailto:user@example.com"));
    assert_eq!(
        linkable_url("mailto:user@example.com?subject=hi").as_deref(),
        Some("mailto:user@example.com?subject=hi")
    );
}

#[test]
fn linkable_url_rejects_other_schemes_and_plain_text() {
    assert_eq!(linkable_url("file:///etc/passwd"), None);
    assert_eq!(linkable_url("ssh://host"), None);
    assert_eq!(linkable_url("javascript:alert(1)"), None);
    assert_eq!(linkable_url("example.com"), None);
    assert_eq!(linkable_url("not a url"), None);
    assert_eq!(linkable_url(""), None);
    assert_eq!(linkable_url("https://example.com\nmore"), None);
}

#[test]
fn char_col_to_byte_counts_utf8_widths() {
    assert_eq!(char_col_to_byte("wørld", 2), 3);
    assert_eq!(char_col_to_byte("ab", 9), 2);
    assert_eq!(char_col_to_byte("🦀x", 1), 4);
}

#[test]
fn cursor_screen_pos_scrolled_off_top() {
    assert!(kimun_editor::editor::cursor_screen_pos(0, 0, 5, 2, 5, 24).is_none());
}

#[test]
fn cursor_screen_pos_scrolled_off_bottom() {
    assert!(kimun_editor::editor::cursor_screen_pos(0, 100, 0, 0, 0, 10).is_none());
}

#[test]
fn cursor_screen_pos_in_view() {
    assert_eq!(kimun_editor::editor::cursor_screen_pos(7, 12, 10, 2, 5, 24), Some((9, 7)));
}

#[test]
fn is_bulk_ignores_the_cursor_row_only() {
    let a: Vec<String> = vec!["a".into(), "b".into()];
    let b: Vec<String> = vec!["a".into(), "B".into()];
    assert!(!kimun_editor::editor::is_bulk(&a, &b, 1));
    assert!(kimun_editor::editor::is_bulk(&a, &b, 0));
    assert!(kimun_editor::editor::is_bulk(&a, &a[..1], 0));
    let o = kimun_editor::editor::EditOutcome::unchanged();
    assert!(!o.changed && !o.bulk);
}

// ── following a link or a label at the cursor ─────────────────────────────

use kimun_editor::editor::{
    AcceptAction, EditorClaim, FollowTarget, InputInterpreter, LinkSpan, apply_accept_to_textarea, follow_target_at, hash_lines, preview_revision,
    inclusive_visual_range, selection_text, selection_text_in,
};
use kimun_editor::markdown::{LineMarks, ParsedLine};

/// `line` parsed with the label spans the note scanner reports for it.
fn parsed_with_labels(line: &str, labels: &[(usize, usize)]) -> ParsedLine {
    let mut m = LineMarks::none();
    m.labels.extend_from_slice(labels);
    ParsedLine::parse_marked(line, m)
}

#[test]
fn follow_target_at_cursor_returns_label_when_cursor_on_hashtag() {
    let line = "see #rust now";
    let parsed = parsed_with_labels(line, &[(4, 9)]);
    assert_eq!(follow_target_at(line, 5, &[], &parsed), Some(FollowTarget::Label("rust".into())));
}

#[test]
fn follow_target_at_cursor_returns_label_at_hash_char() {
    let line = "see #rust now";
    let parsed = parsed_with_labels(line, &[(4, 9)]);
    assert_eq!(follow_target_at(line, 4, &[], &parsed), Some(FollowTarget::Label("rust".into())));
}

#[test]
fn follow_target_at_cursor_returns_none_outside_hashtag() {
    let line = "see #rust now";
    let parsed = parsed_with_labels(line, &[(4, 9)]);
    assert_eq!(follow_target_at(line, 0, &[], &parsed), None);
}

#[test]
fn follow_target_at_cursor_returns_link_for_wikilink() {
    let line = "open [[my note]] please";
    let links = [LinkSpan { start: 5, end: 16, target: "my note".into() }];
    let result = follow_target_at(line, 7, &links, &ParsedLine::parse(line));
    assert!(matches!(result, Some(FollowTarget::Link(_))), "expected Link variant, got {result:?}");
}

#[test]
fn follow_target_at_cursor_returns_link_for_markdown_link_with_fragment() {
    let line = "[see docs](#section)";
    let links = [LinkSpan { start: 0, end: 20, target: "#section".into() }];
    // A label inside the link, were one ever reported, loses to the link.
    let parsed = parsed_with_labels(line, &[(11, 19)]);
    let cursor = "[see docs](#sec".chars().count();
    let result = follow_target_at(line, cursor, &links, &parsed);
    assert_eq!(result, Some(FollowTarget::Link("#section".into())));
}

#[test]
fn equal_rows_hash_alike_and_a_preview_revision_is_never_zero() {
    let a = vec!["one".to_string(), "two".to_string()];
    let b = a.clone();
    assert_eq!(hash_lines(&a), hash_lines(&b));
    assert_ne!(preview_revision(1, &a), 0);
    assert_eq!(preview_revision(7, &a), preview_revision(7, &b));
}

#[test]
fn the_digest_tells_row_splits_and_revisions_apart() {
    let one = vec!["ab".to_string()];
    let two = vec!["a".to_string(), "b".to_string()];
    let joined_differently = vec!["a".to_string(), "".to_string(), "b".to_string()];
    assert_ne!(hash_lines(&one), hash_lines(&two));
    assert_ne!(hash_lines(&two), hash_lines(&joined_differently));
    assert_ne!(preview_revision(1, &one), preview_revision(2, &one));
}

// ── applying an autocomplete acceptance ───────────────────────────────────

fn rows_of(text: &str) -> Vec<String> {
    text.split('\n').map(String::from).collect()
}

#[test]
fn apply_accept_replaces_and_positions_cursor() {
    let action = AcceptAction { range: 6..8, new_text: "meeting]]".to_string(), new_cursor_byte: 15 };
    let (rows, cursor) = apply_accept_to_textarea(&rows_of("see [[me"), &action).unwrap();
    assert_eq!(rows.join("\n"), "see [[meeting]]");
    assert_eq!(cursor, (0, 15));
}

#[test]
fn apply_accept_replaces_across_multiple_lines_unaffected() {
    let action = AcceptAction { range: 12..14, new_text: "meeting]]".to_string(), new_cursor_byte: 21 };
    let (rows, _) = apply_accept_to_textarea(&rows_of("alpha\nsee [[me"), &action).unwrap();
    assert_eq!(rows.join("\n"), "alpha\nsee [[meeting]]");
}

#[test]
fn an_acceptance_inside_a_char_changes_nothing() {
    // Byte 1 falls inside `é`.
    let action = AcceptAction { range: 1..2, new_text: "x".to_string(), new_cursor_byte: 0 };
    assert!(apply_accept_to_textarea(&rows_of("éa"), &action).is_none());
}

#[test]
fn an_accepted_newline_splits_the_row_and_a_stray_cursor_lands_after_the_insert() {
    let action = AcceptAction { range: 2..2, new_text: "x\ny".to_string(), new_cursor_byte: 99 };
    let (rows, cursor) = apply_accept_to_textarea(&rows_of("abcd"), &action).unwrap();
    assert_eq!(rows, vec!["abx".to_string(), "ycd".to_string()]);
    assert_eq!(cursor, (1, 1));
}

#[test]
fn selection_text_spans_rows_and_skips_empty_or_stray_ranges() {
    let rows = rows_of("hello\nwörld\nend");
    assert_eq!(selection_text_in(&rows, ((0, 3), (1, 2))).as_deref(), Some("lo\nwö"));
    assert_eq!(selection_text_in(&rows, ((1, 1), (1, 1))), None);
    assert_eq!(selection_text_in(&rows, ((1, 2), (0, 3))), None);
    assert_eq!(selection_text_in(&rows, ((0, 0), (5, 0))), None);
    assert_eq!(selection_text_in(&rows, ((0, 9), (1, 0))), None);
    assert_eq!(selection_text(&rows, None), None);
    assert_eq!(selection_text(&rows, Some(((2, 0), (2, 3)))).as_deref(), Some("end"));
}

#[test]
fn a_charwise_selection_takes_the_char_under_its_end() {
    let rows = rows_of("abc\nde");
    assert_eq!(inclusive_visual_range(&rows, Some(((0, 0), (0, 1))), true), Some(((0, 0), (0, 2))));
    assert_eq!(inclusive_visual_range(&rows, Some(((0, 0), (0, 3))), true), Some(((0, 0), (0, 3))));
    assert_eq!(inclusive_visual_range(&rows, Some(((0, 0), (1, 1))), false), Some(((0, 0), (1, 1))));
    assert_eq!(inclusive_visual_range(&rows, Some(((0, 0), (7, 4))), true), Some(((0, 0), (7, 4))));
    assert_eq!(inclusive_visual_range(&rows, None, true), None);
}

#[test]
fn the_find_bar_claims_input_before_the_popup() {
    assert_eq!(EditorClaim::of(true, true), EditorClaim::FindBar);
    assert_eq!(EditorClaim::of(false, true), EditorClaim::Autocomplete);
    assert_eq!(EditorClaim::of(false, false), EditorClaim::Unclaimed);
}

#[test]
fn keys_go_straight_to_the_buffer_by_default() {
    assert_eq!(InputInterpreter::default(), InputInterpreter::Direct);
    assert_ne!(InputInterpreter::default(), InputInterpreter::Vim);
}

// ── routing a key press on the in-process editor ──────────────────────────

use kimun_editor::editor::{EditorKey, EditorKeyCode, KeyMods, TextareaKeyAction, route_textarea_key};

fn key(code: EditorKeyCode, ctrl: bool, shift: bool, alt: bool) -> EditorKey {
    EditorKey { code, mods: KeyMods { ctrl, shift, alt, other: false } }
}

fn ctrl(c: char) -> EditorKey {
    key(EditorKeyCode::Char(c), true, false, false)
}

#[test]
fn clipboard_chords_need_ctrl_alone() {
    assert_eq!(route_textarea_key(ctrl('c')), TextareaKeyAction::Copy);
    assert_eq!(route_textarea_key(ctrl('v')), TextareaKeyAction::Paste);
    assert_eq!(route_textarea_key(ctrl('x')), TextareaKeyAction::Cut);
    let shifted = key(EditorKeyCode::Char('c'), true, true, false);
    assert_eq!(route_textarea_key(shifted), TextareaKeyAction::Plain);
    let mut with_super = ctrl('v');
    with_super.mods.other = true;
    assert_eq!(route_textarea_key(with_super), TextareaKeyAction::Plain);
}

#[test]
fn undo_and_redo_chords() {
    assert_eq!(route_textarea_key(ctrl('z')), TextareaKeyAction::Undo);
    assert_eq!(route_textarea_key(ctrl('y')), TextareaKeyAction::Redo);
    assert_eq!(route_textarea_key(key(EditorKeyCode::Char('Z'), true, true, false)), TextareaKeyAction::Redo);
    assert_eq!(route_textarea_key(key(EditorKeyCode::Char('z'), true, true, false)), TextareaKeyAction::Plain);
    assert_eq!(route_textarea_key(key(EditorKeyCode::Char('z'), true, false, true)), TextareaKeyAction::Plain);
}

#[test]
fn tab_indents_and_shift_tab_dedents() {
    assert_eq!(route_textarea_key(key(EditorKeyCode::Tab, false, false, false)), TextareaKeyAction::Indent { dedent: false });
    assert_eq!(route_textarea_key(key(EditorKeyCode::Tab, false, true, false)), TextareaKeyAction::Indent { dedent: true });
    assert_eq!(route_textarea_key(key(EditorKeyCode::BackTab, false, true, false)), TextareaKeyAction::Indent { dedent: true });
    assert_eq!(route_textarea_key(key(EditorKeyCode::Tab, true, false, false)), TextareaKeyAction::Plain);
    assert_eq!(route_textarea_key(key(EditorKeyCode::Tab, false, false, true)), TextareaKeyAction::Plain);
}

#[test]
fn only_a_bare_enter_tries_smart_enter() {
    assert_eq!(route_textarea_key(key(EditorKeyCode::Enter, false, false, false)), TextareaKeyAction::SmartEnter);
    assert_eq!(route_textarea_key(key(EditorKeyCode::Enter, false, true, false)), TextareaKeyAction::Plain);
}

#[test]
fn surround_chars_claim_bare_and_shifted_presses() {
    assert_eq!(route_textarea_key(key(EditorKeyCode::Char('('), false, true, false)), TextareaKeyAction::Surround('('));
    assert_eq!(route_textarea_key(key(EditorKeyCode::Char('*'), false, false, false)), TextareaKeyAction::Surround('*'));
    assert_eq!(route_textarea_key(key(EditorKeyCode::Char(')'), false, true, false)), TextareaKeyAction::Plain);
    assert_eq!(route_textarea_key(key(EditorKeyCode::Char('['), false, false, true)), TextareaKeyAction::Plain);
    assert_eq!(route_textarea_key(key(EditorKeyCode::Char('a'), false, false, false)), TextareaKeyAction::Plain);
    assert_eq!(route_textarea_key(key(EditorKeyCode::Other, false, false, false)), TextareaKeyAction::Plain);
}

#[test]
fn an_off_screen_cursor_needs_no_room_on_screen() {
    assert!(kimun_editor::editor::cursor_screen_pos(100, 0, 5, u16::MAX, u16::MAX, 24).is_none());
    assert!(kimun_editor::editor::cursor_screen_pos(100, 50, 0, u16::MAX, u16::MAX, 10).is_none());
}
