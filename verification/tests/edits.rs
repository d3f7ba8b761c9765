use kimun_editor::markdown_edits::{
    EnterAction, TextAction, apply_enter, emphasis_marker, increment_ordered_marker, insert_pair, jump_to_heading, smart_enter,
    surround_pair, wrap_selection,
};

fn check_surround_pair() {
    assert_eq!(surround_pair('('), Some(("(", ")")));
    assert_eq!(surround_pair('['), Some(("[", "]")));
    assert_eq!(surround_pair('{'), Some(("{", "}")));
    assert_eq!(surround_pair('<'), Some(("<", ">")));
    assert_eq!(surround_pair('"'), Some(("\"", "\"")));
    assert_eq!(surround_pair('\''), Some(("'", "'")));
    assert_eq!(surround_pair('`'), Some(("`", "`")));
    assert_eq!(surround_pair('*'), Some(("*", "*")));
    assert_eq!(surround_pair('_'), Some(("_", "_")));
    assert_eq!(surround_pair('~'), Some(("~", "~")));
    assert_eq!(surround_pair(')'), None);
    assert_eq!(surround_pair(']'), None);
    assert_eq!(surround_pair('}'), None);
    assert_eq!(surround_pair('>'), None);
    assert_eq!(surround_pair('a'), None);
}

#[test]
fn markdown_edits_surround_pair_maps_open_and_symmetric_chars() {
    check_surround_pair();
}

#[test]
fn mod_surround_pair_maps_open_and_symmetric_chars() {
    check_surround_pair();
}

#[test]
fn emphasis_marker_covers_bold_italic_and_strikethrough_only() {
    assert_eq!(emphasis_marker(TextAction::Bold), Some("**"));
    assert_eq!(emphasis_marker(TextAction::Italic), Some("*"));
    assert_eq!(emphasis_marker(TextAction::Strikethrough), Some("~~"));
    assert_eq!(emphasis_marker(TextAction::Underline), None);
    assert_eq!(emphasis_marker(TextAction::Link), None);
    assert_eq!(emphasis_marker(TextAction::Image), None);
    assert_eq!(emphasis_marker(TextAction::ToggleHeader), None);
    assert_eq!(emphasis_marker(TextAction::Header(1)), None);
}

#[test]
fn wrap_reselects_the_inner_text_so_wraps_chain() {
    let (text, sel) = wrap_selection("[", "]", Some(((0, 0), (0, 7))), Some("my note")).unwrap();
    assert_eq!(text, "[my note]");
    assert_eq!(sel, ((0, 1), (0, 8)));
    let (text2, sel2) = wrap_selection("[", "]", Some(sel), Some("my note")).unwrap();
    assert_eq!(text2, "[my note]");
    assert_eq!(sel2, ((0, 2), (0, 9)));
    assert!(wrap_selection("[", "]", None, None).is_none());
}

#[test]
fn insert_pair_steps_back_over_the_close_half() {
    assert_eq!(insert_pair("**", "**"), ("****".to_string(), 2));
}

#[test]
fn ordered_markers_increment() {
    assert_eq!(increment_ordered_marker("3. ").as_deref(), Some("4. "));
    assert_eq!(increment_ordered_marker("9. ").as_deref(), Some("10. "));
    assert_eq!(increment_ordered_marker("- "), None);
    assert_eq!(increment_ordered_marker("99999999999. "), None);
}

fn prefix(a: EnterAction) -> Option<String> {
    match a {
        EnterAction::InsertPrefix(p) => Some(p),
        _ => None,
    }
}

#[test]
fn smart_enter_continues_lists_and_indents() {
    assert_eq!(prefix(smart_enter("- item", 6, false, 4, false)).as_deref(), Some("- "));
    assert_eq!(prefix(smart_enter("  3. item", 9, false, 4, false)).as_deref(), Some("  4. "));
    assert_eq!(prefix(smart_enter("    code", 8, false, 4, false)).as_deref(), Some("    "));
    assert!(matches!(smart_enter("- ", 2, false, 4, false), EnterAction::ClearRow { chars: 2 }));
    assert!(matches!(smart_enter("  - ", 4, false, 4, false), EnterAction::Dedent));
    assert!(matches!(smart_enter("    ", 4, false, 4, false), EnterAction::Dedent));
    assert!(matches!(smart_enter("plain", 5, false, 4, false), EnterAction::Decline));
    assert!(matches!(smart_enter("- item", 3, false, 4, false), EnterAction::Decline));
    assert!(matches!(smart_enter("- item", 6, true, 4, false), EnterAction::Decline));
    assert!(matches!(smart_enter("    ", 4, false, 0, false), EnterAction::Decline));
    assert!(matches!(smart_enter("  - ", 4, false, 0, false), EnterAction::Decline));
    assert!(matches!(smart_enter("\t", 1, false, 0, true), EnterAction::Dedent));
    assert!(matches!(smart_enter("  ", 2, false, 0, true), EnterAction::Decline));
}

#[test]
fn jump_to_heading_normalises_both_sides() {
    let rows: Vec<String> = vec!["intro".into(), "## **Setup** ##".into(), "# Setup".into()];
    assert_eq!(jump_to_heading(&rows, "Setup"), Some(1));
    assert_eq!(jump_to_heading(&rows, "Missing"), None);
}

// ── a plain buffer driven by the library's edit decisions ─────────────────

use kimun_editor::editor::{EditOutcome, is_bulk};
use kimun_editor::indent::{Caret, indent_lines};

type Pos = (usize, usize);

/// Rows, a cursor, a selection anchor and an indent width: each operation
/// below asks the library what to do and applies its answer here.
struct Buf {
    rows: Vec<String>,
    cursor: Pos,
    anchor: Option<Pos>,
    indent_width: usize,
    /// The rows as of the last outcome taken.
    measured: Vec<String>,
}

fn buffer(text: &str) -> Buf {
    let rows: Vec<String> = text.split('\n').map(String::from).collect();
    Buf { measured: rows.clone(), rows, cursor: (0, 0), anchor: None, indent_width: 4 }
}

/// A buffer with the cursor at the very end of its text.
fn at_end(text: &str) -> Buf {
    let mut buf = buffer(text);
    let last = buf.rows.len() - 1;
    buf.cursor = (last, buf.rows[last].chars().count());
    buf
}

fn text(buf: &Buf) -> String {
    buf.rows.join("\n")
}

impl Buf {
    /// What the edits since the last call did, measured on the rows.
    fn take_outcome(&mut self) -> EditOutcome {
        let out = EditOutcome {
            changed: self.rows != self.measured,
            bulk: is_bulk(&self.measured, &self.rows, self.cursor.0),
        };
        self.measured = self.rows.clone();
        out
    }

    fn offset(&self, (r, c): Pos) -> usize {
        self.rows[..r].iter().map(|l| l.chars().count() + 1).sum::<usize>() + c
    }

    fn pos_of(&self, mut off: usize) -> Pos {
        for (r, l) in self.rows.iter().enumerate() {
            let n = l.chars().count();
            if off <= n {
                return (r, off);
            }
            off -= n + 1;
        }
        (self.rows.len() - 1, self.rows.last().map_or(0, |l| l.chars().count()))
    }

    fn selection_range(&self) -> Option<(Pos, Pos)> {
        self.anchor.map(|a| if a <= self.cursor { (a, self.cursor) } else { (self.cursor, a) })
    }

    fn selection_text(&self) -> Option<String> {
        let (s, e) = self.selection_range()?;
        let all: Vec<char> = text(self).chars().collect();
        let t: String = all[self.offset(s)..self.offset(e)].iter().collect();
        if t.is_empty() { None } else { Some(t) }
    }

    fn set_selection(&mut self, start: Pos, end: Pos) -> bool {
        self.anchor = Some(start);
        self.cursor = end;
        true
    }

    fn start_selection(&mut self) {
        self.anchor = Some(self.cursor);
    }

    fn jump_to(&mut self, row: usize, col: usize) -> bool {
        if row < self.rows.len() && col <= self.rows[row].chars().count() {
            self.cursor = (row, col);
            true
        } else {
            false
        }
    }

    fn head(&mut self) {
        self.cursor.1 = 0;
    }

    fn end(&mut self) {
        self.cursor.1 = self.rows[self.cursor.0].chars().count();
    }

    /// Past the rest of the word under the cursor and the blanks after it.
    fn word_forward(&mut self) {
        let cs: Vec<char> = self.rows[self.cursor.0].chars().collect();
        let mut c = self.cursor.1;
        while c < cs.len() && !cs[c].is_whitespace() {
            c += 1;
        }
        while c < cs.len() && cs[c].is_whitespace() {
            c += 1;
        }
        self.cursor.1 = c;
    }

    /// Replaces chars `from..to` of the whole text by `s`, the cursor
    /// landing after it.
    fn splice(&mut self, from: usize, to: usize, s: &str) {
        let mut all: Vec<char> = text(self).chars().collect();
        all.splice(from..to, s.chars());
        let joined: String = all.into_iter().collect();
        self.rows = joined.split('\n').map(String::from).collect();
        self.cursor = self.pos_of(from + s.chars().count());
        self.anchor = None;
    }

    fn insert_str(&mut self, s: &str) {
        let at = self.offset(self.cursor);
        self.splice(at, at, s);
    }

    fn caret(&self) -> Caret {
        match self.selection_range() {
            Some(((sr, sc), (er, ec))) => Caret::Selection(sr, sc, er, ec),
            None => Caret::Cursor(self.cursor.0, self.cursor.1),
        }
    }

    /// One indent step over the rows the caret covers.
    fn indent(&mut self, dedent: bool) -> bool {
        let out = indent_lines(&self.rows, self.caret(), self.indent_width, false, dedent);
        self.rows = out.lines;
        match out.caret {
            Caret::Selection(sr, sc, er, ec) => {
                self.anchor = Some((sr, sc));
                self.cursor = (er, ec);
            }
            Caret::Cursor(r, c) => self.cursor = (r, c),
        }
        out.changed
    }
}

/// Wraps the selection as the library says and reselects the inner text.
fn wrap(buf: &mut Buf, open: &str, close: &str) -> bool {
    let sel = buf.selection_range();
    let Some((replacement, (start, end))) = wrap_selection(open, close, sel, buf.selection_text().as_deref()) else {
        return false;
    };
    let (s, e) = sel.unwrap();
    let (from, to) = (buf.offset(s), buf.offset(e));
    buf.splice(from, to, &replacement);
    buf.set_selection(start, end)
}

fn pair(buf: &mut Buf, open: &str, close: &str) {
    let (s, back) = insert_pair(open, close);
    buf.insert_str(&s);
    buf.cursor.1 -= back;
}

/// Smart Enter as the library decides and applies it.
fn enter(buf: &mut Buf) -> bool {
    let wide = buf.selection_range().is_some_and(|(s, e)| s != e);
    let (row, col) = buf.cursor;
    let action = smart_enter(&buf.rows[row], col, wide, buf.indent_width, false);
    let handled = !matches!(action, EnterAction::Decline);
    let before = buf.rows.clone();
    let (rows, caret) = apply_enter(&buf.rows, row, col, &action, buf.indent_width, false);
    if matches!(action, EnterAction::Dedent) {
        assert_ne!(rows, before, "a decided dedent removes something");
    }
    if handled {
        buf.rows = rows;
        buf.cursor = caret;
        buf.anchor = None;
    } else {
        assert_eq!(rows, before);
        assert_eq!(caret, (row, col));
    }
    handled
}

/// Smart Enter as the editor applies it.
fn editor_enter(buf: &mut Buf) -> bool {
    enter(buf)
}

fn heading(buf: &mut Buf, h: &str) -> bool {
    match jump_to_heading(&buf.rows, h) {
        Some(r) => buf.jump_to(r, 0),
        None => false,
    }
}

#[test]
fn wrap_spans_a_multi_row_selection() {
    let mut buf = buffer("abc\ndef");
    assert!(buf.set_selection((0, 0), (1, 3)));
    assert!(wrap(&mut buf, "(", ")"));
    assert_eq!(text(&buf), "(abc\ndef)");
    assert_eq!(buf.selection_range(), Some(((0, 1), (1, 3))));
}

#[test]
fn wrap_counts_columns_in_chars() {
    let mut buf = buffer("héllo🦀 x");
    assert!(buf.set_selection((0, 0), (0, 6)));
    assert!(wrap(&mut buf, "`", "`"));
    assert_eq!(text(&buf), "`héllo🦀` x");
    assert_eq!(buf.selection_range(), Some(((0, 1), (0, 7))));
}

#[test]
fn wrap_handles_a_selection_made_right_to_left() {
    let mut buf = buffer("hello world");
    assert!(buf.jump_to(0, 5));
    buf.start_selection();
    assert!(buf.jump_to(0, 0));
    assert!(wrap(&mut buf, "(", ")"));
    assert_eq!(text(&buf), "(hello) world");
    assert_eq!(buf.selection_range(), Some(((0, 1), (0, 6))));
}

#[test]
fn wrap_uses_a_word_selection_as_it_stands() {
    let mut buf = buffer("hello world");
    buf.head();
    buf.start_selection();
    buf.word_forward();
    assert!(wrap(&mut buf, "~~", "~~"));
    assert_eq!(text(&buf), "~~hello ~~world");
}

#[test]
fn wrap_handles_a_non_ascii_selection() {
    let mut buf = buffer("hello 你好 world");
    buf.head();
    buf.word_forward();
    buf.start_selection();
    buf.word_forward();
    assert!(wrap(&mut buf, "**", "**"));
    assert_eq!(text(&buf), "hello **你好 **world");
}

#[test]
fn wrap_without_a_selection_touches_nothing() {
    let mut buf = at_end("hello");
    assert!(!wrap(&mut buf, "(", ")"));
    assert_eq!(text(&buf), "hello");
    assert!(!buf.take_outcome().changed);
}

#[test]
fn a_zero_width_selection_does_not_wrap() {
    let mut buf = buffer("hello");
    assert!(buf.jump_to(0, 2));
    buf.start_selection();
    assert!(!wrap(&mut buf, "(", ")"));
    assert_eq!(text(&buf), "hello");
}

#[test]
fn insert_pair_leaves_the_cursor_between_the_markers() {
    let mut buf = at_end("hello");
    pair(&mut buf, "**", "**");
    assert_eq!(text(&buf), "hello****");
    assert_eq!(buf.cursor, (0, 7));
}

#[test]
fn insert_pair_with_a_single_char_marker() {
    let mut buf = buffer("");
    pair(&mut buf, "*", "*");
    assert_eq!(text(&buf), "**");
    assert_eq!(buf.cursor, (0, 1));
}

#[test]
fn smart_enter_continues_an_unordered_list() {
    let mut buf = at_end("- foo");
    assert!(enter(&mut buf));
    assert_eq!(text(&buf), "- foo\n- ");
}

#[test]
fn smart_enter_increments_an_ordered_list() {
    let mut buf = at_end("1. foo");
    assert!(enter(&mut buf));
    assert_eq!(text(&buf), "1. foo\n2. ");
}

#[test]
fn smart_enter_continues_an_indented_list() {
    let mut buf = at_end("  - foo");
    assert!(enter(&mut buf));
    assert_eq!(text(&buf), "  - foo\n  - ");
}

#[test]
fn smart_enter_continues_a_list_with_non_ascii_content() {
    let mut buf = at_end("- 你好");
    assert!(enter(&mut buf));
    assert_eq!(text(&buf), "- 你好\n- ");
}

#[test]
fn smart_enter_on_an_empty_list_marker_clears_the_row() {
    let mut buf = at_end("- ");
    assert!(enter(&mut buf));
    assert_eq!(text(&buf), "");
}

#[test]
fn smart_enter_on_an_empty_indented_list_marker_dedents_keeping_the_marker() {
    let mut buf = at_end("    - ");
    assert!(enter(&mut buf));
    assert_eq!(text(&buf), "- ");
}

#[test]
fn smart_enter_clears_an_empty_list_marker_once_fully_dedented() {
    let mut buf = at_end("    - ");
    assert!(enter(&mut buf));
    assert_eq!(text(&buf), "- ");
    buf.end();
    assert!(enter(&mut buf));
    assert_eq!(text(&buf), "");
}

#[test]
fn smart_enter_carries_the_indent() {
    let mut buf = at_end("    body");
    assert!(enter(&mut buf));
    assert_eq!(text(&buf), "    body\n    ");
}

#[test]
fn smart_enter_carries_an_existing_tab_indent() {
    let mut buf = at_end("\tbody");
    assert!(enter(&mut buf));
    assert_eq!(text(&buf), "\tbody\n\t");
}

#[test]
fn smart_enter_on_an_indent_only_row_dedents() {
    let mut buf = at_end("    ");
    assert!(enter(&mut buf));
    assert_eq!(text(&buf), "");
}

#[test]
fn smart_enter_on_a_tab_only_row_dedents_one_tab() {
    let mut buf = at_end("\t\t");
    assert!(enter(&mut buf));
    assert_eq!(text(&buf), "\t");
}

#[test]
fn a_zero_width_step_makes_smart_enter_decline_rather_than_swallow_enter() {
    let mut buf = at_end("    ");
    buf.indent_width = 0;
    assert!(!enter(&mut buf));
    assert_eq!(text(&buf), "    ");
}

#[test]
fn smart_enter_declines_a_plain_row() {
    let mut buf = at_end("plain");
    assert!(!enter(&mut buf));
    assert_eq!(text(&buf), "plain");
}

#[test]
fn smart_enter_declines_mid_row() {
    let mut buf = buffer("- foo");
    assert!(buf.jump_to(0, 2));
    assert!(!enter(&mut buf));
    assert_eq!(text(&buf), "- foo");
}

#[test]
fn smart_enter_declines_a_selection_of_width() {
    let mut buf = at_end("- foo");
    assert!(buf.set_selection((0, 0), (0, 2)));
    assert!(!enter(&mut buf));
    assert_eq!(text(&buf), "- foo");
}

#[test]
fn a_zero_width_selection_does_not_stop_smart_enter() {
    let mut buf = at_end("- foo");
    buf.start_selection();
    assert!(enter(&mut buf));
    assert_eq!(text(&buf), "- foo\n- ");
}

#[test]
fn jump_to_heading_finds_any_level_and_normalises_markup() {
    let mut buf = buffer("intro\n# Top\nbody\n## **Sub** One ##\nmore\n");
    assert!(heading(&mut buf, "Sub One"));
    assert_eq!(buf.cursor, (3, 0));
    assert!(heading(&mut buf, "Top"));
    assert_eq!(buf.cursor, (1, 0));
}

#[test]
fn an_unknown_heading_leaves_the_cursor_where_it_was() {
    let mut buf = buffer("intro\n# Top\nbody");
    assert!(buf.jump_to(2, 1));
    assert!(!heading(&mut buf, "Nope"));
    assert_eq!(buf.cursor, (2, 1));
}

#[test]
fn a_hash_inside_a_row_is_not_a_heading() {
    let mut buf = buffer("see #tag here\n# Real");
    assert!(heading(&mut buf, "Real"));
    assert_eq!(buf.cursor, (1, 0));
    assert!(!heading(&mut buf, "tag here"));
}

// ── the editor's Enter, Tab and heading jump over the same buffer ─────────

#[test]
fn jump_to_heading_moves_cursor_to_heading_line() {
    let mut buf = buffer("intro\n# Top\nbody\n## Sub One\nmore\n");
    heading(&mut buf, "Sub One");
    assert_eq!(buf.cursor.0, 3);
    heading(&mut buf, "Top");
    assert_eq!(buf.cursor.0, 1);
    heading(&mut buf, "Nope");
    assert_eq!(buf.cursor.0, 1);
}

#[test]
fn smart_enter_continues_unordered_list() {
    let mut buf = at_end("- foo");
    assert!(editor_enter(&mut buf));
    assert_eq!(text(&buf), "- foo\n- ");
}

#[test]
fn smart_enter_continues_ordered_list_increments() {
    let mut buf = at_end("1. foo");
    assert!(editor_enter(&mut buf));
    assert_eq!(text(&buf), "1. foo\n2. ");
}

#[test]
fn smart_enter_on_empty_list_marker_clears_line() {
    let mut buf = at_end("- ");
    assert!(editor_enter(&mut buf));
    assert_eq!(text(&buf), "");
}

#[test]
fn smart_enter_preserves_indent() {
    let mut buf = at_end("    body");
    assert!(editor_enter(&mut buf));
    assert_eq!(text(&buf), "    body\n    ");
}

#[test]
fn smart_enter_on_empty_indent_dedents() {
    let mut buf = at_end("    ");
    let tab_len = buf.indent_width;
    assert!(editor_enter(&mut buf));
    assert_eq!(text(&buf), " ".repeat(4usize.saturating_sub(tab_len)));
}

#[test]
fn smart_enter_no_indent_no_marker_returns_false() {
    let mut buf = at_end("plain");
    assert!(!editor_enter(&mut buf));
    assert_eq!(text(&buf), "plain");
}

#[test]
fn smart_enter_mid_line_returns_false() {
    let mut buf = buffer("- foo");
    assert!(buf.jump_to(0, 2));
    assert!(!editor_enter(&mut buf));
}

#[test]
fn smart_enter_on_empty_indented_list_marker_dedents_keeping_marker() {
    let indent = " ".repeat(buffer("").indent_width);
    let mut buf = at_end(&format!("{indent}- "));
    assert!(editor_enter(&mut buf));
    assert_eq!(text(&buf), "- ");
}

#[test]
fn smart_enter_on_empty_list_marker_clears_line_after_full_dedent() {
    let indent = " ".repeat(buffer("").indent_width);
    let mut buf = at_end(&format!("{indent}- "));
    assert!(editor_enter(&mut buf));
    assert_eq!(text(&buf), "- ");
    buf.end();
    assert!(editor_enter(&mut buf));
    assert_eq!(text(&buf), "");
}

#[test]
fn smart_enter_continues_list_with_non_ascii_content() {
    let mut buf = at_end("- 你好");
    assert!(editor_enter(&mut buf));
    assert_eq!(text(&buf), "- 你好\n- ");
}

#[test]
fn smart_enter_preserves_tab_indent() {
    let mut buf = at_end("\tbody");
    assert!(editor_enter(&mut buf));
    assert_eq!(text(&buf), "\tbody\n\t");
}

#[test]
fn smart_enter_on_tab_only_line_dedents() {
    let mut buf = at_end("\t\t");
    assert!(editor_enter(&mut buf));
    assert_eq!(text(&buf), "\t");
}

#[test]
fn smart_enter_continues_indented_list() {
    let mut buf = at_end("  - foo");
    assert!(editor_enter(&mut buf));
    assert_eq!(text(&buf), "  - foo\n  - ");
}

#[test]
fn indent_no_selection_indents_current_line() {
    let mut buf = buffer("foo\nbar");
    buf.cursor = (1, 0);
    buf.indent(false);
    assert_eq!(buf.rows[0], "foo");
    assert!(buf.rows[1].starts_with(' ') || buf.rows[1].starts_with('\t'));
    assert!(buf.rows[1].trim_start() == "bar");
}

#[test]
fn indent_midline_selection_keeps_text_before_and_selection() {
    let mut buf = buffer("hello world");
    assert!(buf.jump_to(0, 6));
    buf.start_selection();
    buf.end();
    buf.indent(false);
    assert_eq!(buf.rows[0].trim_start(), "hello world");
    let indent = buf.rows[0].len() - "hello world".len();
    assert_eq!(buf.selection_range(), Some(((0, 6 + indent), (0, 11 + indent))));
}

#[test]
fn indent_with_selection_indents_all_touched_lines() {
    let mut buf = buffer("foo\nbar\nbaz");
    buf.start_selection();
    buf.cursor = (1, 3);
    buf.indent(false);
    assert_eq!(buf.rows[0].trim_start(), "foo");
    assert_eq!(buf.rows[1].trim_start(), "bar");
    assert_eq!(buf.rows[2], "baz");
    assert!(buf.rows[0].len() > 3);
    assert!(buf.rows[1].len() > 3);
}

#[test]
fn dedent_removes_leading_indent() {
    let mut buf = buffer("    foo\n  bar\nbaz");
    let tab_len = buf.indent_width;
    buf.start_selection();
    buf.cursor = (2, 3);
    buf.indent(true);
    assert_eq!(buf.rows[0], format!("{}foo", " ".repeat(4 - tab_len.min(4))));
    assert_eq!(buf.rows[1], format!("{}bar", " ".repeat(2usize.saturating_sub(tab_len))));
    assert_eq!(buf.rows[2], "baz");
}

#[test]
fn dedent_no_leading_whitespace_is_noop_for_that_line() {
    let mut buf = buffer("foo");
    assert!(!buf.indent(true));
    assert_eq!(text(&buf), "foo");
}

// ── typed brackets and emphasis actions on a selection ────────────────────

/// The rows as they were loaded differ from the rows now.
fn is_dirty(buf: &Buf, loaded: &str) -> bool {
    text(buf) != loaded
}

fn select_range(buf: &mut Buf, start: Pos, end: Pos) {
    buf.anchor = Some(start);
    buf.cursor = end;
}

/// A typed char: a bracket or emphasis char wraps a selection; anything
/// else replaces the selection, or is inserted at the cursor.
fn send_char(buf: &mut Buf, c: char) {
    if let Some((open, close)) = surround_pair(c) {
        if wrap(buf, open, close) {
            return;
        }
    }
    let s = c.to_string();
    match buf.selection_range() {
        Some((a, b)) if a != b => {
            let (from, to) = (buf.offset(a), buf.offset(b));
            buf.splice(from, to, &s);
        }
        _ => {
            buf.anchor = None;
            buf.insert_str(&s);
        }
    }
}

/// Bold, italic and strikethrough wrap the selection, or insert an empty
/// pair of markers around the cursor; other actions do nothing.
fn apply_text_action(buf: &mut Buf, action: TextAction) {
    let Some(marker) = emphasis_marker(action) else {
        return;
    };
    if wrap(buf, marker, marker) {
        return;
    }
    buf.anchor = None;
    pair(buf, marker, marker);
}

#[test]
fn typing_open_paren_with_selection_wraps_it() {
    let mut buf = buffer("hello world");
    select_range(&mut buf, (0, 0), (0, 5));
    send_char(&mut buf, '(');
    assert_eq!(text(&buf), "(hello) world");
    assert!(is_dirty(&buf, "hello world"), "wrap must mark the buffer dirty");
}

#[test]
fn wrap_keeps_selection_on_inner_text() {
    let mut buf = buffer("hello world");
    select_range(&mut buf, (0, 0), (0, 5));
    send_char(&mut buf, '(');
    assert_eq!(buf.selection_range(), Some(((0, 1), (0, 6))));
}

#[test]
fn chained_brackets_build_a_wikilink() {
    let mut buf = buffer("my note");
    select_range(&mut buf, (0, 0), (0, 7));
    send_char(&mut buf, '[');
    send_char(&mut buf, '[');
    assert_eq!(text(&buf), "[[my note]]");
    assert_eq!(buf.selection_range(), Some(((0, 2), (0, 9))));
}

#[test]
fn symmetric_chars_wrap_and_chain() {
    let mut buf = buffer("bold");
    select_range(&mut buf, (0, 0), (0, 4));
    send_char(&mut buf, '*');
    assert_eq!(text(&buf), "*bold*");
    send_char(&mut buf, '*');
    assert_eq!(text(&buf), "**bold**");
    assert_eq!(buf.selection_range(), Some(((0, 2), (0, 6))));
}

#[test]
fn closing_char_replaces_selection() {
    let mut buf = buffer("hello world");
    select_range(&mut buf, (0, 0), (0, 5));
    send_char(&mut buf, ')');
    assert_eq!(text(&buf), ") world");
}

#[test]
fn open_char_without_selection_inserts_normally() {
    let mut buf = buffer("hello");
    buf.end();
    send_char(&mut buf, '(');
    assert_eq!(text(&buf), "hello(");
}

#[test]
fn wrap_spans_multiline_selection() {
    let mut buf = buffer("abc\ndef");
    select_range(&mut buf, (0, 0), (1, 3));
    send_char(&mut buf, '(');
    assert_eq!(text(&buf), "(abc\ndef)");
    assert_eq!(buf.selection_range(), Some(((0, 1), (1, 3))));
}

#[test]
fn wrap_handles_multibyte_selection() {
    let mut buf = buffer("héllo🦀 x");
    select_range(&mut buf, (0, 0), (0, 6));
    send_char(&mut buf, '`');
    assert_eq!(text(&buf), "`héllo🦀` x");
    assert_eq!(buf.selection_range(), Some(((0, 1), (0, 7))));
}

#[test]
fn wrap_with_reversed_selection_direction() {
    let mut buf = buffer("hello world");
    select_range(&mut buf, (0, 5), (0, 0));
    send_char(&mut buf, '(');
    assert_eq!(text(&buf), "(hello) world");
    assert_eq!(buf.selection_range(), Some(((0, 1), (0, 6))));
}

#[test]
fn text_action_keeps_selection_on_inner_text() {
    let mut buf = buffer("bold word");
    select_range(&mut buf, (0, 0), (0, 4));
    apply_text_action(&mut buf, TextAction::Bold);
    assert_eq!(text(&buf), "**bold** word");
    assert_eq!(buf.selection_range(), Some(((0, 2), (0, 6))));
}

#[test]
fn bold_action_with_no_selection_inserts_pair_and_centers_cursor() {
    let mut buf = buffer("hello");
    buf.end();
    apply_text_action(&mut buf, TextAction::Bold);
    assert_eq!(text(&buf), "hello****");
    assert_eq!(buf.cursor, (0, 7));
}

#[test]
fn italic_action_with_no_selection_inserts_single_pair() {
    let mut buf = buffer("");
    apply_text_action(&mut buf, TextAction::Italic);
    assert_eq!(text(&buf), "**");
    assert_eq!(buf.cursor, (0, 1));
}

#[test]
fn strikethrough_action_with_selection_wraps_text() {
    let mut buf = buffer("hello world");
    buf.head();
    buf.start_selection();
    buf.word_forward();
    apply_text_action(&mut buf, TextAction::Strikethrough);
    assert_eq!(text(&buf), "~~hello ~~world");
}

#[test]
fn bold_action_wraps_non_ascii_selection() {
    let mut buf = buffer("hello 你好 world");
    buf.head();
    buf.word_forward();
    buf.start_selection();
    buf.word_forward();
    apply_text_action(&mut buf, TextAction::Bold);
    assert_eq!(text(&buf), "hello **你好 **world");
}

#[test]
fn bold_action_wraps_selected_text() {
    let mut buf = buffer("foo bar");
    buf.head();
    buf.start_selection();
    buf.word_forward();
    apply_text_action(&mut buf, TextAction::Bold);
    assert_eq!(text(&buf), "**foo **bar");
}

#[test]
fn unsupported_text_action_is_noop() {
    let mut buf = buffer("hello");
    apply_text_action(&mut buf, TextAction::Underline);
    assert_eq!(text(&buf), "hello");
}


// ── what an edit measured ──────────────────────────────────────────────────

#[test]
fn a_cursor_only_edit_reports_no_change() {
    let mut b = buffer("todo");
    b.end();
    assert_eq!(b.take_outcome(), EditOutcome::unchanged());
}

#[test]
fn an_edit_on_the_cursor_row_is_not_bulk() {
    let mut b = buffer("aaa\nbbb\nccc");
    assert!(b.jump_to(1, 0));
    b.insert_str("x");
    let out = b.take_outcome();
    assert!(out.changed);
    assert!(!out.bulk, "a keystroke is exactly what the damage hint assumes");
}

#[test]
fn an_edit_reaching_past_the_cursor_row_is_bulk() {
    let mut b = buffer("todo\nx\ntodo");
    assert!(b.jump_to(2, 0));
    let end = b.offset((2, 4));
    b.splice(0, end, "done\nx\ndone");
    assert!(b.take_outcome().bulk, "rows the cursor does not point at also changed");
}

#[test]
fn a_line_count_change_is_bulk() {
    let mut b = buffer("a");
    b.end();
    b.insert_str("\n");
    assert!(b.take_outcome().bulk);
}

#[test]
fn a_zero_width_selection_is_not_wrapped() {
    assert!(wrap_selection("(", ")", Some(((0, 3), (0, 3))), Some("")).is_none());
    assert!(wrap_selection("(", ")", Some(((1, 0), (1, 0))), None).is_none());
}

#[test]
fn applying_enter_gives_the_rows_and_the_caret() {
    let rows: Vec<String> = vec!["a".into(), "- item".into(), "z".into()];
    let (r, c) = apply_enter(&rows, 1, 6, &EnterAction::InsertPrefix("- ".into()), 4, false);
    assert_eq!(r, vec!["a".to_string(), "- item".into(), "- ".into(), "z".into()]);
    assert_eq!(c, (2, 2));
    let (r, c) = apply_enter(&rows, 1, 3, &EnterAction::InsertPrefix("".into()), 4, false);
    assert_eq!(r, vec!["a".to_string(), "- i".into(), "tem".into(), "z".into()]);
    assert_eq!(c, (2, 0));
    let rows: Vec<String> = vec!["- ".into()];
    assert_eq!(apply_enter(&rows, 0, 2, &EnterAction::ClearRow { chars: 2 }, 4, false), (vec![String::new()], (0, 0)));
    let rows: Vec<String> = vec!["      ".into()];
    assert_eq!(apply_enter(&rows, 0, 6, &EnterAction::Dedent, 4, false), (vec!["  ".to_string()], (0, 2)));
    let rows: Vec<String> = vec!["x".into()];
    assert_eq!(apply_enter(&rows, 0, 1, &EnterAction::Decline, 4, false), (rows.clone(), (0, 1)));
}
