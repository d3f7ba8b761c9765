use kimun_editor::find_bar::split_for_bar;
use kimun_editor::find_bar::{
    BarField, BarFocus, BarKey, BarRequest, FindBar, KeyOutcome, SearchStatus, SearchStep,
};

/// A plain buffer with the bar open over it: the editor's part of the
/// protocol. It performs what the bar requests (hold a search pattern,
/// search, apply a replacement) and reports back what came of it.
struct Editor {
    rows: Vec<String>,
    cursor: (usize, usize),
    search_pattern: String,
    bar: FindBar,
}

fn editor(text: &str) -> Editor {
    Editor {
        rows: text.split('\n').map(String::from).collect(),
        cursor: (0, 0),
        search_pattern: String::new(),
        bar: FindBar::new(),
    }
}

fn byte_of(line: &str, col: usize) -> usize {
    line.char_indices().nth(col).map_or(line.len(), |(b, _)| b)
}

fn col_of(line: &str, byte: usize) -> usize {
    line[..byte].chars().count()
}

impl Editor {
    fn text(&self) -> String {
        self.rows.join("\n")
    }

    /// The match starting at the cursor, as a span.
    fn match_at_cursor(&self) -> Option<((usize, usize), (usize, usize))> {
        let re = regex::Regex::new(&self.search_pattern).ok()?;
        let (r, c) = self.cursor;
        let line = &self.rows[r];
        let m = re.find_at(line, byte_of(line, c))?;
        if m.start() != byte_of(line, c) {
            return None;
        }
        Some(((r, c), (r, col_of(line, m.end()))))
    }

    /// A forward or backward search from the cursor, wrapping around.
    fn search(&mut self, step: SearchStep) -> bool {
        if self.search_pattern.is_empty() {
            return false;
        }
        let Ok(re) = regex::Regex::new(&self.search_pattern) else {
            return false;
        };
        let mut all: Vec<(usize, usize)> = Vec::new();
        for (r, line) in self.rows.iter().enumerate() {
            for m in re.find_iter(line) {
                all.push((r, col_of(line, m.start())));
            }
        }
        let here = self.cursor;
        let found = if step.backward {
            all.iter().rev().find(|&&p| p < here).or(all.last()).copied()
        } else {
            all.iter().find(|&&p| if step.at_cursor { p >= here } else { p > here }).or(all.first()).copied()
        };
        match found {
            Some(p) => {
                self.cursor = p;
                true
            }
            None => false,
        }
    }

    fn perform(&mut self, req: BarRequest) {
        match req {
            BarRequest::Nothing | BarRequest::Undo | BarRequest::Redo => {}
            BarRequest::Refresh(pr) => {
                self.search_pattern = pr.pattern;
                if let Some(step) = pr.step {
                    self.step(step);
                }
            }
            BarRequest::Step(step) => self.step(step),
            BarRequest::Replace(plan, step) => {
                self.rows = plan.after;
                self.cursor = (plan.row, plan.start_col + plan.expanded.chars().count());
                if let Some(step) = step {
                    self.step(step);
                }
            }
            BarRequest::ReplaceAll(plan) => {
                self.rows = plan.lines;
                self.cursor = plan.cursor;
            }
        }
    }

    fn step(&mut self, step: SearchStep) {
        let found = self.search(step);
        let at = self.match_at_cursor();
        self.bar.step_landed(found, at);
    }

    fn key(&mut self, key: BarKey) -> KeyOutcome {
        let rows = self.rows.clone();
        let (out, req) = self.bar.handle_key(key, &rows, self.cursor);
        self.perform(req);
        out
    }

    /// Types `c` into the focused field.
    fn type_char(&mut self, c: char) {
        let f = self.bar.focused_input_mut();
        let mut value = f.value.clone();
        value.push(c);
        let cursor = value.chars().count();
        self.key(BarKey::Edited(BarField { value, cursor }));
    }

    fn paste(&mut self, text: &str) {
        let rows = self.rows.clone();
        if let Some(pr) = self.bar.paste(text, &rows) {
            self.perform(BarRequest::Refresh(pr));
        }
    }

    fn preview(&self) -> Option<kimun_editor::find_replace::Preview> {
        self.bar.preview(&self.rows)
    }
}

/// Open the bar, type `pattern`, reveal the replace field, type
/// `replacement`.
fn open_replace_bar(ed: &mut Editor, pattern: &str, replacement: &str) {
    for c in pattern.chars() {
        ed.type_char(c);
    }
    ed.key(BarKey::Tab);
    for c in replacement.chars() {
        ed.type_char(c);
    }
}

#[test]
fn open_or_advance_search_opens_find_bar_with_empty_query() {
    let ed = editor("hello world");
    assert!(ed.bar.input.is_empty());
    assert!(matches!(ed.bar.status, SearchStatus::Empty));
}

#[test]
fn tab_reveals_the_replace_field_and_then_cycles_focus() {
    let mut ed = editor("todo");
    assert!(!ed.bar.is_replacing());
    ed.key(BarKey::Tab);
    assert!(ed.bar.is_replacing());
    assert_eq!(ed.bar.focus, BarFocus::Find);
    ed.key(BarKey::Tab);
    assert_eq!(ed.bar.focus, BarFocus::Replace);
    ed.key(BarKey::Tab);
    assert_eq!(ed.bar.focus, BarFocus::Find);
}

#[test]
fn typing_in_the_replace_field_does_not_touch_the_buffer() {
    let mut ed = editor("todo and todo");
    open_replace_bar(&mut ed, "todo", "done");
    assert_eq!(ed.text(), "todo and todo");
}

#[test]
fn enter_replaces_the_current_match_and_advances() {
    let mut ed = editor("todo and todo");
    open_replace_bar(&mut ed, "todo", "done");
    ed.key(BarKey::Submit { shift: false });
    assert_eq!(ed.text(), "done and todo");
    assert_eq!(ed.cursor, (0, 9));
    assert_eq!(ed.bar.match_count, 1);
}

#[test]
fn ctrl_a_replaces_every_match() {
    let mut ed = editor("todo and todo\nmore todo");
    open_replace_bar(&mut ed, "todo", "done");
    ed.key(BarKey::ReplaceAll);
    assert_eq!(ed.text(), "done and done\nmore done");
}

#[test]
fn replace_all_keeps_the_reading_position() {
    let mut ed = editor("todo\nxx\ntodo\nyy");
    open_replace_bar(&mut ed, "todo", "done");
    ed.cursor = (3, 1);
    ed.key(BarKey::ReplaceAll);
    assert_eq!(ed.text(), "done\nxx\ndone\nyy");
    assert_eq!(ed.cursor.0, 3);
}

#[test]
fn an_empty_replacement_arms_before_it_deletes() {
    let mut ed = editor("todo and todo");
    open_replace_bar(&mut ed, "todo ", "");
    ed.key(BarKey::ReplaceAll);
    assert_eq!(ed.text(), "todo and todo");
    assert!(ed.bar.armed_empty);
    ed.key(BarKey::ReplaceAll);
    assert_eq!(ed.text(), "and todo");
}

#[test]
fn esc_disarms_an_empty_replace_all_without_closing_the_bar() {
    let mut ed = editor("todo");
    open_replace_bar(&mut ed, "todo", "");
    ed.key(BarKey::ReplaceAll);
    let out = ed.key(BarKey::Cancel);
    assert!(!out.close);
    assert!(!ed.bar.armed_empty);
    assert_eq!(ed.text(), "todo");
    assert!(ed.key(BarKey::Cancel).close);
}

#[test]
fn smartcase_drives_both_the_count_and_the_replace() {
    let mut ed = editor("todo Todo TODO");
    open_replace_bar(&mut ed, "todo", "x");
    assert_eq!(ed.bar.match_count, 3);
    ed.key(BarKey::ReplaceAll);
    assert_eq!(ed.text(), "x x x");
}

#[test]
fn an_uppercase_pattern_is_case_sensitive() {
    let mut ed = editor("todo Todo TODO");
    open_replace_bar(&mut ed, "Todo", "x");
    assert_eq!(ed.bar.match_count, 1);
    ed.key(BarKey::ReplaceAll);
    assert_eq!(ed.text(), "todo x TODO");
}

#[test]
fn the_preview_substitutes_lines_without_writing_them() {
    let mut ed = editor("todo and todo");
    open_replace_bar(&mut ed, "todo", "done");
    let preview = ed.preview().expect("a preview must be built");
    assert_eq!(preview.lines, vec!["done and done".to_string()]);
    assert_eq!(preview.spans.len(), 2);
    assert!(preview.spans.iter().any(|s| s.is_current));
    assert_eq!(ed.text(), "todo and todo");
}

#[test]
fn a_deletion_preview_still_marks_the_current_match() {
    let mut ed = editor("todo and todo");
    open_replace_bar(&mut ed, "todo", "");
    let preview = ed.preview().expect("a preview must be built");
    assert_eq!(preview.lines, vec![" and ".to_string()]);
    let current = preview.spans.iter().find(|s| s.is_current).expect("the current match stays flagged");
    assert_eq!(current.start, current.end);
}

#[test]
fn a_multi_row_selection_cannot_derail_an_interactive_replace() {
    let mut ed = editor("alpha beta\nxy");
    open_replace_bar(&mut ed, "beta", "Z");
    ed.key(BarKey::Submit { shift: false });
    assert_eq!(ed.text(), "alpha Z\nxy");
}

#[test]
fn no_preview_without_a_replace_field() {
    let mut ed = editor("todo");
    for c in "todo".chars() {
        ed.type_char(c);
    }
    assert!(ed.preview().is_none());
}

#[test]
fn capture_expansion_is_gated_on_the_pattern_capturing() {
    let mut ed = editor("cost");
    open_replace_bar(&mut ed, "cost", "$1");
    ed.key(BarKey::ReplaceAll);
    assert_eq!(ed.text(), "$1");
}

#[test]
fn paste_goes_into_the_focused_bar_field() {
    let mut ed = editor("todo");
    open_replace_bar(&mut ed, "todo", "");
    ed.paste("done");
    assert_eq!(ed.text(), "todo");
    assert_eq!(ed.bar.replacement(), "done");
}

#[test]
fn a_multiline_paste_collapses_to_its_first_line() {
    let mut ed = editor("x");
    ed.paste("first\nsecond");
    assert_eq!(ed.bar.input.value, "first");
}

#[test]
fn a_paste_keeps_a_bare_carriage_return_and_drops_one_before_a_newline() {
    for text in ["x\r", "a\r\nb", "x\ry", "\r\n", ""] {
        let mut ed = editor("x");
        ed.paste(text);
        assert_eq!(ed.bar.input.value, text.lines().next().unwrap_or(""), "{text:?}");
    }
}

// ── the bar on its own ─────────────────────────────────────────────────────

#[test]
fn search_status_follows_what_a_search_found() {
    assert_eq!(SearchStatus::from_found(true), SearchStatus::Match);
    assert_eq!(SearchStatus::from_found(false), SearchStatus::NoMatch);
}

#[test]
fn the_bar_takes_two_rows_only_while_replacing() {
    let mut bar = FindBar::new();
    assert_eq!(bar.rows(), 1);
    bar.reveal_replace();
    assert_eq!(bar.rows(), 2);
}

#[test]
fn an_invalid_query_clears_the_pattern_and_says_why() {
    let mut ed = editor("a(b");
    ed.type_char('(');
    assert!(ed.bar.pattern().is_none());
    assert_eq!(ed.bar.match_count, 0);
    assert!(matches!(ed.bar.status, SearchStatus::Invalid(_)));
    assert_eq!(ed.search_pattern, "");
}

#[test]
fn a_query_without_matches_reports_no_match() {
    let mut ed = editor("abc");
    ed.type_char('z');
    assert_eq!(ed.bar.status, SearchStatus::NoMatch);
    assert_eq!(ed.bar.current_match(), None);
    assert_eq!(ed.search_pattern, "(?i)z");
}

#[test]
fn shift_enter_steps_backward_while_finding() {
    let mut ed = editor("ab ab ab");
    ed.type_char('a');
    ed.type_char('b');
    assert_eq!(ed.cursor, (0, 0));
    ed.key(BarKey::Submit { shift: false });
    assert_eq!(ed.cursor, (0, 3));
    ed.key(BarKey::Submit { shift: true });
    assert_eq!(ed.cursor, (0, 0));
    assert_eq!(ed.bar.current_match(), Some(((0, 0), (0, 2))));
}

#[test]
fn a_replace_plan_needs_the_cursor_on_a_match_start() {
    let mut ed = editor("xx todo");
    open_replace_bar(&mut ed, "todo", "done");
    assert!(ed.bar.plan_replace_current(&ed.rows, (0, 4)).is_none());
    let plan = ed.bar.plan_replace_current(&ed.rows, (0, 3)).unwrap();
    assert_eq!((plan.row, plan.start_col, plan.end_col), (0, 3, 7));
    assert_eq!(plan.expanded, "done");
    assert_eq!(plan.after, vec!["xx done".to_string()]);
}

#[test]
fn overlay_shows_matches_while_finding_and_the_preview_while_replacing() {
    let mut ed = editor("ab ab");
    ed.type_char('b');
    let o = ed.bar.overlay(&ed.rows);
    assert!(o.preview.is_none());
    assert_eq!(o.matches, vec![(0, 1, 2), (0, 4, 5)]);
    ed.key(BarKey::Tab);
    ed.type_char('X');
    let o = ed.bar.overlay(&ed.rows);
    assert_eq!(o.preview.unwrap().lines, vec!["aX aX".to_string()]);
    assert!(o.matches.is_empty());
}

#[test]
fn undo_and_redo_go_to_the_buffer() {
    let mut bar = FindBar::new();
    let rows = vec!["x".to_string()];
    assert!(matches!(bar.handle_key(BarKey::Undo, &rows, (0, 0)).1, BarRequest::Undo));
    assert!(matches!(bar.handle_key(BarKey::Redo, &rows, (0, 0)).1, BarRequest::Redo));
    bar.after_history_step(&rows, Some(((0, 0), (0, 1))));
    assert_eq!(bar.current_match(), Some(((0, 0), (0, 1))));
}

// ── searching from the bar ─────────────────────────────────────────────────

/// What re-invoking search on an open bar does: step forward.
fn open_or_advance(ed: &mut Editor) {
    if let Some(step) = ed.bar.advance(false) {
        ed.perform(BarRequest::Step(step));
    }
}

#[test]
fn open_or_advance_search_advances_when_already_open() {
    let mut ed = editor("ab ab ab");
    ed.type_char('a');
    ed.type_char('b');
    open_or_advance(&mut ed);
    assert_eq!(ed.cursor.1, 3);
}

#[test]
fn typing_in_find_bar_jumps_cursor_to_first_match() {
    let mut ed = editor("foo bar baz");
    for ch in ['b', 'a', 'r'] {
        ed.type_char(ch);
    }
    assert_eq!(ed.bar.input.value, "bar");
    assert!(matches!(ed.bar.status, SearchStatus::Match));
    assert_eq!(ed.cursor.1, 4);
}

#[test]
fn enter_in_find_bar_advances_to_next_match() {
    let mut ed = editor("ab ab ab");
    ed.type_char('a');
    ed.type_char('b');
    ed.key(BarKey::Submit { shift: false });
    assert_eq!(ed.cursor.1, 3);
}

#[test]
fn match_is_highlighted_as_selection_after_search() {
    let mut ed = editor("foo bar baz");
    for ch in ['b', 'a', 'r'] {
        ed.type_char(ch);
    }
    assert_eq!(ed.bar.current_match(), Some(((0, 4), (0, 7))));
}

#[test]
fn no_match_clears_selection() {
    let mut ed = editor("hello");
    ed.type_char('z');
    assert_eq!(ed.bar.current_match(), None);
}

#[test]
fn esc_in_find_bar_clears_selection_highlight() {
    let mut ed = editor("foo bar");
    for ch in ['b', 'a', 'r'] {
        ed.type_char(ch);
    }
    assert!(ed.bar.current_match().is_some());
    assert!(ed.key(BarKey::Cancel).close);
}

#[test]
fn esc_in_find_bar_closes_it() {
    let mut ed = editor("hello");
    assert!(ed.key(BarKey::Cancel).close);
}

#[test]
fn find_bar_consumes_typing_so_editor_text_is_unchanged() {
    let mut ed = editor("hello");
    ed.type_char('x');
    assert_eq!(ed.text(), "hello");
}

#[test]
fn no_match_status_when_query_absent() {
    let mut ed = editor("hello");
    ed.type_char('z');
    assert!(matches!(ed.bar.status, SearchStatus::NoMatch));
}

#[test]
fn the_bar_takes_its_rows_from_the_bottom_and_is_never_squeezed_out() {
    assert_eq!(split_for_bar(0, 10, 1), (9, Some((9, 1))));
    assert_eq!(split_for_bar(3, 10, 2), (8, Some((11, 2))));
    assert_eq!(split_for_bar(0, 1, 2), (0, Some((0, 1))));
    assert_eq!(split_for_bar(0, 10, 0), (10, None));
    assert_eq!(split_for_bar(0, 0, 1), (0, None));
}
