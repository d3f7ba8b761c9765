//! The find bar: searching and replacing inside the open buffer.
//!
//! The bar holds its two fields, which of them has the keyboard, the search
//! status, the compiled find pattern with its match count, the current match
//! and the replace-all confirmation. It reads the buffer through its rows and
//! cursor. What it asks of the buffer (hold a search pattern, take a search
//! step, apply an edit, undo) it hands back as a request; the caller performs
//! it and reports what came of it (whether a search found a match, and the
//! match the cursor then sits on).
use vstd::prelude::*;
use crate::editor::char_col_to_byte;
use crate::find_replace::{
    build_preview, expansion_at, count_spec, preview_rows, regex_match_from, row_chars, spans_spec, CapsAt, FindPattern,
    Preview,
};
use crate::text::{bytes_len, char_index_at, char_index_at_byte, chars_of, first_newline, lemma_first_newline_bound, string_from_chars};

verus! {

/// A match or selection: `((start row, start col), (end row, end col))`,
/// columns in chars.
pub type Span = ((usize, usize), (usize, usize));

/// What the editor must do after handing the bar a key.
#[derive(Debug, Clone, Copy, PartialEq, Eq, Structural, Default)]
pub struct KeyOutcome {
    /// The bar is finished; the editor should drop it.
    pub close: bool,
}

/// Everything the bar wants painted this frame.
#[derive(Debug)]
pub struct BarOverlay {
    /// The replace preview, when one is showing.
    pub preview: Option<Preview>,
    /// Find-pattern matches as `(row, start col, end col)`.
    pub matches: Vec<(usize, usize, usize)>,
}

/// Which of the bar's fields owns the keyboard.
#[derive(Debug, Clone, Copy, PartialEq, Eq, Structural)]
pub enum BarFocus {
    Find,
    Replace,
}

/// What the last search found.
#[derive(Debug, Clone, PartialEq, Eq)]
pub enum SearchStatus {
    /// No query.
    Empty,
    Match,
    NoMatch,
    /// The query does not compile; the regex error's message.
    Invalid(String),
}

impl SearchStatus {
    /// `Match` when a search found something, else `NoMatch`.
    pub fn from_found(found: bool) -> (s: SearchStatus)
        ensures
            found ==> s is Match,
            !found ==> s is NoMatch,
    {
        if found {
            SearchStatus::Match
        } else {
            SearchStatus::NoMatch
        }
    }
}

/// A single-line field as the bar reads it: its text and its caret, a char
/// index into the text.
#[derive(Debug)]
pub struct BarField {
    pub value: String,
    pub cursor: usize,
}

impl BarField {
    /// An empty field.
    pub fn new() -> (f: BarField)
        ensures
            f.value@.len() == 0,
            f.cursor == 0,
    {
        BarField { value: String::new(), cursor: 0 }
    }

    pub fn is_empty(&self) -> (b: bool)
        ensures
            b == (self.value@.len() == 0),
    {
        self.value.as_str().is_empty()
    }

    /// The caret lies within the text.
    pub open spec fn wf(&self) -> bool {
        self.cursor <= self.value@.len()
    }
}

/// A search the bar asks the buffer to take: forward or backward from the
/// cursor, and whether a match starting at the cursor itself counts.
#[derive(Debug, Clone, Copy, PartialEq, Eq, Structural)]
pub struct SearchStep {
    pub backward: bool,
    pub at_cursor: bool,
}

/// What a change of the find query asks of the buffer: hold `pattern` as its
/// search pattern (empty: none), then take `step` if there is one.
#[derive(Debug)]
pub struct PatternRefresh {
    pub pattern: String,
    pub step: Option<SearchStep>,
}

/// An interactive replace worked out against the buffer: the match's row
/// and char columns, the replacement text, and the rows afterwards.
#[derive(Debug)]
pub struct ReplacePlan {
    pub row: usize,
    pub start_col: usize,
    pub end_col: usize,
    pub expanded: String,
    pub after: Vec<String>,
}

/// A replace all worked out against the buffer: the rows afterwards, where
/// the cursor goes back to, and how many matches were rewritten.
#[derive(Debug)]
pub struct ReplaceAllPlan {
    pub lines: Vec<String>,
    pub cursor: (usize, usize),
    pub count: usize,
}

/// A key as the bar takes it, after the focused field had its say.
#[derive(Debug)]
pub enum BarKey {
    /// `Tab`: reveal the replace field, then cycle focus.
    Tab,
    /// `Ctrl+A`: replace all.
    ReplaceAll,
    /// `Ctrl+Z`.
    Undo,
    /// `Ctrl+Y` or `Ctrl+Shift+Z`.
    Redo,
    /// `Esc`.
    Cancel,
    /// `Enter`, with whether Shift was held.
    Submit { shift: bool },
    /// The focused field's text changed; its new text and caret.
    Edited(BarField),
    /// Anything else.
    Other,
}

/// What the bar asks of the buffer after a key.
#[derive(Debug)]
pub enum BarRequest {
    Nothing,
    /// Hold a new search pattern, and maybe search.
    Refresh(PatternRefresh),
    /// Search, then report through [`FindBar::step_landed`].
    Step(SearchStep),
    /// Apply the replacement as one undo group, then search.
    Replace(ReplacePlan, Option<SearchStep>),
    /// Rewrite the buffer as one undo group and put the cursor back.
    ReplaceAll(ReplaceAllPlan),
    /// Undo, then report through [`FindBar::after_history_step`].
    Undo,
    /// Redo, then report through [`FindBar::after_history_step`].
    Redo,
}

/// The find bar's state.
#[derive(Debug)]
pub struct FindBar {
    /// The find field.
    pub input: BarField,
    /// The replace field, once revealed: its presence puts the bar in
    /// replace mode.
    pub replace: Option<BarField>,
    pub focus: BarFocus,
    pub status: SearchStatus,
    /// The compiled find pattern; `None` while the query is empty or does
    /// not compile.
    pub pattern: Option<FindPattern>,
    /// Matches across the whole buffer, refreshed with the pattern.
    pub match_count: usize,
    /// The current match: the occurrence the cursor sits on.
    pub current: Option<Span>,
    /// A replace all with an empty replacement was asked for once and waits
    /// for a second press.
    pub armed_empty: bool,
}

/// The first line of `text`: up to its first `\n`, less a `\r` just before
/// that `\n`; the whole text when it holds no `\n`.
pub open spec fn first_line(text: Seq<char>) -> Seq<char> {
    match first_newline(text) {
        Some(i) => {
            let upto = text.take(i);
            if upto.len() > 0 && upto.last() == '\r' {
                upto.drop_last()
            } else {
                upto
            }
        },
        None => text,
    }
}

/// `field` with `text` inserted at its caret, the caret after it.
pub open spec fn inserted(value: Seq<char>, cursor: int, text: Seq<char>) -> (Seq<char>, int) {
    (value.take(cursor) + text + value.skip(cursor), cursor + text.len())
}

/// The rows with row `row`'s bytes `a..b` replaced by `x`.
pub open spec fn replaced_row(rows: Seq<Seq<char>>, row: int, a: int, b: int, x: Seq<char>) -> Seq<Seq<char>> {
    let line = rows[row];
    rows.update(row, line.take(char_index_at_byte(line, a)) + x + line.skip(char_index_at_byte(line, b)))
}

/// The row that stays valid after a replace all, and the cursor's column
/// clamped to it.
pub open spec fn restored_cursor(after: Seq<Seq<char>>, cursor: (usize, usize)) -> (usize, usize) {
    let last = if after.len() >= 1 { after.len() - 1 } else { 0 };
    let row = if cursor.0 < last { cursor.0 as int } else { last };
    let n = after[row].len();
    (row as usize, (if cursor.1 < n { cursor.1 as int } else { n as int }) as usize)
}

/// What refreshing the pattern does: bar `a` becomes `b`, asking `r` of the
/// buffer.
pub open spec fn refresh_post(a: FindBar, b: FindBar, r: PatternRefresh, rows: Seq<String>) -> bool {
    &&& b.wf()
    &&& !b.armed_empty
    &&& b.input == a.input
    &&& b.replace == a.replace
    &&& b.focus == a.focus
    &&& ({
        let q = a.input.value@;
        let ep = crate::find_replace::effective_pattern(q);
        if q.len() == 0 || !crate::find_replace::regex_compiles(ep) {
            &&& b.pattern is None
            &&& b.match_count == 0
            &&& b.current is None
            &&& (if q.len() == 0 { b.status is Empty } else { b.status is Invalid })
            &&& r.pattern@.len() == 0
            &&& r.step is None
        } else {
            &&& b.pattern matches Some(p) && p.pattern() == ep
            &&& b.match_count == count_spec(ep, row_chars(rows))
            &&& r.pattern@ == ep
            &&& (b.match_count == 0 ==> {
                &&& b.status is NoMatch
                &&& b.current is None
                &&& r.step is None
            })
            &&& (b.match_count > 0 ==> {
                &&& b.status == a.status
                &&& b.current == a.current
                &&& r.step == Some(SearchStep { backward: false, at_cursor: true })
            })
        }
    })
}

/// What an interactive replace does: bar `a` becomes `b`, planning `plan`
/// and asking for `step`.
pub open spec fn replace_current_post(a: FindBar, b: FindBar, plan: Option<ReplacePlan>, step: Option<SearchStep>, rows: Seq<String>, cursor: (usize, usize)) -> bool {
    &&& b.wf()
    &&& step == a.advance_spec(false)
    &&& (plan is Some <==> (a.pattern matches Some(p) && on_match(p.pattern(), row_chars(rows), cursor)))
    &&& (plan matches Some(pl) ==> {
        let p = a.pattern.unwrap();
        let (row, sc, ec, x, after) = plan_spec(p.pattern(), p.has_captures_spec(), row_chars(rows), cursor, a.replacement_spec());
        &&& pl.row == row
        &&& pl.start_col == sc
        &&& pl.end_col == ec
        &&& pl.expanded@ == x
        &&& row_chars(pl.after@) == after
        &&& b == (FindBar { match_count: count_spec(p.pattern(), after) as usize, ..a })
    })
    &&& (plan is None ==> b == a)
}

/// What `Ctrl+A` does: bar `a` becomes `b`, planning `r`.
pub open spec fn replace_all_key_post(a: FindBar, b: FindBar, r: Option<ReplaceAllPlan>, rows: Seq<String>, cursor: (usize, usize)) -> bool {
    &&& b.wf()
    &&& ((a.replace is None || a.pattern is None) ==> r is None && b == a)
    &&& ((a.replace is Some && a.pattern is Some && a.replacement_spec().len() == 0 && !a.armed_empty) ==> r is None && b
        == (FindBar { armed_empty: true, ..a }))
    &&& ((a.replace is Some && a.pattern is Some && (a.replacement_spec().len() > 0 || a.armed_empty)) ==> {
        let p = a.pattern.unwrap();
        let (after, count) = replace_all_spec(p.pattern(), p.has_captures_spec(), row_chars(rows), a.replacement_spec());
        &&& !b.armed_empty
        &&& (r is None <==> count == 0)
        &&& (r is None ==> b == (FindBar { armed_empty: false, ..a }))
        &&& (r matches Some(plan) ==> {
            &&& row_chars(plan.lines@) == after
            &&& plan.count == count
            &&& plan.cursor == restored_cursor(after, cursor)
            &&& b == (FindBar { current: None, match_count: count_spec(p.pattern(), after) as usize, armed_empty: false, ..a })
        })
    })
}

impl FindBar {
    /// The pattern, when there is one, is compiled; the fields' carets lie
    /// within their texts.
    pub open spec fn wf(&self) -> bool {
        &&& (self.pattern matches Some(p) ==> p.wf())
        &&& self.input.wf()
        &&& (self.replace matches Some(r) ==> r.wf())
        &&& (self.replace is None ==> self.focus == BarFocus::Find)
    }

    /// The replacement text: the replace field's, empty while it is hidden.
    pub open spec fn replacement_spec(&self) -> Seq<char> {
        match self.replace {
            Some(r) => r.value@,
            None => Seq::empty(),
        }
    }

    /// Whether the keyboard is on the replace field.
    pub open spec fn on_replace(&self) -> bool {
        self.focus == BarFocus::Replace && self.replace is Some
    }

    /// A find-only bar with empty fields and nothing found.
    pub fn new() -> (b: FindBar)
        ensures
            b.wf(),
            b.input.value@.len() == 0,
            b.replace is None,
            b.focus == BarFocus::Find,
            b.status is Empty,
            b.pattern is None,
            b.match_count == 0,
            b.current is None,
            !b.armed_empty,
    {
        FindBar {
            input: BarField::new(),
            replace: None,
            focus: BarFocus::Find,
            status: SearchStatus::Empty,
            pattern: None,
            match_count: 0,
            current: None,
            armed_empty: false,
        }
    }

    /// Reveals the replace field, putting the bar in replace mode. Focus
    /// lands in the find field while the query is still empty.
    pub fn reveal_replace(&mut self)
        requires
            old(self).wf(),
        ensures
            final(self).wf(),
            final(self).replace is Some,
            old(self).replace is Some ==> final(self).replace == old(self).replace,
            old(self).replace is None ==> final(self).replace.unwrap().value@.len() == 0 && final(self).replace.unwrap().cursor == 0,
            final(self).focus == (if old(self).input.value@.len() == 0 { BarFocus::Find } else { BarFocus::Replace }),
            final(self).input == old(self).input,
            final(self).status == old(self).status,
            final(self).pattern == old(self).pattern,
            final(self).match_count == old(self).match_count,
            final(self).current == old(self).current,
            final(self).armed_empty == old(self).armed_empty,
    {
        if self.replace.is_none() {
            self.replace = Some(BarField::new());
        }
        self.focus = if self.input.is_empty() {
            BarFocus::Find
        } else {
            BarFocus::Replace
        };
    }

    /// The current match.
    pub fn current_match(&self) -> (c: Option<Span>)
        ensures
            c == self.current,
    {
        self.current
    }

    /// The compiled find pattern, when the query compiles and is non-empty.
    pub fn pattern(&self) -> (p: Option<&FindPattern>)
        ensures
            p == (match self.pattern {
                Some(q) => Some(&q),
                None => None,
            }),
    {
        self.pattern.as_ref()
    }

    pub fn is_replacing(&self) -> (b: bool)
        ensures
            b == self.replace is Some,
    {
        self.replace.is_some()
    }

    /// The replacement text, `""` while the replace field is hidden.
    pub fn replacement(&self) -> (s: &str)
        ensures
            s@ == self.replacement_spec(),
    {
        match &self.replace {
            Some(r) => r.value.as_str(),
            None => {
                proof {
                    reveal_strlit("");
                }
                ""
            },
        }
    }

    /// Rows the bar occupies: one while finding, two while replacing.
    pub fn rows(&self) -> (n: u16)
        ensures
            n == (if self.replace is Some { 2u16 } else { 1u16 }),
    {
        if self.is_replacing() {
            2
        } else {
            1
        }
    }

    /// The field the keyboard drives.
    pub fn focused_input_mut(&mut self) -> (f: &mut BarField)
        ensures
            *f == (if old(self).on_replace() { old(self).replace.unwrap() } else { old(self).input }),
            old(self).on_replace() ==> *final(self) == (FindBar { replace: Some(*final(f)), ..*old(self) }),
            !old(self).on_replace() ==> *final(self) == (FindBar { input: *final(f), ..*old(self) }),
    {
        if self.focus == BarFocus::Replace && self.replace.is_some() {
            match &mut self.replace {
                Some(r) => r,
                None => &mut self.input,
            }
        } else {
            &mut self.input
        }
    }
}

/// Splits an editor pane of `height` rows starting at row `y` for a find bar
/// wanting `bar_rows` rows at the bottom (none when closed): the bar gets
/// its rows, clamped to the pane so an open bar is always drawn, and the
/// text area what is left. Returns the text area's height and the bar's top
/// row and height, if it has any.
pub fn split_for_bar(y: u16, height: u16, bar_rows: u16) -> (r: (u16, Option<(u16, u16)>))
    requires
        bar_rows > 0 ==> y + height <= u16::MAX,
    ensures
        ({
            let rows = if bar_rows < height { bar_rows } else { height };
            if rows > 0 {
                r == ((height - rows) as u16, Some(((y + height - rows) as u16, rows)))
            } else {
                r == (height, None::<(u16, u16)>)
            }
        }),
{
    let rows = if bar_rows < height { bar_rows } else { height };
    if rows > 0 {
        (height - rows, Some((y + height - rows, rows)))
    } else {
        (height, None)
    }
}

/// The cursor's byte offset in its row.
pub open spec fn cursor_byte(rows: Seq<Seq<char>>, cursor: (usize, usize)) -> int {
    let line = rows[cursor.0 as int];
    bytes_len(line.take(if (cursor.1 as int) < line.len() { cursor.1 as int } else { line.len() as int })) as int
}

/// The match the pattern finds at or after the cursor, in the cursor's row.
pub open spec fn match_at_cursor(p: Seq<char>, rows: Seq<Seq<char>>, cursor: (usize, usize)) -> Option<(usize, usize)> {
    if cursor.0 < rows.len() {
        regex_match_from(p, rows[cursor.0 as int], cursor_byte(rows, cursor))
    } else {
        None
    }
}

/// The cursor sits exactly on the start of a match.
pub open spec fn on_match(p: Seq<char>, rows: Seq<Seq<char>>, cursor: (usize, usize)) -> bool {
    match match_at_cursor(p, rows, cursor) {
        Some(m) => m.0 == cursor_byte(rows, cursor),
        None => false,
    }
}

/// What `plan_replace_current` plans, as plain values: the row, the match's
/// char columns, the replacement and the rows afterwards.
pub open spec fn plan_spec(p: Seq<char>, hc: bool, rows: Seq<Seq<char>>, cursor: (usize, usize), repl: Seq<char>) -> (int, int, int, Seq<char>, Seq<Seq<char>>) {
    let m = match_at_cursor(p, rows, cursor).unwrap();
    let line = rows[cursor.0 as int];
    let x = expansion_at(p, hc, line, CapsAt::From(cursor_byte(rows, cursor) as usize), repl);
    (
        cursor.0 as int,
        cursor.1 as int,
        cursor.1 + (char_index_at_byte(line, m.1 as int) - char_index_at_byte(line, m.0 as int)),
        x,
        replaced_row(rows, cursor.0 as int, m.0 as int, m.1 as int, x),
    )
}

/// The chars of `text` up to its first newline, less a trailing `\r`.
fn first_line_exec(text: &str) -> (out: Vec<char>)
    ensures
        out@ == first_line(text@),
{
    let cs = chars_of(text);
    let mut out: Vec<char> = Vec::new();
    let mut i: usize = 0;
    assert(cs@.skip(0) == cs@);
    while i < cs.len() && cs[i] != '\n'
        invariant
            i <= cs@.len(),
            cs@ == text@,
            out@ == cs@.take(i as int),
            first_newline(cs@) == (match first_newline(cs@.skip(i as int)) {
                Some(j) => Some(j + i),
                None => None,
            }),
        decreases cs.len() - i,
    {
        assert(cs@.skip(i as int)[0] == cs@[i as int]);
        assert(cs@.skip(i as int).drop_first() == cs@.skip(i + 1));
        out.push(cs[i]);
        i += 1;
        assert(out@ =~= cs@.take(i as int));
    }
    proof {
        if i < cs@.len() {
            assert(cs@.skip(i as int)[0] == cs@[i as int]);
            assert(first_newline(cs@) == Some(i as int));
        } else {
            assert(cs@.skip(i as int) =~= Seq::<char>::empty());
            assert(cs@.take(i as int) =~= cs@);
        }
    }
    if i < cs.len() && out.len() > 0 && out[out.len() - 1] == '\r' {
        out.pop();
    }
    out
}

/// `value` with `text` inserted at char `at`.
fn insert_at(value: &String, at: usize, text: &Vec<char>) -> (out: String)
    requires
        at <= value@.len(),
        value@.len() + text@.len() <= usize::MAX,
    ensures
        out@ == inserted(value@, at as int, text@).0,
{
    let cs = chars_of(value.as_str());
    let mut all: Vec<char> = Vec::new();
    let mut i: usize = 0;
    while i < at
        invariant
            i <= at <= cs@.len(),
            all@ == cs@.take(i as int),
        decreases at - i,
    {
        all.push(cs[i]);
        i += 1;
        assert(all@ =~= cs@.take(i as int));
    }
    let mut j: usize = 0;
    while j < text.len()
        invariant
            j <= text@.len(),
            all@ == cs@.take(at as int) + text@.take(j as int),
        decreases text.len() - j,
    {
        all.push(text[j]);
        j += 1;
        assert(all@ =~= cs@.take(at as int) + text@.take(j as int));
    }
    let mut k: usize = at;
    while k < cs.len()
        invariant
            at <= k <= cs@.len(),
            all@ == cs@.take(at as int) + text@ + cs@.subrange(at as int, k as int),
        decreases cs.len() - k,
    {
        all.push(cs[k]);
        k += 1;
        assert(all@ =~= cs@.take(at as int) + text@ + cs@.subrange(at as int, k as int));
    }
    assert(text@.take(text@.len() as int) == text@);
    assert(cs@.subrange(at as int, cs@.len() as int) == cs@.skip(at as int));
    string_from_chars(&all)
}

/// The rows with row `row` replaced by `line`.
fn with_row(rows: &[String], row: usize, line: String) -> (out: Vec<String>)
    requires
        row < rows@.len(),
    ensures
        row_chars(out@) == row_chars(rows@).update(row as int, line@),
        out@.len() == rows@.len(),
{
    let mut out: Vec<String> = Vec::new();
    let mut line = Some(line);
    let ghost l = line.unwrap()@;
    let mut r: usize = 0;
    while r < rows.len()
        invariant
            r <= rows@.len(),
            row < rows@.len(),
            out@.len() == r,
            r <= row ==> line == Some(line.unwrap()) && line.unwrap()@ == l,
            forall|q: int| 0 <= q < r ==> (#[trigger] out@[q])@ == (if q == row { l } else { rows@[q]@ }),
        decreases rows.len() - r,
    {
        if r == row {
            match line.take() {
                Some(t) => out.push(t),
                None => out.push(String::new()),
            }
        } else {
            out.push(rows[r].clone());
        }
        r += 1;
    }
    assert(row_chars(out@) =~= row_chars(rows@).update(row as int, l));
    out
}

impl FindBar {
    /// Inserts the first line of `text` at the focused field's caret; a
    /// multi-line clipboard collapses to its first line. With the keyboard
    /// on the find field the pattern is then refreshed.
    pub fn paste(&mut self, text: &str, rows: &[String]) -> (r: Option<PatternRefresh>)
        requires
            old(self).wf(),
            old(self).input.value@.len() + text@.len() <= usize::MAX,
            old(self).replace matches Some(f) ==> f.value@.len() + text@.len() <= usize::MAX,
        ensures
            final(self).wf(),
            ({
                let line = first_line(text@);
                let f = if old(self).on_replace() { old(self).replace.unwrap() } else { old(self).input };
                let (v, c) = inserted(f.value@, f.cursor as int, line);
                let g = if final(self).on_replace() { final(self).replace.unwrap() } else { final(self).input };
                &&& g.value@ == v && g.cursor == c
                &&& final(self).focus == old(self).focus
                &&& (old(self).on_replace() ==> final(self).input == old(self).input)
                &&& (!old(self).on_replace() ==> final(self).replace == old(self).replace)
            }),
            r is Some <==> old(self).focus == BarFocus::Find,
            r matches Some(pr) ==> refresh_post(
                (FindBar { input: final(self).input, ..*old(self) }),
                *final(self),
                pr,
                rows@,
            ),
            old(self).focus != BarFocus::Find ==> *final(self) == (FindBar {
                replace: final(self).replace,
                ..*old(self)
            }),
    {
        let line = first_line_exec(text);
        proof {
            assert(line@.len() <= text@.len()) by {
                lemma_first_line_len(text@);
            }
        }
        let focus = self.focus;
        let ghost was = *self;
        {
            let input = self.focused_input_mut();
            let at = input.cursor;
            let v = insert_at(&input.value, at, &line);
            input.value = v;
            input.cursor = at + line.len();
        }
        if focus == BarFocus::Find {
            let ghost mid = *self;
            let r = self.refresh_pattern(rows);
            assert(self.input == mid.input && self.replace == mid.replace && self.focus == mid.focus);
            Some(r)
        } else {
            None
        }
    }

    /// Recompiles the find pattern under smartcase, recounts the matches and
    /// disarms a pending replace all. With an empty or invalid query the
    /// pattern, count and current match clear; with matches the buffer is to
    /// take the effective pattern and step to the first match at or after
    /// the cursor, then report through [`Self::step_landed`].
    pub fn refresh_pattern(&mut self, rows: &[String]) -> (r: PatternRefresh)
        requires
            old(self).wf(),
        ensures
            refresh_post(*old(self), *final(self), r, rows@),
    {
        self.armed_empty = false;
        if self.input.is_empty() {
            self.pattern = None;
            self.match_count = 0;
            self.status = SearchStatus::Empty;
            self.current = None;
            return PatternRefresh { pattern: String::new(), step: None };
        }
        let compiled = match FindPattern::compile(self.input.value.as_str()) {
            Ok(p) => p,
            Err(e) => {
                self.pattern = None;
                self.match_count = 0;
                self.status = SearchStatus::Invalid(e.to_string());
                self.current = None;
                return PatternRefresh { pattern: String::new(), step: None };
            },
        };
        let pattern = String::from_str(compiled.as_pattern());
        self.match_count = compiled.count_matches(rows);
        self.pattern = Some(compiled);
        if self.match_count == 0 {
            self.status = SearchStatus::NoMatch;
            self.current = None;
            return PatternRefresh { pattern, step: None };
        }
        PatternRefresh { pattern, step: Some(SearchStep { backward: false, at_cursor: true }) }
    }

    /// The search a step asks for: none while the query is empty.
    pub fn advance(&self, backward: bool) -> (r: Option<SearchStep>)
        ensures
            r == (if self.input.value@.len() == 0 {
                None
            } else {
                Some(SearchStep { backward, at_cursor: false })
            }),
    {
        if self.input.is_empty() {
            return None;
        }
        Some(SearchStep { backward, at_cursor: false })
    }

    /// Records a search step's outcome: the status, and the match at the
    /// cursor as the current match when something was found.
    pub fn step_landed(&mut self, found: bool, at_cursor: Option<Span>)
        ensures
            *final(self) == (FindBar {
                status: if found { SearchStatus::Match } else { SearchStatus::NoMatch },
                current: if found { at_cursor } else { None },
                ..*old(self)
            }),
    {
        self.status = SearchStatus::from_found(found);
        self.highlight_current_match(found, at_cursor);
    }

    /// The match at the cursor becomes the current match after a search
    /// that found something; none otherwise.
    pub fn highlight_current_match(&mut self, found: bool, at_cursor: Option<Span>)
        ensures
            *final(self) == (FindBar { current: if found { at_cursor } else { None }, ..*old(self) }),
    {
        self.current = if found {
            at_cursor
        } else {
            None
        };
    }

    /// After an undo or redo: the count is taken again and the current
    /// match is whatever the cursor now sits on.
    pub fn after_history_step(&mut self, rows: &[String], at_cursor: Option<Span>)
        requires
            old(self).wf(),
        ensures
            final(self).wf(),
            *final(self) == (FindBar {
                match_count: match old(self).pattern {
                    Some(p) => count_spec(p.pattern(), row_chars(rows@)) as usize,
                    None => old(self).match_count,
                },
                current: at_cursor,
                ..*old(self)
            }),
    {
        self.refresh_match_count(rows);
        self.current = at_cursor;
    }

    /// Recounts the pattern's matches over `rows`.
    pub fn refresh_match_count(&mut self, rows: &[String])
        requires
            old(self).wf(),
        ensures
            final(self).wf(),
            *final(self) == (FindBar {
                match_count: match old(self).pattern {
                    Some(p) => count_spec(p.pattern(), row_chars(rows@)) as usize,
                    None => old(self).match_count,
                },
                ..*old(self)
            }),
    {
        let n = match &self.pattern {
            Some(p) => p.count_matches(rows),
            None => self.match_count,
        };
        self.match_count = n;
    }

    /// The replace preview over `rows`: none while the replace field is
    /// hidden, without a pattern, or when nothing matches.
    pub fn preview(&self, rows: &[String]) -> (r: Option<Preview>)
        requires
            self.wf(),
        ensures
            (self.replace is None || self.pattern is None) ==> r is None,
            (self.replace is Some && self.pattern is Some) ==> {
                let p = self.pattern.unwrap();
                let cur = match self.current {
                    Some(c) => Some(c.0),
                    None => None,
                };
                let pv = preview_rows(p.pattern(), p.has_captures_spec(), row_chars(rows@), self.replacement_spec(), cur, rows@.len() as int);
                &&& (r is None <==> pv.1.len() == 0)
                &&& (r matches Some(v) ==> v.lines@.map_values(|s: String| s@) == pv.0 && v.spans@ == pv.1)
            },
    {
        if !self.is_replacing() {
            return None;
        }
        let pattern = match &self.pattern {
            Some(p) => p,
            None => return None,
        };
        let current = match self.current {
            Some((start, _)) => Some(start),
            None => None,
        };
        let preview = build_preview(pattern, rows, self.replacement(), current);
        if preview.spans.len() == 0 {
            return None;
        }
        Some(preview)
    }

    /// Everything the bar wants painted: the preview, or else the pattern's
    /// matches.
    pub fn overlay(&self, rows: &[String]) -> (o: BarOverlay)
        requires
            self.wf(),
        ensures
            o.preview is None ==> o.matches@ == match self.pattern {
                Some(p) => spans_spec(p.pattern(), row_chars(rows@)),
                None => Seq::empty(),
            },
            o.preview is Some ==> o.matches@.len() == 0,
            (self.replace is None || self.pattern is None) ==> o.preview is None,
            (self.replace is Some && self.pattern is Some) ==> {
                let p = self.pattern.unwrap();
                let cur = match self.current {
                    Some(c) => Some(c.0),
                    None => None,
                };
                let pv = preview_rows(p.pattern(), p.has_captures_spec(), row_chars(rows@), self.replacement_spec(), cur, rows@.len() as int);
                &&& (o.preview is None <==> pv.1.len() == 0)
                &&& (o.preview matches Some(v) ==> v.lines@.map_values(|s: String| s@) == pv.0 && v.spans@ == pv.1)
            },
    {
        let preview = self.preview(rows);
        let n = rows.len();
        assert(rows@.len() == n);
        let matches = if preview.is_none() {
            match &self.pattern {
                Some(p) => p.match_spans(rows),
                None => Vec::new(),
            }
        } else {
            Vec::new()
        };
        BarOverlay { preview, matches }
    }

    /// What an interactive replace at the cursor would do, touching nothing:
    /// the match's row and char columns, the expanded replacement, and the
    /// rows afterwards. `None` unless the cursor sits exactly on the start of
    /// a match.
    pub fn plan_replace_current(&self, rows: &[String], cursor: (usize, usize)) -> (r: Option<ReplacePlan>)
        requires
            self.wf(),
            cursor.0 < rows@.len() ==> bytes_len(rows@[cursor.0 as int]@) <= usize::MAX,
        ensures
            r is Some <==> (self.pattern matches Some(p) && on_match(p.pattern(), row_chars(rows@), cursor)),
            r matches Some(plan) ==> {
                let p = self.pattern.unwrap();
                let (row, sc, ec, x, after) = plan_spec(p.pattern(), p.has_captures_spec(), row_chars(rows@), cursor, self.replacement_spec());
                &&& plan.row == row
                &&& plan.start_col == sc
                &&& plan.end_col == ec
                &&& plan.expanded@ == x
                &&& row_chars(plan.after@) == after
            },
    {
        let pattern = match &self.pattern {
            Some(p) => p,
            None => return None,
        };
        let (row, start_col) = cursor;
        if row >= rows.len() {
            return None;
        }
        let line = rows[row].as_str();
        let ghost lv = line@;
        assert(row_chars(rows@)[row as int] == lv);
        let start_byte = char_col_to_byte(line, start_col);
        proof {
            let k = if (start_col as int) < lv.len() { start_col as int } else { lv.len() as int };
            crate::text::lemma_bytes_len_mono(lv, k, lv.len() as int);
            assert(lv.take(lv.len() as int) == lv);
        }
        let m = match crate::find_replace::match_from_pattern(pattern, line, start_byte) {
            Some(m) => m,
            None => return None,
        };
        if m.0 != start_byte {
            return None;
        }
        let expanded = pattern.expand_at(line, CapsAt::From(start_byte), self.replacement());
        let cs = chars_of(line);
        let k0 = char_index_at(&cs, m.0);
        let k1 = char_index_at(&cs, m.1);
        proof {
            let k = if (start_col as int) < lv.len() { start_col as int } else { lv.len() as int };
            crate::text::lemma_char_index_of_prefix(lv, k);
            crate::text::lemma_char_index_from_mono(lv, m.0 as int, m.1 as int, 0, 0);
        }
        let end_col = start_col + (k1 - k0);
        let xc = chars_of(expanded.as_str());
        let mut new_line: Vec<char> = Vec::new();
        let mut i: usize = 0;
        while i < k0
            invariant
                i <= k0 <= cs@.len(),
                new_line@ == cs@.take(i as int),
            decreases k0 - i,
        {
            new_line.push(cs[i]);
            i += 1;
            assert(new_line@ =~= cs@.take(i as int));
        }
        let mut j: usize = 0;
        while j < xc.len()
            invariant
                j <= xc@.len(),
                new_line@ == cs@.take(k0 as int) + xc@.take(j as int),
            decreases xc.len() - j,
        {
            new_line.push(xc[j]);
            j += 1;
            assert(new_line@ =~= cs@.take(k0 as int) + xc@.take(j as int));
        }
        let mut k: usize = k1;
        while k < cs.len()
            invariant
                k1 <= k <= cs@.len(),
                new_line@ == cs@.take(k0 as int) + xc@ + cs@.subrange(k1 as int, k as int),
            decreases cs.len() - k,
        {
            new_line.push(cs[k]);
            k += 1;
            assert(new_line@ =~= cs@.take(k0 as int) + xc@ + cs@.subrange(k1 as int, k as int));
        }
        assert(xc@.take(xc@.len() as int) == xc@);
        assert(cs@.subrange(k1 as int, cs@.len() as int) == cs@.skip(k1 as int));
        let after = with_row(rows, row, string_from_chars(&new_line));
        Some(ReplacePlan { row, start_col, end_col, expanded, after })
    }
}

proof fn lemma_first_line_len(text: Seq<char>)
    ensures
        first_line(text).len() <= text.len(),
{
    lemma_first_newline_bound(text);
}


/// What a replace all plans, as plain values: the rows afterwards, the
/// cursor put back, and the number of matches rewritten.
pub open spec fn replace_all_spec(p: Seq<char>, hc: bool, rows: Seq<Seq<char>>, repl: Seq<char>) -> (Seq<Seq<char>>, nat) {
    let pv = preview_rows(p, hc, rows, repl, None, rows.len() as int);
    (pv.0, pv.1.len())
}

impl FindBar {
    /// Replaces the current match and steps on (`Enter` with the replace
    /// field revealed). With the cursor on a match: the plan to apply, the
    /// count taken over the rows it leaves, then a forward step. Otherwise
    /// just the step, so the next `Enter` has a match to act on.
    pub fn replace_current(&mut self, rows: &[String], cursor: (usize, usize)) -> (r: (Option<ReplacePlan>, Option<SearchStep>))
        requires
            old(self).wf(),
            cursor.0 < rows@.len() ==> bytes_len(rows@[cursor.0 as int]@) <= usize::MAX,
        ensures
            replace_current_post(*old(self), *final(self), r.0, r.1, rows@, cursor),
    {
        match self.plan_replace_current(rows, cursor) {
            None => (None, self.advance(false)),
            Some(plan) => {
                self.refresh_match_count(&plan.after);
                (Some(plan), self.advance(false))
            },
        }
    }

    /// The step [`Self::advance`] asks for.
    pub open spec fn advance_spec(&self, backward: bool) -> Option<SearchStep> {
        if self.input.value@.len() == 0 {
            None
        } else {
            Some(SearchStep { backward, at_cursor: false })
        }
    }

    /// Rewrites every match (`Ctrl+A`): the rows afterwards, the cursor put
    /// back on its row (clamped to the rows and the row's length, as a
    /// replace all never changes the row count), and the number rewritten.
    /// The current match clears and the count is taken over the new rows.
    /// `None`, touching nothing, without a pattern or with nothing to
    /// replace.
    pub fn replace_all(&mut self, rows: &[String], cursor: (usize, usize)) -> (r: Option<ReplaceAllPlan>)
        requires
            old(self).wf(),
        ensures
            final(self).wf(),
            old(self).pattern is None ==> r is None && *final(self) == *old(self),
            old(self).pattern matches Some(p) ==> {
                let (after, count) = replace_all_spec(p.pattern(), p.has_captures_spec(), row_chars(rows@), old(self).replacement_spec());
                &&& (r is None <==> count == 0)
                &&& (r is None ==> *final(self) == *old(self))
                &&& (r matches Some(plan) ==> {
                    &&& row_chars(plan.lines@) == after
                    &&& plan.count == count
                    &&& plan.cursor == restored_cursor(after, cursor)
                    &&& *final(self) == (FindBar {
                        current: None,
                        match_count: count_spec(p.pattern(), after) as usize,
                        ..*old(self)
                    })
                })
            },
    {
        let pattern = match &self.pattern {
            Some(p) => p,
            None => return None,
        };
        let (lines, count) = match crate::find_replace::replace_all(pattern, rows, self.replacement()) {
            Some(x) => x,
            None => return None,
        };
        proof {
            assert(row_chars(lines@) =~= lines@.map_values(|s: String| s@));
        }
        let last = if lines.len() >= 1 { lines.len() - 1 } else { 0 };
        let row = if cursor.0 < last { cursor.0 } else { last };
        assert(lines@.len() >= 1) by {
            if lines@.len() == 0 {
                assert(rows@.len() == 0);
            }
        }
        let n = chars_of(lines[row].as_str()).len();
        assert(row_chars(lines@)[row as int] == lines@[row as int]@);
        let col = if cursor.1 < n { cursor.1 } else { n };
        self.current = None;
        self.refresh_match_count(&lines);
        Some(ReplaceAllPlan { lines, cursor: (row, col), count })
    }

    /// `Ctrl+A` in the bar: replace all at once, except with an empty
    /// replacement, where the first press arms and the second commits.
    /// Nothing happens without the replace field or a pattern.
    pub fn replace_all_key(&mut self, rows: &[String], cursor: (usize, usize)) -> (r: Option<ReplaceAllPlan>)
        requires
            old(self).wf(),
        ensures
            replace_all_key_post(*old(self), *final(self), r, rows@, cursor),
    {
        if !self.is_replacing() || self.pattern.is_none() {
            return None;
        }
        if self.replacement().is_empty() && !self.armed_empty {
            self.armed_empty = true;
            return None;
        }
        self.armed_empty = false;
        self.replace_all(rows, cursor)
    }
}

/// Bar `a` with its focused field replaced by `f`.
pub open spec fn with_focused(a: FindBar, f: BarField) -> FindBar {
    if a.on_replace() {
        FindBar { replace: Some(f), ..a }
    } else {
        FindBar { input: f, ..a }
    }
}

impl FindBar {
    /// Handles one key; the bar owns every key while open, so the only
    /// outcome is whether the editor should drop it. `Tab` reveals the
    /// replace field, then cycles focus; `Ctrl+A` replaces all; undo and
    /// redo go to the buffer; `Esc` disarms a pending replace all, else
    /// closes; `Enter` steps (backward with Shift) while finding, and while
    /// replacing replaces the current match (skips it with Shift); an edit
    /// of the find field refreshes the pattern, one of the replace field
    /// disarms.
    pub fn handle_key(&mut self, key: BarKey, rows: &[String], cursor: (usize, usize)) -> (r: (KeyOutcome, BarRequest))
        requires
            old(self).wf(),
            key matches BarKey::Edited(f) ==> f.wf(),
            cursor.0 < rows@.len() ==> bytes_len(rows@[cursor.0 as int]@) <= usize::MAX,
        ensures
            final(self).wf(),
            r.0.close == (key is Cancel && !old(self).armed_empty),
            key is Tab ==> {
                &&& r.1 is Nothing
                &&& (old(self).replace is Some ==> *final(self) == (FindBar {
                    focus: if old(self).focus == BarFocus::Find { BarFocus::Replace } else { BarFocus::Find },
                    ..*old(self)
                }))
                &&& (old(self).replace is None ==> *final(self) == (FindBar {
                    replace: final(self).replace,
                    focus: if old(self).input.value@.len() == 0 { BarFocus::Find } else { BarFocus::Replace },
                    ..*old(self)
                }) && final(self).replace is Some && final(self).replace.unwrap().value@.len() == 0
                    && final(self).replace.unwrap().cursor == 0)
            },
            key is ReplaceAll ==> match r.1 {
                BarRequest::ReplaceAll(plan) => replace_all_key_post(*old(self), *final(self), Some(plan), rows@, cursor),
                BarRequest::Nothing => replace_all_key_post(*old(self), *final(self), None, rows@, cursor),
                _ => false,
            },
            key is Undo ==> r.1 is Undo && *final(self) == *old(self),
            key is Redo ==> r.1 is Redo && *final(self) == *old(self),
            key is Cancel ==> r.1 is Nothing && *final(self) == (FindBar { armed_empty: false, ..*old(self) }),
            key matches BarKey::Submit { shift } ==> {
                if old(self).replace is Some && !shift {
                    match r.1 {
                        BarRequest::Replace(plan, step) => replace_current_post(*old(self), *final(self), Some(plan), step, rows@, cursor),
                        BarRequest::Step(step) => replace_current_post(*old(self), *final(self), None, Some(step), rows@, cursor),
                        BarRequest::Nothing => replace_current_post(*old(self), *final(self), None, None, rows@, cursor),
                        _ => false,
                    }
                } else {
                    let step = old(self).advance_spec(if old(self).replace is Some { false } else { shift });
                    &&& *final(self) == *old(self)
                    &&& match r.1 {
                        BarRequest::Step(s) => step == Some(s),
                        BarRequest::Nothing => step is None,
                        _ => false,
                    }
                }
            },
            key matches BarKey::Edited(f) ==> {
                let mid = with_focused(*old(self), f);
                if old(self).focus == BarFocus::Find {
                    r.1 matches BarRequest::Refresh(pr) && refresh_post(mid, *final(self), pr, rows@)
                } else {
                    r.1 is Nothing && *final(self) == (FindBar { armed_empty: false, ..mid })
                }
            },
            key is Other ==> r.1 is Nothing && *final(self) == *old(self),
    {
        let stay = KeyOutcome { close: false };
        match key {
            BarKey::Tab => {
                if self.replace.is_none() {
                    self.reveal_replace();
                } else {
                    self.focus = match self.focus {
                        BarFocus::Find => BarFocus::Replace,
                        BarFocus::Replace => BarFocus::Find,
                    };
                }
                (stay, BarRequest::Nothing)
            },
            BarKey::ReplaceAll => match self.replace_all_key(rows, cursor) {
                Some(plan) => (stay, BarRequest::ReplaceAll(plan)),
                None => (stay, BarRequest::Nothing),
            },
            BarKey::Undo => (stay, BarRequest::Undo),
            BarKey::Redo => (stay, BarRequest::Redo),
            BarKey::Cancel => {
                if self.armed_empty {
                    self.armed_empty = false;
                    (stay, BarRequest::Nothing)
                } else {
                    (KeyOutcome { close: true }, BarRequest::Nothing)
                }
            },
            BarKey::Submit { shift } => {
                if self.is_replacing() {
                    if shift {
                        match self.advance(false) {
                            Some(s) => (stay, BarRequest::Step(s)),
                            None => (stay, BarRequest::Nothing),
                        }
                    } else {
                        match self.replace_current(rows, cursor) {
                            (Some(plan), step) => (stay, BarRequest::Replace(plan, step)),
                            (None, Some(s)) => (stay, BarRequest::Step(s)),
                            (None, None) => (stay, BarRequest::Nothing),
                        }
                    }
                } else {
                    match self.advance(shift) {
                        Some(s) => (stay, BarRequest::Step(s)),
                        None => (stay, BarRequest::Nothing),
                    }
                }
            },
            BarKey::Edited(f) => {
                let focus = self.focus;
                {
                    let input = self.focused_input_mut();
                    *input = f;
                }
                if focus == BarFocus::Find {
                    let pr = self.refresh_pattern(rows);
                    (stay, BarRequest::Refresh(pr))
                } else {
                    self.armed_empty = false;
                    (stay, BarRequest::Nothing)
                }
            },
            BarKey::Other => (stay, BarRequest::Nothing),
        }
    }
}

/// A replace all keeps the rows' count, and puts the cursor back on a row
/// that still exists, at a column within it.
pub proof fn law_replace_all_keeps_rows_and_a_valid_cursor(p: Seq<char>, hc: bool, rows: Seq<Seq<char>>, repl: Seq<char>, cursor: (usize, usize))
    requires
        rows.len() > 0,
        rows.len() <= usize::MAX,
    ensures
        ({
            let after = replace_all_spec(p, hc, rows, repl).0;
            let (r, c) = restored_cursor(after, cursor);
            &&& after.len() == rows.len()
            &&& r < after.len()
            &&& r <= cursor.0
            &&& c <= after[r as int].len()
            &&& c <= cursor.1
        }),
{
    crate::find_replace::law_preview_keeps_row_count(p, hc, rows, repl, None);
}

} // verus!
