//! Editor-level helpers: the autocomplete trigger scan, char-column to byte
//! conversion, building a markdown link from a pasted URL, following a link
//! or label, selection text, applying an autocomplete acceptance, and the
//! keys the editor claims before the buffer does; plus the small value
//! types the editor hands to the screen around it.
use vstd::prelude::*;
use std::collections::hash_map::DefaultHasher;
use std::hash::Hasher;
use vstd::std_specs::hash::DefaultHasherAdditionalSpecFns;
use crate::markdown::{Element, ElementKind, ParsedLine};
use crate::markdown_edits::{surround_pair, surround_spec};
use crate::text::{
    bytes_len, char_index_at, char_index_at_byte, char_utf8_len, chars_of, first_newline, is_ws, is_ws_spec, lemma_bytes_len_mono,
    lemma_bytes_len_push, lemma_first_newline_at, lemma_first_newline_none, string_from_chars, trim, trim_bounds,
};

verus! {

/// RGBA image data lifted from the system clipboard.
#[derive(Debug, Clone)]
pub struct ClipboardImage {
    pub width: usize,
    pub height: usize,
    pub rgba: Vec<u8>,
}

/// What following resolves to under the cursor.
#[derive(Debug, Clone, PartialEq)]
pub enum FollowTarget {
    /// A wiki-link or markdown link, with the raw target string.
    Link(String),
    /// A hashtag label, without the leading `#`.
    Label(String),
}

/// How key events are turned into edits on the in-process buffer.
#[derive(Debug, Clone, Copy, PartialEq, Eq, Structural, Default)]
pub enum InputInterpreter {
    /// Keys go straight to the buffer.
    #[default]
    Direct,
    /// The built-in vim emulation interprets keys first.
    Vim,
}

/// Which editor-internal surface currently holds input.
#[derive(Debug, Clone, Copy, PartialEq, Eq, Structural, Default)]
pub enum EditorClaim {
    /// No surface claims input.
    #[default]
    Unclaimed,
    FindBar,
    Autocomplete,
}

impl EditorClaim {
    /// Who holds input: an open find bar first, then an open autocomplete
    /// popup, else nobody.
    pub fn of(find_bar_open: bool, autocomplete_open: bool) -> (c: EditorClaim)
        ensures
            c == (if find_bar_open {
                EditorClaim::FindBar
            } else if autocomplete_open {
                EditorClaim::Autocomplete
            } else {
                EditorClaim::Unclaimed
            }),
    {
        if find_bar_open {
            EditorClaim::FindBar
        } else if autocomplete_open {
            EditorClaim::Autocomplete
        } else {
            EditorClaim::Unclaimed
        }
    }
}

/// Some char before column `col` (clamped to the line) is `[` or `#`.
pub open spec fn trigger_before(line: Seq<char>, col: int) -> bool {
    exists|i: int| 0 <= i < line.len() && i < col && (line[i] == '[' || line[i] == '#')
}

/// Whether an autocomplete trigger (`[` or `#`) occurs on the row before the
/// cursor's char column `col`. The scan does not stop at white space:
/// wikilink names may hold spaces.
pub fn has_trigger_before_cursor(line: &str, col: usize) -> (b: bool)
    ensures
        b == trigger_before(line@, col as int),
{
    let cs = chars_of(line);
    let end = if col < cs.len() { col } else { cs.len() };
    let mut i: usize = end;
    while i > 0
        invariant
            i <= end <= cs@.len(),
            end as int == (if (col as int) < cs@.len() { col as int } else { cs@.len() as int }),
            cs@ == line@,
            forall|k: int| i <= k < end ==> !(cs@[k] == '[' || cs@[k] == '#'),
        decreases i,
    {
        i -= 1;
        if cs[i] == '[' || cs[i] == '#' {
            return true;
        }
    }
    false
}

/// Byte offset of char column `char_col` in `line`; the byte length past
/// the end.
pub fn char_col_to_byte(line: &str, char_col: usize) -> (b: usize)
    requires
        bytes_len(line@) <= usize::MAX,
    ensures
        b == bytes_len(line@.take(if (char_col as int) < line@.len() { char_col as int } else { line@.len() as int })),
{
    let cs = chars_of(line);
    let end = if char_col < cs.len() { char_col } else { cs.len() };
    let mut b: usize = 0;
    let mut i: usize = 0;
    while i < end
        invariant
            i <= end <= cs@.len(),
            cs@ == line@,
            bytes_len(line@) <= usize::MAX,
            b == bytes_len(cs@.take(i as int)),
        decreases end - i,
    {
        proof {
            lemma_bytes_len_mono(cs@, i + 1, cs@.len() as int);
            assert(cs@.take(i + 1) == cs@.take(i as int).push(cs@[i as int]));
            lemma_bytes_len_push(cs@.take(i as int), cs@[i as int]);
            assert(cs@.take(cs@.len() as int) == cs@);
        }
        b = b + char_utf8_len(cs[i]);
        i += 1;
    }
    b
}

/// `s` starts with `p`.
pub open spec fn starts_with(s: Seq<char>, p: Seq<char>) -> bool {
    p.len() <= s.len() && s.subrange(0, p.len() as int) == p
}

/// The schemes a pasted link may carry, each with its separator.
pub open spec fn scheme_prefix(k: int) -> Seq<char> {
    if k == 0 {
        seq!['h', 't', 't', 'p', ':', '/', '/']
    } else if k == 1 {
        seq!['h', 't', 't', 'p', 's', ':', '/', '/']
    } else if k == 2 {
        seq!['f', 't', 'p', ':', '/', '/']
    } else if k == 3 {
        seq!['f', 't', 'p', 's', ':', '/', '/']
    } else {
        seq!['m', 'a', 'i', 'l', 't', 'o', ':']
    }
}

/// A linkable URL: one of the schemes with its separator and something after
/// it, and no white space inside.
pub open spec fn is_linkable(t: Seq<char>) -> bool {
    &&& exists|k: int| 0 <= k < 5 && starts_with(t, scheme_prefix(k)) && t.len() > scheme_prefix(k).len()
    &&& forall|i: int| 0 <= i < t.len() ==> !is_ws_spec(t[i])
}

fn prefix_chars(k: usize) -> (out: Vec<char>)
    requires
        k < 5,
    ensures
        out@ == scheme_prefix(k as int),
{
    let mut out: Vec<char> = Vec::new();
    if k == 0 || k == 1 {
        out.push('h');
        out.push('t');
        out.push('t');
        out.push('p');
        if k == 1 {
            out.push('s');
        }
        out.push(':');
        out.push('/');
        out.push('/');
    } else if k == 2 || k == 3 {
        out.push('f');
        out.push('t');
        out.push('p');
        if k == 3 {
            out.push('s');
        }
        out.push(':');
        out.push('/');
        out.push('/');
    } else {
        out.push('m');
        out.push('a');
        out.push('i');
        out.push('l');
        out.push('t');
        out.push('o');
        out.push(':');
    }
    assert(out@ =~= scheme_prefix(k as int));
    out
}

fn starts_with_exec(s: &Vec<char>, a: usize, b: usize, p: &Vec<char>) -> (r: bool)
    requires
        a <= b <= s@.len(),
    ensures
        r == starts_with(s@.subrange(a as int, b as int), p@),
{
    let ghost t = s@.subrange(a as int, b as int);
    if p.len() > b - a {
        return false;
    }
    let mut i: usize = 0;
    while i < p.len()
        invariant
            i <= p@.len() <= b - a,
            a <= b <= s@.len(),
            t == s@.subrange(a as int, b as int),
            forall|k: int| 0 <= k < i ==> t[k] == p@[k],
        decreases p.len() - i,
    {
        if s[a + i] != p[i] {
            assert(t.subrange(0, p@.len() as int)[i as int] != p@[i as int]);
            return false;
        }
        i += 1;
    }
    assert(t.subrange(0, p@.len() as int) =~= p@);
    true
}

/// The trimmed text of `s` when it is a linkable URL.
pub fn linkable_url(s: &str) -> (r: Option<String>)
    ensures
        r is Some <==> is_linkable(trim(s@)),
        r is Some ==> r.unwrap()@ == trim(s@),
{
    let cs = chars_of(s);
    let (a, b) = trim_bounds(&cs);
    let ghost t = trim(s@);
    assert(cs@.subrange(a as int, b as int) == t);
    let mut i = a;
    while i < b
        invariant
            a <= i <= b <= cs@.len(),
            t == cs@.subrange(a as int, b as int),
            t == trim(s@),
            forall|k: int| 0 <= k < i - a ==> !is_ws_spec(t[k]),
        decreases b - i,
    {
        if is_ws(cs[i]) {
            assert(t[i - a] == cs@[i as int]);
            assert(is_ws_spec(t[i - a]));
            assert(!is_linkable(t));
            return None;
        }
        i += 1;
    }
    assert(forall|q: int| 0 <= q < t.len() ==> !is_ws_spec(t[q]));
    let mut k: usize = 0;
    while k < 5
        invariant
            k <= 5,
            a <= b <= cs@.len(),
            t == cs@.subrange(a as int, b as int),
            t == trim(s@),
            forall|q: int| 0 <= q < t.len() ==> !is_ws_spec(t[q]),
            forall|j: int| 0 <= j < k ==> !(starts_with(t, scheme_prefix(j)) && t.len() > scheme_prefix(j).len()),
        decreases 5 - k,
    {
        let p = prefix_chars(k);
        if starts_with_exec(&cs, a, b, &p) && b - a > p.len() {
            let mut out: Vec<char> = Vec::new();
            let mut q = a;
            while q < b
                invariant
                    a <= q <= b <= cs@.len(),
                    out@ == cs@.subrange(a as int, q as int),
                decreases b - q,
            {
                out.push(cs[q]);
                q += 1;
                assert(out@ =~= cs@.subrange(a as int, q as int));
            }
            assert(out@ == t);
            assert(starts_with(t, scheme_prefix(k as int)) && t.len() > scheme_prefix(k as int).len());
            assert(is_linkable(t));
            return Some(string_from_chars(&out));
        }
        k += 1;
    }
    None
}

/// `s` with `\` and `]` escaped by a backslash.
pub open spec fn escape_label(s: Seq<char>) -> Seq<char>
    decreases s.len(),
{
    if s.len() == 0 {
        s
    } else {
        let c = s.last();
        escape_label(s.drop_last()) + if c == '\\' || c == ']' {
            seq!['\\', c]
        } else {
            seq![c]
        }
    }
}

/// How markdown reads a link label from `t`: `\` then any char is that
/// char; an unescaped `]` ends the label, leaving `t` from that `]` on;
/// any other char is itself. `None` when no `]` ends it.
pub open spec fn read_label(t: Seq<char>) -> Option<(Seq<char>, Seq<char>)>
    decreases t.len(),
{
    if t.len() == 0 {
        None
    } else if t[0] == ']' {
        Some((Seq::empty(), t))
    } else if t[0] == '\\' && t.len() >= 2 {
        match read_label(t.skip(2)) {
            Some((l, r)) => Some((seq![t[1]] + l, r)),
            None => None,
        }
    } else {
        match read_label(t.drop_first()) {
            Some((l, r)) => Some((seq![t[0]] + l, r)),
            None => None,
        }
    }
}

proof fn lemma_escape_concat(a: Seq<char>, b: Seq<char>)
    ensures
        escape_label(a + b) == escape_label(a) + escape_label(b),
    decreases b.len(),
{
    if b.len() == 0 {
        assert(a + b =~= a);
        assert(escape_label(a) + escape_label(b) =~= escape_label(a));
    } else {
        assert((a + b).drop_last() =~= a + b.drop_last());
        assert((a + b).last() == b.last());
        lemma_escape_concat(a, b.drop_last());
        let tail = if b.last() == '\\' || b.last() == ']' {
            seq!['\\', b.last()]
        } else {
            seq![b.last()]
        };
        assert(escape_label(a) + escape_label(b.drop_last()) + tail =~= escape_label(a) + (escape_label(b.drop_last())
            + tail));
    }
}

proof fn lemma_label_reads_back(s: Seq<char>, rest: Seq<char>)
    requires
        rest.len() > 0,
        rest[0] == ']',
    ensures
        read_label(escape_label(s) + rest) == Some((s, rest)),
    decreases s.len(),
{
    if s.len() == 0 {
        assert(escape_label(s) + rest =~= rest);
    } else {
        let c = s[0];
        let s2 = s.drop_first();
        assert(seq![c] + s2 =~= s);
        lemma_escape_concat(seq![c], s2);
        assert(seq![c].drop_last() =~= Seq::<char>::empty());
        assert(escape_label(Seq::<char>::empty()) =~= Seq::<char>::empty());
        lemma_label_reads_back(s2, rest);
        let t = escape_label(s) + rest;
        if c == '\\' || c == ']' {
            assert(escape_label(seq![c]) =~= seq!['\\', c]);
            assert(t =~= seq!['\\', c] + (escape_label(s2) + rest));
            assert(t.skip(2) =~= escape_label(s2) + rest);
        } else {
            assert(escape_label(seq![c]) =~= seq![c]);
            assert(t =~= seq![c] + (escape_label(s2) + rest));
            assert(t.drop_first() =~= escape_label(s2) + rest);
        }
    }
}

/// A built link reads back as what it was built from: after its `[`, the
/// label markdown reads (each `\` and `]` of the selection escaped) is the
/// selection itself, ended by the `](` that opens the URL.
pub proof fn law_link_label_reads_back(selection: Seq<char>, url: Seq<char>)
    ensures
        markdown_link(selection, url)[0] == '[',
        read_label(markdown_link(selection, url).drop_first()) == Some((selection, seq![']', '('] + url + seq![')'])),
{
    let rest = seq![']', '('] + url + seq![')'];
    let link = markdown_link(selection, url);
    assert(link.drop_first() =~= escape_label(selection) + rest);
    lemma_label_reads_back(selection, rest);
}

/// `[label](url)`.
pub open spec fn markdown_link(label: Seq<char>, url: Seq<char>) -> Seq<char> {
    seq!['['] + escape_label(label) + seq![']', '('] + url + seq![')']
}

/// The markdown link that pasting `clip` over `selection` makes: when `clip`
/// is a linkable URL and the selection is not empty, `[selection](url)`
/// with `\` and `]` in the selection escaped; otherwise `None` and the clip
/// is pasted as it is.
pub fn try_build_markdown_link(clip: &str, selection: Option<&str>) -> (r: Option<String>)
    ensures
        r is Some <==> (is_linkable(trim(clip@)) && selection is Some && selection.unwrap()@.len() > 0),
        r is Some ==> r.unwrap()@ == markdown_link(selection.unwrap()@, trim(clip@)),
{
    let url = match linkable_url(clip) {
        Some(u) => u,
        None => return None,
    };
    let sel = match selection {
        Some(s) => s,
        None => return None,
    };
    let sc = chars_of(sel);
    if sc.len() == 0 {
        return None;
    }
    let mut out: Vec<char> = Vec::new();
    out.push('[');
    let mut i: usize = 0;
    assert(sc@.take(0) =~= Seq::<char>::empty());
    while i < sc.len()
        invariant
            i <= sc@.len(),
            out@ == seq!['['] + escape_label(sc@.take(i as int)),
        decreases sc.len() - i,
    {
        let c = sc[i];
        assert(sc@.take(i + 1).drop_last() == sc@.take(i as int));
        if c == '\\' || c == ']' {
            out.push('\\');
        }
        out.push(c);
        i += 1;
        assert(out@ =~= seq!['['] + escape_label(sc@.take(i as int)));
    }
    assert(sc@.take(sc@.len() as int) == sc@);
    out.push(']');
    out.push('(');
    let uc = chars_of(url.as_str());
    let mut j: usize = 0;
    let ghost mid = out@;
    while j < uc.len()
        invariant
            j <= uc@.len(),
            out@ == mid + uc@.take(j as int),
        decreases uc.len() - j,
    {
        out.push(uc[j]);
        j += 1;
        assert(out@ =~= mid + uc@.take(j as int));
    }
    assert(uc@.take(uc@.len() as int) == uc@);
    out.push(')');
    assert(out@ =~= markdown_link(sel@, trim(clip@)));
    Some(string_from_chars(&out))
}


/// The modifier keys held with a key press.
#[derive(Debug, Clone, Copy, PartialEq, Eq, Structural, Default)]
pub struct KeyMods {
    pub ctrl: bool,
    pub shift: bool,
    pub alt: bool,
    /// Super, hyper or meta.
    pub other: bool,
}

/// The key of a key press, as far as the editor's own routing reads it.
#[derive(Debug, Clone, Copy, PartialEq, Eq, Structural)]
pub enum EditorKeyCode {
    Char(char),
    Tab,
    /// Shift+Tab, as most terminals report it.
    BackTab,
    Enter,
    Other,
}

/// A key press: the key and the modifiers held with it.
#[derive(Debug, Clone, Copy, PartialEq, Eq, Structural)]
pub struct EditorKey {
    pub code: EditorKeyCode,
    pub mods: KeyMods,
}

/// What a key press means to the in-process editor before the buffer's own
/// key table sees it.
#[derive(Debug, Clone, Copy, PartialEq, Eq, Structural)]
pub enum TextareaKeyAction {
    /// Copy the selection to the system clipboard.
    Copy,
    /// Paste from the system clipboard.
    Paste,
    /// Copy the selection, then cut it.
    Cut,
    /// Undo one undo group.
    Undo,
    /// Redo one undo group.
    Redo,
    /// Indent (or dedent) the rows under the cursor or the selection.
    Indent { dedent: bool },
    /// Smart Enter; a plain newline when it declines.
    SmartEnter,
    /// Wrap the selection in the auto-surround pair of the char; typed as
    /// usual when nothing is selected.
    Surround(char),
    /// Left to the buffer's own key table.
    Plain,
}

/// The routing of a key press: Ctrl+C / Ctrl+V / Ctrl+X (Ctrl alone) for
/// the clipboard; Ctrl+Z for undo and Ctrl+Y or Ctrl+Shift+Z for redo (Ctrl,
/// Shift allowed); Tab without Ctrl or Alt indents, dedenting with Shift,
/// and Shift+Tab dedents; a bare Enter tries smart Enter; an auto-surround
/// char, bare or shifted, wraps a selection; everything else is plain.
pub open spec fn textarea_route(key: EditorKey) -> TextareaKeyAction {
    let m = key.mods;
    let ctrl_only = m.ctrl && !m.shift && !m.alt && !m.other;
    let ctrl_shift = m.ctrl && !m.alt && !m.other;
    let unchorded = !m.ctrl && !m.alt && !m.other;
    match key.code {
        EditorKeyCode::Char(c) => {
            if ctrl_only && c == 'c' {
                TextareaKeyAction::Copy
            } else if ctrl_only && c == 'v' {
                TextareaKeyAction::Paste
            } else if ctrl_only && c == 'x' {
                TextareaKeyAction::Cut
            } else if ctrl_shift && c == 'z' && !m.shift {
                TextareaKeyAction::Undo
            } else if ctrl_shift && (c == 'y' || c == 'Z') {
                TextareaKeyAction::Redo
            } else if unchorded && surround_spec(c) is Some {
                TextareaKeyAction::Surround(c)
            } else {
                TextareaKeyAction::Plain
            }
        },
        EditorKeyCode::Tab => {
            if !m.ctrl && !m.alt {
                TextareaKeyAction::Indent { dedent: m.shift }
            } else {
                TextareaKeyAction::Plain
            }
        },
        EditorKeyCode::BackTab => TextareaKeyAction::Indent { dedent: true },
        EditorKeyCode::Enter => {
            if !m.ctrl && !m.shift && !m.alt && !m.other {
                TextareaKeyAction::SmartEnter
            } else {
                TextareaKeyAction::Plain
            }
        },
        EditorKeyCode::Other => TextareaKeyAction::Plain,
    }
}

/// Routes a key press on the in-process editor: the clipboard chords, undo
/// and redo, indentation, smart Enter and auto-surround claim their keys
/// before the buffer's key table does.
pub fn route_textarea_key(key: EditorKey) -> (a: TextareaKeyAction)
    ensures
        a == textarea_route(key),
{
    let m = key.mods;
    let ctrl_only = m.ctrl && !m.shift && !m.alt && !m.other;
    let ctrl_shift = m.ctrl && !m.alt && !m.other;
    let unchorded = !m.ctrl && !m.alt && !m.other;
    match key.code {
        EditorKeyCode::Char(c) => {
            if ctrl_only && c == 'c' {
                TextareaKeyAction::Copy
            } else if ctrl_only && c == 'v' {
                TextareaKeyAction::Paste
            } else if ctrl_only && c == 'x' {
                TextareaKeyAction::Cut
            } else if ctrl_shift && c == 'z' && !m.shift {
                TextareaKeyAction::Undo
            } else if ctrl_shift && (c == 'y' || c == 'Z') {
                TextareaKeyAction::Redo
            } else if unchorded && surround_pair(c).is_some() {
                TextareaKeyAction::Surround(c)
            } else {
                TextareaKeyAction::Plain
            }
        },
        EditorKeyCode::Tab => {
            if !m.ctrl && !m.alt {
                TextareaKeyAction::Indent { dedent: m.shift }
            } else {
                TextareaKeyAction::Plain
            }
        },
        EditorKeyCode::BackTab => TextareaKeyAction::Indent { dedent: true },
        EditorKeyCode::Enter => {
            if !m.ctrl && !m.shift && !m.alt && !m.other {
                TextareaKeyAction::SmartEnter
            } else {
                TextareaKeyAction::Plain
            }
        },
        EditorKeyCode::Other => TextareaKeyAction::Plain,
    }
}

/// What one edit did, measured: whether the text changed, and whether the
/// change reached beyond the cursor's row.
#[must_use]
#[derive(Debug, Clone, Copy, PartialEq, Eq, Structural, Default)]
pub struct EditOutcome {
    /// The buffer's text differs from before the edit.
    pub changed: bool,
    /// The change is not confined to the cursor's row.
    pub bulk: bool,
}

impl EditOutcome {
    /// An edit that changed nothing.
    pub fn unchanged() -> (o: EditOutcome)
        ensures
            !o.changed && !o.bulk,
    {
        EditOutcome { changed: false, bulk: false }
    }
}

/// Whether an edit from `before` to `after` reached beyond `cursor_row`: the
/// row count changed, or some other row differs.
pub fn is_bulk(before: &[String], after: &[String], cursor_row: usize) -> (b: bool)
    ensures
        b == (before@.len() != after@.len() || exists|r: int|
            0 <= r < before@.len() && r != cursor_row && #[trigger] before@[r]@ != after@[r]@),
{
    if before.len() != after.len() {
        return true;
    }
    let mut r: usize = 0;
    while r < before.len()
        invariant
            r <= before@.len() == after@.len(),
            forall|q: int| 0 <= q < r && q != cursor_row ==> #[trigger] before@[q]@ == after@[q]@,
        decreases before.len() - r,
    {
        if r != cursor_row && before[r] != after[r] {
            return true;
        }
        r += 1;
    }
    false
}

/// Screen position of the cursor inside an area at `(x, y)` of `height`
/// rows, or `None` when the cursor's visual row is scrolled out of it.
/// Columns and rows are taken modulo the `u16` range, as the screen is.
pub fn cursor_screen_pos(
    rendered_col: usize,
    cursor_vrow: usize,
    visual_scroll_offset: usize,
    x: u16,
    y: u16,
    height: u16,
) -> (r: Option<(u16, u16)>)
    requires
        (cursor_vrow >= visual_scroll_offset && (cursor_vrow - visual_scroll_offset) % 65536 < height) ==> {
            &&& x + rendered_col % 65536 <= u16::MAX
            &&& y + (cursor_vrow - visual_scroll_offset) % 65536 <= u16::MAX
        },
    ensures
        r is Some <==> (cursor_vrow >= visual_scroll_offset && (cursor_vrow - visual_scroll_offset) % 65536 < height),
        r is Some ==> r.unwrap() == ((x + rendered_col % 65536) as u16, (y + (cursor_vrow - visual_scroll_offset) % 65536) as u16),
{
    if cursor_vrow < visual_scroll_offset {
        return None;
    }
    let in_view = cursor_vrow - visual_scroll_offset;
    let row16 = (in_view % 65536) as u16;
    if row16 >= height {
        return None;
    }
    let col16 = (rendered_col % 65536) as u16;
    Some((x + col16, y + row16))
}

/// A link of a line as the note scanner reports it: chars `start..end`
/// (wiki-link or markdown link, brackets included) and its raw target.
#[derive(Debug, Clone)]
pub struct LinkSpan {
    pub start: usize,
    pub end: usize,
    pub target: String,
}

/// Index of the first link from `i` on covering char `col`.
pub open spec fn link_at(links: Seq<LinkSpan>, col: int, i: int) -> Option<int>
    decreases links.len() - i,
{
    if i < 0 || i >= links.len() {
        None
    } else if links[i].start <= col < links[i].end {
        Some(i)
    } else {
        link_at(links, col, i + 1)
    }
}

/// Index of the first label element from `i` on covering char `col`.
pub open spec fn label_at(elements: Seq<Element>, col: int, i: int) -> Option<int>
    decreases elements.len() - i,
{
    if i < 0 || i >= elements.len() {
        None
    } else if elements[i].kind == ElementKind::Label && elements[i].start_char <= col < elements[i].end_char {
        Some(i)
    } else {
        label_at(elements, col, i + 1)
    }
}

/// `s` without its leading `#`s.
pub open spec fn strip_hashes(s: Seq<char>) -> Seq<char>
    decreases s.len(),
{
    if s.len() > 0 && s[0] == '#' {
        strip_hashes(s.drop_first())
    } else {
        s
    }
}

/// The chars `a..b` of `line`, clamped to it.
pub open spec fn chars_between(line: Seq<char>, a: int, b: int) -> Seq<char> {
    let lo = if a < line.len() { a } else { line.len() as int };
    let hi = if b < line.len() { b } else { line.len() as int };
    if lo <= hi {
        line.subrange(lo, hi)
    } else {
        Seq::empty()
    }
}

/// What following at char `col` of `line` opens: the target of a link
/// covering it, else the name of a label covering it (its `#`s dropped);
/// links win over labels.
pub fn follow_target_at(line: &str, col: usize, links: &[LinkSpan], parsed: &ParsedLine) -> (r: Option<FollowTarget>)
    ensures
        match link_at(links@, col as int, 0) {
            Some(i) => r matches Some(FollowTarget::Link(t)) && t@ == links@[i].target@,
            None => match label_at(parsed@.elements, col as int, 0) {
                Some(i) => r matches Some(FollowTarget::Label(name)) && name@ == strip_hashes(
                    chars_between(line@, parsed@.elements[i].start_char as int, parsed@.elements[i].end_char as int),
                ),
                None => r is None,
            },
        },
{
    let mut i: usize = 0;
    while i < links.len()
        invariant
            i <= links@.len(),
            link_at(links@, col as int, 0) == link_at(links@, col as int, i as int),
        decreases links.len() - i,
    {
        if links[i].start <= col && col < links[i].end {
            return Some(FollowTarget::Link(links[i].target.clone()));
        }
        i += 1;
    }
    let els = &parsed.elements;
    let mut k: usize = 0;
    while k < els.len()
        invariant
            k <= els@.len(),
            els@ == parsed@.elements,
            label_at(els@, col as int, 0) == label_at(els@, col as int, k as int),
            link_at(links@, col as int, 0) is None,
        decreases els.len() - k,
    {
        let e = els[k];
        if e.kind == ElementKind::Label && e.start_char <= col && col < e.end_char {
            let cs = chars_of(line);
            let lo = if e.start_char < cs.len() { e.start_char } else { cs.len() };
            let hi = if e.end_char < cs.len() { e.end_char } else { cs.len() };
            assert(chars_between(line@, e.start_char as int, e.end_char as int) == cs@.subrange(lo as int, hi as int));
            let mut a = lo;
            while a < hi && cs[a] == '#'
                invariant
                    lo <= a <= hi <= cs@.len(),
                    strip_hashes(cs@.subrange(lo as int, hi as int)) == strip_hashes(cs@.subrange(a as int, hi as int)),
                decreases hi - a,
            {
                assert(cs@.subrange(a as int, hi as int).drop_first() == cs@.subrange(a + 1, hi as int));
                a += 1;
            }
            assert(strip_hashes(cs@.subrange(a as int, hi as int)) == cs@.subrange(a as int, hi as int)) by {
                if a < hi {
                    assert(cs@.subrange(a as int, hi as int)[0] == cs@[a as int]);
                }
            }
            let mut name: Vec<char> = Vec::new();
            let mut b = a;
            while b < hi
                invariant
                    a <= b <= hi <= cs@.len(),
                    name@ == cs@.subrange(a as int, b as int),
                decreases hi - b,
            {
                name.push(cs[b]);
                b += 1;
                assert(name@ =~= cs@.subrange(a as int, b as int));
            }
            return Some(FollowTarget::Label(string_from_chars(&name)));
        }
        k += 1;
    }
    None
}

/// The `k` low bytes of `v`, least significant first.
pub open spec fn le_bytes(v: nat, k: nat) -> Seq<u8>
    decreases k,
{
    if k == 0 {
        Seq::empty()
    } else {
        seq![(v % 256) as u8] + le_bytes(v / 256, (k - 1) as nat)
    }
}

/// Each row's UTF-8 bytes, then a `0xff` (a byte UTF-8 never holds), as
/// separate writes.
pub open spec fn row_writes(rows: Seq<Seq<char>>) -> Seq<Seq<u8>>
    decreases rows.len(),
{
    if rows.len() == 0 {
        Seq::empty()
    } else {
        row_writes(rows.drop_last()) + seq![vstd::utf8::encode_utf8(rows.last()), seq![0xffu8]]
    }
}

/// What the digest of `rows` feeds the hasher: the row count as eight
/// little-endian bytes, then the rows.
pub open spec fn rows_digest_writes(rows: Seq<Seq<char>>) -> Seq<Seq<u8>> {
    seq![le_bytes(rows.len(), 8)] + row_writes(rows)
}

/// The eight bytes of `v`, least significant first.
fn le_bytes_exec(v: u64) -> (out: Vec<u8>)
    ensures
        out@ == le_bytes(v as nat, 8),
{
    let mut out: Vec<u8> = Vec::new();
    let mut rest: u64 = v;
    let mut i: usize = 0;
    while i < 8
        invariant
            i <= 8,
            out@ + le_bytes(rest as nat, (8 - i) as nat) == le_bytes(v as nat, 8),
        decreases 8 - i,
    {
        let ghost before = out@;
        let ghost r = rest as nat;
        let b = (rest % 256) as u8;
        out.push(b);
        rest = rest / 256;
        i += 1;
        assert(le_bytes(r, (8 - (i - 1)) as nat) == seq![(r % 256) as u8] + le_bytes(r / 256, (8 - i) as nat));
        assert(out@ + le_bytes(rest as nat, (8 - i) as nat) =~= before + le_bytes(r, (8 - (i - 1)) as nat));
    }
    assert(le_bytes(rest as nat, 0) =~= Seq::<u8>::empty());
    assert(out@ + le_bytes(rest as nat, 0) =~= out@);
    out
}

/// Feeds the digest writes of `lines` into `h`.
fn write_rows(h: &mut DefaultHasher, lines: &[String])
    ensures
        final(h)@ == old(h)@ + rows_digest_writes(lines@.map_values(|s: String| s@)),
{
    let ghost rv = lines@.map_values(|s: String| s@);
    let count = le_bytes_exec(lines.len() as u64);
    h.write(count.as_slice());
    let ghost start = h@;
    let sep: Vec<u8> = vec![0xffu8];
    let mut i: usize = 0;
    while i < lines.len()
        invariant
            i <= lines@.len(),
            rv == lines@.map_values(|s: String| s@),
            sep@ == seq![0xffu8],
            h@ == start + row_writes(rv.take(i as int)),
        decreases lines.len() - i,
    {
        h.write(lines[i].as_str().as_bytes());
        h.write(sep.as_slice());
        i += 1;
        assert(rv.take(i as int).drop_last() =~= rv.take(i - 1));
        assert(rv.take(i as int).last() == rv[i - 1]);
        assert(h@ =~= start + row_writes(rv.take(i as int)));
    }
    assert(rv.take(i as int) =~= rv);
    assert(h@ =~= old(h)@ + rows_digest_writes(rv));
}

/// A digest of the rows, from std's `DefaultHasher`: the row count and each
/// row's bytes, so equal rows give equal digests.
pub fn hash_lines(lines: &[String]) -> (d: u64)
    ensures
        d == DefaultHasher::spec_finish(rows_digest_writes(lines@.map_values(|s: String| s@))),
{
    let mut h = DefaultHasher::new();
    write_rows(&mut h, lines);
    assert(h@ =~= rows_digest_writes(lines@.map_values(|s: String| s@)));
    h.finish()
}

/// What a preview's revision digests: the base revision's eight bytes, then
/// the digest writes of the previewed rows.
pub open spec fn preview_writes(base: u64, rows: Seq<Seq<char>>) -> Seq<Seq<u8>> {
    seq![le_bytes(base as nat, 8)] + rows_digest_writes(rows)
}

/// The revision of a replace preview of `lines` on top of revision `base`:
/// the digest of both, or 1 where the digest is zero.
pub fn preview_revision(base: u64, lines: &[String]) -> (r: u64)
    requires
        base != 0,
    ensures
        ({
            let d = DefaultHasher::spec_finish(preview_writes(base, lines@.map_values(|s: String| s@)));
            r == (if d == 0 { 1 } else { d })
        }),
{
    let mut h = DefaultHasher::new();
    let b = le_bytes_exec(base);
    h.write(b.as_slice());
    write_rows(&mut h, lines);
    assert(h@ =~= preview_writes(base, lines@.map_values(|s: String| s@)));
    let v = h.finish();
    if v == 0 {
        1
    } else {
        v
    }
}

/// An autocomplete acceptance: replace the bytes `range` of the note (its
/// rows joined by `\n`) with `new_text`, then put the cursor at byte
/// `new_cursor_byte` of the result.
#[derive(Debug)]
pub struct AcceptAction {
    pub range: std::ops::Range<usize>,
    pub new_text: String,
    pub new_cursor_byte: usize,
}

/// The rows joined by `\n`.
pub open spec fn joined(rows: Seq<Seq<char>>) -> Seq<char>
    decreases rows.len(),
{
    if rows.len() == 0 {
        Seq::empty()
    } else if rows.len() == 1 {
        rows[0]
    } else {
        joined(rows.drop_last()) + seq!['\n'] + rows.last()
    }
}

/// The text split at its `\n`s.
pub open spec fn split_rows(t: Seq<char>) -> Seq<Seq<char>>
    decreases t.len(),
{
    match first_newline(t) {
        Some(i) => if 0 <= i < t.len() {
            seq![t.take(i)] + split_rows(t.skip(i + 1))
        } else {
            seq![t]
        },
        None => seq![t],
    }
}

/// The char index where byte `b` of `t` starts a char, if it does.
pub open spec fn char_at_byte(t: Seq<char>, b: int) -> Option<int> {
    let k = char_index_at_byte(t, b);
    if b >= 0 && bytes_len(t.take(k)) == b {
        Some(k)
    } else {
        None
    }
}

/// The `\n`s of `s`.
pub open spec fn newline_count(s: Seq<char>) -> nat
    decreases s.len(),
{
    if s.len() == 0 {
        0
    } else {
        newline_count(s.drop_last()) + if s.last() == '\n' { 1nat } else { 0nat }
    }
}

/// Where the last line of `s` starts: just past its last `\n`, or 0.
pub open spec fn last_line_start(s: Seq<char>) -> int
    decreases s.len(),
{
    if s.len() == 0 {
        0
    } else if s.last() == '\n' {
        s.len() as int
    } else {
        last_line_start(s.drop_last())
    }
}

/// `(row, char column)` of char index `k` of `t`.
pub open spec fn position_of(t: Seq<char>, k: int) -> (usize, usize) {
    let pre = t.take(k);
    (newline_count(pre) as usize, (k - last_line_start(pre)) as usize)
}

/// The text an acceptance leaves: the accepted range's chars replaced by
/// the new text.
pub open spec fn accepted_text(text: Seq<char>, ks: int, ke: int, range_grows: bool, new_text: Seq<char>) -> Seq<char> {
    text.take(ks) + new_text + text.skip(if range_grows { ke } else { ks })
}

/// The cursor after an acceptance: at byte `b` of the result when that is a
/// char start, else just past the inserted text.
pub open spec fn accepted_cursor(new: Seq<char>, ks: int, inserted: nat, b: int) -> (usize, usize) {
    match char_at_byte(new, b) {
        Some(k) => position_of(new, k),
        None => position_of(new, ks + inserted),
    }
}

/// The rows joined by `\n`.
fn joined_exec(rows: &[String]) -> (text: Vec<char>)
    ensures
        text@ == joined(rows@.map_values(|s: String| s@)),
{
    let ghost rv = rows@.map_values(|s: String| s@);
    let mut text: Vec<char> = Vec::new();
    let mut r: usize = 0;
    while r < rows.len()
        invariant
            r <= rows@.len(),
            rv == rows@.map_values(|s: String| s@),
            text@ == joined(rv.take(r as int)),
        decreases rows.len() - r,
    {
        proof {
            assert(rv.take(r + 1).drop_last() == rv.take(r as int));
            assert(rv.take(r + 1).last() == rows@[r as int]@);
        }
        if r > 0 {
            text.push('\n');
        }
        let cs = chars_of(rows[r].as_str());
        let mut j: usize = 0;
        let ghost base = text@;
        while j < cs.len()
            invariant
                j <= cs@.len(),
                text@ == base + cs@.take(j as int),
            decreases cs.len() - j,
        {
            text.push(cs[j]);
            j += 1;
            assert(text@ =~= base + cs@.take(j as int));
        }
        assert(cs@.take(cs@.len() as int) == cs@);
        proof {
            if r == 0 {
                assert(rv.take(1)[0] == rows@[0]@);
                assert(text@ =~= joined(rv.take(1)));
            } else {
                assert(text@ =~= joined(rv.take(r as int)) + seq!['\n'] + rows@[r as int]@);
            }
        }
        r += 1;
    }
    assert(rv.take(rows@.len() as int) == rv);
    text
}

/// Bytes of the first `k` chars of `t`.
fn prefix_bytes(t: &Vec<char>, k: usize) -> (n: usize)
    requires
        k <= t@.len(),
        bytes_len(t@) <= usize::MAX,
    ensures
        n == bytes_len(t@.take(k as int)),
{
    let mut n: usize = 0;
    let mut i: usize = 0;
    while i < k
        invariant
            i <= k <= t@.len(),
            bytes_len(t@) <= usize::MAX,
            n == bytes_len(t@.take(i as int)),
        decreases k - i,
    {
        proof {
            lemma_bytes_len_mono(t@, i + 1, t@.len() as int);
            assert(t@.take(i + 1) == t@.take(i as int).push(t@[i as int]));
            lemma_bytes_len_push(t@.take(i as int), t@[i as int]);
            assert(t@.take(t@.len() as int) == t@);
        }
        n = n + char_utf8_len(t[i]);
        i += 1;
    }
    n
}

/// The char index byte `b` starts, if it starts one.
fn char_at_byte_exec(t: &Vec<char>, b: usize) -> (r: Option<usize>)
    requires
        bytes_len(t@) <= usize::MAX,
    ensures
        match r {
            Some(k) => char_at_byte(t@, b as int) == Some(k as int) && k <= t@.len(),
            None => char_at_byte(t@, b as int) is None,
        },
{
    let k = char_index_at(t.as_slice(), b);
    if prefix_bytes(t, k) == b {
        Some(k)
    } else {
        None
    }
}

/// `(row, char column)` of char index `k` of `t`.
fn position_of_exec(t: &Vec<char>, k: usize) -> (p: (usize, usize))
    requires
        k <= t@.len(),
    ensures
        p == position_of(t@, k as int),
{
    let mut row: usize = 0;
    let mut start: usize = 0;
    let mut i: usize = 0;
    while i < k
        invariant
            i <= k <= t@.len(),
            row as nat == newline_count(t@.take(i as int)),
            row <= i,
            start as int == last_line_start(t@.take(i as int)),
            start <= i,
        decreases k - i,
    {
        assert(t@.take(i + 1).drop_last() == t@.take(i as int));
        assert(t@.take(i + 1).last() == t@[i as int]);
        if t[i] == '\n' {
            row += 1;
            start = i + 1;
        }
        i += 1;
    }
    (row, k - start)
}

/// `t` split at its `\n`s.
pub(crate) fn split_rows_exec(t: &Vec<char>) -> (out: Vec<String>)
    ensures
        out@.map_values(|s: String| s@) == split_rows(t@),
{
    let mut out: Vec<String> = Vec::new();
    let mut cur: Vec<char> = Vec::new();
    let mut start: usize = 0;
    let mut i: usize = 0;
    assert(t@.skip(0) == t@);
    while i < t.len()
        invariant
            start <= i <= t@.len(),
            cur@ == t@.subrange(start as int, i as int),
            forall|q: int| start <= q < i ==> t@[q] != '\n',
            out@.map_values(|s: String| s@) + split_rows(t@.skip(start as int)) == split_rows(t@),
        decreases t.len() - i,
    {
        if t[i] == '\n' {
            proof {
                let s = t@.skip(start as int);
                lemma_first_newline_at(s, i - start);
                assert(s.take(i - start) == cur@);
                assert(s.skip(i - start + 1) == t@.skip(i + 1));
            }
            let ghost before = out@.map_values(|s: String| s@);
            out.push(string_from_chars(&cur));
            assert(out@.map_values(|s: String| s@) == before.push(cur@));
            cur = Vec::new();
            start = i + 1;
        } else {
            cur.push(t[i]);
        }
        i += 1;
        assert(cur@ =~= t@.subrange(start as int, i as int));
    }
    proof {
        let s = t@.skip(start as int);
        lemma_first_newline_none(s);
        assert(s == cur@);
    }
    let ghost before = out@.map_values(|s: String| s@);
    out.push(string_from_chars(&cur));
    assert(out@.map_values(|s: String| s@) == before.push(cur@));
    out
}

/// Applies an autocomplete acceptance to the rows: the byte range of the
/// joined note becomes the new text, and the cursor goes to the requested
/// byte of the result (past the inserted text when that byte starts no
/// char). `None`, changing nothing, when either end of the range starts no
/// char of the note.
pub fn apply_accept_to_textarea(rows: &[String], action: &AcceptAction) -> (r: Option<(Vec<String>, (usize, usize))>)
    requires
        bytes_len(joined(rows@.map_values(|s: String| s@))) + bytes_len(action.new_text@) <= usize::MAX,
    ensures
        ({
            let text = joined(rows@.map_values(|s: String| s@));
            match (char_at_byte(text, action.range.start as int), char_at_byte(text, action.range.end as int)) {
                (Some(ks), Some(ke)) => {
                    let new = accepted_text(text, ks, ke, action.range.end > action.range.start, action.new_text@);
                    r matches Some((lines, cursor)) && lines@.map_values(|s: String| s@) == split_rows(new)
                        && cursor == accepted_cursor(new, ks, action.new_text@.len(), action.new_cursor_byte as int)
                },
                _ => r is None,
            }
        }),
{
    let text = joined_exec(rows);
    let ks = match char_at_byte_exec(&text, action.range.start) {
        Some(k) => k,
        None => return None,
    };
    let ke = match char_at_byte_exec(&text, action.range.end) {
        Some(k) => k,
        None => return None,
    };
    let cut = if action.range.end > action.range.start { ke } else { ks };
    proof {
        if action.range.end > action.range.start {
            lemma_bytes_len_mono_prefix(text@, ks as int, ke as int);
        }
    }
    let add = chars_of(action.new_text.as_str());
    let mut new: Vec<char> = Vec::new();
    let mut i: usize = 0;
    while i < ks
        invariant
            i <= ks <= text@.len(),
            new@ == text@.take(i as int),
        decreases ks - i,
    {
        new.push(text[i]);
        i += 1;
        assert(new@ =~= text@.take(i as int));
    }
    let mut j: usize = 0;
    while j < add.len()
        invariant
            j <= add@.len(),
            new@ == text@.take(ks as int) + add@.take(j as int),
        decreases add.len() - j,
    {
        new.push(add[j]);
        j += 1;
        assert(new@ =~= text@.take(ks as int) + add@.take(j as int));
    }
    let mut k: usize = cut;
    while k < text.len()
        invariant
            cut <= k <= text@.len(),
            new@ == text@.take(ks as int) + add@ + text@.subrange(cut as int, k as int),
        decreases text.len() - k,
    {
        new.push(text[k]);
        k += 1;
        assert(new@ =~= text@.take(ks as int) + add@ + text@.subrange(cut as int, k as int));
    }
    assert(add@.take(add@.len() as int) == add@);
    assert(text@.subrange(cut as int, text@.len() as int) == text@.skip(cut as int));
    proof {
        lemma_accepted_fits(text@, ks as int, cut as int, add@);
    }
    let nl = new.len();
    assert(ks + add@.len() <= nl);
    let cursor = match char_at_byte_exec(&new, action.new_cursor_byte) {
        Some(c) => position_of_exec(&new, c),
        None => position_of_exec(&new, ks + add.len()),
    };
    Some((split_rows_exec(&new), cursor))
}

/// Whole chars only: char `ke` at or past char `ks` when its byte offset is.
proof fn lemma_bytes_len_mono_prefix(t: Seq<char>, ks: int, ke: int)
    requires
        0 <= ks <= t.len(),
        0 <= ke <= t.len(),
        bytes_len(t.take(ke)) > bytes_len(t.take(ks)),
    ensures
        ks < ke,
{
    if ke <= ks {
        lemma_bytes_len_mono(t, ke, ks);
    }
}

/// The accepted text's bytes add up from its parts.
proof fn lemma_accepted_fits(t: Seq<char>, ks: int, cut: int, add: Seq<char>)
    requires
        0 <= ks <= cut <= t.len(),
    ensures
        bytes_len(t.take(ks) + add + t.skip(cut)) <= bytes_len(t) + bytes_len(add),
{
    lemma_bytes_len_concat(t.take(ks), add);
    lemma_bytes_len_concat(t.take(ks) + add, t.skip(cut));
    lemma_bytes_len_concat(t.take(ks), t.skip(ks));
    assert(t.take(ks) + t.skip(ks) == t);
    lemma_bytes_len_concat(t.skip(ks).take(cut - ks), t.skip(cut));
    assert(t.skip(ks).take(cut - ks) + t.skip(cut) == t.skip(ks));
}

/// Bytes of a concatenation.
proof fn lemma_bytes_len_concat(a: Seq<char>, b: Seq<char>)
    ensures
        bytes_len(a + b) == bytes_len(a) + bytes_len(b),
    decreases b.len(),
{
    if b.len() == 0 {
        assert(a + b == a);
    } else {
        lemma_bytes_len_concat(a, b.drop_last());
        assert((a + b).drop_last() == a + b.drop_last());
        assert((a + b).last() == b.last());
    }
}

/// No row of `rows` holds a `\n`.
pub open spec fn rows_without_newlines(rows: Seq<Seq<char>>) -> bool {
    forall|r: int, i: int| 0 <= r < rows.len() && 0 <= i < rows[r].len() ==> #[trigger] rows[r][i] != '\n'
}

pub(crate) proof fn lemma_newline_count_concat(a: Seq<char>, b: Seq<char>)
    ensures
        newline_count(a + b) == newline_count(a) + newline_count(b),
    decreases b.len(),
{
    if b.len() == 0 {
        assert(a + b =~= a);
    } else {
        assert((a + b).drop_last() =~= a + b.drop_last());
        assert((a + b).last() == b.last());
        lemma_newline_count_concat(a, b.drop_last());
    }
}

pub(crate) proof fn lemma_last_line_start_concat(a: Seq<char>, b: Seq<char>)
    ensures
        last_line_start(a + b) == (if newline_count(b) == 0 { last_line_start(a) } else { a.len() + last_line_start(b) }),
    decreases b.len(),
{
    if b.len() == 0 {
        assert(a + b =~= a);
    } else {
        assert((a + b).drop_last() =~= a + b.drop_last());
        assert((a + b).last() == b.last());
        lemma_last_line_start_concat(a, b.drop_last());
    }
}

pub(crate) proof fn lemma_no_newline_count(s: Seq<char>)
    requires
        forall|i: int| 0 <= i < s.len() ==> s[i] != '\n',
    ensures
        newline_count(s) == 0,
        last_line_start(s) == 0,
    decreases s.len(),
{
    if s.len() > 0 {
        lemma_no_newline_count(s.drop_last());
    }
}

proof fn lemma_newline_alone()
    ensures
        newline_count(seq!['\n']) == 1,
        last_line_start(seq!['\n']) == 1,
{
    assert(seq!['\n'].drop_last() =~= Seq::<char>::empty());
    assert(newline_count(Seq::<char>::empty()) == 0);
}

/// The rows joined hold one `\n` between each two of them.
pub(crate) proof fn lemma_joined_newline_count(rows: Seq<Seq<char>>)
    requires
        rows.len() > 0,
        rows_without_newlines(rows),
    ensures
        newline_count(joined(rows)) == rows.len() - 1,
    decreases rows.len(),
{
    let last = rows.last();
    assert forall|i: int| 0 <= i < last.len() implies last[i] != '\n' by {
        assert(rows[rows.len() - 1][i] != '\n');
    }
    lemma_no_newline_count(last);
    if rows.len() > 1 {
        let front = rows.drop_last();
        assert forall|r: int, i: int| 0 <= r < front.len() && 0 <= i < front[r].len() implies #[trigger] front[r][i] != '\n' by {
            assert(rows[r][i] != '\n');
        }
        lemma_joined_newline_count(front);
        lemma_newline_alone();
        lemma_newline_count_concat(joined(front), seq!['\n']);
        lemma_newline_count_concat(joined(front) + seq!['\n'], last);
        assert(joined(rows) == joined(front) + seq!['\n'] + last);
    } else {
        assert(joined(rows) == rows[0]);
    }
}

/// Joining two non-empty row lists puts one `\n` between their joins.
pub(crate) proof fn lemma_joined_concat(a: Seq<Seq<char>>, b: Seq<Seq<char>>)
    requires
        a.len() > 0,
        b.len() > 0,
    ensures
        joined(a + b) == joined(a) + seq!['\n'] + joined(b),
    decreases b.len(),
{
    assert((a + b).drop_last() =~= a + b.drop_last());
    assert((a + b).last() == b.last());
    if b.len() == 1 {
        assert(a + b.drop_last() =~= a);
    } else {
        lemma_joined_concat(a, b.drop_last());
    }
}

/// The joined rows up to column `c` of row `r`: the rows before it joined,
/// a `\n`, and the first `c` chars of row `r`; as many `\n`s as rows before
/// it, the last line starting where row `r` does.
pub(crate) proof fn lemma_joined_prefix(rows: Seq<Seq<char>>, r: int, c: int)
    requires
        rows_without_newlines(rows),
        0 <= r < rows.len(),
        0 <= c <= rows[r].len(),
    ensures
        row_offset(rows, r) + c <= joined(rows).len(),
        newline_count(joined(rows).take(row_offset(rows, r) + c)) == r,
        last_line_start(joined(rows).take(row_offset(rows, r) + c)) == row_offset(rows, r),
{
    let k = row_offset(rows, r) + c;
    let upto = rows.take(r + 1);
    let row = rows[r];
    let head = row.take(c);
    assert forall|i: int| 0 <= i < head.len() implies head[i] != '\n' by {
        assert(rows[r][i] != '\n');
    }
    lemma_no_newline_count(head);
    // The rows up to `r`, joined, as a prefix of the whole join.
    let ju = joined(upto);
    if r + 1 < rows.len() {
        lemma_joined_concat(upto, rows.skip(r + 1));
        assert(upto + rows.skip(r + 1) =~= rows);
    } else {
        assert(upto =~= rows);
    }
    assert(joined(rows).len() >= ju.len());
    assert(forall|i: int| 0 <= i < ju.len() ==> joined(rows)[i] == ju[i]);
    if r == 0 {
        assert(upto =~= seq![row]);
        assert(ju == row);
        assert(joined(rows).take(k) =~= head);
        lemma_last_line_start_concat(Seq::<char>::empty(), head);
        assert(Seq::<char>::empty() + head =~= head);
    } else {
        let before = rows.take(r);
        assert(before + seq![row] =~= upto);
        lemma_joined_concat(before, seq![row]);
        assert(joined(seq![row]) == row);
        let pre = joined(before) + seq!['\n'];
        assert(row_offset(rows, r) == pre.len());
        assert(joined(rows).take(k) =~= pre + head);
        assert forall|q: int, i: int| 0 <= q < before.len() && 0 <= i < before[q].len() implies #[trigger] before[q][i] != '\n' by {
            assert(rows[q][i] != '\n');
        }
        lemma_joined_newline_count(before);
        lemma_newline_alone();
        lemma_newline_count_concat(joined(before), seq!['\n']);
        lemma_newline_count_concat(pre, head);
        lemma_last_line_start_concat(pre, head);
    }
}

/// Char offset in the joined rows where row `r` starts.
pub open spec fn row_offset(rows: Seq<Seq<char>>, r: int) -> int {
    if r <= 0 {
        0
    } else {
        joined(rows.take(r)).len() + 1int
    }
}

/// Position `p` lies in the rows: an existing row, a column within it.
pub open spec fn in_rows(rows: Seq<Seq<char>>, p: (usize, usize)) -> bool {
    p.0 < rows.len() && p.1 <= rows[p.0 as int].len()
}

proof fn lemma_joined_take_step(rows: Seq<Seq<char>>, r: int)
    requires
        0 <= r < rows.len(),
    ensures
        joined(rows.take(r + 1)).len() == row_offset(rows, r) + rows[r].len(),
{
    assert(rows.take(r + 1).drop_last() == rows.take(r));
    assert(rows.take(r + 1).last() == rows[r]);
    if r == 0 {
        assert(rows.take(1)[0] == rows[0]);
    }
}

proof fn lemma_joined_take_mono(rows: Seq<Seq<char>>, a: int, b: int)
    requires
        0 <= a <= b <= rows.len(),
    ensures
        joined(rows.take(a)).len() <= joined(rows.take(b)).len(),
    decreases b - a,
{
    if a < b {
        lemma_joined_take_mono(rows, a, b - 1);
        lemma_joined_take_step(rows, b - 1);
    }
}

/// Char offset of position `p` in the joined rows.
fn offset_exec(rows: &[String], p: (usize, usize)) -> (o: usize)
    requires
        in_rows(rows@.map_values(|s: String| s@), p),
        joined(rows@.map_values(|s: String| s@)).len() <= usize::MAX,
    ensures
        o == row_offset(rows@.map_values(|s: String| s@), p.0 as int) + p.1,
        o <= joined(rows@.map_values(|s: String| s@)).len(),
{
    let ghost rv = rows@.map_values(|s: String| s@);
    let mut o: usize = 0;
    let mut i: usize = 0;
    proof {
        lemma_joined_take_step(rv, p.0 as int);
        lemma_joined_take_mono(rv, p.0 + 1, rv.len() as int);
        assert(rv.take(rv.len() as int) == rv);
    }
    while i < p.0
        invariant
            i <= p.0 < rv.len(),
            rv == rows@.map_values(|s: String| s@),
            o == row_offset(rv, i as int),
            row_offset(rv, p.0 as int) + rv[p.0 as int].len() <= joined(rv).len(),
            joined(rv).len() <= usize::MAX,
        decreases p.0 - i,
    {
        proof {
            lemma_joined_take_step(rv, i as int);
            lemma_joined_take_mono(rv, i + 1, p.0 as int);
        }
        let n = chars_of(rows[i].as_str()).len();
        o = o + n + 1;
        i += 1;
    }
    o + p.1
}

/// The text between `start` and `end` of the rows: none for an empty
/// range, or for one whose ends are not both in the rows in order.
pub fn selection_text_in(rows: &[String], range: ((usize, usize), (usize, usize))) -> (r: Option<String>)
    requires
        joined(rows@.map_values(|s: String| s@)).len() <= usize::MAX,
    ensures
        ({
            let rv = rows@.map_values(|s: String| s@);
            let (start, end) = range;
            let (os, oe) = (row_offset(rv, start.0 as int) + start.1, row_offset(rv, end.0 as int) + end.1);
            if start == end || !in_rows(rv, start) || !in_rows(rv, end) || os > oe {
                r is None
            } else {
                r matches Some(t) && t@ == joined(rv).subrange(os, oe)
            }
        }),
{
    let ((sr, sc), (er, ec)) = range;
    if sr == er && sc == ec {
        return None;
    }
    let ghost rv = rows@.map_values(|s: String| s@);
    if sr >= rows.len() || er >= rows.len() {
        return None;
    }
    assert(rv[sr as int] == rows@[sr as int]@ && rv[er as int] == rows@[er as int]@);
    if sc > chars_of(rows[sr].as_str()).len() || ec > chars_of(rows[er].as_str()).len() {
        return None;
    }
    let os = offset_exec(rows, (sr, sc));
    let oe = offset_exec(rows, (er, ec));
    if os > oe {
        return None;
    }
    let text = joined_exec(rows);
    let mut out: Vec<char> = Vec::new();
    let mut i = os;
    while i < oe
        invariant
            os <= i <= oe <= text@.len(),
            out@ == text@.subrange(os as int, i as int),
        decreases oe - i,
    {
        out.push(text[i]);
        i += 1;
        assert(out@ =~= text@.subrange(os as int, i as int));
    }
    Some(string_from_chars(&out))
}

/// The text of the selection, if there is one of some width.
pub fn selection_text(rows: &[String], selection: Option<((usize, usize), (usize, usize))>) -> (r: Option<String>)
    requires
        joined(rows@.map_values(|s: String| s@)).len() <= usize::MAX,
    ensures
        selection is None ==> r is None,
        selection matches Some(range) ==> ({
            let rv = rows@.map_values(|s: String| s@);
            let (start, end) = range;
            let (os, oe) = (row_offset(rv, start.0 as int) + start.1, row_offset(rv, end.0 as int) + end.1);
            if start == end || !in_rows(rv, start) || !in_rows(rv, end) || os > oe {
                r is None
            } else {
                r matches Some(t) && t@ == joined(rv).subrange(os, oe)
            }
        }),
{
    match selection {
        Some(range) => selection_text_in(rows, range),
        None => None,
    }
}

/// The selection as a copy takes it: a charwise visual selection includes
/// the char under its end, so the end column moves one right (not past its
/// row's end; a missing row keeps the column).
pub fn inclusive_visual_range(
    rows: &[String],
    selection: Option<((usize, usize), (usize, usize))>,
    charwise: bool,
) -> (r: Option<((usize, usize), (usize, usize))>)
    ensures
        match selection {
            None => r is None,
            Some((start, (er, ec))) => r == Some((start, if charwise {
                let len = if er < rows@.len() { rows@[er as int]@.len() as int } else { ec as int };
                (er, (if ec + 1 < len { ec + 1 } else { len }) as usize)
            } else {
                (er, ec)
            })),
        },
{
    let (start, (er, ec)) = match selection {
        Some(s) => s,
        None => return None,
    };
    let end = if charwise {
        let len = if er < rows.len() { chars_of(rows[er].as_str()).len() } else { ec };
        (er, if ec < len { ec + 1 } else { len })
    } else {
        (er, ec)
    };
    Some((start, end))
}

} // verus!
