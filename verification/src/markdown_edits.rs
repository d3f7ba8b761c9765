//! Markdown-aware edit decisions: the auto-surround pairs, the emphasis
//! markers, what Enter does at the end of a list or indented row, what
//! wrapping a selection and inserting a pair produce, and which row a
//! heading jump lands on; and Enter's decision applied to the rows.
use vstd::prelude::*;
use crate::editor::{
    in_rows, joined, lemma_joined_prefix, lemma_last_line_start_concat, lemma_newline_count_concat, lemma_no_newline_count,
    position_of, row_offset, rows_without_newlines,
};
use crate::indent::{dedent_count, dedent_count_exec, shift_col};
use crate::markdown::{leading_ws_byte_len, list_marker_len, list_marker_len_spec};
use crate::text::{
    chars_of, lead_blank, lead_run, lead_ws, lemma_lead_blank_bound, run_len, string_from_chars, trim,
    trim_bounds, ws_prefix_len,
};

verus! {

/// The text actions of the editor's formatting shortcuts.
#[derive(Debug, Clone, Copy, PartialEq, Eq, Structural)]
pub enum TextAction {
    Bold,
    Italic,
    Strikethrough,
    Underline,
    Link,
    Image,
    ToggleHeader,
    Header(u8),
}

/// The open and close strings typing `c` over a selection wraps it in.
pub open spec fn surround_spec(c: char) -> Option<(Seq<char>, Seq<char>)> {
    if c == '(' {
        Some((seq!['('], seq![')']))
    } else if c == '[' {
        Some((seq!['['], seq![']']))
    } else if c == '{' {
        Some((seq!['{'], seq!['}']))
    } else if c == '<' {
        Some((seq!['<'], seq!['>']))
    } else if c == '"' || c == '\'' || c == '`' || c == '*' || c == '_' || c == '~' {
        Some((seq![c], seq![c]))
    } else {
        None
    }
}

/// Auto-surround pair for `c`: opening pair characters and the symmetric
/// ones wrap a selection; closing characters (and everything else) do not.
pub fn surround_pair(c: char) -> (r: Option<(&'static str, &'static str)>)
    ensures
        match r {
            Some(p) => surround_spec(c) == Some((p.0@, p.1@)),
            None => surround_spec(c) is None,
        },
{
    proof {
        reveal_strlit("(");
        reveal_strlit(")");
        reveal_strlit("[");
        reveal_strlit("]");
        reveal_strlit("{");
        reveal_strlit("}");
        reveal_strlit("<");
        reveal_strlit(">");
        reveal_strlit("\"");
        reveal_strlit("'");
        reveal_strlit("`");
        reveal_strlit("*");
        reveal_strlit("_");
        reveal_strlit("~");
    }
    match c {
        '(' => Some(("(", ")")),
        '[' => Some(("[", "]")),
        '{' => Some(("{", "}")),
        '<' => Some(("<", ">")),
        '"' => Some(("\"", "\"")),
        '\'' => Some(("'", "'")),
        '`' => Some(("`", "`")),
        '*' => Some(("*", "*")),
        '_' => Some(("_", "_")),
        '~' => Some(("~", "~")),
        _ => None,
    }
}

/// The marker an emphasis action wraps a selection in.
pub open spec fn emphasis_spec(a: TextAction) -> Option<Seq<char>> {
    match a {
        TextAction::Bold => Some(seq!['*', '*']),
        TextAction::Italic => Some(seq!['*']),
        TextAction::Strikethrough => Some(seq!['~', '~']),
        _ => None,
    }
}

/// The emphasis marker of `action`; `None` for the actions that are not
/// emphasis.
pub fn emphasis_marker(action: TextAction) -> (r: Option<&'static str>)
    ensures
        match r {
            Some(m) => emphasis_spec(action) == Some(m@),
            None => emphasis_spec(action) is None,
        },
{
    proof {
        reveal_strlit("**");
        reveal_strlit("*");
        reveal_strlit("~~");
    }
    match action {
        TextAction::Bold => Some("**"),
        TextAction::Italic => Some("*"),
        TextAction::Strikethrough => Some("~~"),
        _ => None,
    }
}

/// A selection as `(row, char column)` start and end.
pub type Selection = ((usize, usize), (usize, usize));

/// The selection of the inner text once the selection `sel` is wrapped in
/// an open marker of `shift` chars: the marker shifts the columns of the
/// first row only.
pub open spec fn inner_selection(sel: Selection, shift: nat) -> Selection {
    let ((sr, sc), (er, ec)) = sel;
    ((sr, (sc + shift) as usize), (er, (if sr == er { ec + shift } else { ec as int }) as usize))
}

/// Wrapping `text` (the selection `sel`) in `open` … `close`: the text that
/// replaces the selection, and the selection of the inner text afterwards
/// (the open marker shifts columns on the first row only). `None`, touching
/// nothing, without a selection of some width.
pub fn wrap_selection(open: &str, close: &str, sel: Option<Selection>, text: Option<&str>) -> (r: Option<(String, Selection)>)
    requires
        sel is Some ==> sel.unwrap().0.1 + open@.len() <= usize::MAX && sel.unwrap().1.1 + open@.len() <= usize::MAX,
    ensures
        r is Some <==> (sel is Some && sel.unwrap().0 != sel.unwrap().1 && text is Some),
        r is Some ==> {
            &&& r.unwrap().0@ == open@ + text.unwrap()@ + close@
            &&& r.unwrap().1 == inner_selection(sel.unwrap(), open@.len())
        },
{
    let ((sr, sc), (er, ec)) = match sel {
        Some(s) => s,
        None => return None,
    };
    if sr == er && sc == ec {
        return None;
    }
    let t = match text {
        Some(t) => t,
        None => return None,
    };
    let oc = chars_of(open);
    let tc = chars_of(t);
    let cc = chars_of(close);
    let mut all: Vec<char> = Vec::new();
    let mut i: usize = 0;
    while i < oc.len()
        invariant
            i <= oc@.len(),
            all@ == oc@.take(i as int),
        decreases oc.len() - i,
    {
        all.push(oc[i]);
        i += 1;
        assert(all@ =~= oc@.take(i as int));
    }
    let ghost a1 = all@;
    i = 0;
    while i < tc.len()
        invariant
            i <= tc@.len(),
            all@ == a1 + tc@.take(i as int),
        decreases tc.len() - i,
    {
        all.push(tc[i]);
        i += 1;
        assert(all@ =~= a1 + tc@.take(i as int));
    }
    let ghost a2 = all@;
    i = 0;
    while i < cc.len()
        invariant
            i <= cc@.len(),
            all@ == a2 + cc@.take(i as int),
        decreases cc.len() - i,
    {
        all.push(cc[i]);
        i += 1;
        assert(all@ =~= a2 + cc@.take(i as int));
    }
    assert(oc@.take(oc@.len() as int) == oc@);
    assert(tc@.take(tc@.len() as int) == tc@);
    assert(cc@.take(cc@.len() as int) == cc@);
    let shift = oc.len();
    let inner_end = if sr == er { ec + shift } else { ec };
    Some((string_from_chars(&all), ((sr, sc + shift), (er, inner_end))))
}

/// Wrapping a selection reselects exactly the text it wrapped: once the
/// wrapped text replaces the selection in the buffer, the selection that
/// [`wrap_selection`] returns starts just past the open marker and covers
/// the same chars, so a second wrap wraps the same text again.
pub proof fn law_wrap_reselects_the_wrapped_text(rows: Seq<Seq<char>>, open: Seq<char>, close: Seq<char>, sel: Selection)
    requires
        rows_without_newlines(rows),
        forall|i: int| 0 <= i < open.len() ==> open[i] != '\n',
        in_rows(rows, sel.0),
        in_rows(rows, sel.1),
        row_offset(rows, sel.0.0 as int) + sel.0.1 <= row_offset(rows, sel.1.0 as int) + sel.1.1,
        joined(rows).len() + open.len() + close.len() <= usize::MAX,
    ensures
        ({
            let t = joined(rows);
            let os = row_offset(rows, sel.0.0 as int) + sel.0.1;
            let oe = row_offset(rows, sel.1.0 as int) + sel.1.1;
            let text = t.subrange(os, oe);
            let wrapped = t.take(os) + (open + text + close) + t.skip(oe);
            let inner = inner_selection(sel, open.len());
            &&& position_of(wrapped, os + open.len()) == inner.0
            &&& position_of(wrapped, oe + open.len()) == inner.1
            &&& wrapped.subrange(os + open.len(), oe + open.len()) == text
        }),
{
    let ((sr, sc), (er, ec)) = sel;
    let t = joined(rows);
    let os = row_offset(rows, sr as int) + sc;
    let oe = row_offset(rows, er as int) + ec;
    let text = t.subrange(os, oe);
    let wrapped = t.take(os) + (open + text + close) + t.skip(oe);
    lemma_joined_prefix(rows, sr as int, sc as int);
    lemma_joined_prefix(rows, er as int, ec as int);
    let before = t.take(os);
    lemma_no_newline_count(open);
    // Just past the open marker.
    assert(wrapped.take(os + open.len()) =~= before + open);
    lemma_newline_count_concat(before, open);
    lemma_last_line_start_concat(before, open);
    // The end of the wrapped text.
    assert(t.take(oe) =~= before + text);
    assert(wrapped.take(oe + open.len()) =~= (before + open) + text);
    lemma_newline_count_concat(before, text);
    lemma_newline_count_concat(before + open, text);
    lemma_last_line_start_concat(before, text);
    lemma_last_line_start_concat(before + open, text);
    assert(wrapped.subrange(os + open.len(), oe + open.len()) =~= text);
}

/// Inserting a pair at the cursor: the text inserted, and how many chars
/// the cursor then steps back to land between the two halves.
pub fn insert_pair(open: &str, close: &str) -> (r: (String, usize))
    ensures
        r.0@ == open@ + close@,
        r.1 == close@.len(),
{
    let oc = chars_of(open);
    let cc = chars_of(close);
    let mut all: Vec<char> = Vec::new();
    let mut i: usize = 0;
    while i < oc.len()
        invariant
            i <= oc@.len(),
            all@ == oc@.take(i as int),
        decreases oc.len() - i,
    {
        all.push(oc[i]);
        i += 1;
        assert(all@ =~= oc@.take(i as int));
    }
    let ghost a1 = all@;
    i = 0;
    while i < cc.len()
        invariant
            i <= cc@.len(),
            all@ == a1 + cc@.take(i as int),
        decreases cc.len() - i,
    {
        all.push(cc[i]);
        i += 1;
        assert(all@ =~= a1 + cc@.take(i as int));
    }
    assert(oc@.take(oc@.len() as int) == oc@);
    assert(cc@.take(cc@.len() as int) == cc@);
    (string_from_chars(&all), cc.len())
}

// ---------------------------------------------------------------------------
// Ordered-list markers.

pub open spec fn is_digit_char(c: char) -> bool {
    '0' <= c && c <= '9'
}

/// Decimal value of a run of digits.
pub open spec fn digits_value(s: Seq<char>) -> int
    decreases s.len(),
{
    if s.len() == 0 {
        0
    } else {
        digits_value(s.drop_last()) * 10 + (s.last() as int - '0' as int)
    }
}

/// `s` without one leading `+`.
pub open spec fn sign_stripped(s: Seq<char>) -> Seq<char> {
    if s.len() > 0 && s[0] == '+' {
        s.drop_first()
    } else {
        s
    }
}

pub open spec fn all_digits(d: Seq<char>) -> bool {
    forall|i: int| 0 <= i < d.len() ==> is_digit_char(d[i])
}

/// `u32::from_str`: an optional `+`, then at least one digit, in range.
pub open spec fn parse_u32_spec(s: Seq<char>) -> Option<int> {
    let d = sign_stripped(s);
    if d.len() > 0 && all_digits(d) && digits_value(d) <= u32::MAX {
        Some(digits_value(d))
    } else {
        None
    }
}

/// The digit char of `d < 10`.
pub open spec fn digit_char_spec(d: int) -> char {
    if d == 0 { '0' } else if d == 1 { '1' } else if d == 2 { '2' } else if d == 3 { '3' } else if d == 4 {
        '4'
    } else if d == 5 { '5' } else if d == 6 { '6' } else if d == 7 { '7' } else if d == 8 { '8' } else { '9' }
}

/// Decimal rendering of `n`.
pub open spec fn decimal(n: nat) -> Seq<char>
    decreases n,
{
    if n < 10 {
        seq![digit_char_spec(n as int)]
    } else {
        decimal(n / 10) + seq![digit_char_spec((n % 10) as int)]
    }
}

/// `s` without its trailing spaces.
pub open spec fn trim_end_spaces(s: Seq<char>) -> Seq<char>
    decreases s.len(),
{
    if s.len() > 0 && s.last() == ' ' {
        trim_end_spaces(s.drop_last())
    } else {
        s
    }
}

/// The number an ordered marker like `3. ` holds: trailing spaces dropped,
/// then one trailing `.`, then the rest read as a `u32`.
pub open spec fn marker_number(marker: Seq<char>) -> Option<int> {
    let t = trim_end_spaces(marker);
    if t.len() > 0 && t.last() == '.' {
        parse_u32_spec(t.drop_last())
    } else {
        None
    }
}

/// The next ordered marker after `marker` (`3. ` → `4. `).
pub open spec fn next_marker(marker: Seq<char>) -> Option<Seq<char>> {
    match marker_number(marker) {
        Some(n) => Some(decimal((n + 1) as nat) + seq!['.', ' ']),
        None => None,
    }
}

proof fn lemma_digit_char(d: int)
    requires
        0 <= d < 10,
    ensures
        is_digit_char(digit_char_spec(d)),
        digit_char_spec(d) as int - '0' as int == d,
        digit_char_spec(d) != '+',
{
}

/// The decimal rendering of `n` is a run of digits that reads back as `n`.
proof fn lemma_decimal_reads_back(n: nat)
    ensures
        decimal(n).len() > 0,
        all_digits(decimal(n)),
        digits_value(decimal(n)) == n,
    decreases n,
{
    if n < 10 {
        lemma_digit_char(n as int);
        let d = decimal(n);
        assert(d.drop_last() =~= Seq::<char>::empty());
        assert(digits_value(d.drop_last()) == 0);
        assert(d.last() == digit_char_spec(n as int));
        assert(digits_value(d) == digits_value(d.drop_last()) * 10 + (d.last() as int - '0' as int));
    } else {
        lemma_decimal_reads_back(n / 10);
        lemma_digit_char((n % 10) as int);
        let d = decimal(n);
        assert(d.drop_last() =~= decimal(n / 10));
        assert(d.last() == digit_char_spec((n % 10) as int));
        assert(n == (n / 10) * 10 + n % 10);
        assert(digits_value(d) == digits_value(d.drop_last()) * 10 + (d.last() as int - '0' as int));
        assert forall|i: int| 0 <= i < d.len() implies is_digit_char(d[i]) by {
            if i < d.len() - 1 {
                assert(d[i] == decimal(n / 10)[i]);
            }
        }
    }
}

/// Continuing an ordered list counts up: the marker after one numbered `n`
/// reads back as `n + 1`.
pub proof fn law_next_marker_counts_up(marker: Seq<char>)
    requires
        marker_number(marker) is Some,
        marker_number(marker).unwrap() < u32::MAX,
    ensures
        next_marker(marker) matches Some(next) && marker_number(next) == Some(marker_number(marker).unwrap() + 1),
{
    let n = marker_number(marker).unwrap();
    let dd = sign_stripped(trim_end_spaces(marker).drop_last());
    lemma_digits_value_nonneg(dd);
    assert(n == digits_value(dd));
    let k = (n + 1) as nat;
    assert(k == n + 1 && k <= u32::MAX);
    let d = decimal(k);
    lemma_decimal_reads_back(k);
    let next = d + seq!['.', ' '];
    assert(next.drop_last() =~= d + seq!['.']);
    assert(trim_end_spaces(d + seq!['.']) == d + seq!['.']);
    assert(trim_end_spaces(next) == d + seq!['.']);
    assert((d + seq!['.']).drop_last() =~= d);
    assert(d[0] != '+') by {
        assert(is_digit_char(d[0]));
    }
    assert(sign_stripped(d) == d);
    assert(parse_u32_spec(d) == Some(k as int));
    assert(marker_number(next) == Some(k as int));
    assert(next_marker(marker) == Some(next));
}

fn digit_char(d: u64) -> (c: char)
    requires
        d < 10,
    ensures
        c == digit_char_spec(d as int),
{
    if d == 0 { '0' } else if d == 1 { '1' } else if d == 2 { '2' } else if d == 3 { '3' } else if d == 4 {
        '4'
    } else if d == 5 { '5' } else if d == 6 { '6' } else if d == 7 { '7' } else if d == 8 { '8' } else { '9' }
}

fn push_decimal(n: u64, out: &mut Vec<char>)
    ensures
        final(out)@ == old(out)@ + decimal(n as nat),
    decreases n,
{
    if n >= 10 {
        push_decimal(n / 10, out);
    }
    out.push(digit_char(n % 10));
    assert(final(out)@ =~= old(out)@ + decimal(n as nat)) by {
        if n >= 10 {
            assert(decimal(n as nat) == decimal((n / 10) as nat) + seq![digit_char_spec((n % 10) as int)]);
        }
    }
}

fn trim_end_spaces_len(s: &Vec<char>) -> (n: usize)
    ensures
        n <= s@.len(),
        s@.take(n as int) == trim_end_spaces(s@),
{
    let mut n = s.len();
    assert(s@.take(n as int) == s@);
    while n > 0 && s[n - 1] == ' '
        invariant
            n <= s@.len(),
            trim_end_spaces(s@.take(n as int)) == trim_end_spaces(s@),
        decreases n,
    {
        assert(s@.take(n as int).drop_last() == s@.take(n - 1));
        n -= 1;
    }
    n
}

fn parse_u32_exec(s: &Vec<char>, a: usize, b: usize) -> (r: Option<u64>)
    requires
        a <= b <= s@.len(),
    ensures
        match r {
            Some(v) => parse_u32_spec(s@.subrange(a as int, b as int)) == Some(v as int),
            None => parse_u32_spec(s@.subrange(a as int, b as int)) is None,
        },
{
    let ghost t = s@.subrange(a as int, b as int);
    let start = if a < b && s[a] == '+' { a + 1 } else { a };
    let ghost d = s@.subrange(start as int, b as int);
    assert(d == sign_stripped(t));
    if start == b {
        return None;
    }
    let mut v: u64 = 0;
    let mut i = start;
    assert(d.take(0) =~= Seq::<char>::empty());
    while i < b
        invariant
            a <= start <= i <= b <= s@.len(),
            d == s@.subrange(start as int, b as int),
            t == s@.subrange(a as int, b as int),
            d == sign_stripped(t),
            d.len() > 0,
            v == digits_value(d.take(i - start)),
            v <= u32::MAX,
            forall|k: int| 0 <= k < i - start ==> is_digit_char(d[k]),
        decreases b - i,
    {
        let c = s[i];
        assert(d[i - start] == c);
        if !('0' <= c && c <= '9') {
            assert(!is_digit_char(d[i - start]));
            assert(!all_digits(d));
            assert(parse_u32_spec(t) is None);
            return None;
        }
        assert(d.take(i - start + 1).drop_last() == d.take(i - start));
        let dv = (c as u32 - '0' as u32) as u64;
        let nv = v * 10 + dv;
        if nv > 4294967295 {
            proof {
                if all_digits(d) {
                    lemma_digits_value_prefix_mono(d, i - start + 1);
                }
                assert(parse_u32_spec(t) is None);
            }
            return None;
        }
        v = nv;
        i += 1;
    }
    assert(d.take(b - start) == d);
    Some(v)
}

proof fn lemma_digits_value_prefix_mono(d: Seq<char>, k: int)
    requires
        0 <= k <= d.len(),
        forall|i: int| 0 <= i < k ==> is_digit_char(d[i]),
        (forall|i: int| 0 <= i < d.len() ==> is_digit_char(d[i])),
    ensures
        digits_value(d) >= digits_value(d.take(k)),
    decreases d.len() - k,
{
    if k < d.len() {
        lemma_digits_value_prefix_mono(d, k + 1);
        assert(d.take(k + 1).drop_last() == d.take(k));
        lemma_digits_value_nonneg(d.take(k));
    } else {
        assert(d.take(k) == d);
    }
}

proof fn lemma_digits_value_nonneg(d: Seq<char>)
    requires
        forall|i: int| 0 <= i < d.len() ==> is_digit_char(d[i]),
    ensures
        digits_value(d) >= 0,
    decreases d.len(),
{
    if d.len() > 0 {
        lemma_digits_value_nonneg(d.drop_last());
    }
}

/// The next ordered-list marker after `marker`, or `None` for unordered
/// markers and anything else.
pub fn increment_ordered_marker(marker: &str) -> (r: Option<String>)
    requires
        marker_number(marker@) != Some(u32::MAX as int),
    ensures
        match r {
            Some(s) => next_marker(marker@) == Some(s@),
            None => next_marker(marker@) is None,
        },
{
    let cs = chars_of(marker);
    let n = trim_end_spaces_len(&cs);
    let ghost t = trim_end_spaces(cs@);
    if n == 0 || cs[n - 1] != '.' {
        assert(t.len() == n);
        return None;
    }
    assert(t.drop_last() == cs@.subrange(0, n - 1));
    match parse_u32_exec(&cs, 0, n - 1) {
        Some(v) => {
            let mut out: Vec<char> = Vec::new();
            push_decimal(v + 1, &mut out);
            out.push('.');
            out.push(' ');
            assert(out@ =~= decimal((v + 1) as nat) + seq!['.', ' ']);
            Some(string_from_chars(&out))
        },
        None => None,
    }
}


// ---------------------------------------------------------------------------
// Smart Enter.

/// What Enter does at the end of a row.
#[derive(Debug)]
pub enum EnterAction {
    /// Not handled: a plain newline.
    Decline,
    /// An empty, unindented list item: delete the row's `chars` chars.
    ClearRow { chars: usize },
    /// A newline, then this prefix (indent and next list marker).
    InsertPrefix(String),
    /// Dedent the row (an indent-only row, or an empty indented list item);
    /// the step removes at least one char.
    Dedent,
}

/// [`EnterAction`] as plain values.
pub enum EnterSpec {
    Decline,
    ClearRow(nat),
    InsertPrefix(Seq<char>),
    Dedent,
}

impl View for EnterAction {
    type V = EnterSpec;

    open spec fn view(&self) -> EnterSpec {
        match self {
            EnterAction::Decline => EnterSpec::Decline,
            EnterAction::ClearRow { chars } => EnterSpec::ClearRow(*chars as nat),
            EnterAction::InsertPrefix(s) => EnterSpec::InsertPrefix(s@),
            EnterAction::Dedent => EnterSpec::Dedent,
        }
    }
}

/// The list marker opening `line` after its indent, if any.
pub open spec fn marker_of(line: Seq<char>) -> Option<Seq<char>> {
    let ws = lead_blank(line) as int;
    let after = line.subrange(ws, line.len() as int);
    match list_marker_len_spec(after) {
        Some(m) => Some(after.subrange(0, m as int)),
        None => None,
    }
}

/// A dedent of `line` under this indent setting, or a decline where the
/// step would remove nothing (so Enter stays a plain newline).
pub open spec fn dedent_or_decline(line: Seq<char>, width: nat, hard_tab: bool) -> EnterSpec {
    if dedent_count(line, width, hard_tab) > 0 {
        EnterSpec::Dedent
    } else {
        EnterSpec::Decline
    }
}

/// What Enter does with the caret at char column `col` of `line`, `wide`
/// when a selection of some width is active, under an indent of `width`
/// spaces or a tab with `hard_tab`.
pub open spec fn enter_spec(line: Seq<char>, col: int, wide: bool, width: nat, hard_tab: bool) -> EnterSpec {
    let total = line.len() as int;
    let ws = lead_blank(line) as int;
    let after = line.subrange(ws, total);
    if wide || col != total {
        EnterSpec::Decline
    } else {
        match list_marker_len_spec(after) {
            Some(m) => {
                if after.len() == m {
                    if ws > 0 {
                        dedent_or_decline(line, width, hard_tab)
                    } else {
                        EnterSpec::ClearRow(total as nat)
                    }
                } else {
                    let marker = after.subrange(0, m as int);
                    let next = match next_marker(marker) {
                        Some(n) => n,
                        None => marker,
                    };
                    EnterSpec::InsertPrefix(line.subrange(0, ws) + next)
                }
            },
            None => {
                if ws > 0 && total == ws {
                    dedent_or_decline(line, width, hard_tab)
                } else if ws > 0 {
                    EnterSpec::InsertPrefix(line.subrange(0, ws))
                } else {
                    EnterSpec::Decline
                }
            },
        }
    }
}

fn copy_range(s: &Vec<char>, a: usize, b: usize, out: &mut Vec<char>)
    requires
        a <= b <= s@.len(),
    ensures
        final(out)@ == old(out)@ + s@.subrange(a as int, b as int),
{
    let ghost o = out@;
    let mut i = a;
    while i < b
        invariant
            a <= i <= b <= s@.len(),
            out@ == o + s@.subrange(a as int, i as int),
        decreases b - i,
    {
        out.push(s[i]);
        i += 1;
        assert(out@ =~= o + s@.subrange(a as int, i as int));
    }
}

fn dedent_or_decline_exec(line: &Vec<char>, indent_width: usize, hard_tab: bool) -> (r: EnterAction)
    ensures
        r@ == dedent_or_decline(line@, indent_width as nat, hard_tab),
{
    let max = if hard_tab { 1 } else { indent_width };
    if dedent_count_exec(line, max, hard_tab) > 0 {
        EnterAction::Dedent
    } else {
        EnterAction::Decline
    }
}

/// Smart Enter: at the end of a row, continue a list marker (an ordered one
/// incremented) with the row's indent, carry the indent of an indented row,
/// dedent an indent-only row, and clear an empty list item (dedenting it
/// first while it is indented). Declines mid-row, with a selection of some
/// width, on rows that are neither indented nor list items, and where the
/// dedent step (`indent_width` spaces, or a tab under `hard_tab`) would
/// remove nothing.
pub fn smart_enter(line: &str, col: usize, wide_selection: bool, indent_width: usize, hard_tab: bool) -> (r: EnterAction)
    requires
        !(marker_of(line@) is Some && marker_number(marker_of(line@).unwrap()) == Some(u32::MAX as int)),
    ensures
        r@ == enter_spec(line@, col as int, wide_selection, indent_width as nat, hard_tab),
{
    let cs = chars_of(line);
    let total = cs.len();
    if wide_selection || col != total {
        return EnterAction::Decline;
    }
    let ws = leading_ws_byte_len(line);
    proof {
        lemma_lead_blank_bound(line@);
    }
    let after = crate::markdown::slice_from(&cs, ws);
    match list_marker_len(&after) {
        Some(m) => {
            if after.len() == m {
                if ws > 0 {
                    dedent_or_decline_exec(&cs, indent_width, hard_tab)
                } else {
                    EnterAction::ClearRow { chars: total }
                }
            } else {
                let mut marker: Vec<char> = Vec::new();
                copy_range(&after, 0, m, &mut marker);
                assert(marker@ =~= after@.subrange(0, m as int));
                let ms = string_from_chars(&marker);
                let mut out: Vec<char> = Vec::new();
                copy_range(&cs, 0, ws, &mut out);
                match increment_ordered_marker(ms.as_str()) {
                    Some(n) => {
                        let nc = chars_of(n.as_str());
                        copy_range(&nc, 0, nc.len(), &mut out);
                        assert(nc@.subrange(0, nc@.len() as int) == nc@);
                    },
                    None => {
                        copy_range(&marker, 0, marker.len(), &mut out);
                        assert(marker@.subrange(0, marker@.len() as int) == marker@);
                    },
                }
                EnterAction::InsertPrefix(string_from_chars(&out))
            }
        },
        None => {
            if ws > 0 && total == ws {
                dedent_or_decline_exec(&cs, indent_width, hard_tab)
            } else if ws > 0 {
                let mut out: Vec<char> = Vec::new();
                copy_range(&cs, 0, ws, &mut out);
                EnterAction::InsertPrefix(string_from_chars(&out))
            } else {
                EnterAction::Decline
            }
        },
    }
}

/// The rows after applying Enter's decision `a` with the caret at column
/// `col` of row `row`, and where the caret lands. A decline changes
/// nothing; clearing deletes the row's first `n` chars, the caret at its
/// start; a prefix splits the row at the caret, the new row starting with
/// the prefix and the caret after it; a dedent removes one step from the
/// row's start, the caret moving with its text.
pub open spec fn enter_result(rows: Seq<Seq<char>>, row: int, col: int, a: EnterSpec, width: nat, hard_tab: bool) -> (
    Seq<Seq<char>>,
    (int, int),
) {
    let line = rows[row];
    match a {
        EnterSpec::Decline => (rows, (row, col)),
        EnterSpec::ClearRow(n) => (rows.update(row, line.skip(n as int)), (row, 0)),
        EnterSpec::InsertPrefix(p) => (
            rows.take(row) + seq![line.take(col), p + line.skip(col)] + rows.skip(row + 1),
            (row + 1, p.len() as int),
        ),
        EnterSpec::Dedent => {
            let d = dedent_count(line, width, hard_tab) as int;
            (rows.update(row, line.skip(d)), (row, shift_col(col, -d)))
        },
    }
}

/// Applies Enter's decision to the rows, the caret at column `col` of row
/// `row`: the new rows and the caret's `(row, column)`.
pub fn apply_enter(
    rows: &[String],
    row: usize,
    col: usize,
    action: &EnterAction,
    indent_width: usize,
    hard_tab: bool,
) -> (r: (Vec<String>, (usize, usize)))
    requires
        row < rows@.len(),
        col <= rows@[row as int]@.len(),
        action matches EnterAction::ClearRow { chars } ==> chars <= rows@[row as int]@.len(),
        action matches EnterAction::InsertPrefix(p) ==> p@.len() + rows@[row as int]@.len() <= usize::MAX,
    ensures
        ({
            let (nr, caret) = enter_result(
                rows@.map_values(|s: String| s@),
                row as int,
                col as int,
                action@,
                indent_width as nat,
                hard_tab,
            );
            &&& r.0@.map_values(|s: String| s@) == nr
            &&& r.1.0 == caret.0
            &&& r.1.1 == caret.1
        }),
{
    let ghost rv = rows@.map_values(|s: String| s@);
    let line = chars_of(rows[row].as_str());
    assert(line@ == rv[row as int]);
    let n = rows.len();
    // The rows before and after the caret's row, copied.
    let mut before: Vec<String> = Vec::new();
    let mut i: usize = 0;
    while i < row
        invariant
            i <= row < n == rows@.len(),
            rv == rows@.map_values(|s: String| s@),
            before@.map_values(|s: String| s@) == rv.take(i as int),
        decreases row - i,
    {
        let ghost b0 = before@.map_values(|s: String| s@);
        before.push(rows[i].clone());
        assert(before@.map_values(|s: String| s@) =~= b0.push(rv[i as int]));
        assert(rv.take(i + 1) =~= rv.take(i as int).push(rv[i as int]));
        i += 1;
    }
    let mut after: Vec<String> = Vec::new();
    let mut k: usize = row + 1;
    while k < n
        invariant
            row < k <= n == rows@.len(),
            rv == rows@.map_values(|s: String| s@),
            after@.map_values(|s: String| s@) == rv.subrange(row + 1, k as int),
        decreases n - k,
    {
        let ghost a0 = after@.map_values(|s: String| s@);
        after.push(rows[k].clone());
        assert(after@.map_values(|s: String| s@) =~= a0.push(rv[k as int]));
        assert(rv.subrange(row + 1, k + 1) =~= rv.subrange(row + 1, k as int).push(rv[k as int]));
        k += 1;
    }
    assert(rv.subrange(row + 1, n as int) =~= rv.skip(row + 1));
    let ghost bv = before@.map_values(|s: String| s@);
    let ghost av = after@.map_values(|s: String| s@);
    match action {
        EnterAction::Decline => {
            let mut out: Vec<String> = Vec::new();
            let mut q: usize = 0;
            while q < n
                invariant
                    q <= n == rows@.len(),
                    rv == rows@.map_values(|s: String| s@),
                    out@.map_values(|s: String| s@) == rv.take(q as int),
                decreases n - q,
            {
                let ghost o0 = out@.map_values(|s: String| s@);
                out.push(rows[q].clone());
                assert(out@.map_values(|s: String| s@) =~= o0.push(rv[q as int]));
                assert(rv.take(q + 1) =~= rv.take(q as int).push(rv[q as int]));
                q += 1;
            }
            assert(rv.take(n as int) =~= rv);
            (out, (row, col))
        },
        EnterAction::ClearRow { chars } => {
            let mut rest: Vec<char> = Vec::new();
            copy_range(&line, *chars, line.len(), &mut rest);
            assert(rest@ =~= line@.skip(*chars as int));
            let mut out = before;
            out.push(string_from_chars(&rest));
            assert(out@.map_values(|s: String| s@) =~= bv.push(rest@));
            let mut tail = after;
            let ghost ov = out@.map_values(|s: String| s@);
            out.append(&mut tail);
            assert(out@.map_values(|s: String| s@) =~= ov + av);
            assert(ov + av =~= rv.update(row as int, line@.skip(*chars as int)));
            (out, (row, 0))
        },
        EnterAction::InsertPrefix(p) => {
            let mut head: Vec<char> = Vec::new();
            copy_range(&line, 0, col, &mut head);
            let pc = chars_of(p.as_str());
            let mut next: Vec<char> = Vec::new();
            copy_range(&pc, 0, pc.len(), &mut next);
            copy_range(&line, col, line.len(), &mut next);
            assert(pc@.subrange(0, pc@.len() as int) == pc@);
            assert(next@ =~= p@ + line@.skip(col as int));
            assert(head@ =~= line@.take(col as int));
            let mut out = before;
            out.push(string_from_chars(&head));
            out.push(string_from_chars(&next));
            assert(out@.map_values(|s: String| s@) =~= bv.push(head@).push(next@));
            let mut tail = after;
            let ghost ov = out@.map_values(|s: String| s@);
            out.append(&mut tail);
            assert(out@.map_values(|s: String| s@) =~= ov + av);
            assert(ov =~= bv + seq![line@.take(col as int), p@ + line@.skip(col as int)]);
            (out, (row + 1, pc.len()))
        },
        EnterAction::Dedent => {
            let max = if hard_tab { 1 } else { indent_width };
            let d = dedent_count_exec(&line, max, hard_tab);
            let mut rest: Vec<char> = Vec::new();
            copy_range(&line, d, line.len(), &mut rest);
            assert(rest@ =~= line@.skip(d as int));
            let mut out = before;
            out.push(string_from_chars(&rest));
            assert(out@.map_values(|s: String| s@) =~= bv.push(rest@));
            let mut tail = after;
            let ghost ov = out@.map_values(|s: String| s@);
            out.append(&mut tail);
            assert(out@.map_values(|s: String| s@) =~= ov + av);
            assert(ov + av =~= rv.update(row as int, line@.skip(d as int)));
            let c = if col >= d { col - d } else { 0 };
            (out, (row, c))
        },
    }
}

// ---------------------------------------------------------------------------
// Heading jump.

/// `s` without its trailing `#`s.
pub open spec fn trim_end_hashes(s: Seq<char>) -> Seq<char>
    decreases s.len(),
{
    if s.len() > 0 && s.last() == '#' {
        trim_end_hashes(s.drop_last())
    } else {
        s
    }
}

pub open spec fn is_emphasis_char(c: char) -> bool {
    c == '*' || c == '_' || c == '`'
}

/// `s` without `*`, `_` and `` ` ``.
pub open spec fn strip_emphasis(s: Seq<char>) -> Seq<char>
    decreases s.len(),
{
    if s.len() == 0 {
        s
    } else if is_emphasis_char(s.last()) {
        strip_emphasis(s.drop_last())
    } else {
        strip_emphasis(s.drop_last()).push(s.last())
    }
}

/// Heading text as the outline shows it: trimmed, closing `#`s dropped,
/// emphasis characters removed.
pub open spec fn normalise_heading(s: Seq<char>) -> Seq<char> {
    strip_emphasis(trim(trim_end_hashes(trim(s))))
}

/// Whether `line` is an ATX heading whose text normalises to `wanted`.
pub open spec fn heading_matches(line: Seq<char>, wanted: Seq<char>) -> bool {
    let t = line.subrange(lead_ws(line) as int, line.len() as int);
    let h = lead_run(t, '#') as int;
    h > 0 && normalise_heading(t.subrange(h, t.len() as int)) == wanted
}

fn trim_range(s: &Vec<char>) -> (out: Vec<char>)
    ensures
        out@ == trim(s@),
{
    let (a, b) = trim_bounds(s);
    let mut out: Vec<char> = Vec::new();
    copy_range(s, a, b, &mut out);
    out
}

fn normalise_exec(s: &Vec<char>) -> (out: Vec<char>)
    ensures
        out@ == normalise_heading(s@),
{
    let t1 = trim_range(s);
    let mut n = t1.len();
    assert(t1@.take(n as int) == t1@);
    while n > 0 && t1[n - 1] == '#'
        invariant
            n <= t1@.len(),
            trim_end_hashes(t1@.take(n as int)) == trim_end_hashes(t1@),
        decreases n,
    {
        assert(t1@.take(n as int).drop_last() == t1@.take(n - 1));
        n -= 1;
    }
    let mut t2: Vec<char> = Vec::new();
    copy_range(&t1, 0, n, &mut t2);
    assert(t2@ =~= trim_end_hashes(t1@));
    let t3 = trim_range(&t2);
    let mut out: Vec<char> = Vec::new();
    let mut i: usize = 0;
    assert(t3@.take(0) =~= Seq::<char>::empty());
    while i < t3.len()
        invariant
            i <= t3@.len(),
            out@ == strip_emphasis(t3@.take(i as int)),
        decreases t3.len() - i,
    {
        let c = t3[i];
        assert(t3@.take(i + 1).drop_last() == t3@.take(i as int));
        if !(c == '*' || c == '_' || c == '`') {
            out.push(c);
        }
        i += 1;
    }
    assert(t3@.take(t3@.len() as int) == t3@);
    out
}

fn eq_chars(a: &Vec<char>, b: &Vec<char>) -> (r: bool)
    ensures
        r == (a@ == b@),
{
    if a.len() != b.len() {
        return false;
    }
    let mut i: usize = 0;
    while i < a.len()
        invariant
            i <= a@.len() == b@.len(),
            forall|k: int| 0 <= k < i ==> a@[k] == b@[k],
        decreases a.len() - i,
    {
        if a[i] != b[i] {
            return false;
        }
        i += 1;
    }
    assert(a@ =~= b@);
    true
}

/// The first row that is an ATX heading of text `heading` (both sides
/// normalised), at any level — where the outline's jump lands.
pub fn jump_to_heading(rows: &[String], heading: &str) -> (r: Option<usize>)
    ensures
        match r {
            Some(row) => row < rows@.len() && heading_matches(rows@[row as int]@, normalise_heading(heading@))
                && forall|q: int| 0 <= q < row ==> !heading_matches(#[trigger] rows@[q]@, normalise_heading(heading@)),
            None => forall|q: int| 0 <= q < rows@.len() ==> !heading_matches(#[trigger] rows@[q]@, normalise_heading(heading@)),
        },
{
    let wanted = normalise_exec(&chars_of(heading));
    let mut row: usize = 0;
    while row < rows.len()
        invariant
            row <= rows@.len(),
            wanted@ == normalise_heading(heading@),
            forall|q: int| 0 <= q < row ==> !heading_matches(#[trigger] rows@[q]@, normalise_heading(heading@)),
        decreases rows.len() - row,
    {
        let line = chars_of(rows[row].as_str());
        let lw = ws_prefix_len(&line);
        let t = crate::markdown::slice_from(&line, lw);
        let h = run_len(&t, 0, '#');
        assert(t@.subrange(0, t@.len() as int) == t@);
        if h > 0 {
            let rest = crate::markdown::slice_from(&t, h);
            let norm = normalise_exec(&rest);
            if eq_chars(&norm, &wanted) {
                return Some(row);
            }
        }
        row += 1;
    }
    None
}

} // verus!
