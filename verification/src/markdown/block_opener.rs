//! Context-free detection of the CommonMark block openers a single line
//! exhibits. Not a parser: a cheap, conservative shape test that lets the
//! incremental view decide whether an edit can reshape the document beyond
//! the rows it touched.
use vstd::prelude::*;
use crate::text::{
    all_chars_eq, all_eq, any_non_ws, chars_of, has_non_ws, is_digit, is_digit_spec, lead_run, run_len,
    trim, trim_bounds,
};

verus! {

/// Maximum leading-space indent before a block marker (4+ is indented code).
pub const MAX_BLOCK_INDENT: usize = 3;

/// Minimum run of backticks or tildes that opens a fenced code block.
pub const FENCE_MIN_RUN: usize = 3;

/// Maximum digits in an ordered-list marker.
pub const MAX_ORDERED_LIST_DIGITS: usize = 9;

/// The block-opener shapes of one line. Fields are independent; comparing two
/// shapes with `==` detects a flip of any one of them.
#[derive(Debug, Clone, Copy, PartialEq, Eq, Structural, Default)]
pub struct OpenerShape {
    /// Fenced code marker: at most 3 spaces, then 3+ backticks or 3+ tildes.
    pub fence: bool,
    /// Setext underline: a line of only `=` or only `-`.
    pub setext_underline: bool,
    /// Indented code opener: 4+ spaces or a tab, then non-white-space content.
    pub indented_code: bool,
    /// HTML block opener: at most 3 spaces, then `<`.
    pub html_block: bool,
    /// List marker followed by white space and then content.
    pub list_marker: bool,
    /// Blockquote marker: at most 3 spaces, then `>`.
    pub blockquote: bool,
}

/// The line after its leading spaces.
pub open spec fn after_indent(l: Seq<char>) -> Seq<char> {
    l.subrange(lead_run(l, ' ') as int, l.len() as int)
}

pub open spec fn fence_spec(l: Seq<char>) -> bool {
    let rest = after_indent(l);
    &&& lead_run(l, ' ') <= MAX_BLOCK_INDENT
    &&& (lead_run(rest, '`') >= FENCE_MIN_RUN || lead_run(rest, '~') >= FENCE_MIN_RUN)
}

pub open spec fn setext_spec(l: Seq<char>) -> bool {
    let t = trim(l);
    t.len() > 0 && (all_eq(t, '=') || all_eq(t, '-'))
}

pub open spec fn indented_code_spec(l: Seq<char>) -> bool {
    if l.len() > 0 && l[0] == '\t' {
        has_non_ws(l.drop_first())
    } else {
        lead_run(l, ' ') > MAX_BLOCK_INDENT && has_non_ws(after_indent(l))
    }
}

pub open spec fn html_block_spec(l: Seq<char>) -> bool {
    let rest = after_indent(l);
    lead_run(l, ' ') <= MAX_BLOCK_INDENT && rest.len() > 0 && rest[0] == '<'
}

pub open spec fn blockquote_spec(l: Seq<char>) -> bool {
    let rest = after_indent(l);
    lead_run(l, ' ') <= MAX_BLOCK_INDENT && rest.len() > 0 && rest[0] == '>'
}

/// Length of the run of ASCII digits at the start of `s`.
pub open spec fn lead_digits(s: Seq<char>) -> nat
    decreases s.len(),
{
    if s.len() > 0 && is_digit_spec(s[0]) {
        1 + lead_digits(s.drop_first())
    } else {
        0
    }
}

pub open spec fn is_blank_char(c: char) -> bool {
    c == ' ' || c == '\t'
}

/// An unordered (`-`, `*`, `+`) or ordered (`N.`, `N)`, at most nine digits)
/// marker, then a space or tab, then some non-white-space content.
pub open spec fn marker_with_content(rest: Seq<char>) -> bool {
    if rest.len() == 0 {
        false
    } else if rest[0] == '-' || rest[0] == '*' || rest[0] == '+' {
        rest.len() > 1 && is_blank_char(rest[1]) && has_non_ws(
            rest.subrange(2, rest.len() as int),
        )
    } else if is_digit_spec(rest[0]) {
        let d = lead_digits(rest) as int;
        &&& d <= MAX_ORDERED_LIST_DIGITS
        &&& rest.len() > d + 1
        &&& (rest[d] == '.' || rest[d] == ')')
        &&& is_blank_char(rest[d + 1])
        &&& has_non_ws(rest.subrange(d + 2, rest.len() as int))
    } else {
        false
    }
}

pub open spec fn list_marker_spec(l: Seq<char>) -> bool {
    lead_run(l, ' ') <= MAX_BLOCK_INDENT && marker_with_content(after_indent(l))
}

pub open spec fn opener_shape_spec(l: Seq<char>) -> OpenerShape {
    OpenerShape {
        fence: fence_spec(l),
        setext_underline: setext_spec(l),
        indented_code: indented_code_spec(l),
        html_block: html_block_spec(l),
        list_marker: list_marker_spec(l),
        blockquote: blockquote_spec(l),
    }
}

proof fn lemma_lead_digits(s: Seq<char>)
    ensures
        lead_digits(s) <= s.len(),
        forall|i: int| 0 <= i < lead_digits(s) ==> is_digit_spec(s[i]),
        lead_digits(s) < s.len() ==> !is_digit_spec(s[lead_digits(s) as int]),
    decreases s.len(),
{
    if s.len() > 0 && is_digit_spec(s[0]) {
        lemma_lead_digits(s.drop_first());
        assert forall|i: int| 0 < i < lead_digits(s) implies is_digit_spec(s[i]) by {
            assert(s[i] == s.drop_first()[i - 1]);
        }
    }
}

/// The classification of one line.
pub fn opener_shape(line: &str) -> (r: OpenerShape)
    ensures
        r == opener_shape_spec(line@),
{
    let l = chars_of(line);
    OpenerShape {
        fence: is_fence_marker(&l),
        setext_underline: is_setext_underline(&l),
        indented_code: is_indented_code(&l),
        html_block: is_html_block_opener(&l),
        list_marker: is_list_marker(&l),
        blockquote: is_blockquote_marker(&l),
    }
}

/// Leading-space count of the line.
pub fn split_indent(l: &[char]) -> (n: usize)
    ensures
        n == lead_run(l@, ' '),
        n <= l@.len(),
{
    let n = run_len(l, 0, ' ');
    assert(l@.subrange(0, l@.len() as int) == l@);
    n
}

pub fn is_fence_marker(l: &[char]) -> (b: bool)
    ensures
        b == fence_spec(l@),
{
    let indent = split_indent(l);
    if indent > MAX_BLOCK_INDENT {
        return false;
    }
    run_len(l, indent, '`') >= FENCE_MIN_RUN || run_len(l, indent, '~') >= FENCE_MIN_RUN
}

pub fn is_setext_underline(l: &[char]) -> (b: bool)
    ensures
        b == setext_spec(l@),
{
    let (a, e) = trim_bounds(l);
    a < e && (all_chars_eq(l, a, e, '=') || all_chars_eq(l, a, e, '-'))
}

pub fn is_indented_code(l: &[char]) -> (b: bool)
    ensures
        b == indented_code_spec(l@),
{
    if l.len() > 0 && l[0] == '\t' {
        assert(l@.drop_first() == l@.subrange(1, l@.len() as int));
        return any_non_ws(l, 1);
    }
    let spaces = split_indent(l);
    if spaces <= MAX_BLOCK_INDENT {
        return false;
    }
    any_non_ws(l, spaces)
}

pub fn is_html_block_opener(l: &[char]) -> (b: bool)
    ensures
        b == html_block_spec(l@),
{
    let indent = split_indent(l);
    indent <= MAX_BLOCK_INDENT && indent < l.len() && l[indent] == '<'
}

pub fn is_blockquote_marker(l: &[char]) -> (b: bool)
    ensures
        b == blockquote_spec(l@),
{
    let indent = split_indent(l);
    indent <= MAX_BLOCK_INDENT && indent < l.len() && l[indent] == '>'
}

pub fn is_list_marker(l: &[char]) -> (b: bool)
    ensures
        b == list_marker_spec(l@),
{
    let indent = split_indent(l);
    if indent > MAX_BLOCK_INDENT {
        return false;
    }
    let ghost rest = after_indent(l@);
    if indent >= l.len() {
        return false;
    }
    let first = l[indent];
    assert(rest[0] == first);
    if first == '-' || first == '*' || first == '+' {
        if indent + 1 >= l.len() || !(l[indent + 1] == ' ' || l[indent + 1] == '\t') {
            return false;
        }
        assert(rest.subrange(2, rest.len() as int) == l@.subrange(indent + 2, l@.len() as int));
        return any_non_ws(l, indent + 2);
    }
    if is_digit(first) {
        let mut i = indent;
        while i < l.len() && is_digit(l[i])
            invariant
                indent <= i <= l@.len(),
                forall|k: int| indent <= k < i ==> is_digit_spec(l@[k]),
            decreases l.len() - i,
        {
            i += 1;
        }
        proof {
            lemma_lead_digits(rest);
            let d = lead_digits(rest) as int;
            assert forall|k: int| 0 <= k < i - indent implies is_digit_spec(#[trigger] rest[k]) by {
                assert(rest[k] == l@[indent + k]);
            }
            if d < i - indent {
                assert(is_digit_spec(rest[d]));
            }
            if d > i - indent {
                assert(rest[i - indent] == l@[i as int]);
            }
            assert(d == i - indent);
        }
        let d = i - indent;
        if d > MAX_ORDERED_LIST_DIGITS {
            return false;
        }
        if i + 1 >= l.len() {
            return false;
        }
        if !(l[i] == '.' || l[i] == ')') {
            return false;
        }
        if !(l[i + 1] == ' ' || l[i + 1] == '\t') {
            return false;
        }
        assert(rest.subrange(d + 2, rest.len() as int) == l@.subrange(i + 2, l@.len() as int));
        return any_non_ws(l, i + 2);
    }
    false
}

} // verus!
