//! Find and replace over the buffer's lines: compiling a find pattern under
//! smartcase, counting and locating its matches per line, expanding a
//! replacement (capture references only where they name a real group), and
//! building the replace preview.
//!
//! The `regex` crate matches; what it returns for a pattern and a line is
//! named by the spec functions below, and everything built on it is proved
//! against those names.
use vstd::prelude::*;
use crate::text::{bytes_len, char_index_at, char_index_at_byte, chars_of, string_from_chars};

verus! {

#[verifier::external_type_specification]
#[verifier::external_body]
pub struct ExRegexError(regex::Error);

/// `char::is_uppercase`: the Unicode `Uppercase` property.
pub uninterp spec fn char_uppercase(c: char) -> bool;

/// Whether `Regex::new(pattern)` succeeds.
pub uninterp spec fn regex_compiles(pattern: Seq<char>) -> bool;

/// `Regex::captures_len` of the compiled `pattern`: the groups, the whole
/// match included.
pub uninterp spec fn regex_captures_len(pattern: Seq<char>) -> nat;

/// Byte ranges of the successive matches of `pattern` in `line`
/// (`Regex::captures_iter`, group 0 of each).
pub uninterp spec fn regex_matches(pattern: Seq<char>, line: Seq<char>) -> Seq<(usize, usize)>;

/// `Captures::expand(reference)` for the `k`-th match of `pattern` in `line`.
pub uninterp spec fn regex_expansion(pattern: Seq<char>, line: Seq<char>, k: int, reference: Seq<char>) -> Seq<char>;

/// `Captures::len` of the `k`-th match: the number of groups.
pub uninterp spec fn regex_groups_of_match(pattern: Seq<char>, line: Seq<char>, k: int) -> nat;

/// Whether `Captures::name(name)` is `Some` for the `k`-th match: a group of
/// that name exists and took part in the match.
pub uninterp spec fn regex_named_group_matched(pattern: Seq<char>, line: Seq<char>, k: int, name: Seq<char>) -> bool;

/// Byte range of group 0 of `Regex::captures_at(line, start)`: the first
/// match at or after byte `start`, if any.
pub uninterp spec fn regex_match_from(pattern: Seq<char>, line: Seq<char>, start: int) -> Option<(usize, usize)>;

/// `Captures::expand(reference)` for `Regex::captures_at(line, start)`.
pub uninterp spec fn regex_expansion_from(pattern: Seq<char>, line: Seq<char>, start: int, reference: Seq<char>) -> Seq<char>;

/// `Captures::len` for `Regex::captures_at(line, start)`.
pub uninterp spec fn regex_groups_from(pattern: Seq<char>, line: Seq<char>, start: int) -> nat;

/// Whether `Captures::name(name)` is `Some` for `Regex::captures_at(line,
/// start)`.
pub uninterp spec fn regex_named_group_from(pattern: Seq<char>, line: Seq<char>, start: int, name: Seq<char>) -> bool;

/// `char::is_uppercase(c)`.
#[verifier::external_body]
fn is_uppercase(c: char) -> (b: bool)
    ensures
        b == char_uppercase(c),
{
    c.is_uppercase()
}

/// `Regex::new(pattern)`, keeping only whether it compiled and the error.
#[verifier::external_body]
fn regex_new_result(pattern: &str) -> (r: Result<(), regex::Error>)
    ensures
        r is Ok <==> regex_compiles(pattern@),
{
    regex::Regex::new(pattern).map(|_| ())
}

/// `Regex::captures_len` of the compiled pattern.
#[verifier::external_body]
fn captures_len_of(pattern: &str) -> (n: usize)
    requires
        regex_compiles(pattern@),
    ensures
        n == regex_captures_len(pattern@),
{
    regex::Regex::new(pattern).unwrap().captures_len()
}

/// The byte range of each match of the compiled pattern in `line`.
#[verifier::external_body]
fn match_ranges(pattern: &str, line: &str) -> (out: Vec<(usize, usize)>)
    requires
        regex_compiles(pattern@),
    ensures
        out@ == regex_matches(pattern@, line@),
{
    let re = regex::Regex::new(pattern).unwrap();
    re.captures_iter(line).map(|c| c.get(0).map_or((0, 0), |m| (m.start(), m.end()))).collect()
}

/// `Captures::expand(reference)` for the `k`-th match (empty past the last).
#[verifier::external_body]
fn expand_reference(pattern: &str, line: &str, k: usize, reference: &str) -> (out: String)
    requires
        regex_compiles(pattern@),
    ensures
        out@ == regex_expansion(pattern@, line@, k as int, reference@),
{
    let mut out = String::new();
    if let Some(c) = regex::Regex::new(pattern).unwrap().captures_iter(line).nth(k) {
        c.expand(reference, &mut out);
    }
    out
}

/// `Captures::len` of the `k`-th match (0 past the last).
#[verifier::external_body]
fn groups_of_match(pattern: &str, line: &str, k: usize) -> (n: usize)
    requires
        regex_compiles(pattern@),
    ensures
        n == regex_groups_of_match(pattern@, line@, k as int),
{
    regex::Regex::new(pattern).unwrap().captures_iter(line).nth(k).map_or(0, |c| c.len())
}

/// Whether `Captures::name(name)` is `Some` for the `k`-th match.
#[verifier::external_body]
fn named_group_matched(pattern: &str, line: &str, k: usize, name: &str) -> (b: bool)
    requires
        regex_compiles(pattern@),
    ensures
        b == regex_named_group_matched(pattern@, line@, k as int, name@),
{
    regex::Regex::new(pattern).unwrap().captures_iter(line).nth(k).map_or(false, |c| c.name(name).is_some())
}

/// Group 0 of `Regex::captures_at(line, start)` as a byte range.
#[verifier::external_body]
fn match_from(pattern: &str, line: &str, start: usize) -> (r: Option<(usize, usize)>)
    requires
        regex_compiles(pattern@),
        start <= bytes_len(line@),
    ensures
        r == regex_match_from(pattern@, line@, start as int),
        r matches Some(m) ==> start <= m.0 <= m.1 <= bytes_len(line@),
{
    let re = regex::Regex::new(pattern).unwrap();
    re.captures_at(line, start).and_then(|c| c.get(0)).map(|m| (m.start(), m.end()))
}

/// `Captures::expand(reference)` for `Regex::captures_at(line, start)`
/// (empty when there is no match).
#[verifier::external_body]
fn expand_reference_from(pattern: &str, line: &str, start: usize, reference: &str) -> (out: String)
    requires
        regex_compiles(pattern@),
        start <= bytes_len(line@),
    ensures
        out@ == regex_expansion_from(pattern@, line@, start as int, reference@),
{
    let mut out = String::new();
    if let Some(c) = regex::Regex::new(pattern).unwrap().captures_at(line, start) {
        c.expand(reference, &mut out);
    }
    out
}

/// `Captures::len` for `Regex::captures_at(line, start)` (0 without a match).
#[verifier::external_body]
fn groups_from(pattern: &str, line: &str, start: usize) -> (n: usize)
    requires
        regex_compiles(pattern@),
        start <= bytes_len(line@),
    ensures
        n == regex_groups_from(pattern@, line@, start as int),
{
    regex::Regex::new(pattern).unwrap().captures_at(line, start).map_or(0, |c| c.len())
}

/// Whether `Captures::name(name)` is `Some` for `Regex::captures_at(line,
/// start)`.
#[verifier::external_body]
fn named_group_from(pattern: &str, line: &str, start: usize, name: &str) -> (b: bool)
    requires
        regex_compiles(pattern@),
        start <= bytes_len(line@),
    ensures
        b == regex_named_group_from(pattern@, line@, start as int, name@),
{
    regex::Regex::new(pattern).unwrap().captures_at(line, start).map_or(false, |c| c.name(name).is_some())
}

/// Which captures of the pattern in a line: those of the `k`-th match in
/// turn, or those of the first match at or after a byte offset.
#[derive(Debug, Clone, Copy, PartialEq, Eq, Structural)]
pub enum CapsAt {
    Nth(usize),
    From(usize),
}

/// `Captures::expand(reference)` for the captures `w`.
pub open spec fn caps_expansion(p: Seq<char>, line: Seq<char>, w: CapsAt, reference: Seq<char>) -> Seq<char> {
    match w {
        CapsAt::Nth(k) => regex_expansion(p, line, k as int, reference),
        CapsAt::From(s) => regex_expansion_from(p, line, s as int, reference),
    }
}

/// `Captures::len` for the captures `w`.
pub open spec fn caps_groups(p: Seq<char>, line: Seq<char>, w: CapsAt) -> nat {
    match w {
        CapsAt::Nth(k) => regex_groups_of_match(p, line, k as int),
        CapsAt::From(s) => regex_groups_from(p, line, s as int),
    }
}

/// Whether group `name` took part in the captures `w`.
pub open spec fn caps_named(p: Seq<char>, line: Seq<char>, w: CapsAt, name: Seq<char>) -> bool {
    match w {
        CapsAt::Nth(k) => regex_named_group_matched(p, line, k as int, name),
        CapsAt::From(s) => regex_named_group_from(p, line, s as int, name),
    }
}

/// A selector the wrappers accept for `line`: any `k`, a byte offset within
/// the line.
pub open spec fn caps_ok(line: Seq<char>, w: CapsAt) -> bool {
    match w {
        CapsAt::Nth(_) => true,
        CapsAt::From(s) => s <= bytes_len(line),
    }
}

fn caps_expand_exec(p: &str, line: &str, w: CapsAt, reference: &str) -> (out: String)
    requires
        regex_compiles(p@),
        caps_ok(line@, w),
    ensures
        out@ == caps_expansion(p@, line@, w, reference@),
{
    match w {
        CapsAt::Nth(k) => expand_reference(p, line, k, reference),
        CapsAt::From(s) => expand_reference_from(p, line, s, reference),
    }
}

fn caps_groups_exec(p: &str, line: &str, w: CapsAt) -> (n: usize)
    requires
        regex_compiles(p@),
        caps_ok(line@, w),
    ensures
        n == caps_groups(p@, line@, w),
{
    match w {
        CapsAt::Nth(k) => groups_of_match(p, line, k),
        CapsAt::From(s) => groups_from(p, line, s),
    }
}

fn caps_named_exec(p: &str, line: &str, w: CapsAt, name: &str) -> (b: bool)
    requires
        regex_compiles(p@),
        caps_ok(line@, w),
    ensures
        b == caps_named(p@, line@, w, name@),
{
    match w {
        CapsAt::Nth(k) => named_group_matched(p, line, k, name),
        CapsAt::From(s) => named_group_from(p, line, s, name),
    }
}

/// A compiled find pattern: the pattern the regex runs (the query, with
/// `(?i)` in front under smartcase), and the decisions it was compiled with.
#[derive(Debug, Clone)]
pub struct FindPattern {
    re: String,
    case_sensitive: bool,
    has_captures: bool,
}

/// The pattern `query` runs as: the query itself when it holds an uppercase
/// char, else `(?i)` and the query.
pub open spec fn effective_pattern(query: Seq<char>) -> Seq<char> {
    if exists|i: int| 0 <= i < query.len() && char_uppercase(#[trigger] query[i]) {
        query
    } else {
        seq!['(', '?', 'i', ')'] + query
    }
}

/// Smartcase: a query with an uppercase char runs as written, one without
/// runs case-insensitively (`(?i)` in front of it); so the pattern is the
/// bare query exactly when the query holds an uppercase char.
pub proof fn law_smartcase_pattern(query: Seq<char>)
    ensures
        (exists|i: int| 0 <= i < query.len() && char_uppercase(#[trigger] query[i])) ==> effective_pattern(query)
            == query,
        !(exists|i: int| 0 <= i < query.len() && char_uppercase(#[trigger] query[i])) ==> effective_pattern(query)
            == seq!['(', '?', 'i', ')'] + query,
        (effective_pattern(query) == query) == (exists|i: int|
            0 <= i < query.len() && char_uppercase(#[trigger] query[i])),
{
    if !(exists|i: int| 0 <= i < query.len() && char_uppercase(#[trigger] query[i])) {
        assert(effective_pattern(query).len() == query.len() + 4);
    }
}

impl FindPattern {
    /// The regex pattern this find pattern runs.
    pub closed spec fn pattern(&self) -> Seq<char> {
        self.re@
    }

    pub closed spec fn case_sensitive_spec(&self) -> bool {
        self.case_sensitive
    }

    pub closed spec fn has_captures_spec(&self) -> bool {
        self.has_captures
    }

    /// The pattern compiles, and the captures flag is what its group count says.
    pub closed spec fn wf(&self) -> bool {
        &&& regex_compiles(self.re@)
        &&& self.has_captures == (regex_captures_len(self.re@) > 1)
    }

    /// Compiles `query` under smartcase: an all-lowercase query matches any
    /// case, any uppercase char makes it exact. A user-written inline flag
    /// later in the query still wins over the prepended `(?i)`.
    pub fn compile(query: &str) -> (r: Result<FindPattern, regex::Error>)
        ensures
            r is Ok <==> regex_compiles(effective_pattern(query@)),
            r is Ok ==> {
                let p = r.unwrap();
                &&& p.wf()
                &&& p.pattern() == effective_pattern(query@)
                &&& p.case_sensitive_spec() == (exists|i: int|
                    0 <= i < query@.len() && char_uppercase(#[trigger] query@[i]))
                &&& p.has_captures_spec() == (regex_captures_len(effective_pattern(query@)) > 1)
            },
    {
        let qs = chars_of(query);
        let mut case_sensitive = false;
        let mut i: usize = 0;
        while i < qs.len()
            invariant
                i <= qs@.len(),
                qs@ == query@,
                case_sensitive == (exists|k: int| 0 <= k < i && char_uppercase(#[trigger] query@[k])),
            decreases qs.len() - i,
        {
            if is_uppercase(qs[i]) {
                case_sensitive = true;
            }
            i += 1;
        }
        let mut pc: Vec<char> = Vec::new();
        if !case_sensitive {
            pc.push('(');
            pc.push('?');
            pc.push('i');
            pc.push(')');
        }
        let mut j: usize = 0;
        let ghost head = pc@;
        while j < qs.len()
            invariant
                j <= qs@.len(),
                pc@ == head + qs@.take(j as int),
            decreases qs.len() - j,
        {
            pc.push(qs[j]);
            j += 1;
            assert(pc@ =~= head + qs@.take(j as int));
        }
        assert(qs@.take(qs@.len() as int) == qs@);
        assert(pc@ =~= effective_pattern(query@));
        let re = string_from_chars(&pc);
        match regex_new_result(re.as_str()) {
            Ok(()) => {
                let n = captures_len_of(re.as_str());
                Ok(FindPattern { re, case_sensitive, has_captures: n > 1 })
            },
            Err(e) => Err(e),
        }
    }

    /// Whether the pattern was compiled case-sensitively.
    pub fn case_sensitive(&self) -> (b: bool)
        ensures
            b == self.case_sensitive_spec(),
    {
        self.case_sensitive
    }

    /// Whether the pattern captures, which gates `$` expansion.
    pub fn has_captures(&self) -> (b: bool)
        ensures
            b == self.has_captures_spec(),
    {
        self.has_captures
    }

    /// The regex pattern text.
    pub fn as_pattern(&self) -> (s: &str)
        ensures
            s@ == self.pattern(),
    {
        self.re.as_str()
    }
}

/// Sum of the match counts of `rows`, saturating.
pub open spec fn count_spec(p: Seq<char>, rows: Seq<Seq<char>>) -> int
    decreases rows.len(),
{
    if rows.len() == 0 {
        0
    } else {
        let c = count_spec(p, rows.drop_last()) + regex_matches(p, rows.last()).len();
        if c > usize::MAX {
            usize::MAX as int
        } else {
            c
        }
    }
}

/// The rows' chars.
pub open spec fn row_chars(rows: Seq<String>) -> Seq<Seq<char>> {
    rows.map_values(|s: String| s@)
}

/// Every match as `(row, start char, end char)`, rows in order.
pub open spec fn spans_spec(p: Seq<char>, rows: Seq<Seq<char>>) -> Seq<(usize, usize, usize)>
    decreases rows.len(),
{
    if rows.len() == 0 {
        Seq::empty()
    } else {
        let r = rows.len() - 1;
        let line = rows.last();
        spans_spec(p, rows.drop_last()) + regex_matches(p, line).map_values(
            |m: (usize, usize)|
                (
                    r as usize,
                    char_index_at_byte(line, m.0 as int) as usize,
                    char_index_at_byte(line, m.1 as int) as usize,
                ),
        )
    }
}

/// Group 0 of the compiled pattern's `captures_at(line, start)`.
pub(crate) fn match_from_pattern(pattern: &FindPattern, line: &str, start: usize) -> (r: Option<(usize, usize)>)
    requires
        pattern.wf(),
        start <= bytes_len(line@),
    ensures
        r == regex_match_from(pattern.pattern(), line@, start as int),
        r matches Some(m) ==> start <= m.0 <= m.1 <= bytes_len(line@),
{
    match_from(pattern.re.as_str(), line, start)
}

impl FindPattern {
    /// Total matches across every row (saturating at `usize::MAX`).
    pub fn count_matches(&self, rows: &[String]) -> (n: usize)
        requires
            self.wf(),
        ensures
            n == count_spec(self.pattern(), row_chars(rows@)),
    {
        let mut n: usize = 0;
        let mut r: usize = 0;
        assert(row_chars(rows@).take(0) =~= Seq::<Seq<char>>::empty());
        while r < rows.len()
            invariant
                r <= rows@.len(),
                self.wf(),
                n == count_spec(self.pattern(), row_chars(rows@).take(r as int)),
            decreases rows.len() - r,
        {
            let m = match_ranges(self.re.as_str(), rows[r].as_str());
            proof {
                let rc = row_chars(rows@);
                assert(rc.take(r + 1).drop_last() == rc.take(r as int));
                assert(rc.take(r + 1).last() == rows@[r as int]@);
            }
            n = n.saturating_add(m.len());
            r += 1;
        }
        assert(row_chars(rows@).take(rows@.len() as int) == row_chars(rows@));
        n
    }

    /// Every match as a `(row, start_char, end_char)` span in buffer
    /// coordinates.
    pub fn match_spans(&self, rows: &[String]) -> (out: Vec<(usize, usize, usize)>)
        requires
            self.wf(),
        ensures
            out@ == spans_spec(self.pattern(), row_chars(rows@)),
    {
        let mut out: Vec<(usize, usize, usize)> = Vec::new();
        let mut r: usize = 0;
        assert(row_chars(rows@).take(0) =~= Seq::<Seq<char>>::empty());
        while r < rows.len()
            invariant
                r <= rows@.len(),
                self.wf(),
                out@ == spans_spec(self.pattern(), row_chars(rows@).take(r as int)),
            decreases rows.len() - r,
        {
            let line = rows[r].as_str();
            let lc = chars_of(line);
            let m = match_ranges(self.re.as_str(), line);
            let ghost base = out@;
            let ghost mapped = m@.map_values(
                |x: (usize, usize)|
                    (
                        r as usize,
                        char_index_at_byte(line@, x.0 as int) as usize,
                        char_index_at_byte(line@, x.1 as int) as usize,
                    ),
            );
            let mut k: usize = 0;
            while k < m.len()
                invariant
                    k <= m@.len(),
                    lc@ == line@,
                    mapped == m@.map_values(
                        |x: (usize, usize)|
                            (
                                r as usize,
                                char_index_at_byte(line@, x.0 as int) as usize,
                                char_index_at_byte(line@, x.1 as int) as usize,
                            ),
                    ),
                    out@ == base + mapped.take(k as int),
                decreases m.len() - k,
            {
                let (s, e) = m[k];
                let cs = char_index_at(&lc, s);
                let ce = char_index_at(&lc, e);
                out.push((r, cs, ce));
                k += 1;
                assert(out@ =~= base + mapped.take(k as int));
            }
            proof {
                let rc = row_chars(rows@);
                assert(rc.take(r + 1).drop_last() == rc.take(r as int));
                assert(rc.take(r + 1).last() == line@);
                assert(mapped.take(m@.len() as int) == mapped);
            }
            r += 1;
        }
        assert(row_chars(rows@).take(rows@.len() as int) == row_chars(rows@));
        out
    }
}

// ---------------------------------------------------------------------------
// Replacement expansion.

/// Index of the first `$` in `s`, if any.
pub open spec fn first_dollar(s: Seq<char>) -> Option<int>
    decreases s.len(),
{
    if s.len() == 0 {
        None
    } else if s[0] == '$' {
        Some(0)
    } else {
        match first_dollar(s.drop_first()) {
            Some(i) => Some(i + 1),
            None => None,
        }
    }
}

/// Index of the first `c` in `s`, if any.
pub open spec fn first_of(s: Seq<char>, c: char) -> Option<int>
    decreases s.len(),
{
    if s.len() == 0 {
        None
    } else if s[0] == c {
        Some(0)
    } else {
        match first_of(s.drop_first(), c) {
            Some(i) => Some(i + 1),
            None => None,
        }
    }
}

/// `[0-9A-Za-z_]`.
pub open spec fn is_ref_char(c: char) -> bool {
    ('0' <= c && c <= '9') || ('a' <= c && c <= 'z') || ('A' <= c && c <= 'Z') || c == '_'
}

/// Length of the leading run of reference chars.
pub open spec fn ref_run(s: Seq<char>) -> nat
    decreases s.len(),
{
    if s.len() > 0 && is_ref_char(s[0]) {
        1 + ref_run(s.drop_first())
    } else {
        0
    }
}

/// Length of the capture reference at the start of `s` (which starts with
/// `$`): `${..}` through its brace (the rest of `s` without one), otherwise
/// `$` and the run of `[0-9A-Za-z_]` after it.
pub open spec fn reference_end(s: Seq<char>) -> int {
    if s.len() >= 2 && s[1] == '{' {
        match first_of(s.skip(2), '}') {
            Some(close) => 2 + close + 1,
            None => s.len() as int,
        }
    } else {
        1 + ref_run(s.skip(1)) as int
    }
}

/// `s` without its leading `c`s.
pub open spec fn strip_lead(s: Seq<char>, c: char) -> Seq<char>
    decreases s.len(),
{
    if s.len() > 0 && s[0] == c {
        strip_lead(s.drop_first(), c)
    } else {
        s
    }
}

/// `s` without its trailing `c`s.
pub open spec fn strip_trail(s: Seq<char>, c: char) -> Seq<char>
    decreases s.len(),
{
    if s.len() > 0 && s.last() == c {
        strip_trail(s.drop_last(), c)
    } else {
        s
    }
}

/// The group name a reference spells: `$`, `{` and `}` trimmed off.
pub open spec fn reference_name(reference: Seq<char>) -> Seq<char> {
    strip_trail(strip_lead(strip_lead(reference, '$'), '{'), '}')
}

pub open spec fn is_dec_digit(c: char) -> bool {
    '0' <= c && c <= '9'
}

/// Decimal value of a digit run.
pub open spec fn dec_value(s: Seq<char>) -> int
    decreases s.len(),
{
    if s.len() == 0 {
        0
    } else {
        dec_value(s.drop_last()) * 10 + (s.last() as int - '0' as int)
    }
}

/// `s` without one leading `+`.
pub open spec fn strip_sign(s: Seq<char>) -> Seq<char> {
    if s.len() > 0 && s[0] == '+' {
        s.drop_first()
    } else {
        s
    }
}

pub open spec fn all_dec_digits(d: Seq<char>) -> bool {
    forall|i: int| 0 <= i < d.len() ==> #[trigger] is_dec_digit(d[i])
}

/// `usize::from_str`: an optional `+`, at least one digit, in range.
pub open spec fn parse_usize_spec(s: Seq<char>) -> Option<int> {
    let d = strip_sign(s);
    if d.len() > 0 && all_dec_digits(d) && dec_value(d) <= usize::MAX {
        Some(dec_value(d))
    } else {
        None
    }
}

/// Whether `reference` names a group of the captures `w`: an index below
/// the group count, or a name whose group took part.
pub open spec fn group_exists(p: Seq<char>, line: Seq<char>, w: CapsAt, reference: Seq<char>) -> bool {
    let name = reference_name(reference);
    if name.len() == 0 {
        false
    } else {
        match parse_usize_spec(name) {
            Some(index) => index < caps_groups(p, line, w),
            None => caps_named(p, line, w, name),
        }
    }
}

/// Expansion of `rest` for the captures `w`: `$$` is a `$`; a reference
/// expands through the regex, except that one naming no group stays as typed.
pub open spec fn expand_rest(p: Seq<char>, line: Seq<char>, w: CapsAt, rest: Seq<char>) -> Seq<char>
    decreases rest.len(),
{
    proof {
        lemma_first_dollar_bound(rest);
    }
    match first_dollar(rest) {
        None => rest,
        Some(d) => {
            let tail = rest.skip(d);
            if tail.len() >= 2 && tail[1] == '$' {
                rest.take(d) + seq!['$'] + expand_rest(p, line, w, tail.skip(2))
            } else {
                let e = reference_end(tail);
                if 1 <= e <= tail.len() {
                    let reference = tail.take(e);
                    let x = caps_expansion(p, line, w, reference);
                    let piece = if x.len() == 0 && !group_exists(p, line, w, reference) {
                        reference
                    } else {
                        x
                    };
                    rest.take(d) + piece + expand_rest(p, line, w, tail.skip(e))
                } else {
                    rest
                }
            }
        }
    }
}

pub proof fn lemma_first_dollar_bound(s: Seq<char>)
    ensures
        first_dollar(s) is Some ==> 0 <= first_dollar(s).unwrap() < s.len(),
    decreases s.len(),
{
    if s.len() > 0 {
        lemma_first_dollar_bound(s.drop_first());
    }
}

/// The replacement text for the captures `w` of `line`: literal unless the
/// pattern captures.
pub open spec fn expansion_at(p: Seq<char>, has_captures: bool, line: Seq<char>, w: CapsAt, replacement: Seq<char>) -> Seq<char> {
    if !has_captures {
        replacement
    } else {
        expand_rest(p, line, w, replacement)
    }
}

/// The replacement text for the `k`-th match of `line`.
pub open spec fn expansion(p: Seq<char>, has_captures: bool, line: Seq<char>, k: int, replacement: Seq<char>) -> Seq<char> {
    expansion_at(p, has_captures, line, CapsAt::Nth(k as usize), replacement)
}


/// Index of the first `c` in `r[i..]`, relative to `i`.
fn first_of_exec(r: &Vec<char>, i: usize, c: char) -> (out: Option<usize>)
    requires
        i <= r@.len(),
    ensures
        match out {
            Some(d) => first_of(r@.skip(i as int), c) == Some(d as int) && i + d < r@.len(),
            None => first_of(r@.skip(i as int), c) is None,
        },
{
    let ghost s = r@.skip(i as int);
    let mut j = i;
    while j < r.len()
        invariant
            i <= j <= r@.len(),
            s == r@.skip(i as int),
            first_of(s, c) == (match first_of(r@.skip(j as int), c) {
                Some(x) => Some(x + (j - i)),
                None => None,
            }),
        decreases r.len() - j,
    {
        assert(r@.skip(j as int)[0] == r@[j as int]);
        if r[j] == c {
            return Some(j - i);
        }
        assert(r@.skip(j as int).drop_first() == r@.skip(j + 1));
        j += 1;
    }
    None
}

proof fn lemma_first_dollar_is_first_of(s: Seq<char>)
    ensures
        first_dollar(s) == first_of(s, '$'),
    decreases s.len(),
{
    if s.len() > 0 {
        lemma_first_dollar_is_first_of(s.drop_first());
    }
}

fn ref_run_exec(r: &Vec<char>, i: usize) -> (n: usize)
    requires
        i <= r@.len(),
    ensures
        n == ref_run(r@.skip(i as int)),
        i + n <= r@.len(),
{
    let mut j = i;
    while j < r.len() && (('0' <= r[j] && r[j] <= '9') || ('a' <= r[j] && r[j] <= 'z') || ('A' <= r[j] && r[j]
        <= 'Z') || r[j] == '_')
        invariant
            i <= j <= r@.len(),
            ref_run(r@.skip(i as int)) == (j - i) + ref_run(r@.skip(j as int)),
        decreases r.len() - j,
    {
        assert(r@.skip(j as int)[0] == r@[j as int]);
        assert(r@.skip(j as int).drop_first() == r@.skip(j + 1));
        j += 1;
    }
    assert(ref_run(r@.skip(j as int)) == 0) by {
        if j < r@.len() {
            assert(r@.skip(j as int)[0] == r@[j as int]);
        }
    }
    j - i
}

/// Length of the capture reference starting at `r[t] == '$'`.
fn reference_end_exec(r: &Vec<char>, t: usize) -> (e: usize)
    requires
        t < r@.len(),
    ensures
        e == reference_end(r@.skip(t as int)),
        1 <= e <= r@.len() - t,
{
    let ghost tail = r@.skip(t as int);
    if r.len() - t > 1 && r[t + 1] == '{' {
        assert(tail[1] == r@[t + 1]);
        assert(tail.skip(2) == r@.skip(t + 2));
        match first_of_exec(r, t + 2, '}') {
            Some(c) => 2 + c + 1,
            None => r.len() - t,
        }
    } else {
        assert(!(tail.len() >= 2 && tail[1] == '{')) by {
            if tail.len() >= 2 {
                assert(tail[1] == r@[t + 1]);
            }
        }
        assert(tail.skip(1) == r@.skip(t + 1));
        1 + ref_run_exec(r, t + 1)
    }
}

fn copy_into(s: &Vec<char>, a: usize, b: usize, out: &mut Vec<char>)
    requires
        a <= b <= s@.len(),
    ensures
        final(out)@ == old(out)@ + s@.subrange(a as int, b as int),
{
    let ghost o = out@;
    let mut i = a;
    while i < b
        invariant
            a <= i <= b <= s@.len(),
            out@ == o + s@.subrange(a as int, i as int),
        decreases b - i,
    {
        out.push(s[i]);
        i += 1;
        assert(out@ =~= o + s@.subrange(a as int, i as int));
    }
}

fn strip_lead_exec(s: &Vec<char>, c: char) -> (n: usize)
    ensures
        n <= s@.len(),
        s@.skip(n as int) == strip_lead(s@, c),
{
    let mut n: usize = 0;
    assert(s@.skip(0) == s@);
    while n < s.len() && s[n] == c
        invariant
            n <= s@.len(),
            strip_lead(s@.skip(n as int), c) == strip_lead(s@, c),
        decreases s.len() - n,
    {
        assert(s@.skip(n as int)[0] == s@[n as int]);
        assert(s@.skip(n as int).drop_first() == s@.skip(n + 1));
        n += 1;
    }
    assert(strip_lead(s@.skip(n as int), c) == s@.skip(n as int)) by {
        if n < s@.len() {
            assert(s@.skip(n as int)[0] == s@[n as int]);
        }
    }
    n
}

fn strip_trail_exec(s: &Vec<char>, c: char) -> (n: usize)
    ensures
        n <= s@.len(),
        s@.take(n as int) == strip_trail(s@, c),
{
    let mut n = s.len();
    assert(s@.take(n as int) == s@);
    while n > 0 && s[n - 1] == c
        invariant
            n <= s@.len(),
            strip_trail(s@.take(n as int), c) == strip_trail(s@, c),
        decreases n,
    {
        assert(s@.take(n as int).drop_last() == s@.take(n - 1));
        n -= 1;
    }
    n
}

fn drop_front(s: &Vec<char>, n: usize) -> (out: Vec<char>)
    requires
        n <= s@.len(),
    ensures
        out@ == s@.skip(n as int),
{
    let mut out: Vec<char> = Vec::new();
    copy_into(s, n, s.len(), &mut out);
    assert(out@ =~= s@.skip(n as int));
    out
}

fn name_of(reference: &Vec<char>) -> (out: Vec<char>)
    ensures
        out@ == reference_name(reference@),
{
    let a = drop_front(reference, strip_lead_exec(reference, '$'));
    let b = drop_front(&a, strip_lead_exec(&a, '{'));
    let n = strip_trail_exec(&b, '}');
    let mut out: Vec<char> = Vec::new();
    copy_into(&b, 0, n, &mut out);
    assert(out@ =~= b@.take(n as int));
    out
}

fn parse_usize_exec(s: &Vec<char>) -> (r: Option<usize>)
    ensures
        match r {
            Some(v) => parse_usize_spec(s@) == Some(v as int),
            None => parse_usize_spec(s@) is None,
        },
{
    let start: usize = if s.len() > 0 && s[0] == '+' { 1 } else { 0 };
    let ghost d = s@.skip(start as int);
    assert(d == strip_sign(s@));
    if start == s.len() {
        return None;
    }
    let mut v: usize = 0;
    let mut i = start;
    assert(d.take(0) =~= Seq::<char>::empty());
    while i < s.len()
        invariant
            start <= i <= s@.len(),
            d == s@.skip(start as int),
            d == strip_sign(s@),
            d.len() > 0,
            v == dec_value(d.take(i - start)),
            forall|k: int| 0 <= k < i - start ==> #[trigger] is_dec_digit(d[k]),
        decreases s.len() - i,
    {
        let c = s[i];
        assert(d[i - start] == c);
        if !('0' <= c && c <= '9') {
            assert(!is_dec_digit(d[i - start]));
            assert(!all_dec_digits(d));
            return None;
        }
        assert(d.take(i - start + 1).drop_last() == d.take(i - start));
        let dv = (c as u32 - '0' as u32) as usize;
        if v > (usize::MAX - dv) / 10 {
            proof {
                if all_dec_digits(d) {
                    lemma_dec_value_prefix(d, i - start + 1);
                }
                assert(parse_usize_spec(s@) is None);
            }
            return None;
        }
        v = v * 10 + dv;
        i += 1;
    }
    assert(d.take(s@.len() - start) == d);
    Some(v)
}

proof fn lemma_dec_value_prefix(d: Seq<char>, k: int)
    requires
        0 <= k <= d.len(),
        all_dec_digits(d),
    ensures
        dec_value(d) >= dec_value(d.take(k)),
        dec_value(d.take(k)) >= 0,
    decreases d.len() - k,
{
    if k < d.len() {
        lemma_dec_value_prefix(d, k + 1);
        assert(d.take(k + 1).drop_last() == d.take(k));
        assert(d.take(k + 1).last() == d[k]);
        assert(is_dec_digit(d[k]));
    } else {
        assert(d.take(k) == d);
        lemma_dec_value_nonneg(d);
    }
}

proof fn lemma_dec_value_nonneg(d: Seq<char>)
    requires
        all_dec_digits(d),
    ensures
        dec_value(d) >= 0,
    decreases d.len(),
{
    if d.len() > 0 {
        assert(is_dec_digit(d[d.len() - 1]));
        assert forall|i: int| 0 <= i < d.drop_last().len() implies #[trigger] is_dec_digit(d.drop_last()[i]) by {
            assert(d.drop_last()[i] == d[i]);
            assert(is_dec_digit(d[i]));
        }
        lemma_dec_value_nonneg(d.drop_last());
    }
}

fn group_exists_exec(p: &str, line: &str, w: CapsAt, reference: &Vec<char>) -> (b: bool)
    requires
        regex_compiles(p@),
        caps_ok(line@, w),
    ensures
        b == group_exists(p@, line@, w, reference@),
{
    let name = name_of(reference);
    if name.len() == 0 {
        return false;
    }
    match parse_usize_exec(&name) {
        Some(index) => index < caps_groups_exec(p, line, w),
        None => caps_named_exec(p, line, w, string_from_chars(&name).as_str()),
    }
}

impl FindPattern {
    /// The replacement for the `k`-th match of the pattern in `line`.
    /// Capture syntax (`$1`, `${name}`) is honoured only when the pattern
    /// captures, and a reference naming no group stays literal; `$$` is a `$`.
    pub fn expand(&self, line: &str, k: usize, replacement: &str) -> (out: String)
        requires
            self.wf(),
        ensures
            out@ == expansion(self.pattern(), self.has_captures_spec(), line@, k as int, replacement@),
    {
        self.expand_at(line, CapsAt::Nth(k), replacement)
    }

    /// The replacement for the captures `w` of the pattern in `line`, by
    /// the rules of [`Self::expand`].
    #[verifier::spinoff_prover]
    #[verifier::rlimit(40)]
    pub fn expand_at(&self, line: &str, w: CapsAt, replacement: &str) -> (out: String)
        requires
            self.wf(),
            caps_ok(line@, w),
        ensures
            out@ == expansion_at(self.pattern(), self.has_captures_spec(), line@, w, replacement@),
    {
        if !self.has_captures {
            return String::from_str(replacement);
        }
        let p = self.re.as_str();
        let r = chars_of(replacement);
        let ghost target = expand_rest(p@, line@, w, r@);
        let mut out: Vec<char> = Vec::new();
        let mut i: usize = 0;
        assert(r@.skip(0) == r@);
        while i < r.len()
            invariant
                i <= r@.len(),
                regex_compiles(p@),
                p@ == self.pattern(),
                caps_ok(line@, w),
                target == expand_rest(p@, line@, w, r@),
                out@ + expand_rest(p@, line@, w, r@.skip(i as int)) == target,
            decreases r.len() - i,
        {
            let ghost rest = r@.skip(i as int);
            proof {
                lemma_first_dollar_is_first_of(rest);
            }
            match first_of_exec(&r, i, '$') {
                None => {
                    copy_into(&r, i, r.len(), &mut out);
                    assert(r@.subrange(i as int, r@.len() as int) == rest);
                    assert(out@ == target);
                    i = r.len();
                    assert(r@.skip(i as int) =~= Seq::<char>::empty());
                    assert(first_dollar(r@.skip(i as int)) is None);
                },
                Some(d) => {
                    let t = i + d;
                    let ghost tail = rest.skip(d as int);
                    assert(tail == r@.skip(t as int));
                    assert(rest.take(d as int) == r@.subrange(i as int, t as int));
                    if t + 1 < r.len() && r[t + 1] == '$' {
                        assert(tail[1] == r@[t + 1]);
                        copy_into(&r, i, t, &mut out);
                        out.push('$');
                        assert(tail.skip(2) == r@.skip(t + 2));
                        i = t + 2;
                    } else {
                        assert(!(tail.len() >= 2 && tail[1] == '$')) by {
                            if tail.len() >= 2 {
                                assert(tail[1] == r@[t + 1]);
                            }
                        }
                        let e = reference_end_exec(&r, t);
                        let mut reference: Vec<char> = Vec::new();
                        copy_into(&r, t, t + e, &mut reference);
                        assert(reference@ =~= tail.take(e as int));
                        let rs = string_from_chars(&reference);
                        let x = caps_expand_exec(p, line, w, rs.as_str());
                        let xc = chars_of(x.as_str());
                        copy_into(&r, i, t, &mut out);
                        if xc.len() == 0 && !group_exists_exec(p, line, w, &reference) {
                            copy_into(&reference, 0, reference.len(), &mut out);
                            assert(reference@.subrange(0, reference@.len() as int) == reference@);
                        } else {
                            copy_into(&xc, 0, xc.len(), &mut out);
                            assert(xc@.subrange(0, xc@.len() as int) == xc@);
                        }
                        assert(tail.skip(e as int) == r@.skip(t + e));
                        i = t + e;
                    }
                },
            }
        }
        assert(r@.skip(i as int) =~= Seq::<char>::empty());
        assert(expand_rest(p@, line@, w, r@.skip(i as int)) == r@.skip(i as int));
        assert(out@ =~= target);
        string_from_chars(&out)
    }
}


// ---------------------------------------------------------------------------
// Replace preview.

/// One rewritten match inside a previewed line, in that line's preview char
/// columns.
#[derive(Debug, Clone, Copy, PartialEq, Eq, Structural)]
pub struct PreviewSpan {
    pub row: usize,
    /// Char column where the replacement text starts.
    pub start: usize,
    /// Char column just past the replacement text.
    pub end: usize,
    /// Whether this is the current match.
    pub is_current: bool,
}

/// Every match substituted into a copy of the buffer.
#[derive(Debug, Clone, PartialEq, Eq)]
pub struct Preview {
    pub lines: Vec<String>,
    pub spans: Vec<PreviewSpan>,
}

/// The chars of `line` from byte `a` to byte `b` (empty when `b` is before `a`).
pub open spec fn between(line: Seq<char>, a: int, b: int) -> Seq<char> {
    let ca = char_index_at_byte(line, a);
    let cb = char_index_at_byte(line, b);
    if ca <= cb {
        line.subrange(ca, cb)
    } else {
        Seq::empty()
    }
}

/// Preview text, spans and byte cursor of `line` after its first `k` matches.
pub open spec fn preview_fold(
    p: Seq<char>,
    hc: bool,
    line: Seq<char>,
    row: int,
    repl: Seq<char>,
    current: Option<(usize, usize)>,
    k: int,
) -> (Seq<char>, Seq<PreviewSpan>, int)
    decreases k,
{
    if k <= 0 {
        (Seq::empty(), Seq::empty(), 0)
    } else {
        let (text, spans, last) = preview_fold(p, hc, line, row, repl, current, k - 1);
        let m = regex_matches(p, line)[k - 1];
        let t1 = text + between(line, last, m.0 as int);
        let x = expansion(p, hc, line, k - 1, repl);
        let b = char_index_at_byte(line, m.0 as int);
        (
            t1 + x,
            spans.push(
                PreviewSpan {
                    row: row as usize,
                    start: t1.len() as usize,
                    end: (t1 + x).len() as usize,
                    is_current: current == Some((row as usize, b as usize)),
                },
            ),
            m.1 as int,
        )
    }
}

/// The preview of row `row`: its text with every match replaced, and the
/// spans of the replacements.
pub open spec fn preview_line(
    p: Seq<char>,
    hc: bool,
    line: Seq<char>,
    row: int,
    repl: Seq<char>,
    current: Option<(usize, usize)>,
) -> (Seq<char>, Seq<PreviewSpan>) {
    let (text, spans, last) = preview_fold(p, hc, line, row, repl, current, regex_matches(p, line).len() as int);
    let c = char_index_at_byte(line, last);
    (text + line.subrange(c, line.len() as int), spans)
}

/// The previews of the first `r` rows: their texts, and all their spans in
/// row order.
pub open spec fn preview_rows(
    p: Seq<char>,
    hc: bool,
    rows: Seq<Seq<char>>,
    repl: Seq<char>,
    current: Option<(usize, usize)>,
    r: int,
) -> (Seq<Seq<char>>, Seq<PreviewSpan>)
    decreases r,
{
    if r <= 0 {
        (Seq::empty(), Seq::empty())
    } else {
        let (ls, sp) = preview_rows(p, hc, rows, repl, current, r - 1);
        let (t, s) = preview_line(p, hc, rows[r - 1], r - 1, repl, current);
        (ls.push(t), sp + s)
    }
}

/// Copies the chars of `line` between bytes `a` and `b`.
fn copy_between(line: &Vec<char>, a: usize, b: usize, out: &mut Vec<char>)
    ensures
        final(out)@ == old(out)@ + between(line@, a as int, b as int),
{
    let ca = char_index_at(line, a);
    let cb = char_index_at(line, b);
    if ca <= cb {
        copy_into(line, ca, cb, out);
    } else {
        assert(old(out)@ + Seq::<char>::empty() =~= old(out)@);
    }
}

fn preview_row(
    fp: &FindPattern,
    line: &str,
    row: usize,
    replacement: &str,
    current: Option<(usize, usize)>,
    spans: &mut Vec<PreviewSpan>,
) -> (text: String)
    requires
        fp.wf(),
    ensures
        text@ == preview_line(fp.pattern(), fp.has_captures_spec(), line@, row as int, replacement@, current).0,
        final(spans)@ == old(spans)@ + preview_line(fp.pattern(), fp.has_captures_spec(), line@, row as int, replacement@, current).1,
{
    let ghost p = fp.pattern();
    let ghost hc = fp.has_captures_spec();
    let ghost base = spans@;
    let lc = chars_of(line);
    let m = match_ranges(fp.re.as_str(), line);
    let mut text: Vec<char> = Vec::new();
    let mut last: usize = 0;
    let mut k: usize = 0;
    while k < m.len()
        invariant
            k <= m@.len(),
            fp.wf(),
            p == fp.pattern(),
            hc == fp.has_captures_spec(),
            lc@ == line@,
            m@ == regex_matches(p, line@),
            (text@, spans@.skip(base.len() as int), last as int) == preview_fold(p, hc, line@, row as int, replacement@, current, k as int),
            spans@.take(base.len() as int) == base,
            spans@.len() >= base.len(),
        decreases m.len() - k,
    {
        let (s, e) = m[k];
        copy_between(&lc, last, s, &mut text);
        let start = text.len();
        let x = fp.expand(line, k, replacement);
        let xc = chars_of(x.as_str());
        copy_into(&xc, 0, xc.len(), &mut text);
        assert(xc@.subrange(0, xc@.len() as int) == xc@);
        let b = char_index_at(&lc, s);
        let is_current = match current {
            Some((cr, cc)) => cr == row && cc == b,
            None => false,
        };
        let ghost before = spans@;
        spans.push(PreviewSpan { row, start, end: text.len(), is_current });
        proof {
            assert(spans@.skip(base.len() as int) =~= before.skip(base.len() as int).push(
                PreviewSpan { row, start, end: text@.len() as usize, is_current },
            ));
            assert(spans@.take(base.len() as int) =~= before.take(base.len() as int));
        }
        last = e;
        k += 1;
    }
    let c = char_index_at(&lc, last);
    copy_into(&lc, c, lc.len(), &mut text);
    assert(spans@ =~= base + spans@.skip(base.len() as int));
    string_from_chars(&text)
}

/// The replace preview: every match of every row replaced, plus where each
/// replacement landed; the span at buffer position `current` (row, char
/// column of the match start) is flagged. The row count never changes.
pub fn build_preview(pattern: &FindPattern, rows: &[String], replacement: &str, current: Option<(usize, usize)>) -> (pv: Preview)
    requires
        pattern.wf(),
    ensures
        pv.lines@.map_values(|s: String| s@) == preview_rows(
            pattern.pattern(),
            pattern.has_captures_spec(),
            row_chars(rows@),
            replacement@,
            current,
            rows@.len() as int,
        ).0,
        pv.spans@ == preview_rows(
            pattern.pattern(),
            pattern.has_captures_spec(),
            row_chars(rows@),
            replacement@,
            current,
            rows@.len() as int,
        ).1,
        pv.lines@.len() == rows@.len(),
{
    let ghost p = pattern.pattern();
    let ghost hc = pattern.has_captures_spec();
    let ghost rc = row_chars(rows@);
    let mut lines: Vec<String> = Vec::new();
    let mut spans: Vec<PreviewSpan> = Vec::new();
    let mut r: usize = 0;
    while r < rows.len()
        invariant
            r <= rows@.len(),
            pattern.wf(),
            p == pattern.pattern(),
            hc == pattern.has_captures_spec(),
            rc == row_chars(rows@),
            lines@.len() == r,
            (lines@.map_values(|s: String| s@), spans@) == preview_rows(p, hc, rc, replacement@, current, r as int),
        decreases rows.len() - r,
    {
        let ghost before = lines@;
        let t = preview_row(pattern, rows[r].as_str(), r, replacement, current, &mut spans);
        lines.push(t);
        proof {
            assert(rc[r as int] == rows@[r as int]@);
            assert(lines@.map_values(|s: String| s@) =~= before.map_values(|s: String| s@).push(t@));
        }
        r += 1;
    }
    Preview { lines, spans }
}

/// Replace all: every match rewritten, with the number rewritten; `None`
/// when nothing matched.
pub fn replace_all(pattern: &FindPattern, lines: &[String], replacement: &str) -> (r: Option<(Vec<String>, usize)>)
    requires
        pattern.wf(),
    ensures
        ({
            let pv = preview_rows(
                pattern.pattern(),
                pattern.has_captures_spec(),
                row_chars(lines@),
                replacement@,
                None,
                lines@.len() as int,
            );
            &&& r is None <==> pv.1.len() == 0
            &&& r is Some ==> r.unwrap().0@.map_values(|s: String| s@) == pv.0 && r.unwrap().1 == pv.1.len()
                && r.unwrap().0@.len() == lines@.len()
        }),
{
    let pv = build_preview(pattern, lines, replacement, None);
    let count = pv.spans.len();
    if count == 0 {
        return None;
    }
    Some((pv.lines, count))
}

proof fn lemma_preview_rows_len(p: Seq<char>, hc: bool, rows: Seq<Seq<char>>, repl: Seq<char>, current: Option<(usize, usize)>, r: int)
    requires
        0 <= r,
    ensures
        preview_rows(p, hc, rows, repl, current, r).0.len() == r,
    decreases r,
{
    if r > 0 {
        lemma_preview_rows_len(p, hc, rows, repl, current, r - 1);
    }
}

/// A replace preview, and so a replace all, never changes the row count:
/// a match cannot span a newline.
pub proof fn law_preview_keeps_row_count(p: Seq<char>, hc: bool, rows: Seq<Seq<char>>, repl: Seq<char>, current: Option<(usize, usize)>)
    ensures
        preview_rows(p, hc, rows, repl, current, rows.len() as int).0.len() == rows.len(),
{
    lemma_preview_rows_len(p, hc, rows, repl, current, rows.len() as int);
}

/// Without a capture group in the pattern a replacement is literal text:
/// `$1` stays `$1`.
pub proof fn law_replacement_is_literal_without_captures(p: Seq<char>, line: Seq<char>, w: CapsAt, replacement: Seq<char>)
    ensures
        expansion_at(p, false, line, w, replacement) == replacement,
{
}

/// Matches over the rows, uncapped.
pub open spec fn total_matches(p: Seq<char>, rows: Seq<Seq<char>>) -> int
    decreases rows.len(),
{
    if rows.len() == 0 {
        0
    } else {
        total_matches(p, rows.drop_last()) + regex_matches(p, rows.last()).len()
    }
}

proof fn lemma_preview_fold_spans(p: Seq<char>, hc: bool, line: Seq<char>, row: int, repl: Seq<char>, current: Option<(usize, usize)>, k: int)
    requires
        k >= 0,
    ensures
        preview_fold(p, hc, line, row, repl, current, k).1.len() == k,
    decreases k,
{
    if k > 0 {
        lemma_preview_fold_spans(p, hc, line, row, repl, current, k - 1);
    }
}

proof fn lemma_preview_rows_spans(p: Seq<char>, hc: bool, rows: Seq<Seq<char>>, repl: Seq<char>, current: Option<(usize, usize)>, r: int)
    requires
        0 <= r <= rows.len(),
    ensures
        preview_rows(p, hc, rows, repl, current, r).1.len() == total_matches(p, rows.take(r)),
    decreases r,
{
    if r > 0 {
        lemma_preview_rows_spans(p, hc, rows, repl, current, r - 1);
        lemma_preview_fold_spans(p, hc, rows[r - 1], r - 1, repl, current, regex_matches(p, rows[r - 1]).len() as int);
        assert(rows.take(r).drop_last() == rows.take(r - 1));
        assert(rows.take(r).last() == rows[r - 1]);
    }
}

proof fn lemma_spans_count(p: Seq<char>, rows: Seq<Seq<char>>)
    ensures
        spans_spec(p, rows).len() == total_matches(p, rows),
        total_matches(p, rows) >= 0,
        count_spec(p, rows) == (if total_matches(p, rows) > usize::MAX { usize::MAX as int } else { total_matches(p, rows) }),
    decreases rows.len(),
{
    if rows.len() > 0 {
        lemma_spans_count(p, rows.drop_last());
    }
}

/// The counter, the highlighter and the replacer agree on what matches:
/// the match count, the highlighted spans and the replacements of a
/// preview (and so of a replace all) number the same, the count capping at
/// `usize::MAX`.
pub proof fn law_count_spans_and_replacements_agree(p: Seq<char>, hc: bool, rows: Seq<Seq<char>>, repl: Seq<char>, current: Option<(usize, usize)>)
    ensures
        spans_spec(p, rows).len() == preview_rows(p, hc, rows, repl, current, rows.len() as int).1.len(),
        spans_spec(p, rows).len() <= usize::MAX ==> count_spec(p, rows) == spans_spec(p, rows).len(),
{
    lemma_spans_count(p, rows);
    lemma_preview_rows_spans(p, hc, rows, repl, current, rows.len() as int);
    assert(rows.take(rows.len() as int) == rows);
}

} // verus!
