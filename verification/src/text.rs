//! Character-level helpers shared by the editor modules: converting between
//! `str` and `Vec<char>`, Unicode white space, UTF-8 byte lengths, and the
//! byte-offset / char-index conversions the editor needs at its edges.
use vstd::prelude::*;

verus! {

/// The characters of `s`, in order.
pub fn chars_of(s: &str) -> (out: Vec<char>)
    ensures
        out@ == s@,
{
    let mut out: Vec<char> = Vec::new();
    for c in it: s.chars()
        invariant
            out@ == it.seq().take(it.index() as int),
    {
        out.push(c);
    }
    out
}

/// `String::push`: appends one char to the string.
#[verifier::external_body]
fn string_push(s: &mut String, c: char)
    ensures
        final(s)@ == old(s)@.push(c),
{
    s.push(c);
}

/// A `String` holding exactly the chars `cs`.
pub fn string_from_chars(cs: &[char]) -> (out: String)
    ensures
        out@ == cs@,
{
    let mut out = String::new();
    let mut i: usize = 0;
    while i < cs.len()
        invariant
            0 <= i <= cs.len(),
            out@ == cs@.take(i as int),
        decreases cs.len() - i,
    {
        string_push(&mut out, cs[i]);
        i += 1;
        assert(out@ == cs@.take(i as int));
    }
    assert(cs@.take(cs@.len() as int) == cs@);
    out
}

/// Unicode `White_Space` property, the set `char::is_whitespace` tests.
pub open spec fn is_ws_spec(c: char) -> bool {
    ||| c == ' '
    ||| ('\u{9}' <= c && c <= '\u{d}')
    ||| c == '\u{85}'
    ||| c == '\u{a0}'
    ||| c == '\u{1680}'
    ||| ('\u{2000}' <= c && c <= '\u{200a}')
    ||| c == '\u{2028}'
    ||| c == '\u{2029}'
    ||| c == '\u{202f}'
    ||| c == '\u{205f}'
    ||| c == '\u{3000}'
}

/// `char::is_whitespace`.
pub fn is_ws(c: char) -> (b: bool)
    ensures
        b == is_ws_spec(c),
{
    c == ' ' || ('\u{9}' <= c && c <= '\u{d}') || c == '\u{85}' || c == '\u{a0}' || c
        == '\u{1680}' || ('\u{2000}' <= c && c <= '\u{200a}') || c == '\u{2028}' || c
        == '\u{2029}' || c == '\u{202f}' || c == '\u{205f}' || c == '\u{3000}'
}

/// `char::is_ascii_digit`.
pub open spec fn is_digit_spec(c: char) -> bool {
    '0' <= c && c <= '9'
}

pub fn is_digit(c: char) -> (b: bool)
    ensures
        b == is_digit_spec(c),
{
    '0' <= c && c <= '9'
}

/// Bytes in the UTF-8 encoding of `c`.
pub open spec fn utf8_len(c: char) -> nat {
    if (c as u32) < 0x80 {
        1
    } else if (c as u32) < 0x800 {
        2
    } else if (c as u32) < 0x10000 {
        3
    } else {
        4
    }
}

pub fn char_utf8_len(c: char) -> (n: usize)
    ensures
        n == utf8_len(c),
{
    let v = c as u32;
    if v < 0x80 {
        1
    } else if v < 0x800 {
        2
    } else if v < 0x10000 {
        3
    } else {
        4
    }
}

/// Bytes in the UTF-8 encoding of `s`.
pub open spec fn bytes_len(s: Seq<char>) -> nat
    decreases s.len(),
{
    if s.len() == 0 {
        0
    } else {
        bytes_len(s.drop_last()) + utf8_len(s.last())
    }
}

pub proof fn lemma_bytes_len_push(s: Seq<char>, c: char)
    ensures
        bytes_len(s.push(c)) == bytes_len(s) + utf8_len(c),
{
    assert(s.push(c).drop_last() == s);
}

pub proof fn lemma_bytes_len_ge_len(s: Seq<char>)
    ensures
        bytes_len(s) >= s.len(),
    decreases s.len(),
{
    if s.len() > 0 {
        lemma_bytes_len_ge_len(s.drop_last());
    }
}

pub proof fn lemma_bytes_len_mono(s: Seq<char>, i: int, j: int)
    requires
        0 <= i <= j <= s.len(),
    ensures
        bytes_len(s.take(i)) <= bytes_len(s.take(j)),
        bytes_len(s.take(j)) - bytes_len(s.take(i)) >= j - i,
    decreases j - i,
{
    if i < j {
        lemma_bytes_len_mono(s, i, j - 1);
        assert(s.take(j).drop_last() == s.take(j - 1));
    }
}

/// Number of chars of `s` whose encoding starts before byte `b`: the char
/// index of byte offset `b` (exact on a char boundary). Scans forward from
/// char `i`, whose encoding starts at byte `acc`.
pub open spec fn char_index_from(s: Seq<char>, b: int, i: int, acc: int) -> int
    decreases s.len() - i,
{
    if 0 <= i < s.len() && acc < b {
        char_index_from(s, b, i + 1, acc + utf8_len(s[i]))
    } else {
        i
    }
}

pub open spec fn char_index_at_byte(s: Seq<char>, b: int) -> int {
    char_index_from(s, b, 0, 0)
}

pub proof fn lemma_char_index_from_bound(s: Seq<char>, b: int, i: int, acc: int)
    requires
        0 <= i <= s.len(),
    ensures
        i <= char_index_from(s, b, i, acc) <= s.len(),
    decreases s.len() - i,
{
    if i < s.len() && acc < b {
        lemma_char_index_from_bound(s, b, i + 1, acc + utf8_len(s[i]));
    }
}

/// The char index of a byte offset never decreases as the offset grows.
pub proof fn lemma_char_index_from_mono(s: Seq<char>, b1: int, b2: int, i: int, acc: int)
    requires
        0 <= i <= s.len(),
        b1 <= b2,
    ensures
        char_index_from(s, b1, i, acc) <= char_index_from(s, b2, i, acc),
    decreases s.len() - i,
{
    lemma_char_index_from_bound(s, b2, i, acc);
    if i < s.len() && acc < b1 {
        lemma_char_index_from_mono(s, b1, b2, i + 1, acc + utf8_len(s[i]));
    }
}

/// The byte offset where char `k` starts maps back to char index `k`.
pub proof fn lemma_char_index_of_prefix(s: Seq<char>, k: int)
    requires
        0 <= k <= s.len(),
    ensures
        char_index_at_byte(s, bytes_len(s.take(k)) as int) == k,
{
    lemma_char_index_of_prefix_from(s, k, 0);
}

proof fn lemma_char_index_of_prefix_from(s: Seq<char>, k: int, i: int)
    requires
        0 <= i <= k <= s.len(),
    ensures
        char_index_from(s, bytes_len(s.take(k)) as int, i, bytes_len(s.take(i)) as int) == k,
    decreases k - i,
{
    if i < k {
        lemma_bytes_len_mono(s, i + 1, k);
        lemma_bytes_len_mono(s, i, i + 1);
        assert(s.take(i + 1).drop_last() == s.take(i));
        assert(s.take(i + 1).last() == s[i]);
        lemma_char_index_of_prefix_from(s, k, i + 1);
    }
}

/// Index of the first `\n` of `s`.
pub open spec fn first_newline(s: Seq<char>) -> Option<int>
    decreases s.len(),
{
    if s.len() == 0 {
        None
    } else if s[0] == '\n' {
        Some(0)
    } else {
        match first_newline(s.drop_first()) {
            Some(i) => Some(i + 1),
            None => None,
        }
    }
}

pub proof fn lemma_first_newline_bound(s: Seq<char>)
    ensures
        first_newline(s) matches Some(i) ==> 0 <= i < s.len(),
    decreases s.len(),
{
    if s.len() > 0 {
        lemma_first_newline_bound(s.drop_first());
    }
}

/// The first `\n` of `s` is at `j` when `s[j]` is one and none comes before.
pub proof fn lemma_first_newline_at(s: Seq<char>, j: int)
    requires
        0 <= j < s.len(),
        s[j] == '\n',
        forall|q: int| 0 <= q < j ==> s[q] != '\n',
    ensures
        first_newline(s) == Some(j),
    decreases j,
{
    if j > 0 {
        lemma_first_newline_at(s.drop_first(), j - 1);
    }
}

/// A string without `\n` has no first one.
pub proof fn lemma_first_newline_none(s: Seq<char>)
    requires
        forall|q: int| 0 <= q < s.len() ==> s[q] != '\n',
    ensures
        first_newline(s) is None,
    decreases s.len(),
{
    if s.len() > 0 {
        lemma_first_newline_none(s.drop_first());
    }
}

/// Char index of byte offset `b` in `s`.
pub fn char_index_at(s: &[char], b: usize) -> (k: usize)
    ensures
        k == char_index_at_byte(s@, b as int),
        k <= s@.len(),
{
    let mut i: usize = 0;
    let mut acc: usize = 0;
    proof {
        lemma_char_index_from_bound(s@, b as int, 0, 0);
    }
    while i < s.len() && acc < b
        invariant
            0 <= i <= s@.len(),
            acc <= b,
            char_index_from(s@, b as int, i as int, acc as int) == char_index_at_byte(s@, b as int),
        decreases s.len() - i,
    {
        let w = char_utf8_len(s[i]);
        if w > b - acc {
            // The char straddles byte `b`: it is the last one counted.
            proof {
                lemma_char_index_from_bound(s@, b as int, i + 1, acc + w);
                assert(char_index_from(s@, b as int, i + 1, acc + w) == i + 1);
            }
            return i + 1;
        }
        acc = acc + w;
        i += 1;
    }
    i
}

} // verus!

verus! {

/// Length of the run of `c` at the start of `s`.
pub open spec fn lead_run(s: Seq<char>, c: char) -> nat
    decreases s.len(),
{
    if s.len() > 0 && s[0] == c {
        1 + lead_run(s.drop_first(), c)
    } else {
        0
    }
}

/// Length of the run of space or tab at the start of `s`.
pub open spec fn lead_blank(s: Seq<char>) -> nat
    decreases s.len(),
{
    if s.len() > 0 && (s[0] == ' ' || s[0] == '\t') {
        1 + lead_blank(s.drop_first())
    } else {
        0
    }
}

/// Length of the run of Unicode white space at the start of `s`.
pub open spec fn lead_ws(s: Seq<char>) -> nat
    decreases s.len(),
{
    if s.len() > 0 && is_ws_spec(s[0]) {
        1 + lead_ws(s.drop_first())
    } else {
        0
    }
}

/// Length of the run of Unicode white space at the end of `s`.
pub open spec fn trail_ws(s: Seq<char>) -> nat
    decreases s.len(),
{
    if s.len() > 0 && is_ws_spec(s.last()) {
        1 + trail_ws(s.drop_last())
    } else {
        0
    }
}

/// `str::trim`: `s` without leading and trailing white space.
pub open spec fn trim(s: Seq<char>) -> Seq<char> {
    let a = lead_ws(s) as int;
    if a == s.len() {
        Seq::empty()
    } else {
        s.subrange(a, s.len() - trail_ws(s) as int)
    }
}

/// Whether every char of `s` is `c`.
pub open spec fn all_eq(s: Seq<char>, c: char) -> bool {
    forall|i: int| 0 <= i < s.len() ==> s[i] == c
}

/// Whether `s` holds a char that is not white space.
pub open spec fn has_non_ws(s: Seq<char>) -> bool {
    exists|i: int| 0 <= i < s.len() && !is_ws_spec(s[i])
}

pub proof fn lemma_lead_run_bound(s: Seq<char>, c: char)
    ensures
        lead_run(s, c) <= s.len(),
        forall|i: int| 0 <= i < lead_run(s, c) ==> s[i] == c,
        lead_run(s, c) < s.len() ==> s[lead_run(s, c) as int] != c,
    decreases s.len(),
{
    if s.len() > 0 && s[0] == c {
        lemma_lead_run_bound(s.drop_first(), c);
        assert forall|i: int| 0 < i < lead_run(s, c) implies s[i] == c by {
            assert(s[i] == s.drop_first()[i - 1]);
        }
    }
}

pub proof fn lemma_lead_blank_bound(s: Seq<char>)
    ensures
        lead_blank(s) <= s.len(),
        forall|i: int| 0 <= i < lead_blank(s) ==> (s[i] == ' ' || s[i] == '\t'),
        lead_blank(s) < s.len() ==> !(s[lead_blank(s) as int] == ' ' || s[lead_blank(s) as int]
            == '\t'),
    decreases s.len(),
{
    if s.len() > 0 && (s[0] == ' ' || s[0] == '\t') {
        lemma_lead_blank_bound(s.drop_first());
        assert forall|i: int| 0 < i < lead_blank(s) implies (s[i] == ' ' || s[i] == '\t') by {
            assert(s[i] == s.drop_first()[i - 1]);
        }
    }
}

pub proof fn lemma_lead_ws_bound(s: Seq<char>)
    ensures
        lead_ws(s) <= s.len(),
        forall|i: int| 0 <= i < lead_ws(s) ==> is_ws_spec(s[i]),
        lead_ws(s) < s.len() ==> !is_ws_spec(s[lead_ws(s) as int]),
    decreases s.len(),
{
    if s.len() > 0 && is_ws_spec(s[0]) {
        lemma_lead_ws_bound(s.drop_first());
        assert forall|i: int| 0 < i < lead_ws(s) implies is_ws_spec(s[i]) by {
            assert(s[i] == s.drop_first()[i - 1]);
        }
    }
}

pub proof fn lemma_trail_ws_bound(s: Seq<char>)
    ensures
        trail_ws(s) <= s.len(),
        forall|i: int| s.len() - trail_ws(s) <= i < s.len() ==> is_ws_spec(s[i]),
        trail_ws(s) < s.len() ==> !is_ws_spec(s[s.len() - 1 - trail_ws(s)]),
    decreases s.len(),
{
    if s.len() > 0 && is_ws_spec(s.last()) {
        lemma_trail_ws_bound(s.drop_last());
        assert forall|i: int| s.len() - trail_ws(s) <= i < s.len() - 1 implies is_ws_spec(s[i]) by {
            assert(s[i] == s.drop_last()[i]);
        }
    }
}

/// Runs of `c` starting at `start`: `lead_run(s[start..], c)`.
pub fn run_len(s: &[char], start: usize, c: char) -> (n: usize)
    requires
        start <= s@.len(),
    ensures
        n == lead_run(s@.subrange(start as int, s@.len() as int), c),
        start + n <= s@.len(),
{
    let mut i = s.len();
    let mut n: usize = 0;
    // Walk backwards, counting the run that ends at each position.
    while i > start
        invariant
            start <= i <= s@.len(),
            n == lead_run(s@.subrange(i as int, s@.len() as int), c),
            i + n <= s@.len(),
        decreases i - start,
    {
        i -= 1;
        let ghost t = s@.subrange(i as int, s@.len() as int);
        assert(t.drop_first() == s@.subrange(i + 1, s@.len() as int));
        if s[i] == c {
            n = n + 1;
        } else {
            n = 0;
        }
    }
    n
}

/// `lead_blank(s[start..])`.
pub fn blank_len(s: &[char], start: usize) -> (n: usize)
    requires
        start <= s@.len(),
    ensures
        n == lead_blank(s@.subrange(start as int, s@.len() as int)),
        start + n <= s@.len(),
{
    let mut i = s.len();
    let mut n: usize = 0;
    while i > start
        invariant
            start <= i <= s@.len(),
            n == lead_blank(s@.subrange(i as int, s@.len() as int)),
            i + n <= s@.len(),
        decreases i - start,
    {
        i -= 1;
        let ghost t = s@.subrange(i as int, s@.len() as int);
        assert(t.drop_first() == s@.subrange(i + 1, s@.len() as int));
        if s[i] == ' ' || s[i] == '\t' {
            n = n + 1;
        } else {
            n = 0;
        }
    }
    n
}

/// `lead_ws(s)`.
pub fn ws_prefix_len(s: &[char]) -> (n: usize)
    ensures
        n == lead_ws(s@),
        n <= s@.len(),
{
    let mut i = s.len();
    let mut n: usize = 0;
    while i > 0
        invariant
            0 <= i <= s@.len(),
            n == lead_ws(s@.subrange(i as int, s@.len() as int)),
            i + n <= s@.len(),
        decreases i,
    {
        i -= 1;
        let ghost t = s@.subrange(i as int, s@.len() as int);
        assert(t.drop_first() == s@.subrange(i + 1, s@.len() as int));
        if is_ws(s[i]) {
            n = n + 1;
        } else {
            n = 0;
        }
    }
    assert(s@.subrange(0, s@.len() as int) == s@);
    n
}

/// `trail_ws(s)`.
pub fn ws_suffix_len(s: &[char]) -> (n: usize)
    ensures
        n == trail_ws(s@),
        n <= s@.len(),
{
    let mut i: usize = 0;
    let mut n: usize = 0;
    while i < s.len()
        invariant
            0 <= i <= s@.len(),
            n == trail_ws(s@.take(i as int)),
            n <= i,
        decreases s.len() - i,
    {
        assert(s@.take(i + 1).drop_last() == s@.take(i as int));
        if is_ws(s[i]) {
            n = n + 1;
        } else {
            n = 0;
        }
        i += 1;
    }
    assert(s@.take(s@.len() as int) == s@);
    n
}

/// `str::trim`, as the index range `[a, b)` it keeps.
pub fn trim_bounds(s: &[char]) -> (r: (usize, usize))
    ensures
        r.0 <= r.1 <= s@.len(),
        s@.subrange(r.0 as int, r.1 as int) == trim(s@),
{
    let a = ws_prefix_len(s);
    if a == s.len() {
        return (a, a);
    }
    let t = ws_suffix_len(s);
    proof {
        lemma_lead_ws_bound(s@);
        lemma_trail_ws_bound(s@);
    }
    (a, s.len() - t)
}

/// Whether `s[start..]` holds a char that is not white space.
pub fn any_non_ws(s: &[char], start: usize) -> (b: bool)
    requires
        start <= s@.len(),
    ensures
        b == has_non_ws(s@.subrange(start as int, s@.len() as int)),
{
    let mut i = start;
    while i < s.len()
        invariant
            start <= i <= s@.len(),
            forall|k: int| start <= k < i ==> is_ws_spec(s@[k]),
        decreases s.len() - i,
    {
        if !is_ws(s[i]) {
            assert(s@.subrange(start as int, s@.len() as int)[i - start] == s@[i as int]);
            return true;
        }
        i += 1;
    }
    assert forall|k: int| 0 <= k < s@.len() - start implies is_ws_spec(
        #[trigger] s@.subrange(start as int, s@.len() as int)[k],
    ) by {
        assert(s@.subrange(start as int, s@.len() as int)[k] == s@[start + k]);
    }
    false
}

/// Whether every char of `s[a..b]` is `c`.
pub fn all_chars_eq(s: &[char], a: usize, b: usize, c: char) -> (r: bool)
    requires
        a <= b <= s@.len(),
    ensures
        r == all_eq(s@.subrange(a as int, b as int), c),
{
    let mut i = a;
    while i < b
        invariant
            a <= i <= b,
            b <= s@.len(),
            forall|k: int| a <= k < i ==> s@[k] == c,
        decreases b - i,
    {
        if s[i] != c {
            assert(s@.subrange(a as int, b as int)[i - a] == s@[i as int]);
            return false;
        }
        i += 1;
    }
    assert forall|k: int| 0 <= k < b - a implies #[trigger] s@.subrange(a as int, b as int)[k]
        == c by {
        assert(s@.subrange(a as int, b as int)[k] == s@[a + k]);
    }
    true
}

} // verus!
