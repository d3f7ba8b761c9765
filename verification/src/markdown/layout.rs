//! Where each line of a buffer sits in the joined text handed to the
//! CommonMark parser, and the mapping from byte offsets in that text back
//! to `(row, char column)`.
use vstd::prelude::*;
use crate::text::{bytes_len, char_index_at_byte, char_utf8_len, lemma_bytes_len_push, utf8_len};

verus! {

/// The lines joined with `'\n'`.
pub open spec fn join_lines(ls: Seq<Seq<char>>) -> Seq<char>
    decreases ls.len(),
{
    if ls.len() == 0 {
        Seq::empty()
    } else if ls.len() == 1 {
        ls[0]
    } else {
        join_lines(ls.drop_last()) + seq!['\n'] + ls.last()
    }
}

/// Byte offset of row `r` in the joined text (for `r == ls.len()`, one past
/// the end of the joined text: the search sentinel).
pub open spec fn start_of(ls: Seq<Seq<char>>, r: int) -> int
    decreases r,
{
    if r <= 0 {
        0
    } else {
        start_of(ls, r - 1) + bytes_len(ls[r - 1]) + 1
    }
}

pub proof fn lemma_start_of_mono(ls: Seq<Seq<char>>, a: int, b: int)
    requires
        0 <= a <= b,
    ensures
        start_of(ls, a) <= start_of(ls, b),
        a < b ==> start_of(ls, a) < start_of(ls, b),
        a < b ==> start_of(ls, a) + bytes_len(ls[a]) < start_of(ls, b),
    decreases b - a,
{
    if a < b {
        lemma_start_of_mono(ls, a, b - 1);
    }
}

/// Largest `r <= hi` with `start_of(r) <= b` (0 when none).
pub open spec fn row_search(ls: Seq<Seq<char>>, b: int, hi: int) -> int
    decreases hi,
{
    if hi <= 0 {
        0
    } else if start_of(ls, hi) <= b {
        hi
    } else {
        row_search(ls, b, hi - 1)
    }
}

/// Char column of byte `b` within row `r`, clamped to the row's end.
pub open spec fn col_in_row(ls: Seq<Seq<char>>, r: int, b: int) -> int {
    let within = b - start_of(ls, r);
    let bl = bytes_len(ls[r]) as int;
    char_index_at_byte(ls[r], if within < bl { within } else { bl }) as int
}

/// `(row, char column)` of byte `b`, the row clamped to the last line.
pub open spec fn row_col(ls: Seq<Seq<char>>, b: int) -> (int, int) {
    let n = ls.len() as int;
    let big = row_search(ls, b, n);
    let r = if big < n - 1 { big } else { n - 1 };
    (r, col_in_row(ls, r, b))
}

/// Row of byte `b`, or `ls.len()` for an offset at or past the end of the
/// last line's content: where a block that runs to the end of the buffer
/// stops covering rows.
pub open spec fn row_unclamped(ls: Seq<Seq<char>>, b: int) -> int {
    let n = ls.len() as int;
    let big = row_search(ls, b, n);
    if start_of(ls, big) == b {
        big
    } else if big >= n {
        n
    } else if big == n - 1 && b - start_of(ls, big) >= bytes_len(ls[big]) {
        n
    } else {
        big
    }
}

pub proof fn lemma_row_search(ls: Seq<Seq<char>>, b: int, hi: int)
    requires
        0 <= hi,
        0 <= b,
    ensures
        0 <= row_search(ls, b, hi) <= hi,
        start_of(ls, row_search(ls, b, hi)) <= b,
        forall|r: int| row_search(ls, b, hi) < r <= hi ==> start_of(ls, r) > b,
    decreases hi,
{
    if hi > 0 && start_of(ls, hi) > b {
        lemma_row_search(ls, b, hi - 1);
    }
}

/// The byte offset of every row plus the sentinel, as computed once per parse.
pub open spec fn starts_ok(ls: Seq<Seq<char>>, starts: Seq<usize>) -> bool {
    &&& starts.len() == ls.len() + 1
    &&& forall|r: int| #![trigger starts[r]] 0 <= r <= ls.len() ==> starts[r] == start_of(ls, r)
}

/// Byte length of every line.
pub open spec fn blens_ok(ls: Seq<Seq<char>>, blens: Seq<usize>) -> bool {
    &&& blens.len() == ls.len()
    &&& forall|r: int| #![trigger blens[r]] 0 <= r < ls.len() ==> blens[r] == bytes_len(ls[r])
}

/// Byte length of `s`.
pub fn byte_len_of(s: &Vec<char>) -> (n: usize)
    requires
        bytes_len(s@) <= usize::MAX,
    ensures
        n == bytes_len(s@),
{
    let mut n: usize = 0;
    let mut i: usize = 0;
    while i < s.len()
        invariant
            0 <= i <= s@.len(),
            n == bytes_len(s@.take(i as int)),
            bytes_len(s@) <= usize::MAX,
        decreases s.len() - i,
    {
        proof {
            crate::text::lemma_bytes_len_mono(s@, i + 1, s@.len() as int);
            assert(s@.take(i + 1) == s@.take(i as int).push(s@[i as int]));
            lemma_bytes_len_push(s@.take(i as int), s@[i as int]);
            assert(s@.take(s@.len() as int) == s@);
        }
        n = n + char_utf8_len(s[i]);
        i += 1;
    }
    assert(s@.take(s@.len() as int) == s@);
    n
}

/// Largest `r <= hi` with `starts[r] <= b`, by binary search over the
/// strictly increasing offsets.
pub fn search_row(starts: &Vec<usize>, ls: Ghost<Seq<Seq<char>>>, b: usize) -> (r: usize)
    requires
        starts_ok(ls@, starts@),
    ensures
        r == row_search(ls@, b as int, ls@.len() as int),
{
    let ghost n = ls@.len() as int;
    let mut lo: usize = 0;
    let mut hi: usize = starts.len() - 1;
    proof {
        lemma_row_search(ls@, b as int, n);
    }
    // Invariant: the answer lies in [lo, hi].
    while lo < hi
        invariant
            starts_ok(ls@, starts@),
            0 <= lo <= hi <= n,
            hi < starts@.len(),
            lo <= row_search(ls@, b as int, n) <= hi,
        decreases hi - lo,
    {
        let mid = lo + (hi - lo) / 2 + 1;
        proof {
            lemma_row_search(ls@, b as int, n);
        }
        if starts[mid] <= b {
            proof {
                let rs = row_search(ls@, b as int, n);
                if rs < mid {
                    assert(start_of(ls@, mid as int) > b);
                }
            }
            lo = mid;
        } else {
            proof {
                let rs = row_search(ls@, b as int, n);
                if rs >= mid {
                    lemma_start_of_mono(ls@, mid as int, rs);
                }
            }
            hi = mid - 1;
        }
    }
    lo
}

} // verus!
