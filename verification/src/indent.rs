//! Indenting and dedenting whole rows: which rows a selection or the cursor
//! covers, what one step adds or removes on each, and where the selection or
//! the cursor lands afterwards so it stays over the same text.
use vstd::prelude::*;
use crate::text::{chars_of, string_from_chars};

verus! {

/// Where the caret stands: an ordered selection from `(start_row,
/// start_col)` to `(end_row, end_col)`, or a bare cursor at `(row, col)`.
/// Columns count chars.
#[derive(Debug, Clone, Copy, PartialEq, Eq, Structural)]
pub enum Caret {
    Selection(usize, usize, usize, usize),
    Cursor(usize, usize),
}

/// What indenting or dedenting did: the rows afterwards, the caret moved
/// with its text, and whether any row changed.
#[derive(Debug, Clone)]
pub struct IndentOutcome {
    pub lines: Vec<String>,
    pub caret: Caret,
    pub changed: bool,
}

/// One indent step: a tab under hard-tab indent, else `width` spaces.
pub open spec fn indent_step(width: nat, hard_tab: bool) -> Seq<char> {
    if hard_tab {
        seq!['\t']
    } else {
        Seq::new(width, |i: int| ' ')
    }
}

/// The chars a dedent removes from `line`, scanning from `i`: up to `max`
/// leading chars, a tab ending the run, spaces only without hard tabs.
pub open spec fn dedent_from(line: Seq<char>, i: int, max: int, hard_tab: bool) -> nat
    decreases max - i,
{
    if i < 0 || i >= max || i >= line.len() {
        0
    } else if line[i] == '\t' {
        1
    } else if line[i] == ' ' && !hard_tab {
        1 + dedent_from(line, i + 1, max, hard_tab)
    } else {
        0
    }
}

/// The chars one dedent step removes from the start of `line`.
pub open spec fn dedent_count(line: Seq<char>, width: nat, hard_tab: bool) -> nat {
    dedent_from(line, 0, if hard_tab { 1 } else { width as int }, hard_tab)
}

/// `line` after one step of indent or dedent.
pub open spec fn stepped_line(line: Seq<char>, width: nat, hard_tab: bool, dedent: bool) -> Seq<char> {
    if dedent {
        line.skip(dedent_count(line, width, hard_tab) as int)
    } else {
        indent_step(width, hard_tab) + line
    }
}

/// How far `line`'s text moves: minus the chars removed, or plus a step.
pub open spec fn row_delta(line: Seq<char>, width: nat, hard_tab: bool, dedent: bool) -> int {
    if dedent {
        -(dedent_count(line, width, hard_tab) as int)
    } else {
        indent_step(width, hard_tab).len() as int
    }
}

/// The rows a caret covers: a selection's rows, less its last row when it
/// ends at column 0 of a later row; the cursor's own row.
pub open spec fn covered_rows(caret: Caret) -> (int, int) {
    match caret {
        Caret::Selection(sr, _, er, ec) => (sr as int, if ec == 0 && er > sr { er - 1 } else { er as int }),
        Caret::Cursor(r, _) => (r as int, r as int),
    }
}

/// `col` moved by `delta`, stopping at 0.
pub open spec fn shift_col(col: int, delta: int) -> int {
    if col + delta < 0 {
        0
    } else {
        col + delta
    }
}

/// Column `col` of `row` after the covered rows were stepped.
pub open spec fn moved_col(lines: Seq<Seq<char>>, caret: Caret, row: int, col: int, width: nat, hard_tab: bool, dedent: bool) -> int {
    let (lo, hi) = covered_rows(caret);
    if lo <= row <= hi {
        shift_col(col, row_delta(lines[row], width, hard_tab, dedent))
    } else {
        col
    }
}

/// The caret after the covered rows were stepped.
pub open spec fn moved_caret(lines: Seq<Seq<char>>, caret: Caret, width: nat, hard_tab: bool, dedent: bool) -> Caret {
    match caret {
        Caret::Selection(sr, sc, er, ec) => Caret::Selection(
            sr,
            moved_col(lines, caret, sr as int, sc as int, width, hard_tab, dedent) as usize,
            er,
            moved_col(lines, caret, er as int, ec as int, width, hard_tab, dedent) as usize,
        ),
        Caret::Cursor(r, c) => Caret::Cursor(r, moved_col(lines, caret, r as int, c as int, width, hard_tab, dedent) as usize),
    }
}

/// The rows after stepping the covered ones.
pub open spec fn stepped_lines(lines: Seq<Seq<char>>, caret: Caret, width: nat, hard_tab: bool, dedent: bool) -> Seq<Seq<char>> {
    let (lo, hi) = covered_rows(caret);
    Seq::new(
        lines.len(),
        |r: int|
            if lo <= r <= hi {
                stepped_line(lines[r], width, hard_tab, dedent)
            } else {
                lines[r]
            },
    )
}

/// Whether stepping changes any row: indenting always does, dedenting when
/// some covered row has something to remove.
pub open spec fn steps_change(lines: Seq<Seq<char>>, caret: Caret, width: nat, hard_tab: bool, dedent: bool) -> bool {
    let (lo, hi) = covered_rows(caret);
    &&& lo <= hi
    &&& (!dedent || exists|r: int| lo <= r <= hi && dedent_count(#[trigger] lines[r], width, hard_tab) > 0)
}

/// The chars of each row.
pub open spec fn rows_view(lines: Seq<String>) -> Seq<Seq<char>> {
    lines.map_values(|s: String| s@)
}

/// The caret's columns, each with a step's room above it.
pub open spec fn caret_fits(caret: Caret, step: int) -> bool {
    match caret {
        Caret::Selection(_, sc, _, ec) => sc + step <= usize::MAX && ec + step <= usize::MAX,
        Caret::Cursor(_, c) => c + step <= usize::MAX,
    }
}

fn step_chars(width: usize, hard_tab: bool) -> (s: Vec<char>)
    ensures
        s@ == indent_step(width as nat, hard_tab),
{
    let mut s: Vec<char> = Vec::new();
    if hard_tab {
        s.push('\t');
        assert(s@ =~= indent_step(width as nat, hard_tab));
        return s;
    }
    let mut i: usize = 0;
    while i < width
        invariant
            i <= width,
            !hard_tab,
            s@ == Seq::new(i as nat, |k: int| ' '),
        decreases width - i,
    {
        s.push(' ');
        i += 1;
        assert(s@ =~= Seq::new(i as nat, |k: int| ' '));
    }
    s
}

proof fn lemma_dedent_from_bound(line: Seq<char>, i: int, max: int, hard_tab: bool)
    requires
        0 <= i,
    ensures
        dedent_from(line, i, max, hard_tab) <= (if max - i > 0 { max - i } else { 0 }),
    decreases max - i,
{
    if i < max && i < line.len() && line[i] == ' ' && !hard_tab {
        lemma_dedent_from_bound(line, i + 1, max, hard_tab);
    }
}

/// The chars a dedent step removes from `line`, at most `max`.
pub(crate) fn dedent_count_exec(line: &Vec<char>, max: usize, hard_tab: bool) -> (n: usize)
    ensures
        n == dedent_from(line@, 0, max as int, hard_tab),
        n <= line@.len(),
{
    let mut i: usize = 0;
    while i < max && i < line.len()
        invariant
            i <= line@.len(),
            i <= max,
            dedent_from(line@, 0, max as int, hard_tab) == i + dedent_from(line@, i as int, max as int, hard_tab),
        decreases max - i,
    {
        if line[i] == '\t' {
            return i + 1;
        } else if line[i] == ' ' && !hard_tab {
            i += 1;
        } else {
            return i;
        }
    }
    i
}

/// Indents (or, with `dedent`, dedents) every row the caret covers by one
/// step, `indent_width` spaces or a tab under `hard_tab`; a dedent removes
/// up to one step of leading spaces, or a single tab. The caret moves with
/// its text, a column never going below 0. With no step to take (zero width,
/// no hard tab) nothing changes.
pub fn indent_lines(lines: &[String], caret: Caret, indent_width: usize, hard_tab: bool, dedent: bool) -> (out: IndentOutcome)
    requires
        ({
            let (lo, hi) = covered_rows(caret);
            lo <= hi ==> hi < lines@.len()
        }),
        !dedent ==> caret_fits(caret, indent_step(indent_width as nat, hard_tab).len() as int),
        !dedent ==> forall|r: int|
            0 <= r < lines@.len() ==> #[trigger] lines@[r]@.len() + indent_step(indent_width as nat, hard_tab).len() <= usize::MAX,
    ensures
        indent_step(indent_width as nat, hard_tab).len() == 0 ==> {
            &&& rows_view(out.lines@) == rows_view(lines@)
            &&& out.caret == caret
            &&& !out.changed
        },
        indent_step(indent_width as nat, hard_tab).len() > 0 ==> {
            &&& rows_view(out.lines@) == stepped_lines(rows_view(lines@), caret, indent_width as nat, hard_tab, dedent)
            &&& out.caret == moved_caret(rows_view(lines@), caret, indent_width as nat, hard_tab, dedent)
            &&& out.changed == steps_change(rows_view(lines@), caret, indent_width as nat, hard_tab, dedent)
        },
{
    let ghost lv = rows_view(lines@);
    let ghost w = indent_width as nat;
    let step = step_chars(indent_width, hard_tab);
    let (lo, hi) = match caret {
        Caret::Selection(sr, _, er, ec) => (sr, if ec == 0 && er > sr { er - 1 } else { er }),
        Caret::Cursor(r, _) => (r, r),
    };
    assert((lo as int, hi as int) == covered_rows(caret));
    let max = if hard_tab { 1 } else { indent_width };
    let mut out: Vec<String> = Vec::new();
    let mut deltas: Vec<(usize, bool)> = Vec::new();
    let mut changed = false;
    let mut r: usize = 0;
    while r < lines.len()
        invariant
            r <= lines@.len(),
            lv == rows_view(lines@),
            w == indent_width as nat,
            step@ == indent_step(w, hard_tab),
            (lo as int, hi as int) == covered_rows(caret),
            lo <= hi ==> hi < lines@.len(),
            max as int == (if hard_tab { 1 } else { indent_width as int }),
            !dedent ==> forall|q: int|
                0 <= q < lines@.len() ==> #[trigger] lines@[q]@.len() + indent_step(indent_width as nat, hard_tab).len() <= usize::MAX,
            out@.len() == r,
            deltas@.len() == r,
            forall|q: int| 0 <= q < r ==> (#[trigger] out@[q])@ == (if lo <= q <= hi {
                stepped_line(lv[q], w, hard_tab, dedent)
            } else {
                lv[q]
            }),
            forall|q: int| 0 <= q < r ==> #[trigger] deltas@[q] == (if lo <= q <= hi {
                (if dedent { dedent_count(lv[q], w, hard_tab) as usize } else { step@.len() as usize }, dedent)
            } else {
                (0usize, false)
            }),
            changed == (lo <= hi && lo < r && (!dedent || exists|q: int|
                lo <= q <= hi && q < r && dedent_count(#[trigger] lv[q], w, hard_tab) > 0)),
        decreases lines.len() - r,
    {
        assert(lv[r as int] == lines@[r as int]@);
        let ghost hit = lo <= r && r <= hi && dedent_count(lv[r as int], w, hard_tab) > 0;
        if lo <= r && r <= hi {
            let cs = chars_of(lines[r].as_str());
            if dedent {
                let n = dedent_count_exec(&cs, max, hard_tab);
                let mut rest: Vec<char> = Vec::new();
                let mut k: usize = n;
                while k < cs.len()
                    invariant
                        n <= k <= cs@.len(),
                        rest@ == cs@.subrange(n as int, k as int),
                    decreases cs.len() - k,
                {
                    rest.push(cs[k]);
                    k += 1;
                    assert(rest@ =~= cs@.subrange(n as int, k as int));
                }
                assert(rest@ =~= cs@.skip(n as int));
                out.push(string_from_chars(&rest));
                deltas.push((n, true));
                if n > 0 {
                    changed = true;
                }
            } else {
                let mut all: Vec<char> = Vec::new();
                let mut k: usize = 0;
                while k < step.len()
                    invariant
                        k <= step@.len(),
                        all@ == step@.take(k as int),
                    decreases step.len() - k,
                {
                    all.push(step[k]);
                    k += 1;
                    assert(all@ =~= step@.take(k as int));
                }
                let mut j: usize = 0;
                while j < cs.len()
                    invariant
                        j <= cs@.len(),
                        k == step@.len(),
                        step@.len() + cs@.len() <= usize::MAX,
                        all@ == step@ + cs@.take(j as int),
                    decreases cs.len() - j,
                {
                    all.push(cs[j]);
                    j += 1;
                    assert(all@ =~= step@ + cs@.take(j as int));
                }
                assert(all@ =~= step@ + cs@);
                out.push(string_from_chars(&all));
                deltas.push((step.len(), false));
                changed = true;
            }
        } else {
            out.push(lines[r].clone());
            deltas.push((0, false));
        }
        proof {
            if dedent && hit {
                assert(lo <= r <= hi && r < r + 1 && dedent_count(lv[r as int], w, hard_tab) > 0);
            }
        }
        r += 1;
    }
    assert(rows_view(out@) =~= stepped_lines(lv, caret, w, hard_tab, dedent));
    if step.len() == 0 {
        assert(rows_view(out@) =~= lv) by {
            assert forall|q: int| 0 <= q < lv.len() implies rows_view(out@)[q] == lv[q] by {
                if covered_rows(caret).0 <= q <= covered_rows(caret).1 {
                    assert(!hard_tab && w == 0);
                    if dedent {
                        assert(dedent_from(lv[q], 0, 0, hard_tab) == 0);
                        assert(lv[q].skip(0) =~= lv[q]);
                    } else {
                        assert(indent_step(w, hard_tab) + lv[q] =~= lv[q]);
                    }
                }
            }
        }
        return IndentOutcome { lines: out, caret, changed: false };
    }
    let moved = match caret {
        Caret::Selection(sr, sc, er, ec) => Caret::Selection(
            sr,
            move_col(&deltas, sr, sc, Ghost(lv), caret, Ghost(w), hard_tab, dedent),
            er,
            move_col(&deltas, er, ec, Ghost(lv), caret, Ghost(w), hard_tab, dedent),
        ),
        Caret::Cursor(cr, cc) => Caret::Cursor(cr, move_col(&deltas, cr, cc, Ghost(lv), caret, Ghost(w), hard_tab, dedent)),
    };
    IndentOutcome { lines: out, caret: moved, changed }
}

/// Column `col` of `row` moved by that row's recorded delta.
fn move_col(
    deltas: &Vec<(usize, bool)>,
    row: usize,
    col: usize,
    Ghost(lv): Ghost<Seq<Seq<char>>>,
    caret: Caret,
    Ghost(w): Ghost<nat>,
    hard_tab: bool,
    dedent: bool,
) -> (c: usize)
    requires
        deltas@.len() == lv.len(),
        indent_step(w, hard_tab).len() > 0,
        forall|q: int| 0 <= q < lv.len() ==> #[trigger] deltas@[q] == (if covered_rows(caret).0 <= q <= covered_rows(caret).1 {
            (if dedent { dedent_count(lv[q], w, hard_tab) as usize } else { indent_step(w, hard_tab).len() as usize }, dedent)
        } else {
            (0usize, false)
        }),
        ({
            let (lo, hi) = covered_rows(caret);
            lo <= row <= hi ==> row < lv.len()
        }),
        !dedent ==> col + indent_step(w, hard_tab).len() <= usize::MAX,
        w <= usize::MAX,
    ensures
        c == moved_col(lv, caret, row as int, col as int, w, hard_tab, dedent),
{
    if row >= deltas.len() {
        return col;
    }
    let (d, neg) = deltas[row];
    proof {
        let (lo, hi) = covered_rows(caret);
        if lo <= row <= hi && dedent {
            lemma_dedent_from_bound(lv[row as int], 0, if hard_tab { 1 } else { w as int }, hard_tab);
        }
    }
    if neg {
        if col >= d { col - d } else { 0 }
    } else {
        col + d
    }
}

proof fn lemma_dedent_of_spaces(line: Seq<char>, i: int, w: int)
    requires
        0 <= i <= w,
        w <= line.len(),
        forall|k: int| 0 <= k < w ==> line[k] == ' ',
    ensures
        dedent_from(line, i, w, false) == w - i,
    decreases w - i,
{
    if i < w {
        lemma_dedent_of_spaces(line, i + 1, w);
    }
}

/// Dedenting undoes indenting: one indent step over the rows a caret covers,
/// then one dedent step with the caret where the indent left it, gives back
/// the rows and the caret as they were.
pub proof fn law_dedent_undoes_indent(lines: Seq<Seq<char>>, caret: Caret, width: nat, hard_tab: bool)
    requires
        indent_step(width, hard_tab).len() > 0,
        ({
            let (lo, hi) = covered_rows(caret);
            lo <= hi ==> hi < lines.len()
        }),
        caret_fits(caret, indent_step(width, hard_tab).len() as int),
    ensures
        ({
            let indented = stepped_lines(lines, caret, width, hard_tab, false);
            let moved = moved_caret(lines, caret, width, hard_tab, false);
            &&& stepped_lines(indented, moved, width, hard_tab, true) == lines
            &&& moved_caret(indented, moved, width, hard_tab, true) == caret
        }),
{
    let step = indent_step(width, hard_tab);
    let indented = stepped_lines(lines, caret, width, hard_tab, false);
    let moved = moved_caret(lines, caret, width, hard_tab, false);
    let (lo, hi) = covered_rows(caret);
    match caret {
        Caret::Selection(sr, sc, er, ec) => {
            if lo <= er <= hi {
                assert(moved->2 == er && moved->3 == ec + step.len());
            } else {
                assert(moved->3 == ec);
            }
        },
        Caret::Cursor(r, c) => {},
    }
    assert(covered_rows(moved) == covered_rows(caret));
    assert forall|r: int| lo <= r <= hi && 0 <= r < lines.len() implies
        dedent_count(#[trigger] indented[r], width, hard_tab) == step.len() by {
        let l = indented[r];
        assert(l == step + lines[r]);
        if hard_tab {
            assert(l[0] == '\t');
        } else {
            lemma_dedent_of_spaces(l, 0, width as int);
        }
    }
    assert forall|r: int| 0 <= r < lines.len() implies #[trigger] stepped_lines(indented, moved, width, hard_tab, true)[r] == lines[r] by {
        if lo <= r <= hi {
            assert(indented[r].skip(step.len() as int) =~= lines[r]);
        }
    }
    assert(stepped_lines(indented, moved, width, hard_tab, true) =~= lines);
}

} // verus!
