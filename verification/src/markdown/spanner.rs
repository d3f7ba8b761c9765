//! Column mappings of the sigil-concealing view of one line.
//!
//! The view draws a markdown line with its sigils hidden, except the sigils
//! of the element under the caret, the heading and list markers, and (on the
//! caret's row) the blockquote markers; image links draw as placeholders;
//! horizontal rules draw as a full-width bar. These functions translate
//! between logical char columns and the rendered screen columns of that
//! view, walking the line's grapheme clusters.
use vstd::prelude::*;
use crate::markdown::parsed_buffer::{no_marks, parse_line_out};
use crate::markdown::post::LineOut;
use crate::markdown::{
    ParsedLine, cluster_width_at, cluster_width_at_spec, clusters, grapheme_clusters,
    lemma_flatten_len,
};
use crate::text::{bytes_len, chars_of, trim, trim_bounds};

verus! {

/// The span mappings of the markdown view.
pub struct MarkdownSpanner;

/// `a + b`, saturated at `usize::MAX`.
pub open spec fn sat_add(a: int, b: int) -> int {
    if a + b > usize::MAX {
        usize::MAX as int
    } else {
        a + b
    }
}

/// A horizontal rule: `---`, `***` or `___` once trimmed.
pub open spec fn is_rule(line: Seq<char>) -> bool {
    let t = trim(line);
    t == seq!['-', '-', '-'] || t == seq!['*', '*', '*'] || t == seq!['_', '_', '_']
}

/// What is revealed on a row: the element under the caret, the blockquote
/// marker region, or the whole row.
pub struct Reveal {
    pub expanded: Option<usize>,
    pub bq_end: Option<usize>,
    pub whole: bool,
}

pub open spec fn in_elem(pl: LineOut, i: usize, pos: int) -> bool {
    i < pl.elements.len() && pl.elements[i as int].start_char <= pos < pl.elements[i as int].end_char
}

pub open spec fn below_end(e: Option<usize>, pos: int) -> bool {
    e is Some && pos < e.unwrap()
}

/// Whether the char at `pos` is drawn.
pub open spec fn shown(pl: LineOut, pos: int, rv: Reveal) -> bool {
    ||| (pos < pl.content_vis.len() && pl.content_vis[pos])
    ||| below_end(pl.heading_sigil_end(), pos)
    ||| below_end(pl.list_sigil_end, pos)
    ||| below_end(rv.bq_end, pos)
    ||| (rv.expanded is Some && in_elem(pl, rv.expanded.unwrap(), pos))
    ||| rv.whole
    ||| !pl.in_any_element(pos)
}

/// The element under caret column `cursor`, if any.
pub open spec fn expanded_at(pl: LineOut, cursor: Option<usize>) -> Option<usize> {
    match cursor {
        Some(c) => pl.elem_at(c as int),
        None => None,
    }
}

/// Per-char visibility before the whole-row reveal.
pub open spec fn raw_mask(line: Seq<char>, pl: LineOut, cursor: Option<usize>, force_raw: bool) -> Seq<bool> {
    let total = line.len();
    if total == 0 {
        Seq::empty()
    } else if force_raw || is_rule(line) {
        Seq::new(total, |p: int| true)
    } else {
        let rv = Reveal {
            expanded: expanded_at(pl, cursor),
            bq_end: if cursor is Some {
                pl.blockquote_sigil_end()
            } else {
                None
            },
            whole: false,
        };
        Seq::new(total, |p: int| shown(pl, p, rv))
    }
}

/// A non-empty mask with nothing drawn.
pub open spec fn draws_nothing(v: Seq<bool>) -> bool {
    v.len() > 0 && forall|i: int| 0 <= i < v.len() ==> !v[i]
}

/// The caret's row reveals in full when element-wise reveal would draw
/// nothing of it.
pub open spec fn reveals_whole(line: Seq<char>, pl: LineOut, cursor: Option<usize>, force_raw: bool) -> bool {
    cursor is Some && draws_nothing(raw_mask(line, pl, cursor, force_raw))
}

/// Per-char visibility of the row.
pub open spec fn visible_mask(line: Seq<char>, pl: LineOut, cursor: Option<usize>, force_raw: bool) -> Seq<bool> {
    if reveals_whole(line, pl, cursor, force_raw) {
        Seq::new(line.len(), |p: int| true)
    } else {
        raw_mask(line, pl, cursor, force_raw)
    }
}

/// Index of the first placeholder starting at `pos`.
pub open spec fn first_img(imgs: Seq<(usize, usize, Seq<char>, nat)>, pos: int) -> Option<int>
    decreases imgs.len(),
{
    if imgs.len() == 0 {
        None
    } else if imgs[0].0 == pos {
        Some(0)
    } else {
        match first_img(imgs.drop_first(), pos) {
            Some(j) => Some(j + 1),
            None => None,
        }
    }
}

/// Columns an image placeholder starting at `pos` adds: its width, unless
/// the caret's element is that image (then the source draws instead).
pub open spec fn img_cols(pl: LineOut, pos: int, expanded: Option<usize>) -> int {
    match first_img(pl.images, pos) {
        Some(j) => {
            let img = pl.images[j];
            let in_img = expanded is Some && expanded.unwrap() < pl.elements.len()
                && pl.elements[expanded.unwrap() as int].start_char == img.0
                && pl.elements[expanded.unwrap() as int].end_char == img.1;
            if in_img {
                0
            } else {
                img.3 as int
            }
        },
        None => 0,
    }
}

/// Rendered column reached walking clusters `cs` (the first starting at char
/// `pos`, rendered column `col`) up to char `end`, skipping chars before `vs`.
pub open spec fn col_walk(cs: Seq<Seq<char>>, pl: LineOut, rv: Reveal, vs: int, end: int, pos: int, col: int) -> int
    decreases cs.len(),
{
    if cs.len() == 0 || pos >= end {
        col
    } else {
        let next = pos + cs[0].len();
        if pos < vs {
            col_walk(cs.drop_first(), pl, rv, vs, end, next, col)
        } else {
            let c1 = sat_add(col, img_cols(pl, pos, rv.expanded));
            let c2 = if shown(pl, pos, rv) {
                sat_add(c1, cluster_width_at_spec(cs[0], c1) as int)
            } else {
                c1
            };
            col_walk(cs.drop_first(), pl, rv, vs, end, next, c2)
        }
    }
}

/// The same walk with every cluster drawn (tabs expanded).
pub open spec fn raw_col_walk(cs: Seq<Seq<char>>, vs: int, end: int, pos: int, col: int) -> int
    decreases cs.len(),
{
    if cs.len() == 0 || pos >= end {
        col
    } else {
        let next = pos + cs[0].len();
        if pos < vs {
            raw_col_walk(cs.drop_first(), vs, end, next, col)
        } else {
            raw_col_walk(cs.drop_first(), vs, end, next, sat_add(col, cluster_width_at_spec(cs[0], col) as int))
        }
    }
}

/// The reveal that a measurement with caret `reveal` on the row sees.
pub open spec fn reveal_for(line: Seq<char>, pl: LineOut, reveal: Option<usize>, first: bool) -> Reveal {
    Reveal {
        expanded: expanded_at(pl, reveal),
        bq_end: if first {
            pl.blockquote_sigil_end()
        } else {
            None
        },
        whole: reveals_whole(line, pl, reveal, false),
    }
}

/// Rendered column of logical column `cursor`, the caret at `reveal`.
pub open spec fn rendered_col_spec(
    line: Seq<char>,
    pl: LineOut,
    vs: int,
    cursor: int,
    reveal: Option<usize>,
    first: bool,
    force_raw: bool,
) -> int {
    let cs = grapheme_clusters(line);
    if force_raw {
        raw_col_walk(cs, vs, cursor, 0, 0)
    } else if first && is_rule(line) {
        if cursor >= vs {
            cursor - vs
        } else {
            0
        }
    } else {
        let end = if cursor < line.len() {
            cursor
        } else {
            line.len() as int
        };
        col_walk(cs, pl, reveal_for(line, pl, reveal, first), vs, end, 0, 0)
    }
}

/// Logical column of the cell at rendered column `target` (every cluster
/// drawn); the line length past the end.
pub open spec fn raw_inv_walk(cs: Seq<Seq<char>>, vs: int, target: int, pos: int, col: int) -> int
    decreases cs.len(),
{
    if cs.len() == 0 {
        pos
    } else {
        let next = pos + cs[0].len();
        if pos < vs {
            raw_inv_walk(cs.drop_first(), vs, target, next, col)
        } else if col >= target {
            pos
        } else {
            raw_inv_walk(cs.drop_first(), vs, target, next, sat_add(col, cluster_width_at_spec(cs[0], col) as int))
        }
    }
}

/// Logical column of the cell at rendered column `target`: a cell inside a
/// placeholder maps to the image's start, an undrawn char belongs to the
/// drawn one after it; `len` past the end.
pub open spec fn inv_walk(
    cs: Seq<Seq<char>>,
    pl: LineOut,
    rv: Reveal,
    vs: int,
    target: int,
    len: int,
    pos: int,
    count: int,
) -> int
    decreases cs.len(),
{
    if cs.len() == 0 {
        len
    } else {
        let next = pos + cs[0].len();
        if pos < vs {
            inv_walk(cs.drop_first(), pl, rv, vs, target, len, next, count)
        } else {
            let w = match first_img(pl.images, pos) {
                Some(j) => Some(pl.images[j].3 as int),
                None => None,
            };
            if w is Some && count + w.unwrap() > target {
                pos
            } else {
                let c1 = if w is Some {
                    sat_add(count, w.unwrap())
                } else {
                    count
                };
                if shown(pl, pos, rv) {
                    if c1 >= target {
                        pos
                    } else {
                        inv_walk(
                            cs.drop_first(),
                            pl,
                            rv,
                            vs,
                            target,
                            len,
                            next,
                            sat_add(c1, cluster_width_at_spec(cs[0], c1) as int),
                        )
                    }
                } else {
                    inv_walk(cs.drop_first(), pl, rv, vs, target, len, next, c1)
                }
            }
        }
    }
}

/// Logical column of rendered column `target`, the caret at `reveal`.
pub open spec fn logical_col_spec(
    line: Seq<char>,
    pl: LineOut,
    vs: int,
    target: int,
    reveal: Option<usize>,
    first: bool,
    force_raw: bool,
) -> int {
    let cs = grapheme_clusters(line);
    if force_raw {
        raw_inv_walk(cs, vs, target, 0, 0)
    } else if first && is_rule(line) {
        sat_add(vs, target)
    } else {
        inv_walk(cs, pl, reveal_for(line, pl, reveal, first), vs, target, line.len() as int, 0, 0)
    }
}

// ---------------------------------------------------------------------------

/// Whether `line` is a horizontal rule.
pub(crate) fn is_rule_exec(line: &Vec<char>) -> (b: bool)
    ensures
        b == is_rule(line@),
{
    let (a, e) = trim_bounds(line);
    let ghost t = line@.subrange(a as int, e as int);
    if e - a != 3 {
        assert(t.len() != 3);
        assert(!(t == seq!['-', '-', '-']));
        assert(!(t == seq!['*', '*', '*']));
        assert(!(t == seq!['_', '_', '_']));
        return false;
    }
    let c0 = line[a];
    let c1 = line[a + 1];
    let c2 = line[a + 2];
    assert(t[0] == c0 && t[1] == c1 && t[2] == c2);
    let r = (c0 == '-' && c1 == '-' && c2 == '-') || (c0 == '*' && c1 == '*' && c2 == '*') || (c0 == '_'
        && c1 == '_' && c2 == '_');
    if r {
        if c0 == '-' {
            assert(t =~= seq!['-', '-', '-']);
        } else if c0 == '*' {
            assert(t =~= seq!['*', '*', '*']);
        } else {
            assert(t =~= seq!['_', '_', '_']);
        }
    } else {
        assert(!(t == seq!['-', '-', '-']) && !(t == seq!['*', '*', '*']) && !(t == seq!['_', '_', '_'])) by {
            if t == seq!['-', '-', '-'] {
                assert(t[0] == '-' && t[1] == '-' && t[2] == '-');
            }
            if t == seq!['*', '*', '*'] {
                assert(t[0] == '*' && t[1] == '*' && t[2] == '*');
            }
            if t == seq!['_', '_', '_'] {
                assert(t[0] == '_' && t[1] == '_' && t[2] == '_');
            }
        }
    }
    r
}

/// Index of the first placeholder starting at `pos`.
pub(crate) fn first_img_exec(pl: &ParsedLine, pos: usize) -> (r: Option<usize>)
    ensures
        match r {
            Some(j) => first_img(pl@.images, pos as int) == Some(j as int) && j < pl.image_placeholders@.len(),
            None => first_img(pl@.images, pos as int) is None,
        },
{
    let ghost s = pl@.images;
    let mut i: usize = 0;
    assert(s.skip(0) == s);
    while i < pl.image_placeholders.len()
        invariant
            i <= s.len(),
            s == pl@.images,
            s.len() == pl.image_placeholders@.len(),
            first_img(s, pos as int) == (match first_img(s.skip(i as int), pos as int) {
                Some(j) => Some(j + i),
                None => None,
            }),
        decreases s.len() - i,
    {
        assert(s.skip(i as int)[0] == s[i as int]);
        assert(s[i as int].0 == pl.image_placeholders@[i as int].start_char);
        if pl.image_placeholders[i].start_char == pos {
            return Some(i);
        }
        assert(s.skip(i as int).drop_first() == s.skip(i + 1));
        i += 1;
    }
    None
}

/// Whether the char at `pos` is drawn; `hse` is the row's heading sigil end.
fn shown_exec(
    pl: &ParsedLine,
    pos: usize,
    hse: Option<usize>,
    expanded: Option<usize>,
    bq_end: Option<usize>,
    whole: bool,
) -> (b: bool)
    requires
        hse == pl.heading_sigil_end_spec(),
    ensures
        b == shown(pl@, pos as int, Reveal { expanded, bq_end, whole }),
{
    let is_content = pos < pl.content_vis.len() && pl.content_vis[pos];
    let in_heading = match hse {
        Some(e) => pos < e,
        None => false,
    };
    let in_list = match pl.list_sigil_end {
        Some(e) => pos < e,
        None => false,
    };
    let in_bq = match bq_end {
        Some(e) => pos < e,
        None => false,
    };
    let in_expanded = match expanded {
        Some(i) => i < pl.elements.len() && pl.elements[i].start_char <= pos && pos < pl.elements[i].end_char,
        None => false,
    };
    is_content || in_heading || in_list || in_bq || in_expanded || whole || !pl.in_any_element(pos)
}

pub(crate) fn expanded_exec(pl: &ParsedLine, cursor: Option<usize>) -> (r: Option<usize>)
    ensures
        r == expanded_at(pl@, cursor),
{
    match cursor {
        Some(c) => pl.elem_at(c),
        None => None,
    }
}

/// A row of `n` copies of `true`.
fn all_true(n: usize) -> (out: Vec<bool>)
    ensures
        out@ == Seq::new(n as nat, |p: int| true),
{
    crate::markdown::walk::bools(n, true)
}

/// Walks the clusters of a row, returning the rendered column of logical
/// column `end`.
fn col_walk_exec(cs: &Vec<Vec<char>>, pl: &ParsedLine, hse: Option<usize>, rv_expanded: Option<usize>, rv_bq: Option<usize>, rv_whole: bool, vs: usize, end: usize, Ghost(line): Ghost<Seq<char>>) -> (col: usize)
    requires
        hse == pl.heading_sigil_end_spec(),
        cs@.map_values(|v: Vec<char>| v@) == grapheme_clusters(line),
        grapheme_clusters(line).flatten() == line,
        line.len() <= usize::MAX,
    ensures
        col == col_walk(
            grapheme_clusters(line),
            pl@,
            Reveal { expanded: rv_expanded, bq_end: rv_bq, whole: rv_whole },
            vs as int,
            end as int,
            0,
            0,
        ),
{
    let ghost g = grapheme_clusters(line);
    let ghost rv = Reveal { expanded: rv_expanded, bq_end: rv_bq, whole: rv_whole };
    let ghost total = col_walk(g, pl@, rv, vs as int, end as int, 0, 0);
    let mut col: usize = 0;
    let mut pos: usize = 0;
    let mut i: usize = 0;
    assert(g.skip(0) == g);
    while i < cs.len()
        invariant
            i <= cs@.len() == g.len(),
            cs@.map_values(|v: Vec<char>| v@) == g,
            hse == pl.heading_sigil_end_spec(),
            rv == (Reveal { expanded: rv_expanded, bq_end: rv_bq, whole: rv_whole }),
            pos + g.skip(i as int).flatten().len() == line.len(),
            line.len() <= usize::MAX,
            col_walk(g.skip(i as int), pl@, rv, vs as int, end as int, pos as int, col as int) == total,
            total == col_walk(g, pl@, rv, vs as int, end as int, 0, 0),
            g == grapheme_clusters(line),
        decreases cs.len() - i,
    {
        let ghost rest = g.skip(i as int);
        assert(rest[0] == cs@[i as int]@);
        assert(rest.drop_first() == g.skip(i + 1));
        assert(rest.flatten() == rest[0] + rest.drop_first().flatten());
        if pos >= end {
            assert(col_walk(rest, pl@, rv, vs as int, end as int, pos as int, col as int) == col);
            return col;
        }
        let c = &cs[i];
        let next = pos + c.len();
        if pos >= vs {
            let extra: usize = match first_img_exec(pl, pos) {
                Some(j) => {
                    let img = &pl.image_placeholders[j];
                    let in_img = match rv_expanded {
                        Some(e) => e < pl.elements.len() && pl.elements[e].start_char == img.start_char
                            && pl.elements[e].end_char == img.end_char,
                        None => false,
                    };
                    if in_img { 0 } else { img.placeholder_width }
                },
                None => 0,
            };
            assert(extra == img_cols(pl@, pos as int, rv_expanded));
            let c1 = col.saturating_add(extra);
            if shown_exec(pl, pos, hse, rv_expanded, rv_bq, rv_whole) {
                let w = cluster_width_at(c.as_slice(), c1);
                col = c1.saturating_add(w);
            } else {
                col = c1;
            }
        }
        pos = next;
        i += 1;
    }
    assert(g.skip(i as int).len() == 0);
    col
}


/// The cluster walk with every cluster drawn.
fn raw_col_walk_exec(cs: &Vec<Vec<char>>, vs: usize, end: usize, Ghost(line): Ghost<Seq<char>>) -> (col: usize)
    requires
        cs@.map_values(|v: Vec<char>| v@) == grapheme_clusters(line),
        grapheme_clusters(line).flatten() == line,
        line.len() <= usize::MAX,
    ensures
        col == raw_col_walk(grapheme_clusters(line), vs as int, end as int, 0, 0),
{
    let ghost g = grapheme_clusters(line);
    let ghost total = raw_col_walk(g, vs as int, end as int, 0, 0);
    let mut col: usize = 0;
    let mut pos: usize = 0;
    let mut i: usize = 0;
    assert(g.skip(0) == g);
    while i < cs.len()
        invariant
            i <= cs@.len() == g.len(),
            g == grapheme_clusters(line),
            cs@.map_values(|v: Vec<char>| v@) == g,
            pos + g.skip(i as int).flatten().len() == line.len(),
            line.len() <= usize::MAX,
            raw_col_walk(g.skip(i as int), vs as int, end as int, pos as int, col as int) == total,
            total == raw_col_walk(g, vs as int, end as int, 0, 0),
        decreases cs.len() - i,
    {
        let ghost rest = g.skip(i as int);
        assert(rest[0] == cs@[i as int]@);
        assert(rest.drop_first() == g.skip(i + 1));
        assert(rest.flatten() == rest[0] + rest.drop_first().flatten());
        if pos >= end {
            assert(raw_col_walk(rest, vs as int, end as int, pos as int, col as int) == col);
            return col;
        }
        let c = &cs[i];
        let next = pos + c.len();
        if pos >= vs {
            let w = cluster_width_at(c.as_slice(), col);
            col = col.saturating_add(w);
        }
        pos = next;
        i += 1;
    }
    col
}

/// The inverse walk with every cluster drawn.
fn raw_inv_walk_exec(cs: &Vec<Vec<char>>, vs: usize, target: usize, Ghost(line): Ghost<Seq<char>>) -> (r: usize)
    requires
        cs@.map_values(|v: Vec<char>| v@) == grapheme_clusters(line),
        grapheme_clusters(line).flatten() == line,
        line.len() <= usize::MAX,
    ensures
        r == raw_inv_walk(grapheme_clusters(line), vs as int, target as int, 0, 0),
{
    let ghost g = grapheme_clusters(line);
    let ghost total = raw_inv_walk(g, vs as int, target as int, 0, 0);
    let mut col: usize = 0;
    let mut pos: usize = 0;
    let mut i: usize = 0;
    assert(g.skip(0) == g);
    while i < cs.len()
        invariant
            i <= cs@.len() == g.len(),
            g == grapheme_clusters(line),
            cs@.map_values(|v: Vec<char>| v@) == g,
            pos + g.skip(i as int).flatten().len() == line.len(),
            line.len() <= usize::MAX,
            raw_inv_walk(g.skip(i as int), vs as int, target as int, pos as int, col as int) == total,
            total == raw_inv_walk(g, vs as int, target as int, 0, 0),
        decreases cs.len() - i,
    {
        let ghost rest = g.skip(i as int);
        assert(rest[0] == cs@[i as int]@);
        assert(rest.drop_first() == g.skip(i + 1));
        assert(rest.flatten() == rest[0] + rest.drop_first().flatten());
        let c = &cs[i];
        let next = pos + c.len();
        if pos >= vs {
            if col >= target {
                return pos;
            }
            let w = cluster_width_at(c.as_slice(), col);
            col = col.saturating_add(w);
        }
        pos = next;
        i += 1;
    }
    assert(g.skip(i as int).len() == 0);
    pos
}

/// The inverse walk of the concealing view.
fn inv_walk_exec(
    cs: &Vec<Vec<char>>,
    pl: &ParsedLine,
    hse: Option<usize>,
    rv_expanded: Option<usize>,
    rv_bq: Option<usize>,
    rv_whole: bool,
    vs: usize,
    target: usize,
    len: usize,
    Ghost(line): Ghost<Seq<char>>,
) -> (r: usize)
    requires
        hse == pl.heading_sigil_end_spec(),
        cs@.map_values(|v: Vec<char>| v@) == grapheme_clusters(line),
        grapheme_clusters(line).flatten() == line,
        line.len() <= usize::MAX,
    ensures
        r == inv_walk(
            grapheme_clusters(line),
            pl@,
            Reveal { expanded: rv_expanded, bq_end: rv_bq, whole: rv_whole },
            vs as int,
            target as int,
            len as int,
            0,
            0,
        ),
{
    let ghost g = grapheme_clusters(line);
    let ghost rv = Reveal { expanded: rv_expanded, bq_end: rv_bq, whole: rv_whole };
    let ghost total = inv_walk(g, pl@, rv, vs as int, target as int, len as int, 0, 0);
    let mut count: usize = 0;
    let mut pos: usize = 0;
    let mut i: usize = 0;
    assert(g.skip(0) == g);
    while i < cs.len()
        invariant
            i <= cs@.len() == g.len(),
            g == grapheme_clusters(line),
            cs@.map_values(|v: Vec<char>| v@) == g,
            hse == pl.heading_sigil_end_spec(),
            rv == (Reveal { expanded: rv_expanded, bq_end: rv_bq, whole: rv_whole }),
            pos + g.skip(i as int).flatten().len() == line.len(),
            line.len() <= usize::MAX,
            inv_walk(g.skip(i as int), pl@, rv, vs as int, target as int, len as int, pos as int, count as int)
                == total,
            total == inv_walk(g, pl@, rv, vs as int, target as int, len as int, 0, 0),
        decreases cs.len() - i,
    {
        let ghost rest = g.skip(i as int);
        assert(rest[0] == cs@[i as int]@);
        assert(rest.drop_first() == g.skip(i + 1));
        assert(rest.flatten() == rest[0] + rest.drop_first().flatten());
        let c = &cs[i];
        let next = pos + c.len();
        if pos >= vs {
            let mut c1 = count;
            match first_img_exec(pl, pos) {
                Some(j) => {
                    let w = pl.image_placeholders[j].placeholder_width;
                    if count > target || w > target - count {
                        return pos;
                    }
                    c1 = count + w;
                },
                None => {},
            }
            if shown_exec(pl, pos, hse, rv_expanded, rv_bq, rv_whole) {
                if c1 >= target {
                    return pos;
                }
                let w = cluster_width_at(c.as_slice(), c1);
                count = c1.saturating_add(w);
            } else {
                count = c1;
            }
        }
        pos = next;
        i += 1;
    }
    assert(g.skip(i as int).len() == 0);
    len
}

impl MarkdownSpanner {
    /// Whether a row's visibility mask would leave it entirely unpainted.
    fn draws_nothing(visible: &Vec<bool>) -> (b: bool)
        ensures
            b == draws_nothing(visible@),
    {
        if visible.len() == 0 {
            return false;
        }
        let mut i: usize = 0;
        while i < visible.len()
            invariant
                i <= visible@.len(),
                forall|k: int| 0 <= k < i ==> !visible@[k],
            decreases visible.len() - i,
        {
            if visible[i] {
                return false;
            }
            i += 1;
        }
        true
    }

    /// Whether the caret's own row reveals in full rather than element-wise:
    /// a caret row must never be invisible.
    pub(crate) fn row_reveals_whole(
        logical_line: &str,
        parsed: &ParsedLine,
        cursor_col: Option<usize>,
        force_raw: bool,
    ) -> (b: bool)
        ensures
            b == reveals_whole(logical_line@, parsed@, cursor_col, force_raw),
    {
        cursor_col.is_some() && Self::draws_nothing(
            &Self::visible_positions_raw(logical_line, parsed, cursor_col, force_raw),
        )
    }

    /// Per-char visibility before the whole-row reveal.
    fn visible_positions_raw(
        logical_line: &str,
        parsed: &ParsedLine,
        cursor_col: Option<usize>,
        force_raw: bool,
    ) -> (out: Vec<bool>)
        ensures
            out@ == raw_mask(logical_line@, parsed@, cursor_col, force_raw),
    {
        let line = chars_of(logical_line);
        let pl = parsed;
        let cursor = cursor_col;
        let total = line.len();
        if total == 0 {
            let out: Vec<bool> = Vec::new();
            assert(out@ =~= raw_mask(line@, pl@, cursor, force_raw));
            return out;
        }
        if force_raw || is_rule_exec(&line) {
            return all_true(total);
        }
        let expanded = expanded_exec(pl, cursor);
        let hse = pl.heading_sigil_end();
        let bq_end = if cursor.is_some() {
            pl.blockquote_sigil_end()
        } else {
            None
        };
        let ghost rv = Reveal { expanded, bq_end, whole: false };
        let mut out: Vec<bool> = Vec::new();
        let mut p: usize = 0;
        while p < total
            invariant
                p <= total,
                total == line@.len(),
                hse == pl.heading_sigil_end_spec(),
                rv == (Reveal { expanded, bq_end, whole: false }),
                out@ == Seq::new(p as nat, |q: int| shown(pl@, q, rv)),
            decreases total - p,
        {
            let v = shown_exec(pl, p, hse, expanded, bq_end, false);
            out.push(v);
            p += 1;
            assert(out@ =~= Seq::new(p as nat, |q: int| shown(pl@, q, rv)));
        }
        assert(out@ =~= raw_mask(line@, pl@, cursor, force_raw));
        out
    }

    /// Rendered screen column of logical column `cursor_col`, with element
    /// reveal driven by the caret column `reveal_col` (`None`: the caret is
    /// on another row).
    pub fn rendered_col_with_reveal(
        logical_line: &str,
        parsed: &ParsedLine,
        visual_start_col: usize,
        cursor_col: usize,
        reveal_col: Option<usize>,
        is_first_visual_line: bool,
        force_raw: bool,
    ) -> (r: usize)
        requires
            logical_line@.len() <= usize::MAX,
        ensures
            r == rendered_col_spec(
                logical_line@,
                parsed@,
                visual_start_col as int,
                cursor_col as int,
                reveal_col,
                is_first_visual_line,
                force_raw,
            ),
    {
        let cs = clusters(logical_line);
        let ghost line = logical_line@;
        assert(cs@.map_values(|v: Vec<char>| v@) =~= grapheme_clusters(line));
        if force_raw {
            return raw_col_walk_exec(&cs, visual_start_col, cursor_col, Ghost(line));
        }
        let chars = chars_of(logical_line);
        if is_first_visual_line && is_rule_exec(&chars) {
            return if cursor_col >= visual_start_col { cursor_col - visual_start_col } else { 0 };
        }
        let total = chars.len();
        let expanded = expanded_exec(parsed, reveal_col);
        let whole = match reveal_col {
            Some(_) => Self::row_reveals_whole(logical_line, parsed, reveal_col, false),
            None => false,
        };
        let hse = parsed.heading_sigil_end();
        let bq = if is_first_visual_line {
            parsed.blockquote_sigil_end()
        } else {
            None
        };
        let end = if cursor_col < total { cursor_col } else { total };
        col_walk_exec(&cs, parsed, hse, expanded, bq, whole, visual_start_col, end, Ghost(line))
    }

    /// Rendered screen column of the caret at `cursor_col`.
    pub fn rendered_cursor_col_with(
        logical_line: &str,
        parsed: &ParsedLine,
        visual_start_col: usize,
        cursor_col: usize,
        is_first_visual_line: bool,
        force_raw: bool,
    ) -> (r: usize)
        requires
            logical_line@.len() <= usize::MAX,
        ensures
            r == rendered_col_spec(
                logical_line@,
                parsed@,
                visual_start_col as int,
                cursor_col as int,
                Some(cursor_col),
                is_first_visual_line,
                force_raw,
            ),
    {
        Self::rendered_col_with_reveal(
            logical_line,
            parsed,
            visual_start_col,
            cursor_col,
            Some(cursor_col),
            is_first_visual_line,
            force_raw,
        )
    }

    /// Which chars of the row are drawn, the caret at `cursor_col` (`None`:
    /// on another row). A caret row that would draw nothing draws in full.
    pub fn visible_positions_with(
        logical_line: &str,
        parsed: &ParsedLine,
        cursor_col: Option<usize>,
        force_raw: bool,
    ) -> (v: Vec<bool>)
        ensures
            v@ == visible_mask(logical_line@, parsed@, cursor_col, force_raw),
    {
        let raw = Self::visible_positions_raw(logical_line, parsed, cursor_col, force_raw);
        if cursor_col.is_some() && Self::draws_nothing(&raw) {
            all_true(raw.len())
        } else {
            raw
        }
    }

    /// Logical column of the cell at `rendered_col`, inverse of
    /// [`Self::rendered_col_with_reveal`].
    pub fn rendered_col_to_logical_with(
        logical_line: &str,
        parsed: &ParsedLine,
        visual_start_col: usize,
        rendered_col: usize,
        reveal_col: Option<usize>,
        is_first_visual_line: bool,
        force_raw: bool,
    ) -> (r: usize)
        requires
            logical_line@.len() <= usize::MAX,
        ensures
            r == logical_col_spec(
                logical_line@,
                parsed@,
                visual_start_col as int,
                rendered_col as int,
                reveal_col,
                is_first_visual_line,
                force_raw,
            ),
    {
        let cs = clusters(logical_line);
        let ghost line = logical_line@;
        assert(cs@.map_values(|v: Vec<char>| v@) =~= grapheme_clusters(line));
        if force_raw {
            return raw_inv_walk_exec(&cs, visual_start_col, rendered_col, Ghost(line));
        }
        let chars = chars_of(logical_line);
        if is_first_visual_line && is_rule_exec(&chars) {
            return visual_start_col.saturating_add(rendered_col);
        }
        let expanded = expanded_exec(parsed, reveal_col);
        let whole = match reveal_col {
            Some(_) => Self::row_reveals_whole(logical_line, parsed, reveal_col, false),
            None => false,
        };
        let hse = parsed.heading_sigil_end();
        let bq = if is_first_visual_line {
            parsed.blockquote_sigil_end()
        } else {
            None
        };
        inv_walk_exec(&cs, parsed, hse, expanded, bq, whole, visual_start_col, rendered_col, chars.len(), Ghost(line))
    }

    /// [`Self::rendered_cursor_col_with`] on the line parsed in isolation.
    pub fn rendered_cursor_col(
        logical_line: &str,
        visual_start_col: usize,
        cursor_col: usize,
        is_first_visual_line: bool,
        force_raw: bool,
    ) -> (r: usize)
        requires
            bytes_len(logical_line@) + 4 <= usize::MAX,
        ensures
            r == rendered_col_spec(
                logical_line@,
                parse_line_out(logical_line@, no_marks(1)[0]),
                visual_start_col as int,
                cursor_col as int,
                Some(cursor_col),
                is_first_visual_line,
                force_raw,
            ),
    {
        proof {
            crate::text::lemma_bytes_len_ge_len(logical_line@);
        }
        let parsed = ParsedLine::parse(logical_line);
        Self::rendered_cursor_col_with(logical_line, &parsed, visual_start_col, cursor_col, is_first_visual_line, force_raw)
    }

    /// [`Self::visible_positions_with`] on the line parsed in isolation.
    pub fn visible_positions(logical_line: &str, cursor_col: Option<usize>, force_raw: bool) -> (v: Vec<bool>)
        requires
            bytes_len(logical_line@) + 4 <= usize::MAX,
        ensures
            v@ == visible_mask(logical_line@, parse_line_out(logical_line@, no_marks(1)[0]), cursor_col, force_raw),
    {
        let parsed = ParsedLine::parse(logical_line);
        Self::visible_positions_with(logical_line, &parsed, cursor_col, force_raw)
    }

    /// [`Self::rendered_col_to_logical_with`] on the line parsed in
    /// isolation, the caret on another row.
    pub fn rendered_col_to_logical(
        logical_line: &str,
        visual_start_col: usize,
        rendered_col: usize,
        is_first_visual_line: bool,
        force_raw: bool,
    ) -> (r: usize)
        requires
            bytes_len(logical_line@) + 4 <= usize::MAX,
        ensures
            r == logical_col_spec(
                logical_line@,
                parse_line_out(logical_line@, no_marks(1)[0]),
                visual_start_col as int,
                rendered_col as int,
                None,
                is_first_visual_line,
                force_raw,
            ),
    {
        proof {
            crate::text::lemma_bytes_len_ge_len(logical_line@);
        }
        let parsed = ParsedLine::parse(logical_line);
        Self::rendered_col_to_logical_with(logical_line, &parsed, visual_start_col, rendered_col, None, is_first_visual_line, force_raw)
    }
}


/// The caret's row is never invisible: a non-empty row with the caret on it
/// draws at least one char, and the mask covers the whole row.
pub proof fn law_caret_row_draws_something(line: Seq<char>, pl: LineOut, cursor: usize, force_raw: bool)
    requires
        line.len() > 0,
    ensures
        visible_mask(line, pl, Some(cursor), force_raw).len() == line.len(),
        exists|p: int| 0 <= p < line.len() && #[trigger] visible_mask(line, pl, Some(cursor), force_raw)[p],
{
    let v = visible_mask(line, pl, Some(cursor), force_raw);
    let raw = raw_mask(line, pl, Some(cursor), force_raw);
    assert(raw.len() == line.len());
    if reveals_whole(line, pl, Some(cursor), force_raw) {
        assert(v[0]);
    } else {
        assert(!draws_nothing(raw));
        let p = choose|p: int| 0 <= p < raw.len() && raw[p];
        assert(v[p]);
    }
}


proof fn lemma_col_walk_grows(cs: Seq<Seq<char>>, pl: LineOut, rv: Reveal, vs: int, end: int, pos: int, col: int)
    requires
        col <= usize::MAX,
    ensures
        col_walk(cs, pl, rv, vs, end, pos, col) >= col,
    decreases cs.len(),
{
    if cs.len() > 0 && pos < end {
        let next = pos + cs[0].len();
        if pos < vs {
            lemma_col_walk_grows(cs.drop_first(), pl, rv, vs, end, next, col);
        } else {
            let c1 = sat_add(col, img_cols(pl, pos, rv.expanded));
            let c2 = if shown(pl, pos, rv) {
                sat_add(c1, cluster_width_at_spec(cs[0], c1) as int)
            } else {
                c1
            };
            lemma_col_walk_grows(cs.drop_first(), pl, rv, vs, end, next, c2);
            assert(img_cols(pl, pos, rv.expanded) >= 0);
        }
    }
}

proof fn lemma_col_walk_mono(cs: Seq<Seq<char>>, pl: LineOut, rv: Reveal, vs: int, e1: int, e2: int, pos: int, col: int)
    requires
        e1 <= e2,
        col <= usize::MAX,
    ensures
        col_walk(cs, pl, rv, vs, e1, pos, col) <= col_walk(cs, pl, rv, vs, e2, pos, col),
    decreases cs.len(),
{
    if cs.len() > 0 {
        if pos >= e1 {
            lemma_col_walk_grows(cs, pl, rv, vs, e2, pos, col);
        } else {
            let next = pos + cs[0].len();
            if pos < vs {
                lemma_col_walk_mono(cs.drop_first(), pl, rv, vs, e1, e2, next, col);
            } else {
                let c1 = sat_add(col, img_cols(pl, pos, rv.expanded));
                let c2 = if shown(pl, pos, rv) {
                    sat_add(c1, cluster_width_at_spec(cs[0], c1) as int)
                } else {
                    c1
                };
                assert(img_cols(pl, pos, rv.expanded) >= 0);
                lemma_col_walk_mono(cs.drop_first(), pl, rv, vs, e1, e2, next, c2);
            }
        }
    }
}

proof fn lemma_raw_col_walk_grows(cs: Seq<Seq<char>>, vs: int, end: int, pos: int, col: int)
    requires
        col <= usize::MAX,
    ensures
        raw_col_walk(cs, vs, end, pos, col) >= col,
    decreases cs.len(),
{
    if cs.len() > 0 && pos < end {
        let next = pos + cs[0].len();
        if pos < vs {
            lemma_raw_col_walk_grows(cs.drop_first(), vs, end, next, col);
        } else {
            lemma_raw_col_walk_grows(cs.drop_first(), vs, end, next, sat_add(col, cluster_width_at_spec(cs[0], col) as int));
        }
    }
}

proof fn lemma_raw_col_walk_mono(cs: Seq<Seq<char>>, vs: int, e1: int, e2: int, pos: int, col: int)
    requires
        e1 <= e2,
        col <= usize::MAX,
    ensures
        raw_col_walk(cs, vs, e1, pos, col) <= raw_col_walk(cs, vs, e2, pos, col),
    decreases cs.len(),
{
    if cs.len() > 0 {
        if pos >= e1 {
            lemma_raw_col_walk_grows(cs, vs, e2, pos, col);
        } else {
            let next = pos + cs[0].len();
            if pos < vs {
                lemma_raw_col_walk_mono(cs.drop_first(), vs, e1, e2, next, col);
            } else {
                lemma_raw_col_walk_mono(cs.drop_first(), vs, e1, e2, next, sat_add(col, cluster_width_at_spec(cs[0], col) as int));
            }
        }
    }
}

/// With the caret fixed, the rendered column never moves left as the
/// logical column moves right.
pub proof fn law_rendered_col_monotone(
    line: Seq<char>,
    pl: LineOut,
    vs: int,
    c1: int,
    c2: int,
    reveal: Option<usize>,
    first: bool,
    force_raw: bool,
)
    requires
        c1 <= c2,
    ensures
        rendered_col_spec(line, pl, vs, c1, reveal, first, force_raw) <= rendered_col_spec(
            line,
            pl,
            vs,
            c2,
            reveal,
            first,
            force_raw,
        ),
{
    let cs = grapheme_clusters(line);
    if force_raw {
        lemma_raw_col_walk_mono(cs, vs, c1, c2, 0, 0);
    } else if first && is_rule(line) {
    } else {
        let e1 = if c1 < line.len() { c1 } else { line.len() as int };
        let e2 = if c2 < line.len() { c2 } else { line.len() as int };
        lemma_col_walk_mono(cs, pl, reveal_for(line, pl, reveal, first), vs, e1, e2, 0, 0);
    }
}

/// Chars in the first `n` clusters of `cs`.
pub open spec fn front_len(cs: Seq<Seq<char>>, n: int) -> int
    decreases n,
{
    if n <= 0 || cs.len() == 0 {
        0
    } else {
        cs[0].len() + front_len(cs.drop_first(), n - 1)
    }
}

/// A cluster is non-empty and takes at least one cell wherever it stands.
pub open spec fn takes_cell(c: Seq<char>) -> bool {
    c.len() > 0 && forall|col: int| col >= 0 ==> #[trigger] cluster_width_at_spec(c, col) > 0
}

/// Every cluster takes a cell.
pub open spec fn clusters_take_cells(cs: Seq<Seq<char>>) -> bool {
    forall|i: int| 0 <= i < cs.len() ==> #[trigger] takes_cell(cs[i])
}

proof fn lemma_takes_cells_rest(cs: Seq<Seq<char>>)
    requires
        cs.len() > 0,
        clusters_take_cells(cs),
    ensures
        clusters_take_cells(cs.drop_first()),
{
    let rest = cs.drop_first();
    assert forall|i: int| 0 <= i < rest.len() implies #[trigger] takes_cell(rest[i]) by {
        assert(rest[i] == cs[i + 1]);
        assert(takes_cell(cs[i + 1]));
    }
}

/// Walking from a boundary at or past the first shown column: mapping
/// the boundary `k` clusters on to its column and back gives the boundary.
proof fn lemma_raw_round_trip_from(cs: Seq<Seq<char>>, vs: int, pos: int, col: int, k: int)
    requires
        0 <= k <= cs.len(),
        vs <= pos,
        0 <= col,
        clusters_take_cells(cs),
        raw_col_walk(cs, vs, pos + front_len(cs, cs.len() as int), pos, col) < usize::MAX,
    ensures
        raw_inv_walk(cs, vs, raw_col_walk(cs, vs, pos + front_len(cs, k), pos, col), pos, col) == pos + front_len(cs, k),
    decreases cs.len(),
{
    if cs.len() > 0 {
        let w = cluster_width_at_spec(cs[0], col);
        let next = pos + cs[0].len();
        assert(takes_cell(cs[0]));
        assert(w > 0 && cs[0].len() > 0);
        lemma_takes_cells_rest(cs);
        let total = pos + front_len(cs, cs.len() as int);
        assert(front_len(cs, cs.len() as int) == cs[0].len() + front_len(cs.drop_first(), cs.drop_first().len() as int));
        lemma_front_len_nonneg(cs.drop_first(), cs.drop_first().len() as int);
        // Nothing saturates on the way: the whole row stays below the cap.
        lemma_raw_col_walk_grows(cs.drop_first(), vs, total, next, sat_add(col, w as int));
        assert(sat_add(col, w as int) == col + w);
        lemma_raw_round_trip_from(cs.drop_first(), vs, next, col + w, if k > 0 { k - 1 } else { 0 });
        if k > 0 {
            let end = pos + front_len(cs, k);
            assert(end == next + front_len(cs.drop_first(), k - 1));
            lemma_raw_col_walk_grows(cs.drop_first(), vs, end, next, col + w);
        }
    }
}

proof fn lemma_front_len_nonneg(cs: Seq<Seq<char>>, n: int)
    ensures
        front_len(cs, n) >= 0,
    decreases n,
{
    if n > 0 && cs.len() > 0 {
        lemma_front_len_nonneg(cs.drop_first(), n - 1);
    }
}

/// Skipping the clusters before the first shown column leaves both walks
/// at that column with nothing counted.
proof fn lemma_raw_round_trip_skip(cs: Seq<Seq<char>>, pos: int, m: int, k: int)
    requires
        0 <= m <= k <= cs.len(),
        pos >= 0,
        clusters_take_cells(cs),
        raw_col_walk(cs, pos + front_len(cs, m), pos + front_len(cs, cs.len() as int), pos, 0) < usize::MAX,
    ensures
        raw_inv_walk(
            cs,
            pos + front_len(cs, m),
            raw_col_walk(cs, pos + front_len(cs, m), pos + front_len(cs, k), pos, 0),
            pos,
            0,
        ) == pos + front_len(cs, k),
    decreases m,
{
    let vs = pos + front_len(cs, m);
    if m == 0 {
        lemma_raw_round_trip_from(cs, vs, pos, 0, k);
    } else {
        assert(cs.len() > 0);
        assert(takes_cell(cs[0]));
        lemma_takes_cells_rest(cs);
        let next = pos + cs[0].len();
        lemma_front_len_nonneg(cs.drop_first(), m - 1);
        assert(front_len(cs, m) == cs[0].len() + front_len(cs.drop_first(), m - 1));
        assert(front_len(cs, k) == cs[0].len() + front_len(cs.drop_first(), k - 1));
        assert(front_len(cs, cs.len() as int) == cs[0].len() + front_len(cs.drop_first(), cs.drop_first().len() as int));
        lemma_raw_round_trip_skip(cs.drop_first(), next, m - 1, k - 1);
    }
}

/// In a code block, where every char is drawn, a click maps back to the
/// column it was drawn for: mapping a cluster boundary at or past the first
/// shown column to its rendered column and back gives the boundary, as long
/// as every cluster takes at least one cell and the row's width stays below
/// the column cap.
pub proof fn law_raw_click_round_trip(line: Seq<char>, pl: LineOut, reveal: Option<usize>, first: bool, m: int, n: int)
    requires
        0 <= m <= n <= grapheme_clusters(line).len(),
        clusters_take_cells(grapheme_clusters(line)),
        raw_col_walk(
            grapheme_clusters(line),
            front_len(grapheme_clusters(line), m),
            front_len(grapheme_clusters(line), grapheme_clusters(line).len() as int),
            0,
            0,
        ) < usize::MAX,
    ensures
        ({
            let cs = grapheme_clusters(line);
            let vs = front_len(cs, m);
            let c = front_len(cs, n);
            logical_col_spec(line, pl, vs, rendered_col_spec(line, pl, vs, c, reveal, first, true), reveal, first, true) == c
        }),
{
    let cs = grapheme_clusters(line);
    lemma_raw_round_trip_skip(cs, 0, m, n);
}

/// The view-mode walk from a boundary at or past the first shown column,
/// on a row without image placeholders: a boundary whose cluster is drawn
/// (or the end of the row) maps to its column and back to itself.
proof fn lemma_view_round_trip_from(cs: Seq<Seq<char>>, pl: LineOut, rv: Reveal, vs: int, len: int, pos: int, col: int, k: int)
    requires
        0 <= k <= cs.len(),
        vs <= pos,
        0 <= col < usize::MAX,
        pl.images.len() == 0,
        clusters_take_cells(cs),
        k < cs.len() ==> shown(pl, pos + front_len(cs, k), rv),
        col_walk(cs, pl, rv, vs, pos + front_len(cs, cs.len() as int), pos, col) < usize::MAX,
    ensures
        inv_walk(cs, pl, rv, vs, col_walk(cs, pl, rv, vs, pos + front_len(cs, k), pos, col), len, pos, col) == (if k
            == cs.len() {
            len
        } else {
            pos + front_len(cs, k)
        }),
    decreases cs.len(),
{
    if cs.len() > 0 {
        assert(takes_cell(cs[0]));
        let next = pos + cs[0].len();
        let w = cluster_width_at_spec(cs[0], col);
        assert(w > 0);
        lemma_takes_cells_rest(cs);
        assert(first_img(pl.images, pos) is None);
        assert(img_cols(pl, pos, rv.expanded) == 0);
        let c2 = if shown(pl, pos, rv) { col + w } else { col };
        let total = pos + front_len(cs, cs.len() as int);
        assert(front_len(cs, cs.len() as int) == cs[0].len() + front_len(cs.drop_first(), cs.drop_first().len() as int));
        lemma_front_len_nonneg(cs.drop_first(), cs.drop_first().len() as int);
        lemma_col_walk_grows(cs.drop_first(), pl, rv, vs, total, next, if shown(pl, pos, rv) { sat_add(col, w as int) } else { col });
        assert(sat_add(col, 0) == col);
        if shown(pl, pos, rv) {
            assert(sat_add(col, w as int) == col + w);
        }
        if k > 0 {
            let end = pos + front_len(cs, k);
            assert(end == next + front_len(cs.drop_first(), k - 1));
            lemma_front_len_nonneg(cs.drop_first(), k - 1);
            lemma_view_round_trip_from(cs.drop_first(), pl, rv, vs, len, next, c2, k - 1);
            lemma_col_walk_grows(cs.drop_first(), pl, rv, vs, end, next, c2);
        }
    }
}

/// Skipping the clusters before the first shown column.
proof fn lemma_view_round_trip_skip(cs: Seq<Seq<char>>, pl: LineOut, rv: Reveal, len: int, pos: int, m: int, k: int)
    requires
        0 <= m <= k <= cs.len(),
        pos >= 0,
        pl.images.len() == 0,
        clusters_take_cells(cs),
        k < cs.len() ==> shown(pl, pos + front_len(cs, k), rv),
        col_walk(cs, pl, rv, pos + front_len(cs, m), pos + front_len(cs, cs.len() as int), pos, 0) < usize::MAX,
    ensures
        inv_walk(
            cs,
            pl,
            rv,
            pos + front_len(cs, m),
            col_walk(cs, pl, rv, pos + front_len(cs, m), pos + front_len(cs, k), pos, 0),
            len,
            pos,
            0,
        ) == (if k == cs.len() {
            len
        } else {
            pos + front_len(cs, k)
        }),
    decreases m,
{
    let vs = pos + front_len(cs, m);
    if m == 0 {
        lemma_view_round_trip_from(cs, pl, rv, vs, len, pos, 0, k);
    } else {
        assert(takes_cell(cs[0]));
        lemma_takes_cells_rest(cs);
        let next = pos + cs[0].len();
        lemma_front_len_nonneg(cs.drop_first(), m - 1);
        assert(front_len(cs, m) == cs[0].len() + front_len(cs.drop_first(), m - 1));
        assert(front_len(cs, k) == cs[0].len() + front_len(cs.drop_first(), k - 1));
        assert(front_len(cs, cs.len() as int) == cs[0].len() + front_len(cs.drop_first(), cs.drop_first().len() as int));
        lemma_view_round_trip_skip(cs.drop_first(), pl, rv, len, next, m - 1, k - 1);
    }
}

/// In the concealing view, on a row without image placeholders, a click
/// maps back to the column it was drawn for: a cluster boundary at or past
/// the first shown column whose cluster is drawn (or the end of the row)
/// maps to its rendered column and back to itself, as long as every
/// cluster takes at least one cell and the row stays below the column cap.
/// Not for hidden chars: a click there lands on the drawn char after them.
pub proof fn law_view_click_round_trip(line: Seq<char>, pl: LineOut, reveal: Option<usize>, first: bool, m: int, n: int)
    requires
        0 <= m <= n <= grapheme_clusters(line).len(),
        front_len(grapheme_clusters(line), grapheme_clusters(line).len() as int) == line.len(),
        line.len() <= usize::MAX,
        pl.images.len() == 0,
        clusters_take_cells(grapheme_clusters(line)),
        n < grapheme_clusters(line).len() ==> shown(
            pl,
            front_len(grapheme_clusters(line), n),
            reveal_for(line, pl, reveal, first),
        ),
        col_walk(
            grapheme_clusters(line),
            pl,
            reveal_for(line, pl, reveal, first),
            front_len(grapheme_clusters(line), m),
            line.len() as int,
            0,
            0,
        ) < usize::MAX,
    ensures
        ({
            let cs = grapheme_clusters(line);
            let vs = front_len(cs, m);
            let c = front_len(cs, n);
            logical_col_spec(line, pl, vs, rendered_col_spec(line, pl, vs, c, reveal, first, false), reveal, first, false) == c
        }),
{
    let cs = grapheme_clusters(line);
    let vs = front_len(cs, m);
    let c = front_len(cs, n);
    lemma_front_len_mono(cs, m, n);
    lemma_front_len_mono(cs, n, cs.len() as int);
    lemma_front_len_nonneg(cs, m);
    if first && is_rule(line) {
    } else {
        let rv = reveal_for(line, pl, reveal, first);
        lemma_view_round_trip_skip(cs, pl, rv, line.len() as int, 0, m, n);
        if n == cs.len() {
        }
    }
}

/// A hidden cluster at char `c` (a cluster boundary) adds nothing: walking
/// up to just past its first char reaches the column walking up to it does.
proof fn lemma_col_walk_hidden_step(cs: Seq<Seq<char>>, pl: LineOut, rv: Reveal, vs: int, pos: int, col: int, k: int)
    requires
        0 <= k < cs.len(),
        0 <= col <= usize::MAX,
        pl.images.len() == 0,
        clusters_take_cells(cs),
        !shown(pl, pos + front_len(cs, k), rv),
    ensures
        col_walk(cs, pl, rv, vs, pos + front_len(cs, k) + 1, pos, col) == col_walk(
            cs,
            pl,
            rv,
            vs,
            pos + front_len(cs, k),
            pos,
            col,
        ),
    decreases k,
{
    assert(takes_cell(cs[0]));
    lemma_takes_cells_rest(cs);
    let next = pos + cs[0].len();
    let rest = cs.drop_first();
    assert(first_img(pl.images, pos) is None);
    assert(img_cols(pl, pos, rv.expanded) == 0);
    assert(sat_add(col, 0) == col);
    if k == 0 {
        assert(front_len(cs, 0) == 0);
        assert(col_walk(rest, pl, rv, vs, pos + 1, next, col) == col);
    } else {
        lemma_front_len_nonneg(rest, k - 1);
        assert(front_len(cs, k) == cs[0].len() + front_len(rest, k - 1));
        let c2 = if pos < vs {
            col
        } else if shown(pl, pos, rv) {
            sat_add(col, cluster_width_at_spec(cs[0], col) as int)
        } else {
            col
        };
        lemma_col_walk_hidden_step(rest, pl, rv, vs, next, c2, k - 1);
    }
}

/// In the concealing view, on a row without image placeholders, a click on
/// a cluster boundary whose next char moves the rendered column (so its
/// cluster is drawn), or on the end of the row, maps back to that boundary:
/// as long as every cluster takes at least one cell and the row stays below
/// the column cap.
pub proof fn law_click_round_trip_on_a_drawn_step(line: Seq<char>, pl: LineOut, reveal: Option<usize>, first: bool, m: int, n: int)
    requires
        0 <= m <= n <= grapheme_clusters(line).len(),
        front_len(grapheme_clusters(line), grapheme_clusters(line).len() as int) == line.len(),
        line.len() <= usize::MAX,
        pl.images.len() == 0,
        clusters_take_cells(grapheme_clusters(line)),
        n < grapheme_clusters(line).len() ==> rendered_col_spec(
            line,
            pl,
            front_len(grapheme_clusters(line), m),
            front_len(grapheme_clusters(line), n) + 1,
            reveal,
            first,
            false,
        ) > rendered_col_spec(
            line,
            pl,
            front_len(grapheme_clusters(line), m),
            front_len(grapheme_clusters(line), n),
            reveal,
            first,
            false,
        ),
        col_walk(
            grapheme_clusters(line),
            pl,
            reveal_for(line, pl, reveal, first),
            front_len(grapheme_clusters(line), m),
            line.len() as int,
            0,
            0,
        ) < usize::MAX,
    ensures
        ({
            let cs = grapheme_clusters(line);
            let vs = front_len(cs, m);
            let c = front_len(cs, n);
            logical_col_spec(line, pl, vs, rendered_col_spec(line, pl, vs, c, reveal, first, false), reveal, first, false) == c
        }),
{
    let cs = grapheme_clusters(line);
    let vs = front_len(cs, m);
    let c = front_len(cs, n);
    let rv = reveal_for(line, pl, reveal, first);
    lemma_front_len_mono(cs, m, n);
    lemma_front_len_nonneg(cs, m);
    lemma_front_len_mono(cs, n, cs.len() as int);
    if first && is_rule(line) {
        assert(c <= line.len());
    } else {
        if n < cs.len() {
            // The char at `c` lies on the row, so both measurements walk to it.
            lemma_front_len_mono(cs, n + 1, cs.len() as int);
            assert(takes_cell(cs[n]));
            assert(front_len(cs, n + 1) >= c + 1) by {
                lemma_front_len_split(cs, n);
            }
            if !shown(pl, c, rv) {
                lemma_col_walk_hidden_step(cs, pl, rv, vs, 0, 0, n);
                assert(false);
            }
        }
        law_view_click_round_trip(line, pl, reveal, first, m, n);
    }
}

/// The first `n + 1` clusters are the first `n` and cluster `n`.
proof fn lemma_front_len_split(cs: Seq<Seq<char>>, n: int)
    requires
        0 <= n < cs.len(),
    ensures
        front_len(cs, n + 1) == front_len(cs, n) + cs[n].len(),
    decreases n,
{
    assert(front_len(cs.drop_first(), 0) == 0);
    if n > 0 {
        lemma_front_len_split(cs.drop_first(), n - 1);
        assert(cs.drop_first()[n - 1] == cs[n]);
    }
}

proof fn lemma_front_len_mono(cs: Seq<Seq<char>>, a: int, b: int)
    requires
        0 <= a <= b,
    ensures
        front_len(cs, a) <= front_len(cs, b),
    decreases a,
{
    if a > 0 && cs.len() > 0 {
        lemma_front_len_mono(cs.drop_first(), a - 1, b - 1);
    } else {
        lemma_front_len_nonneg(cs, b);
    }
}

} // verus!
