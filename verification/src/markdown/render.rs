//! The drawn segments of one visual row of the sigil-concealing view: the
//! row's text split where its styling changes, each segment tagged with the
//! style class it is drawn in. The screen maps the classes to its theme.
use vstd::prelude::*;
use crate::markdown::post::LineOut;
use crate::markdown::spanner::{
    MarkdownSpanner, Reveal, below_end, col_walk, expanded_at, expanded_exec, first_img, first_img_exec, img_cols,
    in_elem, is_rule, is_rule_exec, rendered_col_spec, reveal_for, reveals_whole, sat_add, shown,
};
use crate::markdown::cluster_width_at_spec;
use crate::markdown::{
    Element, ElementKind, ParsedLine, TAB_STOP, cluster_display_width, cluster_width_spec, clusters,
    grapheme_clusters, tab_width_at,
};
use crate::text::{chars_of, string_from_chars};

verus! {

/// The style class a drawn segment takes.
#[derive(Debug, Clone, Copy, PartialEq, Eq, Structural)]
pub enum SegStyle {
    /// Muted: a horizontal rule, or source revealed under the caret.
    Gray,
    /// Plain text colour: a fenced code row.
    Fg,
    /// The blockquote bar gutter.
    BlockquoteBar,
    /// An image placeholder.
    Image,
    /// Text styled by the innermost element over it (if any), as a sigil or
    /// not, with the emphasis bits of every element over it (`1` bold, `2`
    /// italic, `4` strikethrough).
    Element { kind: Option<ElementKind>, sigil: bool, mods: u8 },
}

/// Some element of kind `k` covers char `pos`.
pub open spec fn covers_kind(els: Seq<Element>, pos: int, k: ElementKind) -> bool {
    exists|i: int| 0 <= i < els.len() && els[i].kind == k && #[trigger] els[i].start_char <= pos < els[i].end_char
}

/// The emphasis bits at `pos`: bold `1`, italic `2`, strikethrough `4`.
pub open spec fn mods_at(els: Seq<Element>, pos: int) -> u8 {
    ((if covers_kind(els, pos, ElementKind::Bold) { 1int } else { 0int }) + (if covers_kind(
        els,
        pos,
        ElementKind::Italic,
    ) {
        2int
    } else {
        0int
    }) + (if covers_kind(els, pos, ElementKind::Strikethrough) { 4int } else { 0int })) as u8
}

/// What a row is drawn against: its parse, the caret column when the caret
/// is on the row, the element the caret is in, and whether the row reveals
/// in full.
pub struct RowCtx {
    pub pl: LineOut,
    pub cursor: Option<usize>,
    pub expanded: Option<usize>,
    pub whole: bool,
}

/// The segments drawn so far, the open segment's text and style key, and
/// the visual column reached (for tab stops).
pub struct RenderState {
    pub segs: Seq<(Seq<char>, SegStyle)>,
    pub cur: Seq<char>,
    pub elem: Option<usize>,
    pub sigil: bool,
    pub exp: bool,
    pub mods: u8,
    pub vcol: int,
}

/// The style of a segment with this key.
pub open spec fn seg_style(pl: LineOut, elem: Option<usize>, sigil: bool, exp: bool, mods: u8) -> SegStyle {
    if exp {
        SegStyle::Gray
    } else {
        SegStyle::Element {
            kind: match elem {
                Some(i) => Some(pl.elements[i as int].kind),
                None => None,
            },
            sigil,
            mods,
        }
    }
}

/// The open segment closed, when it holds any text.
pub open spec fn flushed(pl: LineOut, st: RenderState) -> RenderState {
    if st.cur.len() == 0 {
        st
    } else {
        RenderState {
            segs: st.segs.push((st.cur, seg_style(pl, st.elem, st.sigil, st.exp, st.mods))),
            cur: Seq::empty(),
            ..st
        }
    }
}

/// The style key back to plain.
pub open spec fn reset_key(st: RenderState) -> RenderState {
    RenderState { elem: None, sigil: false, exp: false, mods: 0, ..st }
}

pub open spec fn in_expanded(ctx: RowCtx, pos: int) -> bool {
    ctx.expanded is Some && in_elem(ctx.pl, ctx.expanded.unwrap(), pos)
}

/// The char at `pos` is inside a heading, list or (caret on the row)
/// blockquote sigil.
pub open spec fn in_sigil(ctx: RowCtx, pos: int) -> bool {
    ||| below_end(ctx.pl.heading_sigil_end(), pos)
    ||| below_end(ctx.pl.list_sigil_end, pos)
    ||| (ctx.cursor is Some && below_end(ctx.pl.blockquote_sigil_end(), pos))
}

pub open spec fn is_content(pl: LineOut, pos: int) -> bool {
    pos < pl.content_vis.len() && pl.content_vis[pos]
}

/// Whether the char at `pos` is drawn.
pub open spec fn draws(ctx: RowCtx, pos: int) -> bool {
    ||| is_content(ctx.pl, pos)
    ||| in_sigil(ctx, pos)
    ||| in_expanded(ctx, pos)
    ||| ctx.whole
    ||| ctx.pl.elem_at(pos) is None
}

/// The placeholder drawn at `pos`, if an image starts there and the caret
/// is not in it: its text and width.
pub open spec fn placeholder_at(ctx: RowCtx, pos: int) -> Option<(Seq<char>, nat)> {
    match first_img(ctx.pl.images, pos) {
        Some(j) => {
            let img = ctx.pl.images[j];
            let in_img = ctx.expanded is Some && ctx.expanded.unwrap() < ctx.pl.elements.len()
                && ctx.pl.elements[ctx.expanded.unwrap() as int].start_char == img.0
                && ctx.pl.elements[ctx.expanded.unwrap() as int].end_char == img.1;
            if in_img {
                None
            } else {
                Some((img.2, img.3))
            }
        },
        None => None,
    }
}

/// A cluster drawn at visual column `vcol`: a tab as spaces to the next tab
/// stop, anything else as itself; and the column after it.
pub open spec fn cluster_text(cluster: Seq<char>, vcol: int) -> (Seq<char>, int) {
    if cluster == seq!['\t'] {
        let tw = TAB_STOP - vcol % (TAB_STOP as int);
        (Seq::new(tw as nat, |i: int| ' '), sat_add(vcol, tw))
    } else {
        (cluster, sat_add(vcol, cluster_width_spec(cluster) as int))
    }
}

/// One cluster, starting at char `pos`, added to the segments.
pub open spec fn render_step(ctx: RowCtx, st: RenderState, cluster: Seq<char>, pos: int) -> RenderState {
    let s1 = match placeholder_at(ctx, pos) {
        Some((text, w)) => {
            let f = flushed(ctx.pl, st);
            reset_key(RenderState { segs: f.segs.push((text, SegStyle::Image)), vcol: sat_add(f.vcol, w as int), ..f })
        },
        None => st,
    };
    if !draws(ctx, pos) {
        reset_key(flushed(ctx.pl, s1))
    } else {
        let exp = in_expanded(ctx, pos) || ctx.whole;
        let sigil = in_sigil(ctx, pos) && !is_content(ctx.pl, pos) && !exp;
        let mods = mods_at(ctx.pl.elements, pos);
        let elem = ctx.pl.elem_at(pos);
        let s2 = if elem != s1.elem || sigil != s1.sigil || exp != s1.exp || mods != s1.mods {
            RenderState { elem, sigil, exp, mods, ..flushed(ctx.pl, s1) }
        } else {
            s1
        };
        let (t, v) = cluster_text(cluster, s2.vcol);
        RenderState { cur: s2.cur + t, vcol: v, ..s2 }
    }
}

/// The clusters `cs`, the first starting at char `pos`, added in turn.
pub open spec fn render_walk(ctx: RowCtx, cs: Seq<Seq<char>>, pos: int, st: RenderState) -> RenderState
    decreases cs.len(),
{
    if cs.len() == 0 {
        st
    } else {
        render_walk(ctx, cs.drop_first(), pos + cs[0].len(), render_step(ctx, st, cs[0], pos))
    }
}

/// The clusters drawn with every tab expanded, from visual column `col`.
pub open spec fn raw_expand(cs: Seq<Seq<char>>, col: int) -> Seq<char>
    decreases cs.len(),
{
    if cs.len() == 0 {
        Seq::empty()
    } else {
        let (t, v) = cluster_text(cs[0], col);
        t + raw_expand(cs.drop_first(), v)
    }
}

/// The blockquote gutter of a quote `d` deep: a bar per level, then a space.
pub open spec fn gutter(d: u8) -> Seq<char> {
    Seq::new(d as nat, |i: int| '│') + seq![' ']
}

pub open spec fn empty_state() -> RenderState {
    RenderState { segs: Seq::empty(), cur: Seq::empty(), elem: None, sigil: false, exp: false, mods: 0, vcol: 0 }
}

/// The context a row is drawn in.
pub open spec fn row_ctx(logical_line: Seq<char>, pl: LineOut, cursor: Option<usize>) -> RowCtx {
    RowCtx {
        pl,
        cursor,
        expanded: expanded_at(pl, cursor),
        whole: reveals_whole(logical_line, pl, cursor, false),
    }
}

/// The segments of a visual row `content` of `logical_line`, starting at
/// char `vs` of it. A horizontal rule's first row is its source under the
/// caret, else a bar across the width. A fenced code row draws as itself,
/// tabs expanded. Any other row draws its drawn chars split where the style
/// key (element, sigil, revealed, emphasis bits) changes, image
/// placeholders in place of their source, and, with the caret off the row,
/// a blockquote's bar gutter in front.
pub open spec fn render_spec(
    content: Seq<char>,
    logical_line: Seq<char>,
    pl: LineOut,
    vs: int,
    cursor: Option<usize>,
    first: bool,
    force_raw: bool,
    width: u16,
) -> Seq<(Seq<char>, SegStyle)> {
    if first && is_rule(logical_line) {
        if cursor is Some {
            seq![(content, SegStyle::Gray)]
        } else {
            seq![(Seq::new(width as nat, |i: int| '─'), SegStyle::Gray)]
        }
    } else if force_raw {
        seq![(raw_expand(grapheme_clusters(content), 0), SegStyle::Fg)]
    } else {
        let ctx = row_ctx(logical_line, pl, cursor);
        let body = flushed(pl, render_walk(ctx, grapheme_clusters(content), vs, empty_state())).segs;
        if cursor is None && pl.blockquote_depth is Some {
            seq![(gutter(pl.blockquote_depth.unwrap()), SegStyle::BlockquoteBar)] + body
        } else {
            body
        }
    }
}

// ---------------------------------------------------------------------------

/// The texts of segments, joined.
pub open spec fn texts(segs: Seq<(Seq<char>, SegStyle)>) -> Seq<char>
    decreases segs.len(),
{
    if segs.len() == 0 {
        Seq::empty()
    } else {
        texts(segs.drop_last()) + segs.last().0
    }
}

/// The chars drawn for one cluster at char `pos` from visual column `vcol`
/// (a placeholder starting there, then the cluster if drawn), and the
/// column after them.
pub open spec fn step_drawn(ctx: RowCtx, c: Seq<char>, pos: int, vcol: int) -> (Seq<char>, int) {
    let (ph, v1) = match placeholder_at(ctx, pos) {
        Some((text, w)) => (text, sat_add(vcol, w as int)),
        None => (Seq::empty(), vcol),
    };
    if draws(ctx, pos) {
        let (t, v2) = cluster_text(c, v1);
        (ph + t, v2)
    } else {
        (ph, v1)
    }
}

/// The chars drawn for clusters `cs` (the first at char `pos`), from visual
/// column `vcol`: placeholders and drawn clusters, tabs expanded.
pub open spec fn drawn_from(ctx: RowCtx, cs: Seq<Seq<char>>, pos: int, vcol: int) -> Seq<char>
    decreases cs.len(),
{
    if cs.len() == 0 {
        Seq::empty()
    } else {
        let (d, v) = step_drawn(ctx, cs[0], pos, vcol);
        d + drawn_from(ctx, cs.drop_first(), pos + cs[0].len(), v)
    }
}

proof fn lemma_flushed_keeps_text(pl: LineOut, st: RenderState)
    ensures
        texts(flushed(pl, st).segs) + flushed(pl, st).cur == texts(st.segs) + st.cur,
        flushed(pl, st).vcol == st.vcol,
{
    if st.cur.len() > 0 {
        let f = flushed(pl, st);
        assert(f.segs.drop_last() == st.segs);
        assert(f.cur =~= Seq::<char>::empty());
        assert(texts(f.segs) + f.cur =~= texts(st.segs) + st.cur);
    } else {
        assert(st.cur =~= Seq::<char>::empty());
        assert(texts(st.segs) + st.cur =~= texts(st.segs));
    }
}

proof fn lemma_placeholder_draws(ctx: RowCtx, st: RenderState, pos: int) -> (s1: RenderState)
    ensures
        s1 == (match placeholder_at(ctx, pos) {
            Some((text, w)) => {
                let f = flushed(ctx.pl, st);
                reset_key(RenderState { segs: f.segs.push((text, SegStyle::Image)), vcol: sat_add(f.vcol, w as int), ..f })
            },
            None => st,
        }),
        texts(s1.segs) + s1.cur == texts(st.segs) + st.cur + (match placeholder_at(ctx, pos) {
            Some((text, w)) => text,
            None => Seq::<char>::empty(),
        }),
        s1.vcol == (match placeholder_at(ctx, pos) {
            Some((text, w)) => sat_add(st.vcol, w as int),
            None => st.vcol,
        }),
{
    lemma_flushed_keeps_text(ctx.pl, st);
    match placeholder_at(ctx, pos) {
        Some((text, w)) => {
            let f = flushed(ctx.pl, st);
            let g = f.segs.push((text, SegStyle::Image));
            let s1 = reset_key(RenderState { segs: g, vcol: sat_add(f.vcol, w as int), ..f });
            assert(g.drop_last() == f.segs);
            assert(f.cur =~= Seq::<char>::empty());
            assert(texts(g) == texts(f.segs) + text);
            assert(texts(f.segs) + f.cur =~= texts(f.segs));
            assert(texts(g) + f.cur =~= (texts(st.segs) + st.cur) + text);
            s1
        },
        None => {
            assert(texts(st.segs) + st.cur + Seq::<char>::empty() =~= texts(st.segs) + st.cur);
            st
        },
    }
}

proof fn lemma_step_draws(ctx: RowCtx, st: RenderState, c: Seq<char>, pos: int)
    ensures
        texts(render_step(ctx, st, c, pos).segs) + render_step(ctx, st, c, pos).cur == texts(st.segs) + st.cur
            + step_drawn(ctx, c, pos, st.vcol).0,
        render_step(ctx, st, c, pos).vcol == step_drawn(ctx, c, pos, st.vcol).1,
{
    let s1 = lemma_placeholder_draws(ctx, st, pos);
    let ph = match placeholder_at(ctx, pos) {
        Some((text, w)) => text,
        None => Seq::<char>::empty(),
    };
    lemma_flushed_keeps_text(ctx.pl, s1);
    let s = render_step(ctx, st, c, pos);
    if !draws(ctx, pos) {
        assert(s == reset_key(flushed(ctx.pl, s1)));
    } else {
        let exp = in_expanded(ctx, pos) || ctx.whole;
        let sigil = in_sigil(ctx, pos) && !is_content(ctx.pl, pos) && !exp;
        let mods = mods_at(ctx.pl.elements, pos);
        let elem = ctx.pl.elem_at(pos);
        let s2 = if elem != s1.elem || sigil != s1.sigil || exp != s1.exp || mods != s1.mods {
            RenderState { elem, sigil, exp, mods, ..flushed(ctx.pl, s1) }
        } else {
            s1
        };
        assert(texts(s2.segs) + s2.cur == texts(s1.segs) + s1.cur && s2.vcol == s1.vcol);
        let (t, v2) = cluster_text(c, s1.vcol);
        assert(s == RenderState { cur: s2.cur + t, vcol: v2, ..s2 });
        assert(texts(s.segs) + s.cur =~= (texts(s2.segs) + s2.cur) + t);
        assert(texts(st.segs) + st.cur + (ph + t) =~= (texts(st.segs) + st.cur + ph) + t);
    }
}

proof fn lemma_walk_draws(ctx: RowCtx, cs: Seq<Seq<char>>, pos: int, st: RenderState)
    ensures
        texts(render_walk(ctx, cs, pos, st).segs) + render_walk(ctx, cs, pos, st).cur == texts(st.segs) + st.cur
            + drawn_from(ctx, cs, pos, st.vcol),
    decreases cs.len(),
{
    if cs.len() == 0 {
        assert(texts(st.segs) + st.cur + Seq::<char>::empty() =~= texts(st.segs) + st.cur);
    } else {
        let s = render_step(ctx, st, cs[0], pos);
        lemma_step_draws(ctx, st, cs[0], pos);
        lemma_walk_draws(ctx, cs.drop_first(), pos + cs[0].len(), s);
        let (d, v) = step_drawn(ctx, cs[0], pos, st.vcol);
        let rest = drawn_from(ctx, cs.drop_first(), pos + cs[0].len(), v);
        assert(drawn_from(ctx, cs, pos, st.vcol) == d + rest);
        assert(texts(st.segs) + st.cur + (d + rest) =~= (texts(st.segs) + st.cur + d) + rest);
    }
}

/// The drawn segments of a row join to its drawn chars: the gutter (caret
/// off a quote row), then every placeholder and drawn cluster in order,
/// tabs expanded; nothing is lost or repeated between segments.
pub proof fn law_segments_join_to_the_drawn_chars(
    content: Seq<char>,
    logical_line: Seq<char>,
    pl: LineOut,
    vs: int,
    cursor: Option<usize>,
    first: bool,
    width: u16,
)
    requires
        !(first && is_rule(logical_line)),
    ensures
        texts(render_spec(content, logical_line, pl, vs, cursor, first, false, width)) == (if cursor is None
            && pl.blockquote_depth is Some {
            gutter(pl.blockquote_depth.unwrap())
        } else {
            Seq::empty()
        }) + drawn_from(row_ctx(logical_line, pl, cursor), grapheme_clusters(content), vs, 0),
{
    let ctx = row_ctx(logical_line, pl, cursor);
    let cs = grapheme_clusters(content);
    let w = render_walk(ctx, cs, vs, empty_state());
    lemma_walk_draws(ctx, cs, vs, empty_state());
    lemma_flushed_keeps_text(pl, w);
    let f = flushed(pl, w);
    assert(f.cur.len() == 0);
    assert(f.cur =~= Seq::<char>::empty());
    assert(texts(Seq::<(Seq<char>, SegStyle)>::empty()) =~= Seq::<char>::empty());
    assert(texts(f.segs) =~= texts(f.segs) + f.cur);
    assert(texts(empty_state().segs) + empty_state().cur =~= Seq::<char>::empty());
    assert(texts(f.segs) =~= drawn_from(ctx, cs, vs, 0));
    if cursor is None && pl.blockquote_depth is Some {
        let gs = seq![(gutter(pl.blockquote_depth.unwrap()), SegStyle::BlockquoteBar)];
        lemma_texts_concat(gs, f.segs);
        assert(gs.drop_last() =~= Seq::<(Seq<char>, SegStyle)>::empty());
        assert(texts(gs) =~= gutter(pl.blockquote_depth.unwrap()));
    } else {
        assert(Seq::<char>::empty() + drawn_from(ctx, cs, vs, 0) =~= drawn_from(ctx, cs, vs, 0));
    }
}

proof fn lemma_render_width(ctx: RowCtx, rv: Reveal, cs: Seq<Seq<char>>, pos: int, end: int, st: RenderState)
    requires
        end == pos + cs.flatten().len(),
        pos >= 0,
        forall|i: int| #![trigger cs[i]] 0 <= i < cs.len() ==> cs[i].len() > 0,
        0 <= st.vcol <= usize::MAX,
        ctx.expanded == rv.expanded,
        forall|p: int| #[trigger] draws(ctx, p) == shown(ctx.pl, p, rv),
    ensures
        render_walk(ctx, cs, pos, st).vcol == col_walk(cs, ctx.pl, rv, 0, end, pos, st.vcol),
    decreases cs.len(),
{
    if cs.len() > 0 {
        let pl = ctx.pl;
        let c = cs[0];
        let rest = cs.drop_first();
        let next = pos + c.len();
        assert(cs.flatten() == c + rest.flatten());
        assert(c.len() > 0);
        assert(pos < end);
        let s1 = lemma_placeholder_draws(ctx, st, pos);
        lemma_flushed_keeps_text(pl, st);
        let c1 = sat_add(st.vcol, img_cols(pl, pos, rv.expanded));
        assert(s1.vcol == c1);
        assert(0 <= c1 <= usize::MAX);
        lemma_flushed_keeps_text(pl, s1);
        let s = render_step(ctx, st, c, pos);
        assert(draws(ctx, pos) == shown(pl, pos, rv));
        if draws(ctx, pos) {
            assert(s.vcol == sat_add(c1, cluster_width_at_spec(c, c1) as int));
        } else {
            assert(s.vcol == c1);
        }
        assert forall|i: int| #![trigger rest[i]] 0 <= i < rest.len() implies rest[i].len() > 0 by {
            assert(rest[i] == cs[i + 1]);
        }
        lemma_render_width(ctx, rv, rest, next, end, s);
    }
}

/// On a row drawn in one visual row with the caret on it, the column the
/// renderer reaches at the row's end is the rendered column of the row's
/// end: the drawn placeholders and clusters take exactly the cells the
/// column mapping counts. Needs the line's element lookup to agree with its
/// element table (as it does on every parsed line) and its clusters to be
/// the non-empty pieces of the line.
pub proof fn law_drawn_width_is_the_rendered_row_width(line: Seq<char>, pl: LineOut, cursor: usize)
    requires
        !is_rule(line),
        grapheme_clusters(line).flatten() == line,
        forall|i: int|
            #![trigger grapheme_clusters(line)[i]]
            0 <= i < grapheme_clusters(line).len() ==> grapheme_clusters(line)[i].len() > 0,
        forall|p: int| (#[trigger] pl.elem_at(p) is None) == !pl.in_any_element(p),
    ensures
        render_walk(row_ctx(line, pl, Some(cursor)), grapheme_clusters(line), 0, empty_state()).vcol
            == rendered_col_spec(line, pl, 0, line.len() as int, Some(cursor), true, false),
{
    let ctx = row_ctx(line, pl, Some(cursor));
    let rv = reveal_for(line, pl, Some(cursor), true);
    assert forall|p: int| #[trigger] draws(ctx, p) == shown(pl, p, rv) by {
        assert((pl.elem_at(p) is None) == !pl.in_any_element(p));
    }
    lemma_render_width(ctx, rv, grapheme_clusters(line), 0, line.len() as int, empty_state());
}

proof fn lemma_texts_concat(a: Seq<(Seq<char>, SegStyle)>, b: Seq<(Seq<char>, SegStyle)>)
    ensures
        texts(a + b) == texts(a) + texts(b),
    decreases b.len(),
{
    if b.len() == 0 {
        assert(a + b =~= a);
        assert(texts(a) + Seq::<char>::empty() =~= texts(a));
    } else {
        assert((a + b).drop_last() =~= a + b.drop_last());
        assert((a + b).last() == b.last());
        lemma_texts_concat(a, b.drop_last());
        assert(texts(a) + texts(b.drop_last()) + b.last().0 =~= texts(a) + (texts(b.drop_last()) + b.last().0));
    }
}

// ---------------------------------------------------------------------------

/// The segments being built, as exec values.
struct RenderBuf {
    segs: Vec<(String, SegStyle)>,
    cur: Vec<char>,
    elem: Option<usize>,
    sigil: bool,
    exp: bool,
    mods: u8,
    vcol: usize,
}

impl RenderBuf {
    spec fn view(&self) -> RenderState {
        RenderState {
            segs: self.segs@.map_values(|s: (String, SegStyle)| (s.0@, s.1)),
            cur: self.cur@,
            elem: self.elem,
            sigil: self.sigil,
            exp: self.exp,
            mods: self.mods,
            vcol: self.vcol as int,
        }
    }

    /// The open segment's element names an element of `pl`.
    spec fn fits(&self, pl: LineOut) -> bool {
        self.elem matches Some(i) ==> i < pl.elements.len()
    }
}

/// The emphasis bits at `pos`.
fn mods_exec(pl: &ParsedLine, pos: usize) -> (m: u8)
    ensures
        m == mods_at(pl@.elements, pos as int),
{
    let ghost els = pl@.elements;
    let mut b = false;
    let mut it = false;
    let mut st = false;
    let mut i: usize = 0;
    while i < pl.elements.len()
        invariant
            i <= els.len(),
            els == pl@.elements,
            b == exists|j: int| 0 <= j < i && els[j].kind == ElementKind::Bold && #[trigger] els[j].start_char <= pos < els[j].end_char,
            it == exists|j: int| 0 <= j < i && els[j].kind == ElementKind::Italic && #[trigger] els[j].start_char <= pos < els[j].end_char,
            st == exists|j: int| 0 <= j < i && els[j].kind == ElementKind::Strikethrough && #[trigger] els[j].start_char <= pos < els[j].end_char,
        decreases els.len() - i,
    {
        let e = pl.elements[i];
        assert(els[i as int] == e);
        if e.start_char <= pos && pos < e.end_char {
            if e.kind == ElementKind::Bold {
                b = true;
            } else if e.kind == ElementKind::Italic {
                it = true;
            } else if e.kind == ElementKind::Strikethrough {
                st = true;
            }
        }
        i += 1;
    }
    let m: u8 = (if b { 1u8 } else { 0u8 }) + (if it { 2u8 } else { 0u8 }) + (if st { 4u8 } else { 0u8 });
    m
}

/// Closes the open segment when it holds text.
fn flush_exec(pl: &ParsedLine, buf: &mut RenderBuf)
    requires
        old(buf).fits(pl@),
    ensures
        final(buf)@ == flushed(pl@, old(buf)@),
        final(buf).fits(pl@),
{
    if buf.cur.len() == 0 {
        return;
    }
    let style = if buf.exp {
        SegStyle::Gray
    } else {
        let kind = match buf.elem {
            Some(i) => Some(pl.elements[i].kind),
            None => None,
        };
        SegStyle::Element { kind, sigil: buf.sigil, mods: buf.mods }
    };
    let text = string_from_chars(&buf.cur);
    let ghost before = buf.segs@;
    buf.segs.push((text, style));
    buf.cur = Vec::new();
    assert(buf.segs@.map_values(|s: (String, SegStyle)| (s.0@, s.1)) =~= before.map_values(
        |s: (String, SegStyle)| (s.0@, s.1),
    ).push((old(buf)@.cur, seg_style(pl@, old(buf).elem, old(buf).sigil, old(buf).exp, old(buf).mods))));
}

/// Appends a cluster drawn at the buffer's visual column.
fn push_cluster(buf: &mut RenderBuf, c: &Vec<char>)
    ensures
        final(buf)@ == (RenderState {
            cur: old(buf)@.cur + cluster_text(c@, old(buf)@.vcol).0,
            vcol: cluster_text(c@, old(buf)@.vcol).1,
            ..old(buf)@
        }),
        final(buf).elem == old(buf).elem,
{
    if c.len() == 1 && c[0] == '\t' {
        assert(c@ == seq!['\t']);
        let tw = tab_width_at(buf.vcol);
        let ghost before = buf.cur@;
        let mut k: usize = 0;
        while k < tw
            invariant
                k <= tw,
                buf.cur@ == before + Seq::new(k as nat, |i: int| ' '),
                buf.segs == old(buf).segs,
                buf.elem == old(buf).elem,
                buf.sigil == old(buf).sigil,
                buf.exp == old(buf).exp,
                buf.mods == old(buf).mods,
                buf.vcol == old(buf).vcol,
            decreases tw - k,
        {
            buf.cur.push(' ');
            k += 1;
            assert(buf.cur@ =~= before + Seq::new(k as nat, |i: int| ' '));
        }
        buf.vcol = buf.vcol.saturating_add(tw);
    } else {
        assert(c@ != seq!['\t']) by {
            if c@ == seq!['\t'] {
                assert(c@.len() == 1);
            }
        }
        let ghost before = buf.cur@;
        let mut k: usize = 0;
        while k < c.len()
            invariant
                k <= c@.len(),
                buf.cur@ == before + c@.take(k as int),
                buf.segs == old(buf).segs,
                buf.elem == old(buf).elem,
                buf.sigil == old(buf).sigil,
                buf.exp == old(buf).exp,
                buf.mods == old(buf).mods,
                buf.vcol == old(buf).vcol,
            decreases c.len() - k,
        {
            buf.cur.push(c[k]);
            k += 1;
            assert(buf.cur@ =~= before + c@.take(k as int));
        }
        assert(c@.take(c@.len() as int) == c@);
        let w = cluster_display_width(c.as_slice());
        buf.vcol = buf.vcol.saturating_add(w);
    }
}

impl MarkdownSpanner {
    /// The drawn segments of visual row `content` of `logical_line` (which
    /// starts at char `visual_start_col` of it), each with its style class;
    /// `available_width` is the width a horizontal rule's bar spans.
    pub fn render_segments(
        content: &str,
        logical_line: &str,
        parsed: &ParsedLine,
        visual_start_col: usize,
        cursor_col: Option<usize>,
        is_first_visual_line: bool,
        force_raw: bool,
        available_width: u16,
    ) -> (segs: Vec<(String, SegStyle)>)
        requires
            parsed.wf(),
            crate::text::bytes_len(logical_line@) <= usize::MAX,
            visual_start_col + content@.len() <= usize::MAX,
        ensures
            segs@.map_values(|s: (String, SegStyle)| (s.0@, s.1)) == render_spec(
                content@,
                logical_line@,
                parsed@,
                visual_start_col as int,
                cursor_col,
                is_first_visual_line,
                force_raw,
                available_width,
            ),
    {
        let line = chars_of(logical_line);
        if is_first_visual_line && is_rule_exec(&line) {
            let text = if cursor_col.is_some() {
                String::from_str(content)
            } else {
                let mut bar: Vec<char> = Vec::new();
                let mut k: u16 = 0;
                while k < available_width
                    invariant
                        k <= available_width,
                        bar@ == Seq::new(k as nat, |i: int| '─'),
                    decreases available_width - k,
                {
                    bar.push('─');
                    k += 1;
                    assert(bar@ =~= Seq::new(k as nat, |i: int| '─'));
                }
                string_from_chars(&bar)
            };
            let mut out: Vec<(String, SegStyle)> = Vec::new();
            out.push((text, SegStyle::Gray));
            assert(out@.map_values(|s: (String, SegStyle)| (s.0@, s.1)) =~= render_spec(
                content@,
                logical_line@,
                parsed@,
                visual_start_col as int,
                cursor_col,
                is_first_visual_line,
                force_raw,
                available_width,
            ));
            return out;
        }
        let cs = clusters(content);
        let ghost g = grapheme_clusters(content@);
        if force_raw {
            let mut buf = RenderBuf { segs: Vec::new(), cur: Vec::new(), elem: None, sigil: false, exp: false, mods: 0, vcol: 0 };
            let mut i: usize = 0;
            assert(g.skip(0) == g);
            while i < cs.len()
                invariant
                    i <= cs@.len() == g.len(),
                    forall|k: int| #![trigger cs@[k]] 0 <= k < cs@.len() ==> cs@[k]@ == g[k],
                    buf.cur@ + raw_expand(g.skip(i as int), buf.vcol as int) == raw_expand(g, 0),
                decreases cs.len() - i,
            {
                let ghost rest = g.skip(i as int);
                assert(rest[0] == cs@[i as int]@);
                assert(rest.drop_first() == g.skip(i + 1));
                let ghost before = buf@;
                push_cluster(&mut buf, &cs[i]);
                assert(buf.cur@ + raw_expand(g.skip(i + 1), buf.vcol as int) =~= before.cur + raw_expand(rest, before.vcol));
                i += 1;
            }
            assert(g.skip(i as int).len() == 0);
            assert(buf.cur@ + raw_expand(g.skip(i as int), buf.vcol as int) =~= buf.cur@);
            let mut out: Vec<(String, SegStyle)> = Vec::new();
            out.push((string_from_chars(&buf.cur), SegStyle::Fg));
            assert(out@.map_values(|s: (String, SegStyle)| (s.0@, s.1)) =~= render_spec(
                content@,
                logical_line@,
                parsed@,
                visual_start_col as int,
                cursor_col,
                is_first_visual_line,
                force_raw,
                available_width,
            ));
            return out;
        }
        let expanded = expanded_exec(parsed, cursor_col);
        let whole = Self::row_reveals_whole(logical_line, parsed, cursor_col, false);
        let ghost ctx = row_ctx(logical_line@, parsed@, cursor_col);
        let hse = parsed.heading_sigil_end();
        let lse = parsed.list_sigil_end;
        let bqe = if cursor_col.is_some() {
            parsed.blockquote_sigil_end()
        } else {
            None
        };
        let mut buf = RenderBuf { segs: Vec::new(), cur: Vec::new(), elem: None, sigil: false, exp: false, mods: 0, vcol: 0 };
        assert(buf@.segs =~= empty_state().segs);
        assert(buf@ == empty_state());
        let mut pos = visual_start_col;
        let mut i: usize = 0;
        assert(g.skip(0) == g);
        let ghost target = render_walk(ctx, g, visual_start_col as int, empty_state());
        while i < cs.len()
            invariant
                i <= cs@.len() == g.len(),
                g == grapheme_clusters(content@),
                g.flatten() == content@,
                forall|k: int| #![trigger cs@[k]] 0 <= k < cs@.len() ==> cs@[k]@ == g[k],
                pos + g.skip(i as int).flatten().len() == visual_start_col + content@.len(),
                visual_start_col + content@.len() <= usize::MAX,
                parsed.wf(),
                ctx == row_ctx(logical_line@, parsed@, cursor_col),
                expanded == ctx.expanded,
                whole == ctx.whole,
                hse == parsed@.heading_sigil_end(),
                lse == parsed@.list_sigil_end,
                bqe == (if cursor_col is Some { parsed@.blockquote_sigil_end() } else { None }),
                buf.fits(parsed@),
                render_walk(ctx, g.skip(i as int), pos as int, buf@) == target,
            decreases cs.len() - i,
        {
            let ghost rest = g.skip(i as int);
            assert(rest[0] == cs@[i as int]@);
            assert(rest.drop_first() == g.skip(i + 1));
            assert(rest.flatten() == rest[0] + rest.drop_first().flatten());
            let c = &cs[i];
            let ghost st0 = buf@;
            // An image placeholder starting here.
            match first_img_exec(parsed, pos) {
                Some(j) => {
                    let img = &parsed.image_placeholders[j];
                    assert(parsed@.images[j as int] == crate::markdown::post::ip_view(*img));
                    let in_img = match expanded {
                        Some(e) => e < parsed.elements.len() && parsed.elements[e].start_char == img.start_char
                            && parsed.elements[e].end_char == img.end_char,
                        None => false,
                    };
                    if !in_img {
                        flush_exec(parsed, &mut buf);
                        let ghost before = buf.segs@;
                        buf.segs.push((img.placeholder.clone(), SegStyle::Image));
                        assert(buf.segs@.map_values(|s: (String, SegStyle)| (s.0@, s.1)) =~= before.map_values(
                            |s: (String, SegStyle)| (s.0@, s.1),
                        ).push((img.placeholder@, SegStyle::Image)));
                        buf.vcol = buf.vcol.saturating_add(img.placeholder_width);
                        buf.elem = None;
                        buf.sigil = false;
                        buf.exp = false;
                        buf.mods = 0;
                    }
                },
                None => {},
            }
            let ghost s1 = buf@;
            assert(s1 == match placeholder_at(ctx, pos as int) {
                Some((text, w)) => {
                    let f = flushed(ctx.pl, st0);
                    reset_key(RenderState { segs: f.segs.push((text, SegStyle::Image)), vcol: sat_add(f.vcol, w as int), ..f })
                },
                None => st0,
            });
            let content_here = pos < parsed.content_vis.len() && parsed.content_vis[pos];
            let in_h = match hse {
                Some(e) => pos < e,
                None => false,
            };
            let in_l = match lse {
                Some(e) => pos < e,
                None => false,
            };
            let in_b = match bqe {
                Some(e) => pos < e,
                None => false,
            };
            let in_exp = match expanded {
                Some(e) => e < parsed.elements.len() && parsed.elements[e].start_char <= pos && pos < parsed.elements[e].end_char,
                None => false,
            };
            let this_elem = parsed.elem_at(pos);
            assert(in_h || in_l || in_b <==> in_sigil(ctx, pos as int));
            assert(in_exp == in_expanded(ctx, pos as int));
            let emit = content_here || in_h || in_l || in_b || in_exp || whole || this_elem.is_none();
            assert(emit == draws(ctx, pos as int));
            if !emit {
                flush_exec(parsed, &mut buf);
                buf.elem = None;
                buf.sigil = false;
                buf.exp = false;
                buf.mods = 0;
            } else {
                let this_exp = in_exp || whole;
                let this_sigil = (in_h || in_l || in_b) && !content_here && !this_exp;
                let this_mods = mods_exec(parsed, pos);
                proof {
                    if let Some(k) = this_elem {
                        assert(parsed@.elem_index[pos as int] as int <= parsed@.elements.len());
                    }
                }
                if this_elem != buf.elem || this_sigil != buf.sigil || this_exp != buf.exp || this_mods != buf.mods {
                    flush_exec(parsed, &mut buf);
                    buf.elem = this_elem;
                    buf.sigil = this_sigil;
                    buf.exp = this_exp;
                    buf.mods = this_mods;
                }
                push_cluster(&mut buf, c);
            }
            assert(buf@ == render_step(ctx, st0, rest[0], pos as int));
            pos = pos + c.len();
            i += 1;
        }
        assert(g.skip(i as int).len() == 0);
        assert(buf@ == target);
        flush_exec(parsed, &mut buf);
        let ghost body = buf@.segs;
        assert(body == flushed(parsed@, target).segs);
        let mut out: Vec<(String, SegStyle)> = Vec::new();
        match (cursor_col, parsed.blockquote_depth) {
            (None, Some(d)) => {
                let mut gt: Vec<char> = Vec::new();
                let mut k: u8 = 0;
                while k < d
                    invariant
                        k <= d,
                        gt@ == Seq::new(k as nat, |i: int| '│'),
                    decreases d - k,
                {
                    gt.push('│');
                    k += 1;
                    assert(gt@ =~= Seq::new(k as nat, |i: int| '│'));
                }
                gt.push(' ');
                assert(gt@ =~= gutter(d));
                out.push((string_from_chars(&gt), SegStyle::BlockquoteBar));
            },
            _ => {},
        }
        let ghost front = out@.map_values(|s: (String, SegStyle)| (s.0@, s.1));
        assert(front =~= (if cursor_col is None && parsed@.blockquote_depth is Some {
            seq![(gutter(parsed@.blockquote_depth.unwrap()), SegStyle::BlockquoteBar)]
        } else {
            Seq::empty()
        }));
        assert(line@ == logical_line@);
        assert(!(is_first_visual_line && is_rule(logical_line@)));
        out.append(&mut buf.segs);
        assert(out@.map_values(|s: (String, SegStyle)| (s.0@, s.1)) =~= front + body);
        out
    }
}

} // verus!
