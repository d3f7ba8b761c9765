//! The event walk of a full-buffer parse, one CommonMark event at a time.
use vstd::prelude::*;
use crate::markdown::{
    Element, ElementKind, LineConstructKind, list_marker_len, slice_from, tag_to_kind,
};
use crate::markdown::cmark::{MdClass, MdEvent, MdTag};
use crate::markdown::layout::{
    blens_ok, col_in_row, lemma_row_search, lemma_start_of_mono, row_col, row_search,
    row_unclamped, search_row, start_of, starts_ok,
};
use crate::markdown::parse_spec::{
    AccV, acc_init, add_at, blank_or_plain, closes_styled, code_len, emit_span, fill_kinds,
    html_kinds, is_lazy_tag, lazy_step, main_step, mark_full_rows, mark_text, middle_rows, mk_el,
    push_el, set_bools, step, walk,
};
use crate::text::{any_non_ws, blank_len, char_index_at, chars_of, lead_blank};

verus! {

/// The lines of the buffer with their byte layout.
pub struct Ctx {
    pub ls: Vec<Vec<char>>,
    pub starts: Vec<usize>,
    pub blens: Vec<usize>,
}

impl Ctx {
    pub open spec fn lv(&self) -> Seq<Seq<char>> {
        self.ls@.map_values(|v: Vec<char>| v@)
    }

    pub open spec fn wf(&self) -> bool {
        &&& self.ls@.len() >= 1
        &&& starts_ok(self.lv(), self.starts@)
        &&& blens_ok(self.lv(), self.blens@)
    }
}

/// Exec state of the walk.
pub struct Acc {
    pub cv: Vec<Vec<bool>>,
    pub els: Vec<Vec<Element>>,
    pub lse: Vec<Option<usize>>,
    pub stack: Vec<(usize, usize, ElementKind)>,
    pub kinds: Vec<LineConstructKind>,
    pub lazy: Vec<i128>,
    pub icb: Option<bool>,
    pub cb_ranges: Vec<(usize, usize)>,
    pub cb_depth: usize,
    pub cb_start: Option<usize>,
}

pub open spec fn abs(x: int) -> int {
    if x < 0 {
        -x
    } else {
        x
    }
}

/// Sum of absolute values.
pub open spec fn abs_sum(s: Seq<int>) -> int
    decreases s.len(),
{
    if s.len() == 0 {
        0
    } else {
        abs_sum(s.drop_last()) + abs(s.last())
    }
}

pub proof fn lemma_abs_sum_nonneg(s: Seq<int>)
    ensures
        abs_sum(s) >= 0,
    decreases s.len(),
{
    if s.len() > 0 {
        lemma_abs_sum_nonneg(s.drop_last());
    }
}

pub proof fn lemma_abs_sum_update(s: Seq<int>, r: int, d: int)
    requires
        0 <= r < s.len(),
    ensures
        abs_sum(s.update(r, s[r] + d)) <= abs_sum(s) + abs(d),
    decreases s.len(),
{
    let t = s.update(r, s[r] + d);
    if r == s.len() - 1 {
        assert(t.drop_last() == s.drop_last());
    } else {
        assert(t.drop_last() == s.drop_last().update(r, s[r] + d));
        lemma_abs_sum_update(s.drop_last(), r, d);
    }
}

pub proof fn lemma_abs_sum_elem(s: Seq<int>, r: int)
    requires
        0 <= r < s.len(),
    ensures
        abs(s[r]) <= abs_sum(s),
    decreases s.len(),
{
    lemma_abs_sum_nonneg(s.drop_last());
    if r < s.len() - 1 {
        lemma_abs_sum_elem(s.drop_last(), r);
    }
}

impl Acc {
    pub open spec fn view(&self) -> AccV {
        AccV {
            cv: self.cv@.map_values(|v: Vec<bool>| v@),
            els: self.els@.map_values(|v: Vec<Element>| v@),
            lse: self.lse@,
            stack: self.stack@,
            kinds: self.kinds@,
            lazy: self.lazy@.map_values(|x: i128| x as int),
            icb: self.icb,
            cb_ranges: self.cb_ranges@,
            cb_depth: self.cb_depth as nat,
            cb_start: self.cb_start,
        }
    }

    /// Shapes match the buffer and the counters are bounded by the number
    /// `k` of events walked.
    pub open spec fn inv(&self, ls: Seq<Seq<char>>, k: int) -> bool {
        &&& self.shape(ls)
        &&& abs_sum(self.view().lazy) <= k
        &&& self.cb_depth <= k
        &&& 0 <= k
    }

    /// Shapes match the buffer.
    pub open spec fn shape(&self, ls: Seq<Seq<char>>) -> bool {
        &&& self.cv@.len() == ls.len()
        &&& forall|r: int| #![trigger self.cv@[r]] 0 <= r < ls.len() ==> self.cv@[r]@.len() == ls[r].len()
        &&& self.els@.len() == ls.len()
        &&& self.lse@.len() == ls.len()
        &&& self.kinds@.len() == ls.len()
        &&& self.lazy@.len() == ls.len() + 1
        &&& forall|j: int| #![trigger self.stack@[j]] 0 <= j < self.stack@.len() ==> self.stack@[j].0 < ls.len()
    }
}

/// `(row, char column)` of byte `b`.
pub fn byte_to_row_col(ctx: &Ctx, b: usize) -> (r: (usize, usize))
    requires
        ctx.wf(),
    ensures
        r.0 as int == row_col(ctx.lv(), b as int).0,
        r.1 as int == row_col(ctx.lv(), b as int).1,
        r.0 < ctx.ls@.len(),
        r.1 <= ctx.lv()[r.0 as int].len(),
{
    let ghost ls = ctx.lv();
    let big = search_row(&ctx.starts, Ghost(ls), b);
    proof {
        lemma_row_search(ls, b as int, ls.len() as int);
    }
    let n = ctx.ls.len();
    let r = if big < n - 1 { big } else { n - 1 };
    proof {
        lemma_start_of_mono(ls, r as int, big as int);
    }
    let within = b - ctx.starts[r];
    let bl = ctx.blens[r];
    let x = if within < bl { within } else { bl };
    let c = char_index_at(&ctx.ls[r], x);
    assert(ctx.ls@[r as int]@ == ls[r as int]);
    (r, c)
}

/// Row of byte `b`, `ls.len()` past the end of the last line's content.
pub fn byte_to_row_col_unclamped(ctx: &Ctx, b: usize) -> (r: usize)
    requires
        ctx.wf(),
    ensures
        r as int == row_unclamped(ctx.lv(), b as int),
        r <= ctx.ls@.len(),
{
    let ghost ls = ctx.lv();
    let big = search_row(&ctx.starts, Ghost(ls), b);
    proof {
        lemma_row_search(ls, b as int, ls.len() as int);
    }
    let n = ctx.ls.len();
    if ctx.starts[big] == b {
        big
    } else if big >= n {
        n
    } else if big == n - 1 && b - ctx.starts[big] >= ctx.blens[big] {
        n
    } else {
        big
    }
}

/// `row[a..b] = v` (clipped to the row).
pub fn set_range(row: &mut Vec<bool>, a: usize, b: usize, v: bool)
    ensures
        final(row)@ == set_bools(old(row)@, a as int, b as int, v),
{
    let mut k = a;
    let ghost orig = old(row)@;
    while k < b && k < row.len()
        invariant
            a <= k,
            k == a || k <= b,
            row@.len() == orig.len(),
            forall|j: int|
                0 <= j < row@.len() ==> row@[j] == (if a <= j < k { v } else { orig[j] }),
        decreases row.len() - k,
    {
        row.set(k, v);
        k += 1;
    }
    assert forall|j: int| 0 <= j < orig.len() implies #[trigger] row@[j] == set_bools(
        orig,
        a as int,
        b as int,
        v,
    )[j] by {
        assert(row@[j] == (if a <= j < k { v } else { orig[j] }));
        assert(!(k < b && k < row@.len()));
        assert(set_bools(orig, a as int, b as int, v).len() == orig.len());
        assert(set_bools(orig, a as int, b as int, v)[j] == (if a <= j < b { v } else { orig[j] }));
        if a <= j < b {
            assert(j < k);
        }
    }
    assert(row@ =~= set_bools(orig, a as int, b as int, v));
}

/// `cv[r][a..b] = v`.
fn set_cv(cv: &mut Vec<Vec<bool>>, r: usize, a: usize, b: usize, v: bool)
    requires
        r < old(cv)@.len(),
    ensures
        final(cv)@.map_values(|x: Vec<bool>| x@) == old(cv)@.map_values(|x: Vec<bool>| x@).update(
            r as int,
            set_bools(old(cv)@[r as int]@, a as int, b as int, v),
        ),
        final(cv)@.len() == old(cv)@.len(),
        final(cv)@[r as int]@ == set_bools(old(cv)@[r as int]@, a as int, b as int, v),
        forall|q: int| #![trigger final(cv)@[q]] 0 <= q < old(cv)@.len() && q != r ==> final(cv)@[q] == old(cv)@[q],
{
    let mut row: Vec<bool> = Vec::new();
    cv.set_and_swap(r, &mut row);
    set_range(&mut row, a, b, v);
    cv.set(r, row);
    assert(cv@.map_values(|x: Vec<bool>| x@) =~= old(cv)@.map_values(|x: Vec<bool>| x@).update(
        r as int,
        set_bools(old(cv)@[r as int]@, a as int, b as int, v),
    ));
}

/// Push `e` onto row `r` (when it exists).
fn push_elem(els: &mut Vec<Vec<Element>>, r: usize, e: Element)
    ensures
        final(els)@.map_values(|x: Vec<Element>| x@) == push_el(
            old(els)@.map_values(|x: Vec<Element>| x@),
            r as int,
            e,
        ),
        final(els)@.len() == old(els)@.len(),
{
    if r < els.len() {
        let mut row: Vec<Element> = Vec::new();
        els.set_and_swap(r, &mut row);
        row.push(e);
        els.set(r, row);
        assert(els@.map_values(|x: Vec<Element>| x@) =~= push_el(
            old(els)@.map_values(|x: Vec<Element>| x@),
            r as int,
            e,
        ));
    } else {
        assert(els@.map_values(|x: Vec<Element>| x@) =~= old(els)@.map_values(
            |x: Vec<Element>| x@,
        ));
    }
}

/// `ks[a..b] = v` (clipped).
fn fill(ks: &mut Vec<LineConstructKind>, a: usize, b: usize, v: LineConstructKind)
    ensures
        final(ks)@ == fill_kinds(old(ks)@, a as int, b as int, v),
{
    let mut k = a;
    let ghost orig = old(ks)@;
    while k < b && k < ks.len()
        invariant
            a <= k,
            k == a || k <= b,
            ks@.len() == orig.len(),
            forall|j: int|
                0 <= j < ks@.len() ==> ks@[j] == (if a <= j < k { v } else { orig[j] }),
        decreases ks.len() - k,
    {
        ks.set(k, v);
        k += 1;
    }
    assert forall|j: int| 0 <= j < orig.len() implies #[trigger] ks@[j] == fill_kinds(
        orig,
        a as int,
        b as int,
        v,
    )[j] by {
        if a <= j < b {
            assert(j < k);
        }
    }
    assert(ks@ =~= fill_kinds(orig, a as int, b as int, v));
}

/// `ks[a..b] = HtmlBlock` except code rows.
fn fill_html(ks: &mut Vec<LineConstructKind>, a: usize, b: usize)
    ensures
        final(ks)@ == html_kinds(old(ks)@, a as int, b as int),
{
    let mut k = a;
    let ghost orig = old(ks)@;
    while k < b && k < ks.len()
        invariant
            a <= k,
            k == a || k <= b,
            ks@.len() == orig.len(),
            forall|j: int|
                0 <= j < ks@.len() ==> ks@[j] == (if a <= j < k && !(orig[j]
                    == LineConstructKind::FenceContent || orig[j] == LineConstructKind::IndentedCode
                    || orig[j] == LineConstructKind::FenceMarker) {
                    LineConstructKind::HtmlBlock
                } else {
                    orig[j]
                }),
        decreases ks.len() - k,
    {
        let cur = ks[k];
        if !(cur == LineConstructKind::FenceContent || cur == LineConstructKind::IndentedCode || cur
            == LineConstructKind::FenceMarker) {
            ks.set(k, LineConstructKind::HtmlBlock);
        }
        k += 1;
    }
    assert forall|j: int| 0 <= j < orig.len() implies #[trigger] ks@[j] == html_kinds(
        orig,
        a as int,
        b as int,
    )[j] by {
        if a <= j < b {
            assert(j < k);
        }
    }
    assert(ks@ =~= html_kinds(orig, a as int, b as int));
}

/// `lazy[r] += d` when the row exists.
fn add_lazy(lazy: &mut Vec<i128>, r: usize, d: i128, Ghost(k): Ghost<int>)
    requires
        d == 1 || d == -1,
        abs_sum(old(lazy)@.map_values(|x: i128| x as int)) <= k,
        k + 1 <= usize::MAX,
    ensures
        final(lazy)@.map_values(|x: i128| x as int) == add_at(
            old(lazy)@.map_values(|x: i128| x as int),
            r as int,
            d as int,
        ),
        final(lazy)@.len() == old(lazy)@.len(),
        abs_sum(final(lazy)@.map_values(|x: i128| x as int)) <= k + 1,
{
    let ghost s = old(lazy)@.map_values(|x: i128| x as int);
    if r < lazy.len() {
        proof {
            lemma_abs_sum_elem(s, r as int);
            lemma_abs_sum_update(s, r as int, d as int);
        }
        let v = lazy[r];
        lazy.set(r, v + d);
        assert(lazy@.map_values(|x: i128| x as int) =~= add_at(s, r as int, d as int));
    } else {
        assert(lazy@.map_values(|x: i128| x as int) =~= s);
    }
}


fn emit_span_exec(
    els: &mut Vec<Vec<Element>>,
    ctx: &Ctx,
    rs: usize,
    cs: usize,
    re: usize,
    ce: usize,
    kind: ElementKind,
)
    requires
        ctx.wf(),
        rs < ctx.ls@.len(),
        old(els)@.len() == ctx.ls@.len(),
    ensures
        final(els)@.map_values(|x: Vec<Element>| x@) == emit_span(
            old(els)@.map_values(|x: Vec<Element>| x@),
            ctx.lv(),
            rs as int,
            cs as int,
            re as int,
            ce as int,
            kind,
        ),
        final(els)@.len() == old(els)@.len(),
{
    let ghost ls = ctx.lv();
    let n = ctx.ls.len();
    if rs == re {
        if ce > cs && rs < n {
            push_elem(els, rs, Element { start_char: cs, end_char: ce, kind });
        }
        return ;
    }
    assert(ctx.ls@[rs as int]@ == ls[rs as int]);
    if rs < n && ctx.ls[rs].len() > cs {
        let len = ctx.ls[rs].len();
        push_elem(els, rs, Element { start_char: cs, end_char: len, kind });
    }
    let ghost e1 = els@.map_values(|x: Vec<Element>| x@);
    let mut r = rs + 1;
    while r < re
        invariant
            ctx.wf(),
            rs + 1 <= r,
            r == rs + 1 || r <= re,
            n == ctx.ls@.len() == ls.len(),
            ls == ctx.lv(),
            els@.len() == n,
            middle_rows(e1, ls, rs + 1, re as int, kind) == middle_rows(
                els@.map_values(|x: Vec<Element>| x@),
                ls,
                r as int,
                re as int,
                kind,
            ),
        decreases re - r,
    {
        if r < n {
            assert(ctx.ls@[r as int]@ == ls[r as int]);
            if ctx.ls[r].len() > 0 {
                let len = ctx.ls[r].len();
                push_elem(els, r, Element { start_char: 0, end_char: len, kind });
            }
        }
        r += 1;
    }
    if re < n && ce > 0 {
        push_elem(els, re, Element { start_char: 0, end_char: ce, kind });
    }
}

fn mark_text_exec(cv: &mut Vec<Vec<bool>>, sr: usize, sc: usize, er: usize, ec: usize)
    ensures
        final(cv)@.map_values(|x: Vec<bool>| x@) == mark_text(
            old(cv)@.map_values(|x: Vec<bool>| x@),
            sr as int,
            sc as int,
            er as int,
            ec as int,
        ),
        final(cv)@.len() == old(cv)@.len(),
{
    if sr == er {
        if sr < cv.len() {
            set_cv(cv, sr, sc, ec, true);
        }
        return ;
    }
    if sr < cv.len() {
        let len = cv[sr].len();
        set_cv(cv, sr, sc, len, true);
    }
    let ghost c1 = cv@.map_values(|x: Vec<bool>| x@);
    if sr < er {
        let mut r = sr + 1;
        while r < er
            invariant
                sr + 1 <= r <= er,
                cv@.len() == c1.len(),
                forall|q: int|
                    #![trigger cv@[q]]
                    0 <= q < c1.len() ==> cv@[q]@ == (if sr + 1 <= q < r {
                        set_bools(c1[q], 0, c1[q].len() as int, true)
                    } else {
                        c1[q]
                    }),
            decreases er - r,
        {
            if r < cv.len() {
                let len = cv[r].len();
                set_cv(cv, r, 0, len, true);
            }
            r += 1;
        }
        assert forall|q: int| 0 <= q < c1.len() implies #[trigger] cv@[q]@ == mark_full_rows(
            c1,
            sr + 1,
            er as int,
        )[q] by {}
        assert(cv@.map_values(|x: Vec<bool>| x@) =~= mark_full_rows(c1, sr + 1, er as int));
    } else {
        assert(cv@.map_values(|x: Vec<bool>| x@) =~= mark_full_rows(c1, sr + 1, er as int));
    }
    if er < cv.len() {
        set_cv(cv, er, 0, ec, true);
    }
}

/// A block whose rows continue lazily: a list, a blockquote or an HTML
/// block (an indented code block is one too, told apart by its start event).
fn is_lazy_continuable_tag_end(t: MdTag) -> (b: bool)
    ensures
        b == is_lazy_tag(t),
{
    match t {
        MdTag::List | MdTag::BlockQuote | MdTag::HtmlBlock => true,
        _ => false,
    }
}

fn closes(t: MdTag) -> (b: bool)
    ensures
        b == closes_styled(t),
{
    match t {
        MdTag::Strong | MdTag::Emphasis | MdTag::Strikethrough | MdTag::Link | MdTag::Heading(_)
        | MdTag::BlockQuote => true,
        _ => false,
    }
}

/// Lazily-continuable block bookkeeping for one event.
pub fn lazy_step_exec(acc: &mut Acc, ctx: &Ctx, ev: &MdEvent, Ghost(k): Ghost<int>)
    requires
        ctx.wf(),
        old(acc).inv(ctx.lv(), k),
        k + 1 <= usize::MAX,
    ensures
        final(acc)@ == lazy_step(old(acc)@, ctx.lv(), ev@),
        final(acc).shape(ctx.lv()),
        abs_sum(final(acc)@.lazy) <= k + 1,
        final(acc).cb_depth == old(acc).cb_depth,
{
    let n = ctx.ls.len();
    let (sr, _sc) = byte_to_row_col(ctx, ev.start);
    let ru = byte_to_row_col_unclamped(ctx, ev.end);
    let drop_at = if ru < n { ru } else { n };
    let is_start = match ev.class { MdClass::Start => true, _ => false };
    let is_end = match ev.class { MdClass::End => true, _ => false };
    let is_cb = match ev.tag { Some(MdTag::CodeBlock) => true, _ => false };
    let lazy_tag = match ev.tag { Some(t) => is_lazy_continuable_tag_end(t), None => false };
    if is_start && is_cb {
        acc.icb = Some(ev.indented);
        if ev.indented {
            add_lazy(&mut acc.lazy, sr, 1, Ghost(k));
        }
    } else if is_start && lazy_tag {
        add_lazy(&mut acc.lazy, sr, 1, Ghost(k));
    } else if is_end && is_cb {
        let was = acc.icb;
        acc.icb = None;
        if was == Some(true) {
            add_lazy(&mut acc.lazy, drop_at, -1, Ghost(k));
        }
    } else if is_end && lazy_tag {
        add_lazy(&mut acc.lazy, drop_at, -1, Ghost(k));
    }
}

/// Classification, elements and content marking for one event.
pub fn main_step_exec(acc: &mut Acc, ctx: &Ctx, ev: &MdEvent, Ghost(k): Ghost<int>)
    requires
        ctx.wf(),
        old(acc).shape(ctx.lv()),
        old(acc).cb_depth <= k,
        k + 1 <= usize::MAX,
        ev.class == MdClass::Code <==> ev.code is Some,
    ensures
        final(acc)@ == main_step(old(acc)@, ctx.lv(), ev@),
        final(acc).shape(ctx.lv()),
        final(acc).cb_depth <= k + 1,
        final(acc).lazy == old(acc).lazy,
{
    let ghost ls = ctx.lv();
    let ghost a0 = acc@;
    let n = ctx.ls.len();
    let (sr, sc) = byte_to_row_col(ctx, ev.start);
    let (er, ec) = byte_to_row_col(ctx, ev.end);
    let is_start = match ev.class { MdClass::Start => true, _ => false };
    let is_end = match ev.class { MdClass::End => true, _ => false };
    let is_cb = match ev.tag { Some(MdTag::CodeBlock) => true, _ => false };
    let styled = match ev.tag { Some(t) => tag_to_kind(t), None => None };
    let closing = match ev.tag { Some(t) => closes(t), None => false };
    let is_item = match ev.tag { Some(MdTag::Item) => true, _ => false };
    let is_html_block = match ev.tag { Some(MdTag::HtmlBlock) => true, _ => false };
    if is_start && is_cb {
        if acc.cb_depth == 0 {
            acc.cb_start = Some(ev.start);
        }
        acc.cb_depth = acc.cb_depth + 1;
        if !ev.indented {
            acc.kinds.set(sr, LineConstructKind::FenceMarker);
            let ce = if er < n { er } else { n };
            if ce > sr + 1 {
                fill(&mut acc.kinds, sr + 1, ce, LineConstructKind::FenceContent);
            }
            if er > sr && er < n {
                acc.kinds.set(er, LineConstructKind::FenceMarker);
            }
        } else {
            let hi = if er + 1 < n { er + 1 } else { n };
            if hi > sr {
                fill(&mut acc.kinds, sr, hi, LineConstructKind::IndentedCode);
            }
        }
    } else if is_end && is_cb {
        let d = if acc.cb_depth > 0 { acc.cb_depth - 1 } else { 0 };
        acc.cb_depth = d;
        if d == 0 && acc.cb_start.is_some() {
            let s = acc.cb_start.unwrap();
            acc.cb_ranges.push((s, ev.end));
            acc.cb_start = None;
        }
    } else if is_start && styled.is_some() {
        let kind = styled.unwrap();
        if kind == ElementKind::HeadingH1 || kind == ElementKind::HeadingH2 || kind
            == ElementKind::HeadingH3 {
            acc.kinds.set(sr, LineConstructKind::Heading);
        }
        acc.stack.push((sr, sc, kind));
    } else if is_end && closing {
        if acc.stack.len() > 0 {
            let top = acc.stack.pop().unwrap();
            assert(top == a0.stack.last());
            emit_span_exec(&mut acc.els, ctx, top.0, top.1, er, ec, top.2);
        }
    } else if is_start && is_item && sr < n && acc.lse[sr].is_none() {
        acc.kinds.set(sr, LineConstructKind::ListMarker);
        let line = &ctx.ls[sr];
        assert(line@ == ls[sr as int]);
        let ws = blank_len(line, 0);
        assert(line@.subrange(0, line@.len() as int) == line@);
        let rest = slice_from(line, ws);
        match list_marker_len(&rest) {
            Some(len) => {
                assert(len <= rest@.len());
                assert(rest@.len() == line@.len() - ws);
                let ll = line.len();
                acc.lse.set(sr, Some(ws + len));
            },
            None => {},
        }
    } else if is_start && is_html_block {
        let hi = if er + 1 < n { er + 1 } else { n };
        if hi > sr {
            fill(&mut acc.kinds, sr, hi, LineConstructKind::HtmlBlock);
        }
    } else if match ev.class { MdClass::Html => true, _ => false } {
        let hi = if er + 1 < n { er + 1 } else { n };
        if hi > sr {
            fill_html(&mut acc.kinds, sr, hi);
        }
    } else if match ev.class { MdClass::Code => true, _ => false } && sr == er && sr < n {
        let code = ev.code.as_ref().unwrap();
        let cl = chars_of(code.as_str()).len();
        let rl = if ec > sc { ec - sc } else { 0 };
        let sig = (if rl > cl { rl - cl } else { 0 }) / 2;
        let cs = sc + sig;
        let end = if cl > usize::MAX - cs { usize::MAX } else { cs + cl };
        proof {
            assert(acc.cv@[sr as int].len() <= usize::MAX);
            let row = acc.cv@[sr as int]@;
            assert(set_bools(row, cs as int, end as int, true) =~= set_bools(
                row,
                cs as int,
                cs + cl,
                true,
            ));
        }
        set_cv(&mut acc.cv, sr, cs, end, true);
        push_elem(&mut acc.els, sr, Element { start_char: sc, end_char: ec, kind: ElementKind::InlineCode });
    } else if match ev.class { MdClass::Text | MdClass::SoftBreak | MdClass::HardBreak => true, _ => false } {
        let ghost c0 = acc.cv@.map_values(|x: Vec<bool>| x@);
        mark_text_exec(&mut acc.cv, sr, sc, er, ec);
        proof {
            lemma_mark_text_len(c0, sr as int, sc as int, er as int, ec as int);
            assert forall|r: int| 0 <= r < ls.len() implies #[trigger] acc.cv@[r]@.len() == ls[r].len() by {
                assert(acc.cv@.map_values(|x: Vec<bool>| x@)[r] == acc.cv@[r]@);
                assert(c0[r] == a0.cv[r]);
            }
        }
    }
}

proof fn lemma_mark_text_len(cv: Seq<Seq<bool>>, sr: int, sc: int, er: int, ec: int)
    requires
        0 <= sr,
        0 <= er,
    ensures
        mark_text(cv, sr, sc, er, ec).len() == cv.len(),
        forall|r: int|
            #![trigger mark_text(cv, sr, sc, er, ec)[r]]
            0 <= r < cv.len() ==> mark_text(cv, sr, sc, er, ec)[r].len() == cv[r].len(),
{
    if sr != er {
        let c1 = if sr < cv.len() {
            cv.update(sr, set_bools(cv[sr], sc, cv[sr].len() as int, true))
        } else {
            cv
        };
        assert(forall|r: int| 0 <= r < c1.len() ==> #[trigger] c1[r].len() == cv[r].len());
        let c2 = mark_full_rows(c1, sr + 1, er);
        assert(c2.len() == cv.len());
        assert(forall|r: int| 0 <= r < c2.len() ==> #[trigger] c2[r].len() == cv[r].len());
    }
}


/// A row of `len` copies of `v`.
pub fn bools(len: usize, v: bool) -> (out: Vec<bool>)
    ensures
        out@ == Seq::new(len as nat, |k: int| v),
{
    let mut out: Vec<bool> = Vec::new();
    let mut i: usize = 0;
    while i < len
        invariant
            i <= len,
            out@ == Seq::new(i as nat, |k: int| v),
        decreases len - i,
    {
        out.push(v);
        i += 1;
        assert(out@ =~= Seq::new(i as nat, |k: int| v));
    }
    out
}

/// The walk state before the first event.
pub fn init_acc(ctx: &Ctx) -> (acc: Acc)
    requires
        ctx.wf(),
    ensures
        acc@ == acc_init(ctx.lv()),
        acc.inv(ctx.lv(), 0),
{
    let ghost ls = ctx.lv();
    let n = ctx.ls.len();
    let mut cv: Vec<Vec<bool>> = Vec::new();
    let mut els: Vec<Vec<Element>> = Vec::new();
    let mut lse: Vec<Option<usize>> = Vec::new();
    let mut kinds: Vec<LineConstructKind> = Vec::new();
    let mut r: usize = 0;
    while r < n
        invariant
            r <= n,
            n == ls.len(),
            ls == ctx.lv(),
            cv@.len() == r,
            els@.len() == r,
            lse@.len() == r,
            kinds@.len() == r,
            forall|q: int| #![trigger cv@[q]] 0 <= q < r ==> cv@[q]@ == Seq::new(ls[q].len(), |k: int| false),
            forall|q: int| #![trigger els@[q]] 0 <= q < r ==> els@[q]@ == Seq::<Element>::empty(),
            forall|q: int| #![trigger lse@[q]] 0 <= q < r ==> lse@[q] is None,
            forall|q: int| #![trigger kinds@[q]] 0 <= q < r ==> kinds@[q] == blank_or_plain(ls[q]),
        decreases n - r,
    {
        let line = &ctx.ls[r];
        assert(line@ == ls[r as int]);
        cv.push(bools(line.len(), false));
        els.push(Vec::new());
        lse.push(None);
        let nonblank = any_non_ws(line, 0);
        assert(line@.subrange(0, line@.len() as int) == line@);
        kinds.push(if nonblank { LineConstructKind::Plain } else { LineConstructKind::Blank });
        r += 1;
    }
    let mut lazy: Vec<i128> = Vec::new();
    assert(ctx.starts@.len() == n + 1);
    assert(ctx.starts.len() == n + 1);
    let mut q: usize = 0;
    while q <= n
        invariant
            q <= n + 1,
            n < usize::MAX,
            lazy@.len() == q,
            forall|j: int| #![trigger lazy@[j]] 0 <= j < q ==> lazy@[j] == 0,
        decreases n + 1 - q,
    {
        lazy.push(0);
        q += 1;
    }
    let acc = Acc {
        cv,
        els,
        lse,
        stack: Vec::new(),
        kinds,
        lazy,
        icb: None,
        cb_ranges: Vec::new(),
        cb_depth: 0,
        cb_start: None,
    };
    assert(acc@.cv =~= acc_init(ls).cv);
    assert(acc@.els =~= acc_init(ls).els);
    assert(acc@.lse =~= acc_init(ls).lse);
    assert(acc@.kinds =~= acc_init(ls).kinds);
    assert(acc@.lazy =~= acc_init(ls).lazy);
    proof {
        assert(acc@.lazy =~= Seq::new(ls.len() + 1, |j: int| 0int));
        lemma_abs_sum_zero(acc@.lazy);
    }
    acc
}

proof fn lemma_abs_sum_zero(s: Seq<int>)
    requires
        forall|j: int| 0 <= j < s.len() ==> s[j] == 0,
    ensures
        abs_sum(s) == 0,
    decreases s.len(),
{
    if s.len() > 0 {
        lemma_abs_sum_zero(s.drop_last());
    }
}

/// The walk over all of `evs`.
pub fn walk_events(ctx: &Ctx, evs: &Vec<MdEvent>) -> (acc: Acc)
    requires
        ctx.wf(),
        forall|i: int| #![trigger evs@[i]] 0 <= i < evs@.len() ==> (evs@[i].class == MdClass::Code <==> evs@[i].code is Some),
    ensures
        acc@ == walk(ctx.lv(), evs@.map_values(|e: MdEvent| e@), evs@.len() as int),
        acc.inv(ctx.lv(), evs@.len() as int),
{
    let ghost ls = ctx.lv();
    let ghost ev = evs@.map_values(|e: MdEvent| e@);
    let mut acc = init_acc(ctx);
    let mut i: usize = 0;
    while i < evs.len()
        invariant
            ctx.wf(),
            ls == ctx.lv(),
            ev == evs@.map_values(|e: MdEvent| e@),
            i <= evs@.len(),
            acc@ == walk(ls, ev, i as int),
            acc.inv(ls, i as int),
            forall|j: int| #![trigger evs@[j]] 0 <= j < evs@.len() ==> (evs@[j].class == MdClass::Code <==> evs@[j].code is Some),
        decreases evs.len() - i,
    {
        let e = &evs[i];
        assert(ev[i as int] == e@);
        lazy_step_exec(&mut acc, ctx, e, Ghost(i as int));
        main_step_exec(&mut acc, ctx, e, Ghost(i as int));
        i += 1;
    }
    acc
}

} // verus!


