//! What a full-buffer parse computes, stated as a walk over the CommonMark
//! event stream followed by per-row post-passes. `ParsedBuffer::parse` is
//! proved to compute exactly this.
use vstd::prelude::*;
use crate::markdown::{
    Element, ElementKind, LineConstructKind, is_heading_kind, list_marker_len_spec,
    tag_to_kind_spec,
};
use crate::markdown::cmark::{MdClass, MdEventV, MdTag};
use crate::markdown::layout::{row_col, row_unclamped};
use crate::text::{has_non_ws, lead_blank};

verus! {

/// State of the event walk.
pub struct AccV {
    /// Per row, per char: rendered content (not a sigil).
    pub cv: Seq<Seq<bool>>,
    /// Per row: elements in emission order.
    pub els: Seq<Seq<Element>>,
    /// Per row: end of the list-item sigil.
    pub lse: Seq<Option<usize>>,
    /// Open styled elements: (row, char column, kind).
    pub stack: Seq<(usize, usize, ElementKind)>,
    /// Per row construct classification.
    pub kinds: Seq<LineConstructKind>,
    /// Per row (plus one sink row): net opens of lazily-continuable blocks.
    pub lazy: Seq<int>,
    /// `Some(indented)` while a code block is open.
    pub icb: Option<bool>,
    /// Byte ranges of top-level code blocks.
    pub cb_ranges: Seq<(usize, usize)>,
    pub cb_depth: nat,
    pub cb_start: Option<usize>,
}

pub open spec fn blank_or_plain(l: Seq<char>) -> LineConstructKind {
    if has_non_ws(l) {
        LineConstructKind::Plain
    } else {
        LineConstructKind::Blank
    }
}

pub open spec fn acc_init(ls: Seq<Seq<char>>) -> AccV {
    AccV {
        cv: Seq::new(ls.len(), |r: int| Seq::new(ls[r].len(), |k: int| false)),
        els: Seq::new(ls.len(), |r: int| Seq::<Element>::empty()),
        lse: Seq::new(ls.len(), |r: int| None::<usize>),
        stack: Seq::empty(),
        kinds: Seq::new(ls.len(), |r: int| blank_or_plain(ls[r])),
        lazy: Seq::new(ls.len() + 1, |r: int| 0int),
        icb: None,
        cb_ranges: Seq::empty(),
        cb_depth: 0,
        cb_start: None,
    }
}

/// `row` with positions `a..b` set to `v`.
pub open spec fn set_bools(row: Seq<bool>, a: int, b: int, v: bool) -> Seq<bool> {
    Seq::new(row.len(), |k: int| if a <= k < b { v } else { row[k] })
}

/// `ks` with rows `a..b` set to `v`.
pub open spec fn fill_kinds(ks: Seq<LineConstructKind>, a: int, b: int, v: LineConstructKind) -> Seq<
    LineConstructKind,
> {
    Seq::new(ks.len(), |k: int| if a <= k < b { v } else { ks[k] })
}

/// `ks` with rows `a..b` set to `HtmlBlock`, except code rows.
pub open spec fn html_kinds(ks: Seq<LineConstructKind>, a: int, b: int) -> Seq<LineConstructKind> {
    Seq::new(
        ks.len(),
        |k: int|
            if a <= k < b && !(ks[k] == LineConstructKind::FenceContent || ks[k]
                == LineConstructKind::IndentedCode || ks[k] == LineConstructKind::FenceMarker) {
                LineConstructKind::HtmlBlock
            } else {
                ks[k]
            },
    )
}

pub open spec fn push_el(els: Seq<Seq<Element>>, r: int, e: Element) -> Seq<Seq<Element>> {
    if 0 <= r < els.len() {
        els.update(r, els[r].push(e))
    } else {
        els
    }
}

pub open spec fn mk_el(s: int, e: int, kind: ElementKind) -> Element {
    Element { start_char: s as usize, end_char: e as usize, kind }
}

/// Whole-row elements for rows `a..b` (non-empty rows only).
pub open spec fn middle_rows(
    els: Seq<Seq<Element>>,
    ls: Seq<Seq<char>>,
    a: int,
    b: int,
    kind: ElementKind,
) -> Seq<Seq<Element>>
    decreases b - a,
{
    if a >= b {
        els
    } else {
        let els1 = if a < ls.len() && ls[a].len() > 0 {
            push_el(els, a, mk_el(0, ls[a].len() as int, kind))
        } else {
            els
        };
        middle_rows(els1, ls, a + 1, b, kind)
    }
}

/// The element `(rs, cs) .. (re, ce)`, split per row.
pub open spec fn emit_span(
    els: Seq<Seq<Element>>,
    ls: Seq<Seq<char>>,
    rs: int,
    cs: int,
    re: int,
    ce: int,
    kind: ElementKind,
) -> Seq<Seq<Element>> {
    let n = ls.len() as int;
    if rs == re {
        if ce > cs && rs < n {
            push_el(els, rs, mk_el(cs, ce, kind))
        } else {
            els
        }
    } else {
        let e1 = if rs < n && ls[rs].len() > cs {
            push_el(els, rs, mk_el(cs, ls[rs].len() as int, kind))
        } else {
            els
        };
        let e2 = middle_rows(e1, ls, rs + 1, re, kind);
        if re < n && ce > 0 {
            push_el(e2, re, mk_el(0, ce, kind))
        } else {
            e2
        }
    }
}

/// Rows `a..b` marked all content.
pub open spec fn mark_full_rows(cv: Seq<Seq<bool>>, a: int, b: int) -> Seq<Seq<bool>> {
    Seq::new(
        cv.len(),
        |r: int| if a <= r < b { set_bools(cv[r], 0, cv[r].len() as int, true) } else { cv[r] },
    )
}

/// Content marking for a text event spanning `(sr, sc) .. (er, ec)`.
pub open spec fn mark_text(cv: Seq<Seq<bool>>, sr: int, sc: int, er: int, ec: int) -> Seq<
    Seq<bool>,
> {
    if sr == er {
        if sr < cv.len() {
            cv.update(sr, set_bools(cv[sr], sc, ec, true))
        } else {
            cv
        }
    } else {
        let c1 = if sr < cv.len() {
            cv.update(sr, set_bools(cv[sr], sc, cv[sr].len() as int, true))
        } else {
            cv
        };
        let c2 = mark_full_rows(c1, sr + 1, er);
        if er < c2.len() {
            c2.update(er, set_bools(c2[er], 0, ec, true))
        } else {
            c2
        }
    }
}

pub open spec fn is_lazy_tag(t: MdTag) -> bool {
    t == MdTag::List || t == MdTag::BlockQuote || t == MdTag::HtmlBlock
}

pub open spec fn add_at(s: Seq<int>, r: int, d: int) -> Seq<int> {
    if 0 <= r < s.len() {
        s.update(r, s[r] + d)
    } else {
        s
    }
}

/// Lazily-continuable block bookkeeping for one event.
pub open spec fn lazy_step(a: AccV, ls: Seq<Seq<char>>, ev: MdEventV) -> AccV {
    let n = ls.len() as int;
    let sr = row_col(ls, ev.start as int).0;
    let ru = row_unclamped(ls, ev.end as int);
    let drop_at = if ru < n { ru } else { n };
    if ev.class == MdClass::Start && ev.tag == Some(MdTag::CodeBlock) {
        AccV {
            icb: Some(ev.indented),
            lazy: if ev.indented { add_at(a.lazy, sr, 1) } else { a.lazy },
            ..a
        }
    } else if ev.class == MdClass::Start && (ev.tag is Some && is_lazy_tag(ev.tag.unwrap())) {
        AccV { lazy: add_at(a.lazy, sr, 1), ..a }
    } else if ev.class == MdClass::End && ev.tag == Some(MdTag::CodeBlock) {
        AccV {
            icb: None,
            lazy: if a.icb == Some(true) { add_at(a.lazy, drop_at, -1) } else { a.lazy },
            ..a
        }
    } else if ev.class == MdClass::End && (ev.tag is Some && is_lazy_tag(ev.tag.unwrap())) {
        AccV { lazy: add_at(a.lazy, drop_at, -1), ..a }
    } else {
        a
    }
}

/// Whether an end event closes a styled element.
pub open spec fn closes_styled(t: MdTag) -> bool {
    ||| t == MdTag::Strong
    ||| t == MdTag::Emphasis
    ||| t == MdTag::Strikethrough
    ||| t == MdTag::Link
    ||| t is Heading
    ||| t == MdTag::BlockQuote
}

pub open spec fn code_len(ev: MdEventV) -> int {
    match ev.code {
        Some(c) => c.len() as int,
        None => 0,
    }
}

/// Classification, elements and content marking for one event.
pub open spec fn main_step(a: AccV, ls: Seq<Seq<char>>, ev: MdEventV) -> AccV {
    let n = ls.len() as int;
    let (sr, sc) = row_col(ls, ev.start as int);
    let (er, ec) = row_col(ls, ev.end as int);
    if ev.class == MdClass::Start && ev.tag == Some(MdTag::CodeBlock) {
        let cb_start = if a.cb_depth == 0 { Some(ev.start) } else { a.cb_start };
        let kinds = if !ev.indented {
            let k1 = a.kinds.update(sr, LineConstructKind::FenceMarker);
            let ce = if er < n { er } else { n };
            let k2 = if ce > sr + 1 { fill_kinds(k1, sr + 1, ce, LineConstructKind::FenceContent) } else { k1 };
            if er > sr && er < n { k2.update(er, LineConstructKind::FenceMarker) } else { k2 }
        } else {
            let hi = if er + 1 < n { er + 1 } else { n };
            if hi > sr { fill_kinds(a.kinds, sr, hi, LineConstructKind::IndentedCode) } else { a.kinds }
        };
        AccV { cb_start, cb_depth: a.cb_depth + 1, kinds, ..a }
    } else if ev.class == MdClass::End && ev.tag == Some(MdTag::CodeBlock) {
        let d: nat = if a.cb_depth > 0 { (a.cb_depth - 1) as nat } else { 0 };
        if d == 0 && a.cb_start is Some {
            AccV {
                cb_depth: d,
                cb_start: None,
                cb_ranges: a.cb_ranges.push((a.cb_start.unwrap(), ev.end)),
                ..a
            }
        } else {
            AccV { cb_depth: d, ..a }
        }
    } else if ev.class == MdClass::Start && (ev.tag is Some && tag_to_kind_spec(ev.tag.unwrap()) is Some) {
        let k = tag_to_kind_spec(ev.tag.unwrap()).unwrap();
        AccV {
            kinds: if is_heading_kind(k) { a.kinds.update(sr, LineConstructKind::Heading) } else { a.kinds },
            stack: a.stack.push((sr as usize, sc as usize, k)),
            ..a
        }
    } else if ev.class == MdClass::End && (ev.tag is Some && closes_styled(ev.tag.unwrap())) {
        if a.stack.len() > 0 {
            let top = a.stack.last();
            AccV {
                stack: a.stack.drop_last(),
                els: emit_span(a.els, ls, top.0 as int, top.1 as int, er, ec, top.2),
                ..a
            }
        } else {
            a
        }
    } else if ev.class == MdClass::Start && ev.tag == Some(MdTag::Item) && sr < n && a.lse[sr] is None {
        let line = ls[sr];
        let ws = lead_blank(line) as int;
        AccV {
            kinds: a.kinds.update(sr, LineConstructKind::ListMarker),
            lse: match list_marker_len_spec(line.subrange(ws, line.len() as int)) {
                Some(len) => a.lse.update(sr, Some((ws + len) as usize)),
                None => a.lse,
            },
            ..a
        }
    } else if ev.class == MdClass::Start && ev.tag == Some(MdTag::HtmlBlock) {
        let hi = if er + 1 < n { er + 1 } else { n };
        AccV {
            kinds: if hi > sr { fill_kinds(a.kinds, sr, hi, LineConstructKind::HtmlBlock) } else { a.kinds },
            ..a
        }
    } else if ev.class == MdClass::Html {
        let hi = if er + 1 < n { er + 1 } else { n };
        AccV { kinds: if hi > sr { html_kinds(a.kinds, sr, hi) } else { a.kinds }, ..a }
    } else if ev.class == MdClass::Code && sr == er && sr < n {
        let cl = code_len(ev);
        let rl = if ec > sc { ec - sc } else { 0 };
        let sig = (if rl > cl { rl - cl } else { 0 }) / 2;
        let cs = sc + sig;
        AccV {
            cv: a.cv.update(sr, set_bools(a.cv[sr], cs, cs + cl, true)),
            els: push_el(a.els, sr, mk_el(sc, ec, ElementKind::InlineCode)),
            ..a
        }
    } else if ev.class == MdClass::Text || ev.class == MdClass::SoftBreak || ev.class
        == MdClass::HardBreak {
        AccV { cv: mark_text(a.cv, sr, sc, er, ec), ..a }
    } else {
        a
    }
}

pub open spec fn step(a: AccV, ls: Seq<Seq<char>>, ev: MdEventV) -> AccV {
    main_step(lazy_step(a, ls, ev), ls, ev)
}

/// The walk over the first `k` events.
pub open spec fn walk(ls: Seq<Seq<char>>, evs: Seq<MdEventV>, k: int) -> AccV
    decreases k,
{
    if k <= 0 {
        acc_init(ls)
    } else {
        step(walk(ls, evs, k - 1), ls, evs[k - 1])
    }
}

} // verus!
