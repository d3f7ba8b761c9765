//! What each row of a full-buffer parse becomes once the event walk is done:
//! trailing blanks of headings shown, wikilinks, image links and hashtag
//! labels added, elements ordered by start column and the per-char lookup
//! tables built; then the buffer-wide passes over the row classification.
use vstd::prelude::*;
use crate::markdown::{
    Element, ElementKind, ImagePlaceholder, LineConstructKind, LineMarks, ParsedLine, first_blockquote,
    first_content_in, first_heading, is_heading_kind,
    string_display_width,
    string_display_width_spec,
};
use crate::markdown::block_opener::{is_setext_underline, setext_spec};
use crate::markdown::layout::start_of;
use crate::markdown::parse_spec::set_bools;
use crate::markdown::walk::{Ctx, abs, abs_sum};
use crate::text::{bytes_len, char_index_at, char_index_at_byte, chars_of, string_from_chars};

verus! {

/// Space or tab.
pub open spec fn is_blank(c: char) -> bool {
    c == ' ' || c == '\t'
}

/// `p` is one of the trailing blanks of heading element `e` on `line`.
pub open spec fn heading_trail(line: Seq<char>, e: Element, p: int) -> bool {
    &&& is_heading_kind(e.kind)
    &&& e.start_char <= p < e.end_char
    &&& e.end_char <= line.len()
    &&& forall|q: int| p <= q < e.end_char ==> is_blank(line[q])
}

/// Content marks with the trailing blanks of the headings among the first
/// `j` elements shown.
pub open spec fn heading_fix(line: Seq<char>, cv: Seq<bool>, els: Seq<Element>, j: int) -> Seq<bool>
    decreases j,
{
    if j <= 0 {
        cv
    } else {
        let prev = heading_fix(line, cv, els, j - 1);
        Seq::new(prev.len(), |p: int| prev[p] || heading_trail(line, els[j - 1], p))
    }
}

/// Some element holds the whole span `s..e`.
pub open spec fn covered_by_any(els: Seq<Element>, s: int, e: int) -> bool {
    exists|j: int| 0 <= j < els.len() && s >= els[j].start_char && e <= els[j].end_char
}

/// The bracket pairs `[[` and `]]` of the wikilink `s..e` hidden.
pub open spec fn hide_brackets(cv: Seq<bool>, s: int, e: int) -> Seq<bool> {
    Seq::new(
        cv.len(),
        |p: int|
            if p == s || p == s + 1 || p == e - 2 || p == e - 1 {
                false
            } else {
                cv[p]
            },
    )
}

/// Content marks and elements after the first `k` wikilink spans.
pub open spec fn wikilinks_from(cv: Seq<bool>, els: Seq<Element>, spans: Seq<(usize, usize)>, k: int) -> (
    Seq<bool>,
    Seq<Element>,
)
    decreases k,
{
    if k <= 0 {
        (cv, els)
    } else {
        let (c, es) = wikilinks_from(cv, els, spans, k - 1);
        let s = spans[k - 1].0 as int;
        let e = spans[k - 1].1 as int;
        if covered_by_any(es, s, e) {
            (c, es)
        } else {
            (
                hide_brackets(c, s, e),
                es.push(Element { start_char: s as usize, end_char: e as usize, kind: ElementKind::WikiLink }),
            )
        }
    }
}

/// Content marks and elements after the first `k` image links: all their
/// chars hidden, an `Image` element each.
pub open spec fn images_from(cv: Seq<bool>, els: Seq<Element>, imgs: Seq<(usize, usize, Seq<char>)>, k: int) -> (
    Seq<bool>,
    Seq<Element>,
)
    decreases k,
{
    if k <= 0 {
        (cv, els)
    } else {
        let (c, es) = images_from(cv, els, imgs, k - 1);
        let s = imgs[k - 1].0;
        let e = imgs[k - 1].1;
        (
            set_bools(c, s as int, e as int, false),
            es.push(Element { start_char: s, end_char: e, kind: ElementKind::Image }),
        )
    }
}

/// The text drawn in place of an image link whose target file is `name`.
pub open spec fn placeholder_text(name: Seq<char>) -> Seq<char> {
    if name.len() == 0 {
        seq!['[', 'i', 'm', 'a', 'g', 'e', ']']
    } else {
        seq!['['] + name + seq![']']
    }
}

/// `(start_char, end_char, placeholder, placeholder_width)` of one image link.
pub open spec fn placeholder_of(img: (usize, usize, Seq<char>)) -> (usize, usize, Seq<char>, nat) {
    let t = placeholder_text(img.2);
    (img.0, img.1, t, string_display_width_spec(t))
}

/// A label must not overlap inline code, a link, a wikilink or an image.
pub open spec fn blocks_label(e: Element) -> bool {
    e.kind == ElementKind::InlineCode || e.kind == ElementKind::Link || e.kind == ElementKind::WikiLink
        || e.kind == ElementKind::Image
}

pub open spec fn label_blocked(els: Seq<Element>, s: int, e: int) -> bool {
    exists|j: int|
        0 <= j < els.len() && blocks_label(els[j]) && !(e <= els[j].start_char || s >= els[j].end_char)
}

/// Elements after the first `k` hashtag labels (given as byte offsets).
pub open spec fn labels_from(line: Seq<char>, els: Seq<Element>, labels: Seq<(usize, usize)>, k: int) -> Seq<
    Element,
>
    decreases k,
{
    if k <= 0 {
        els
    } else {
        let es = labels_from(line, els, labels, k - 1);
        let s = char_index_at_byte(line, labels[k - 1].0 as int);
        let e = char_index_at_byte(line, labels[k - 1].1 as int);
        if label_blocked(es, s, e) {
            es
        } else {
            es.push(Element { start_char: s as usize, end_char: e as usize, kind: ElementKind::Label })
        }
    }
}

/// Where a stable insertion puts an element starting at `key`: before the
/// first element that starts later.
pub open spec fn ins_pos(s: Seq<Element>, key: int) -> int
    decreases s.len(),
{
    if s.len() == 0 {
        0
    } else if s[0].start_char > key {
        0
    } else {
        1 + ins_pos(s.drop_first(), key)
    }
}

/// `s` stably sorted by start column.
pub open spec fn sort_elements_spec(s: Seq<Element>) -> Seq<Element>
    decreases s.len(),
{
    if s.len() == 0 {
        s
    } else {
        let t = sort_elements_spec(s.drop_last());
        t.insert(ins_pos(t, s.last().start_char as int), s.last())
    }
}

pub open spec fn ins_pos_img(s: Seq<(usize, usize, Seq<char>, nat)>, key: int) -> int
    decreases s.len(),
{
    if s.len() == 0 {
        0
    } else if s[0].0 > key {
        0
    } else {
        1 + ins_pos_img(s.drop_first(), key)
    }
}

/// Placeholders stably sorted by start column.
pub open spec fn sort_images_spec(s: Seq<(usize, usize, Seq<char>, nat)>) -> Seq<(usize, usize, Seq<char>, nat)>
    decreases s.len(),
{
    if s.len() == 0 {
        s
    } else {
        let t = sort_images_spec(s.drop_last());
        t.insert(ins_pos_img(t, s.last().0 as int), s.last())
    }
}

/// 1-based index of the last of the first `k` elements covering `p`, or 0.
pub open spec fn cover(els: Seq<Element>, p: int, k: int) -> int
    decreases k,
{
    if k <= 0 {
        0
    } else if els[k - 1].start_char <= p < els[k - 1].end_char {
        k
    } else {
        cover(els, p, k - 1)
    }
}

/// What the note index reports for one line, as plain values.
#[verifier::ext_equal]
pub struct MarksV {
    pub wikilinks: Seq<(usize, usize)>,
    pub images: Seq<(usize, usize, Seq<char>)>,
    pub labels: Seq<(usize, usize)>,
}

/// A parsed line as plain values.
#[verifier::ext_equal]
pub struct LineOut {
    pub elements: Seq<Element>,
    pub content_vis: Seq<bool>,
    pub elem_vis: Seq<bool>,
    pub elem_index: Seq<u16>,
    pub list_sigil_end: Option<usize>,
    pub images: Seq<(usize, usize, Seq<char>, nat)>,
    pub blockquote_depth: Option<u8>,
}

impl LineOut {
    /// Index of the last element covering `pos`, from the lookup table.
    pub open spec fn elem_at(&self, pos: int) -> Option<usize> {
        if 0 <= pos < self.elem_index.len() && self.elem_index[pos] != 0 {
            Some((self.elem_index[pos] - 1) as usize)
        } else {
            None
        }
    }

    /// Whether some element covers `pos`.
    pub open spec fn in_any_element(&self, pos: int) -> bool {
        0 <= pos < self.elem_vis.len() && self.elem_vis[pos]
    }

    /// First content char of the first heading element (its end when it
    /// holds no content); `None` without a heading element.
    pub open spec fn heading_sigil_end(&self) -> Option<usize> {
        match first_heading(self.elements) {
            Some(i) => {
                let e = self.elements[i];
                Some(first_content_in(self.content_vis, e.start_char as int, e.end_char as int) as usize)
            },
            None => None,
        }
    }

    /// First content char of the first blockquote element on a blockquote
    /// row (`Some(0)` without such an element); `None` off blockquotes.
    pub open spec fn blockquote_sigil_end(&self) -> Option<usize> {
        if self.blockquote_depth is None {
            None
        } else {
            match first_blockquote(self.elements) {
                Some(i) => {
                    let e = self.elements[i];
                    Some(first_content_in(self.content_vis, e.start_char as int, e.end_char as int) as usize)
                },
                None => Some(0),
            }
        }
    }
}

/// The elements of a line after every refinement, in start-column order.
pub open spec fn final_elements(line: Seq<char>, els0: Seq<Element>, cv1: Seq<bool>, mk: MarksV, in_code: bool) -> Seq<
    Element,
> {
    let (cv2, els2) = wikilinks_from(cv1, els0, mk.wikilinks, mk.wikilinks.len() as int);
    let (cv3, els3) = images_from(cv2, els2, mk.images, mk.images.len() as int);
    let els4 = if in_code {
        els3
    } else {
        labels_from(line, els3, mk.labels, mk.labels.len() as int)
    };
    sort_elements_spec(els4)
}

/// One row of the parse, from what the walk left for it.
pub open spec fn line_out(
    line: Seq<char>,
    cv0: Seq<bool>,
    els0: Seq<Element>,
    lse: Option<usize>,
    mk: MarksV,
    in_code: bool,
    bq: Option<u8>,
) -> LineOut {
    let cv1 = heading_fix(line, cv0, els0, els0.len() as int);
    let (cv2, els2) = wikilinks_from(cv1, els0, mk.wikilinks, mk.wikilinks.len() as int);
    let (cv3, els3) = images_from(cv2, els2, mk.images, mk.images.len() as int);
    let els5 = final_elements(line, els0, cv1, mk, in_code);
    let n = els5.len() as int;
    LineOut {
        elements: els5,
        content_vis: cv3,
        elem_vis: Seq::new(line.len(), |p: int| cover(els5, p, n) > 0),
        elem_index: Seq::new(line.len(), |p: int| (cover(els5, p, n) % 65536) as u16),
        list_sigil_end: lse,
        images: sort_images_spec(mk.images.map_values(|i: (usize, usize, Seq<char>)| placeholder_of(i))),
        blockquote_depth: bq,
    }
}

// ---------------------------------------------------------------------------
// Buffer-wide passes over the row classification.

/// Number of `>` in the leading run of `>`, space and tab.
pub open spec fn quote_count(line: Seq<char>) -> nat
    decreases line.len(),
{
    if line.len() == 0 {
        0
    } else if line[0] == '>' {
        1 + quote_count(line.drop_first())
    } else if is_blank(line[0]) {
        quote_count(line.drop_first())
    } else {
        0
    }
}

/// The quote count, saturated to a `u8`.
pub open spec fn quote_depth(line: Seq<char>) -> u8 {
    if quote_count(line) >= 255 {
        255
    } else {
        quote_count(line) as u8
    }
}

/// Whether the walk left row kind `k` as a plain or blank row.
pub open spec fn plain_or_blank(k: LineConstructKind) -> bool {
    k == LineConstructKind::Plain || k == LineConstructKind::Blank
}

/// Plain and blank rows that start with `>` markers become blockquote rows.
pub open spec fn quote_kinds(ls: Seq<Seq<char>>, ks: Seq<LineConstructKind>) -> Seq<LineConstructKind> {
    Seq::new(
        ks.len(),
        |r: int|
            if plain_or_blank(ks[r]) && quote_count(ls[r]) > 0 {
                LineConstructKind::Blockquote(quote_depth(ls[r]))
            } else {
                ks[r]
            },
    )
}

/// The setext pass over rows `0..r`: a heading row followed by an underline
/// becomes plain and the underline is classified as such.
pub open spec fn setext_pass(ls: Seq<Seq<char>>, ks: Seq<LineConstructKind>, r: int) -> Seq<LineConstructKind>
    decreases r,
{
    if r <= 0 {
        ks
    } else {
        let k = setext_pass(ls, ks, r - 1);
        let row = r - 1;
        if row + 1 < ls.len() && row + 1 < k.len() && k[row] == LineConstructKind::Heading && setext_spec(
            ls[row + 1],
        ) {
            k.update(row + 1, LineConstructKind::SetextUnderline).update(row, LineConstructKind::Plain)
        } else {
            k
        }
    }
}

pub open spec fn list_row(k: LineConstructKind) -> bool {
    k == LineConstructKind::ListMarker || k == LineConstructKind::ListContinuation
}

/// The continuation pass over rows `1..r`: a plain or indented-code row right
/// after a list row continues the list item.
pub open spec fn continuation_pass(ks: Seq<LineConstructKind>, r: int) -> Seq<LineConstructKind>
    decreases r,
{
    if r <= 1 {
        ks
    } else {
        let k = continuation_pass(ks, r - 1);
        let row = r - 1;
        if row < k.len() && (k[row] == LineConstructKind::Plain || k[row] == LineConstructKind::IndentedCode) && list_row(
            k[row - 1],
        ) {
            k.update(row, LineConstructKind::ListContinuation)
        } else {
            k
        }
    }
}

/// Sum of `s[0..r]`.
pub open spec fn prefix_sum(s: Seq<int>, r: int) -> int
    decreases r,
{
    if r <= 0 {
        0
    } else {
        prefix_sum(s, r - 1) + s[r - 1]
    }
}

/// Whether row `r` is a reset boundary: a sentinel (`0` or `n`), or a blank
/// row with no lazily-continuable block open.
pub open spec fn is_boundary(lazy: Seq<int>, ks: Seq<LineConstructKind>, n: int, r: int) -> bool {
    r == 0 || r == n || (prefix_sum(lazy, r + 1) == 0 && ks[r] == LineConstructKind::Blank)
}

/// The boundaries among `0..k`, ascending.
pub open spec fn boundaries_upto(lazy: Seq<int>, ks: Seq<LineConstructKind>, n: int, k: int) -> Seq<usize>
    decreases k,
{
    if k <= 0 {
        Seq::empty()
    } else {
        let prev = boundaries_upto(lazy, ks, n, k - 1);
        if is_boundary(lazy, ks, n, k - 1) {
            prev.push((k - 1) as usize)
        } else {
            prev
        }
    }
}


// ---------------------------------------------------------------------------
// Per-row refinement, executable.

/// Shows the trailing blanks of `e` when it is a heading.
fn show_heading_trail(line: &Vec<char>, cv: &mut Vec<bool>, e: Element)
    requires
        old(cv)@.len() == line@.len(),
    ensures
        final(cv)@ == Seq::new(old(cv)@.len(), |p: int| old(cv)@[p] || heading_trail(line@, e, p)),
{
    let ghost c0 = cv@;
    let is_heading = match e.kind {
        ElementKind::HeadingH1 | ElementKind::HeadingH2 | ElementKind::HeadingH3 => true,
        _ => false,
    };
    if !is_heading || e.end_char <= e.start_char {
        assert(cv@ =~= Seq::new(c0.len(), |p: int| c0[p] || heading_trail(line@, e, p)));
        return;
    }
    let mut k = e.end_char;
    let mut done = false;
    while !done && k > e.start_char
        invariant
            is_heading_kind(e.kind),
            e.start_char <= k <= e.end_char,
            cv@.len() == c0.len() == line@.len(),
            k < e.end_char ==> e.end_char <= line@.len(),
            forall|q: int| k <= q < e.end_char ==> is_blank(line@[q]),
            forall|p: int| #![trigger cv@[p]] 0 <= p < cv@.len() ==> cv@[p] == (c0[p] || (k <= p < e.end_char)),
            done ==> (k > e.start_char && (k - 1 >= line@.len() || !is_blank(line@[k - 1]))),
        decreases (if done { 0int } else { 1int }) + k,
    {
        let i = k - 1;
        if i < line.len() && (line[i] == ' ' || line[i] == '\t') {
            cv.set(i, true);
            k = i;
        } else {
            done = true;
        }
    }
    assert forall|p: int| 0 <= p < c0.len() implies #[trigger] cv@[p] == (c0[p] || heading_trail(
        line@,
        e,
        p,
    )) by {
        if heading_trail(line@, e, p) && !(k <= p) {
            assert(done);
            assert(p <= k - 1 < e.end_char);
        }
    }
    assert(cv@ =~= Seq::new(c0.len(), |p: int| c0[p] || heading_trail(line@, e, p)));
}

/// Shows the trailing blanks of every heading element of the row.
pub fn heading_fix_exec(line: &Vec<char>, cv: &mut Vec<bool>, els: &Vec<Element>)
    requires
        old(cv)@.len() == line@.len(),
    ensures
        final(cv)@ == heading_fix(line@, old(cv)@, els@, els@.len() as int),
{
    let ghost c0 = cv@;
    let mut j: usize = 0;
    while j < els.len()
        invariant
            j <= els@.len(),
            cv@ == heading_fix(line@, c0, els@, j as int),
            cv@.len() == line@.len(),
        decreases els.len() - j,
    {
        show_heading_trail(line, cv, els[j]);
        j += 1;
    }
}

/// Whether some element holds all of `s..e`.
fn covered(els: &Vec<Element>, s: usize, e: usize) -> (b: bool)
    ensures
        b == covered_by_any(els@, s as int, e as int),
{
    let mut j: usize = 0;
    while j < els.len()
        invariant
            j <= els@.len(),
            forall|q: int| 0 <= q < j ==> !(s >= els@[q].start_char && e <= els@[q].end_char),
        decreases els.len() - j,
    {
        if s >= els[j].start_char && e <= els[j].end_char {
            return true;
        }
        j += 1;
    }
    false
}

/// `cv[p] = false` when `p` is in range.
fn hide_at(cv: &mut Vec<bool>, p: usize)
    ensures
        final(cv)@ == Seq::new(old(cv)@.len(), |q: int| if q == p { false } else { old(cv)@[q] }),
{
    if p < cv.len() {
        cv.set(p, false);
    }
    assert(cv@ =~= Seq::new(old(cv)@.len(), |q: int| if q == p { false } else { old(cv)@[q] }));
}

/// Adds the wikilink spans not already inside an element, hiding their
/// brackets.
pub fn wikilinks_exec(cv: &mut Vec<bool>, els: &mut Vec<Element>, spans: &Vec<(usize, usize)>)
    requires
        forall|i: int| #![trigger spans@[i]] 0 <= i < spans@.len() ==> spans@[i].0 + 4 <= spans@[i].1,
    ensures
        (final(cv)@, final(els)@) == wikilinks_from(old(cv)@, old(els)@, spans@, spans@.len() as int),
{
    let ghost c0 = cv@;
    let ghost e0 = els@;
    let mut k: usize = 0;
    while k < spans.len()
        invariant
            k <= spans@.len(),
            (cv@, els@) == wikilinks_from(c0, e0, spans@, k as int),
            cv@.len() == c0.len(),
            forall|i: int| #![trigger spans@[i]] 0 <= i < spans@.len() ==> spans@[i].0 + 4 <= spans@[i].1,
        decreases spans.len() - k,
    {
        let (s, e) = spans[k];
        let ghost cb = cv@;
        if !covered(els, s, e) {
            hide_at(cv, s);
            hide_at(cv, s + 1);
            hide_at(cv, e - 2);
            hide_at(cv, e - 1);
            assert(cv@ =~= hide_brackets(cb, s as int, e as int));
            els.push(Element { start_char: s, end_char: e, kind: ElementKind::WikiLink });
        }
        k += 1;
    }
}


/// An image link as plain values.
pub open spec fn img_view(t: (usize, usize, String)) -> (usize, usize, Seq<char>) {
    (t.0, t.1, t.2@)
}

/// A placeholder as plain values.
pub open spec fn ip_view(ip: ImagePlaceholder) -> (usize, usize, Seq<char>, nat) {
    (ip.start_char, ip.end_char, ip.placeholder@, ip.placeholder_width as nat)
}

/// The chars of the placeholder for target file `name`.
fn placeholder_chars(name: &String) -> (out: Vec<char>)
    ensures
        out@ == placeholder_text(name@),
{
    let mut out: Vec<char> = Vec::new();
    if name.as_str().unicode_len() == 0 {
        out.push('[');
        out.push('i');
        out.push('m');
        out.push('a');
        out.push('g');
        out.push('e');
        out.push(']');
        assert(out@ =~= placeholder_text(name@));
    } else {
        out.push('[');
        let cs = chars_of(name.as_str());
        let mut i: usize = 0;
        while i < cs.len()
            invariant
                i <= cs@.len(),
                out@ == seq!['['] + cs@.take(i as int),
            decreases cs.len() - i,
        {
            out.push(cs[i]);
            i += 1;
            assert(out@ =~= seq!['['] + cs@.take(i as int));
        }
        out.push(']');
        assert(cs@.take(cs@.len() as int) == cs@);
        assert(out@ =~= placeholder_text(name@));
    }
    out
}

/// Index before the first placeholder starting after `key`.
fn ins_pos_img_exec(v: &Vec<ImagePlaceholder>, key: usize) -> (j: usize)
    ensures
        j as int == ins_pos_img(v@.map_values(|ip: ImagePlaceholder| ip_view(ip)), key as int),
        j <= v@.len(),
{
    let ghost s = v@.map_values(|ip: ImagePlaceholder| ip_view(ip));
    let mut i: usize = 0;
    assert(s.skip(0) == s);
    while i < v.len()
        invariant
            i <= v@.len(),
            s == v@.map_values(|ip: ImagePlaceholder| ip_view(ip)),
            ins_pos_img(s, key as int) == i + ins_pos_img(s.skip(i as int), key as int),
        decreases v.len() - i,
    {
        assert(s.skip(i as int)[0] == s[i as int]);
        if v[i].start_char > key {
            return i;
        }
        assert(s.skip(i as int).drop_first() == s.skip(i + 1));
        i += 1;
    }
    i
}

/// Adds the image links: their chars hidden, an `Image` element and a
/// placeholder each; the placeholders come out ordered by start column.
pub fn images_exec(cv: &mut Vec<bool>, els: &mut Vec<Element>, imgs: &Vec<(usize, usize, String)>) -> (out: Vec<
    ImagePlaceholder,
>)
    requires
        forall|i: int| #![trigger imgs@[i]] 0 <= i < imgs@.len() ==> imgs@[i].2@.len() + 2 <= usize::MAX / 4,
    ensures
        (final(cv)@, final(els)@) == images_from(
            old(cv)@,
            old(els)@,
            imgs@.map_values(|t: (usize, usize, String)| img_view(t)),
            imgs@.len() as int,
        ),
        out@.map_values(|ip: ImagePlaceholder| ip_view(ip)) == sort_images_spec(
            imgs@.map_values(|t: (usize, usize, String)| img_view(t)).map_values(
                |i: (usize, usize, Seq<char>)| placeholder_of(i),
            ),
        ),
{
    let ghost c0 = cv@;
    let ghost e0 = els@;
    let ghost iv = imgs@.map_values(|t: (usize, usize, String)| img_view(t));
    let ghost m = iv.map_values(|i: (usize, usize, Seq<char>)| placeholder_of(i));
    let mut out: Vec<ImagePlaceholder> = Vec::new();
    let mut k: usize = 0;
    assert(m.take(0) =~= Seq::<(usize, usize, Seq<char>, nat)>::empty());
    while k < imgs.len()
        invariant
            k <= imgs@.len(),
            iv == imgs@.map_values(|t: (usize, usize, String)| img_view(t)),
            m == iv.map_values(|i: (usize, usize, Seq<char>)| placeholder_of(i)),
            (cv@, els@) == images_from(c0, e0, iv, k as int),
            out@.map_values(|ip: ImagePlaceholder| ip_view(ip)) == sort_images_spec(m.take(k as int)),
            forall|i: int| #![trigger imgs@[i]] 0 <= i < imgs@.len() ==> imgs@[i].2@.len() + 2 <= usize::MAX / 4,
        decreases imgs.len() - k,
    {
        let img = &imgs[k];
        let s = img.0;
        let e = img.1;
        assert(iv[k as int] == img_view(*img));
        crate::markdown::walk::set_range(cv, s, e, false);
        els.push(Element { start_char: s, end_char: e, kind: ElementKind::Image });
        let chars = placeholder_chars(&img.2);
        let text = string_from_chars(&chars);
        let width = string_display_width(text.as_str());
        let ip = ImagePlaceholder { start_char: s, end_char: e, placeholder: text, placeholder_width: width };
        let ghost before = out@.map_values(|ip: ImagePlaceholder| ip_view(ip));
        let j = ins_pos_img_exec(&out, s);
        proof {
            assert(m.take(k + 1).drop_last() == m.take(k as int));
            assert(m.take(k + 1).last() == m[k as int]);
            assert(m[k as int] == placeholder_of(iv[k as int]));
            assert(ip_view(ip) == m[k as int]);
        }
        out.insert(j, ip);
        assert(out@.map_values(|ip: ImagePlaceholder| ip_view(ip)) =~= before.insert(j as int, ip_view(ip)));
        k += 1;
    }
    assert(m.take(imgs@.len() as int) == m);
    out
}

/// Whether some blocking element overlaps `s..e`.
fn blocked(els: &Vec<Element>, s: usize, e: usize) -> (b: bool)
    ensures
        b == label_blocked(els@, s as int, e as int),
{
    let mut j: usize = 0;
    while j < els.len()
        invariant
            j <= els@.len(),
            forall|q: int|
                0 <= q < j ==> !(blocks_label(els@[q]) && !(e <= els@[q].start_char || s >= els@[q].end_char)),
        decreases els.len() - j,
    {
        let x = els[j];
        let blocks = match x.kind {
            ElementKind::InlineCode | ElementKind::Link | ElementKind::WikiLink | ElementKind::Image => true,
            _ => false,
        };
        if blocks && !(e <= x.start_char || s >= x.end_char) {
            return true;
        }
        j += 1;
    }
    false
}

/// Adds the hashtag labels that overlap no code, link, wikilink or image.
pub fn labels_exec(line: &Vec<char>, els: &mut Vec<Element>, labels: &Vec<(usize, usize)>)
    ensures
        final(els)@ == labels_from(line@, old(els)@, labels@, labels@.len() as int),
{
    let ghost e0 = els@;
    let mut k: usize = 0;
    while k < labels.len()
        invariant
            k <= labels@.len(),
            els@ == labels_from(line@, e0, labels@, k as int),
        decreases labels.len() - k,
    {
        let (bs, be) = labels[k];
        let s = char_index_at(line, bs);
        let e = char_index_at(line, be);
        if !blocked(els, s, e) {
            els.push(Element { start_char: s, end_char: e, kind: ElementKind::Label });
        }
        k += 1;
    }
}

/// Index before the first element starting after `key`.
fn ins_pos_exec(v: &Vec<Element>, key: usize) -> (j: usize)
    ensures
        j as int == ins_pos(v@, key as int),
        j <= v@.len(),
{
    let mut i: usize = 0;
    assert(v@.skip(0) == v@);
    while i < v.len()
        invariant
            i <= v@.len(),
            ins_pos(v@, key as int) == i + ins_pos(v@.skip(i as int), key as int),
        decreases v.len() - i,
    {
        assert(v@.skip(i as int)[0] == v@[i as int]);
        if v[i].start_char > key {
            return i;
        }
        assert(v@.skip(i as int).drop_first() == v@.skip(i + 1));
        i += 1;
    }
    i
}

/// `v` stably sorted by start column.
pub fn sort_elements(v: &Vec<Element>) -> (out: Vec<Element>)
    ensures
        out@ == sort_elements_spec(v@),
{
    let mut out: Vec<Element> = Vec::new();
    let mut k: usize = 0;
    assert(v@.take(0) =~= Seq::<Element>::empty());
    while k < v.len()
        invariant
            k <= v@.len(),
            out@ == sort_elements_spec(v@.take(k as int)),
        decreases v.len() - k,
    {
        let x = v[k];
        let j = ins_pos_exec(&out, x.start_char);
        proof {
            assert(v@.take(k + 1).drop_last() == v@.take(k as int));
            assert(v@.take(k + 1).last() == x);
        }
        out.insert(j, x);
        k += 1;
    }
    assert(v@.take(v@.len() as int) == v@);
    out
}

/// The per-char tables: whether some element covers the char, and the
/// 1-based index of the last one that does (modulo the `u16` range).
pub fn cover_tables(els: &Vec<Element>, total: usize) -> (r: (Vec<bool>, Vec<u16>))
    ensures
        r.0@ == Seq::new(total as nat, |p: int| cover(els@, p, els@.len() as int) > 0),
        r.1@ == Seq::new(total as nat, |p: int| (cover(els@, p, els@.len() as int) % 65536) as u16),
{
    let mut vis = crate::markdown::walk::bools(total, false);
    let mut idx: Vec<u16> = Vec::new();
    let mut q: usize = 0;
    while q < total
        invariant
            q <= total,
            idx@.len() == q,
            forall|p: int| #![trigger idx@[p]] 0 <= p < q ==> idx@[p] == 0,
        decreases total - q,
    {
        idx.push(0);
        q += 1;
    }
    let mut i: usize = 0;
    while i < els.len()
        invariant
            i <= els@.len(),
            vis@.len() == total,
            idx@.len() == total,
            forall|p: int| #![trigger vis@[p]] 0 <= p < total ==> vis@[p] == (cover(els@, p, i as int) > 0),
            forall|p: int| #![trigger idx@[p]] 0 <= p < total ==> idx@[p] == (cover(els@, p, i as int) % 65536) as u16,
            forall|p: int| 0 <= p < total ==> 0 <= #[trigger] cover(els@, p, i as int) <= i,
        decreases els.len() - i,
    {
        let e = els[i];
        let tag: u16 = ((i + 1) % 65536) as u16;
        let mut pos = e.start_char;
        while pos < e.end_char && pos < total
            invariant
                e == els@[i as int],
                i < els@.len(),
                e.start_char <= pos,
                pos == e.start_char || pos <= e.end_char,
                tag == ((i + 1) % 65536) as u16,
                vis@.len() == total,
                idx@.len() == total,
                forall|p: int|
                    #![trigger vis@[p]]
                    0 <= p < total ==> vis@[p] == (if e.start_char <= p < pos { true } else {
                        cover(els@, p, i as int) > 0
                    }),
                forall|p: int|
                    #![trigger idx@[p]]
                    0 <= p < total ==> idx@[p] == (if e.start_char <= p < pos { tag } else {
                        (cover(els@, p, i as int) % 65536) as u16
                    }),
            decreases total - pos,
        {
            vis.set(pos, true);
            idx.set(pos, tag);
            pos += 1;
        }
        proof {
            assert forall|p: int| 0 <= p < total implies vis@[p] == (#[trigger] cover(els@, p, i + 1) > 0)
                && idx@[p] == (cover(els@, p, i + 1) % 65536) as u16 && 0 <= cover(els@, p, i + 1) <= i + 1 by {
                assert(cover(els@, p, i + 1) == if e.start_char <= p < e.end_char {
                    i + 1
                } else {
                    cover(els@, p, i as int)
                });
                assert(0 <= cover(els@, p, i as int) <= i);
                if e.start_char <= p < e.end_char {
                    assert(p < pos);
                }
            }
        }
        i += 1;
    }
    assert(vis@ =~= Seq::new(total as nat, |p: int| cover(els@, p, els@.len() as int) > 0));
    assert(idx@ =~= Seq::new(total as nat, |p: int| (cover(els@, p, els@.len() as int) % 65536) as u16));
    (vis, idx)
}


/// The blockquote depth a row gets from the quote pass, if any.
pub open spec fn quote_opt(line: Seq<char>, k: LineConstructKind) -> Option<u8> {
    if plain_or_blank(k) && quote_count(line) > 0 {
        Some(quote_depth(line))
    } else {
        None
    }
}

fn quote_count_exec(line: &Vec<char>) -> (r: usize)
    ensures
        r == quote_count(line@),
{
    let mut cnt: usize = 0;
    let mut i: usize = 0;
    assert(line@.skip(0) == line@);
    while i < line.len()
        invariant
            i <= line@.len(),
            cnt <= i,
            quote_count(line@) == cnt + quote_count(line@.skip(i as int)),
        decreases line.len() - i,
    {
        let c = line[i];
        assert(line@.skip(i as int)[0] == c);
        assert(line@.skip(i as int).drop_first() == line@.skip(i + 1));
        if c == '>' {
            cnt += 1;
        } else if !(c == ' ' || c == '\t') {
            return cnt;
        }
        i += 1;
    }
    cnt
}

/// The quote pass: blockquote rows and their depths.
pub fn quote_pass(ctx: &Ctx, kinds: &mut Vec<LineConstructKind>) -> (depths: Vec<Option<u8>>)
    requires
        old(kinds)@.len() == ctx.ls@.len(),
    ensures
        final(kinds)@ == quote_kinds(ctx.lv(), old(kinds)@),
        depths@ == Seq::new(ctx.ls@.len(), |r: int| quote_opt(ctx.lv()[r], old(kinds)@[r])),
{
    let ghost k0 = kinds@;
    let ghost ls = ctx.lv();
    let mut depths: Vec<Option<u8>> = Vec::new();
    let mut r: usize = 0;
    while r < kinds.len()
        invariant
            r <= kinds@.len(),
            kinds@.len() == k0.len() == ctx.ls@.len(),
            ls == ctx.lv(),
            depths@.len() == r,
            forall|q: int| #![trigger kinds@[q]] 0 <= q < kinds@.len() ==> kinds@[q] == (if q < r {
                quote_kinds(ls, k0)[q]
            } else {
                k0[q]
            }),
            forall|q: int| #![trigger depths@[q]] 0 <= q < r ==> depths@[q] == quote_opt(ls[q], k0[q]),
        decreases kinds.len() - r,
    {
        let k = kinds[r];
        let line = &ctx.ls[r];
        assert(line@ == ls[r as int]);
        if k == LineConstructKind::Plain || k == LineConstructKind::Blank {
            let cnt = quote_count_exec(line);
            if cnt > 0 {
                let d: u8 = if cnt >= 255 { 255 } else { cnt as u8 };
                kinds.set(r, LineConstructKind::Blockquote(d));
                depths.push(Some(d));
            } else {
                depths.push(None);
            }
        } else {
            depths.push(None);
        }
        r += 1;
    }
    assert(kinds@ =~= quote_kinds(ls, k0));
    assert(depths@ =~= Seq::new(ctx.ls@.len(), |r: int| quote_opt(ls[r], k0[r])));
    depths
}

/// The setext pass.
pub fn setext_pass_exec(ctx: &Ctx, kinds: &mut Vec<LineConstructKind>)
    requires
        old(kinds)@.len() == ctx.ls@.len(),
        ctx.ls@.len() >= 1,
    ensures
        final(kinds)@ == setext_pass(ctx.lv(), old(kinds)@, ctx.ls@.len() - 1),
{
    let ghost k0 = kinds@;
    let ghost ls = ctx.lv();
    let n = ctx.ls.len();
    let mut row: usize = 0;
    while row + 1 < n
        invariant
            row + 1 <= n,
            n == ctx.ls@.len() == ls.len(),
            ls == ctx.lv(),
            kinds@ == setext_pass(ls, k0, row as int),
            kinds@.len() == n,
        decreases n - row,
    {
        let next = &ctx.ls[row + 1];
        assert(next@ == ls[row + 1]);
        if kinds[row] == LineConstructKind::Heading && is_setext_underline(next) {
            kinds.set(row + 1, LineConstructKind::SetextUnderline);
            kinds.set(row, LineConstructKind::Plain);
        }
        row += 1;
    }
}

/// The list-continuation pass.
pub fn continuation_pass_exec(kinds: &mut Vec<LineConstructKind>)
    ensures
        final(kinds)@ == continuation_pass(old(kinds)@, old(kinds)@.len() as int),
{
    let ghost k0 = kinds@;
    let mut row: usize = 1;
    while row < kinds.len()
        invariant
            1 <= row,
            row <= kinds@.len() || kinds@.len() == 0,
            kinds@.len() == k0.len(),
            kinds@ == continuation_pass(k0, row as int),
        decreases kinds.len() - row,
    {
        let k = kinds[row];
        let prev = kinds[row - 1];
        if (k == LineConstructKind::Plain || k == LineConstructKind::IndentedCode) && (prev
            == LineConstructKind::ListMarker || prev == LineConstructKind::ListContinuation) {
            kinds.set(row, LineConstructKind::ListContinuation);
        }
        row += 1;
    }
}

/// The row overlaps one of the code-block byte ranges.
pub open spec fn in_code_block(ls: Seq<Seq<char>>, ranges: Seq<(usize, usize)>, r: int) -> bool {
    exists|j: int|
        0 <= j < ranges.len() && start_of(ls, r) < ranges[j].1 && start_of(ls, r) + bytes_len(ls[r])
            > ranges[j].0
}

pub fn in_code_exec(ctx: &Ctx, ranges: &Vec<(usize, usize)>, r: usize) -> (b: bool)
    requires
        ctx.wf(),
        r < ctx.ls@.len(),
    ensures
        b == in_code_block(ctx.lv(), ranges@, r as int),
{
    let ghost ls = ctx.lv();
    proof {
        crate::markdown::layout::lemma_start_of_mono(ls, r as int, r + 1);
        assert(ctx.starts@[r as int] == start_of(ls, r as int));
        assert(ctx.starts@[r + 1] == start_of(ls, r + 1));
        assert(ctx.blens@[r as int] == bytes_len(ls[r as int]));
    }
    let ls_ = ctx.starts[r];
    let le = ctx.starts[r] + ctx.blens[r];
    let mut j: usize = 0;
    while j < ranges.len()
        invariant
            j <= ranges@.len(),
            ls == ctx.lv(),
            r < ls.len(),
            ls_ == start_of(ls, r as int),
            le == start_of(ls, r as int) + bytes_len(ls[r as int]),
            forall|q: int| 0 <= q < j ==> !(ls_ < ranges@[q].1 && le > ranges@[q].0),
        decreases ranges.len() - j,
    {
        let (cs, ce) = ranges[j];
        if ls_ < ce && le > cs {
            assert(start_of(ls, r as int) < ranges@[j as int].1 && start_of(ls, r as int) + bytes_len(
                ls[r as int],
            ) > ranges@[j as int].0);
            return true;
        }
        j += 1;
    }
    false
}

pub proof fn lemma_prefix_sum_bound(s: Seq<int>, r: int)
    requires
        0 <= r <= s.len(),
    ensures
        -abs_sum(s) <= prefix_sum(s, r) <= abs_sum(s),
{
    lemma_prefix_take(s, r);
    lemma_abs_sum_take(s, r);
}

proof fn lemma_prefix_take(s: Seq<int>, r: int)
    requires
        0 <= r <= s.len(),
    ensures
        -abs_sum(s.take(r)) <= prefix_sum(s, r) <= abs_sum(s.take(r)),
    decreases r,
{
    if r > 0 {
        lemma_prefix_take(s, r - 1);
        assert(s.take(r).drop_last() == s.take(r - 1));
        assert(s.take(r).last() == s[r - 1]);
    }
}

proof fn lemma_abs_sum_take(s: Seq<int>, r: int)
    requires
        0 <= r <= s.len(),
    ensures
        abs_sum(s.take(r)) <= abs_sum(s),
    decreases s.len() - r,
{
    if r < s.len() {
        lemma_abs_sum_take(s, r + 1);
        assert(s.take(r + 1).drop_last() == s.take(r));
        assert(abs(s.take(r + 1).last()) >= 0);
    } else {
        assert(s.take(r) == s);
    }
}

/// Lazy depth per row and the reset boundaries.
pub fn depth_and_boundaries(lazy: &Vec<i128>, kinds: &Vec<LineConstructKind>, Ghost(k): Ghost<int>) -> (r: (
    Vec<u32>,
    Vec<usize>,
))
    requires
        lazy@.len() == kinds@.len() + 1,
        abs_sum(lazy@.map_values(|x: i128| x as int)) <= k,
        k <= usize::MAX,
    ensures
        r.0@ == Seq::new(
            kinds@.len(),
            |q: int| prefix_sum(lazy@.map_values(|x: i128| x as int), q + 1) as u32,
        ),
        r.1@ == boundaries_upto(
            lazy@.map_values(|x: i128| x as int),
            kinds@,
            kinds@.len() as int,
            kinds@.len() as int + 1,
        ),
{
    let ghost lz = lazy@.map_values(|x: i128| x as int);
    let n = kinds.len();
    let mut depth: Vec<u32> = Vec::new();
    let mut bounds: Vec<usize> = Vec::new();
    let mut acc: i128 = 0;
    let mut r: usize = 0;
    while r < n
        invariant
            r <= n,
            n == kinds@.len(),
            lazy@.len() == n + 1,
            lz == lazy@.map_values(|x: i128| x as int),
            abs_sum(lz) <= k,
            k <= usize::MAX,
            acc == prefix_sum(lz, r as int),
            depth@ == Seq::new(r as nat, |q: int| prefix_sum(lz, q + 1) as u32),
            bounds@ == boundaries_upto(lz, kinds@, n as int, r as int),
        decreases n - r,
    {
        proof {
            lemma_prefix_sum_bound(lz, r + 1);
            assert(lz[r as int] == lazy@[r as int] as int);
        }
        acc = acc + lazy[r];
        depth.push(acc as u32);
        assert(depth@ =~= Seq::new((r + 1) as nat, |q: int| prefix_sum(lz, q + 1) as u32));
        if r == 0 || (acc == 0 && kinds[r] == LineConstructKind::Blank) {
            bounds.push(r);
        }
        r += 1;
    }
    bounds.push(n);
    (depth, bounds)
}


/// One row of the parse, from what the walk left for it and what the note
/// index reports for it.
pub fn finish_line(
    line: &Vec<char>,
    cv0: Vec<bool>,
    els0: Vec<Element>,
    lse: Option<usize>,
    marks: &LineMarks,
    in_code: bool,
    bq: Option<u8>,
) -> (pl: ParsedLine)
    requires
        cv0@.len() == line@.len(),
        marks.wf(),
    ensures
        pl@ == line_out(line@, cv0@, els0@, lse, marks@, in_code, bq),
        pl.wf(),
{
    let mut cv = cv0;
    let mut els = els0;
    heading_fix_exec(line, &mut cv, &els);
    let ghost cv1 = cv@;
    wikilinks_exec(&mut cv, &mut els, &marks.wikilinks);
    let imgs = images_exec(&mut cv, &mut els, &marks.images);
    if !in_code {
        labels_exec(line, &mut els, &marks.labels);
    }
    let sorted = sort_elements(&els);
    let (vis, idx) = cover_tables(&sorted, line.len());
    let pl = ParsedLine {
        elements: sorted,
        content_vis: cv,
        elem_vis: vis,
        elem_index: idx,
        list_sigil_end: lse,
        image_placeholders: imgs,
        blockquote_depth: bq,
    };
    proof {
        lemma_heading_fix_len(line@, cv0@, els0@, els0@.len() as int);
        lemma_wikilinks_len(cv1, els0@, marks@.wikilinks, marks@.wikilinks.len() as int);
        let (cv2, els2) = wikilinks_from(cv1, els0@, marks@.wikilinks, marks@.wikilinks.len() as int);
        lemma_images_len(cv2, els2, marks@.images, marks@.images.len() as int);
        assert(pl@ =~= line_out(line@, cv0@, els0@, lse, marks@, in_code, bq));
        assert forall|p: int| #![trigger pl.elem_index@[p]] 0 <= p < pl.elem_index@.len() implies pl.elem_index@[p]
            as int <= pl.elements@.len() by {
            lemma_cover_bound(sorted@, p, sorted@.len() as int);
        }
    }
    pl
}

proof fn lemma_cover_bound(els: Seq<Element>, p: int, k: int)
    requires
        0 <= k,
    ensures
        0 <= cover(els, p, k) <= k,
        (cover(els, p, k) % 65536) as u16 as int <= k,
    decreases k,
{
    if k > 0 {
        lemma_cover_bound(els, p, k - 1);
    }
}

proof fn lemma_heading_fix_len(line: Seq<char>, cv: Seq<bool>, els: Seq<Element>, j: int)
    ensures
        heading_fix(line, cv, els, j).len() == cv.len(),
    decreases j,
{
    if j > 0 {
        lemma_heading_fix_len(line, cv, els, j - 1);
    }
}

proof fn lemma_wikilinks_len(cv: Seq<bool>, els: Seq<Element>, spans: Seq<(usize, usize)>, k: int)
    ensures
        wikilinks_from(cv, els, spans, k).0.len() == cv.len(),
    decreases k,
{
    if k > 0 {
        lemma_wikilinks_len(cv, els, spans, k - 1);
    }
}

proof fn lemma_images_len(cv: Seq<bool>, els: Seq<Element>, imgs: Seq<(usize, usize, Seq<char>)>, k: int)
    ensures
        images_from(cv, els, imgs, k).0.len() == cv.len(),
    decreases k,
{
    if k > 0 {
        lemma_images_len(cv, els, imgs, k - 1);
    }
}


pub proof fn lemma_setext_len(ls: Seq<Seq<char>>, ks: Seq<LineConstructKind>, r: int)
    ensures
        setext_pass(ls, ks, r).len() == ks.len(),
    decreases r,
{
    if r > 0 {
        lemma_setext_len(ls, ks, r - 1);
    }
}

pub proof fn lemma_continuation_len(ks: Seq<LineConstructKind>, r: int)
    ensures
        continuation_pass(ks, r).len() == ks.len(),
    decreases r,
{
    if r > 1 {
        lemma_continuation_len(ks, r - 1);
    }
}


// ---------------------------------------------------------------------------
// Laws.

/// Elements in non-decreasing start-column order.
pub open spec fn sorted_by_start(s: Seq<Element>) -> bool {
    forall|i: int, j: int| 0 <= i < j < s.len() ==> s[i].start_char <= s[j].start_char
}

proof fn lemma_ins_pos(s: Seq<Element>, key: int)
    ensures
        0 <= ins_pos(s, key) <= s.len(),
        forall|i: int| 0 <= i < ins_pos(s, key) ==> s[i].start_char <= key,
        ins_pos(s, key) < s.len() ==> s[ins_pos(s, key)].start_char > key,
    decreases s.len(),
{
    if s.len() > 0 && s[0].start_char <= key {
        lemma_ins_pos(s.drop_first(), key);
        assert forall|i: int| 0 <= i < ins_pos(s, key) implies s[i].start_char <= key by {
            if i > 0 {
                assert(s[i] == s.drop_first()[i - 1]);
            }
        }
    }
}

/// A line's elements come out ordered by start column, and are exactly the
/// elements the refinements produced (a permutation of them).
pub proof fn law_elements_sorted(s: Seq<Element>)
    ensures
        sorted_by_start(sort_elements_spec(s)),
        sort_elements_spec(s).to_multiset() == s.to_multiset(),
    decreases s.len(),
{
    broadcast use vstd::seq_lib::to_multiset_insert, vstd::seq_lib::to_multiset_build;

    if s.len() > 0 {
        law_elements_sorted(s.drop_last());
        let t = sort_elements_spec(s.drop_last());
        let x = s.last();
        let p = ins_pos(t, x.start_char as int);
        lemma_ins_pos(t, x.start_char as int);
        let r = t.insert(p, x);
        assert forall|i: int, j: int| 0 <= i < j < r.len() implies r[i].start_char <= r[j].start_char by {
            if j < p {
                assert(r[i] == t[i] && r[j] == t[j]);
            } else if j == p {
                assert(r[j] == x);
                assert(r[i] == t[i]);
            } else if i < p {
                assert(r[i] == t[i]);
                assert(r[j] == t[j - 1]);
                assert(t[i].start_char <= x.start_char);
                assert(t[p].start_char > x.start_char);
                if j - 1 > p {
                    assert(t[p].start_char <= t[j - 1].start_char);
                }
            } else if i == p {
                assert(r[i] == x);
                assert(r[j] == t[j - 1]);
                if j - 1 > p {
                    assert(t[p].start_char <= t[j - 1].start_char);
                }
            } else {
                assert(r[i] == t[i - 1] && r[j] == t[j - 1]);
            }
        }
        assert(s.drop_last().push(x) == s);
    }
}

/// The per-char tables of a parsed line agree with its elements: a char is
/// marked as in an element exactly when some element covers it, and a
/// non-zero index names the last element covering it.
pub proof fn law_element_tables(els: Seq<Element>, p: int)
    ensures
        (cover(els, p, els.len() as int) > 0) == (exists|i: int|
            0 <= i < els.len() && #[trigger] els[i].start_char <= p < els[i].end_char),
        cover(els, p, els.len() as int) > 0 ==> {
            let i = cover(els, p, els.len() as int) - 1;
            &&& els[i].start_char <= p < els[i].end_char
            &&& forall|j: int| i < j < els.len() ==> !(#[trigger] els[j].start_char <= p < els[j].end_char)
        },
{
    lemma_cover(els, p, els.len() as int);
}

/// On every parsed line with fewer than 65536 elements, the per-char
/// lookup tables agree with the element ranges: a char is inside some
/// element exactly when it is on the line and some element's range holds
/// it, the element lookup finds one exactly then, and the element it names
/// holds the char.
pub proof fn law_element_lookup_agrees_with_ranges(
    line: Seq<char>,
    cv0: Seq<bool>,
    els0: Seq<Element>,
    lse: Option<usize>,
    mk: MarksV,
    in_code: bool,
    bq: Option<u8>,
    pos: int,
)
    requires
        line_out(line, cv0, els0, lse, mk, in_code, bq).elements.len() < 65536,
    ensures
        ({
            let l = line_out(line, cv0, els0, lse, mk, in_code, bq);
            &&& l.in_any_element(pos) == (0 <= pos < line.len() && exists|i: int|
                0 <= i < l.elements.len() && #[trigger] l.elements[i].start_char <= pos < l.elements[i].end_char)
            &&& (l.elem_at(pos) is Some) == l.in_any_element(pos)
            &&& (l.elem_at(pos) matches Some(i) ==> i < l.elements.len() && l.elements[i as int].start_char <= pos
                < l.elements[i as int].end_char)
        }),
{
    let l = line_out(line, cv0, els0, lse, mk, in_code, bq);
    let els = l.elements;
    let n = els.len() as int;
    lemma_cover(els, pos, n);
    if 0 <= pos < line.len() {
        let c = cover(els, pos, n);
        assert(l.elem_vis[pos] == (c > 0));
        assert(c % 65536 == c);
        assert(l.elem_index[pos] == c as u16);
    }
}

proof fn lemma_cover(els: Seq<Element>, p: int, k: int)
    requires
        0 <= k <= els.len(),
    ensures
        0 <= cover(els, p, k) <= k,
        (cover(els, p, k) > 0) == (exists|i: int| 0 <= i < k && #[trigger] els[i].start_char <= p < els[i].end_char),
        cover(els, p, k) > 0 ==> {
            let i = cover(els, p, k) - 1;
            &&& els[i].start_char <= p < els[i].end_char
            &&& forall|j: int| i < j < k ==> !(#[trigger] els[j].start_char <= p < els[j].end_char)
        },
    decreases k,
{
    if k > 0 {
        lemma_cover(els, p, k - 1);
        if !(els[k - 1].start_char <= p < els[k - 1].end_char) {
            assert forall|i: int| 0 <= i < k && #[trigger] els[i].start_char <= p < els[i].end_char implies i < k - 1 by {}
        }
    }
}

} // verus!
