//! Markdown parsing and rendering data for the editor view.
//!
//! A note is parsed once per change into a [`ParsedBuffer`]: one
//! [`ParsedLine`] per row (which chars are content and which are markdown
//! sigils, the styled elements, list/heading/blockquote sigil extents, image
//! placeholders) plus a per-row construct classification. The
//! [`MarkdownSpanner`] mappings then translate between logical char columns
//! and the rendered columns of the sigil-concealing view, and split each
//! visual row into the segments it is drawn in.
use vstd::prelude::*;
use crate::text::{
    bytes_len, char_index_at_byte, chars_of, is_digit, is_digit_spec, lead_blank, lead_run,
    lemma_lead_blank_bound, blank_len,
};

pub mod block_opener;
pub mod cmark;
pub mod layout;
pub mod parse_spec;
pub mod walk;
pub mod post;
pub mod parsed_buffer;
pub mod spanner;
pub mod render;

pub use parsed_buffer::ParsedBuffer;
pub use spanner::MarkdownSpanner;

verus! {

/// Visual columns per tab stop.
pub const TAB_STOP: usize = 4;

/// Display width of a tab at visual column `col`: up to the next tab stop.
pub fn tab_width_at(col: usize) -> (w: usize)
    ensures
        w == TAB_STOP - col % TAB_STOP,
        1 <= w <= TAB_STOP,
{
    TAB_STOP - (col % TAB_STOP)
}

/// Display width of `c` as `unicode_width` reports it.
pub uninterp spec fn char_width(c: char) -> Option<usize>;

/// `unicode_width::UnicodeWidthChar::width`. Claims the named result, and
/// what the crate's lookup shows: printable ASCII is one column, C0/C1
/// control characters have no width, and no char is wider than three
/// columns (the widest rule in the crate's documented width rules).
#[verifier::external_body]
fn unicode_char_width(c: char) -> (w: Option<usize>)
    ensures
        w == char_width(c),
        (' ' <= c && c < '\u{7f}') ==> w == Some(1usize),
        (c < ' ' || ('\u{7f}' <= c && c < '\u{a0}')) ==> w is None,
        w matches Some(n) ==> n <= 3,
{
    unicode_width::UnicodeWidthChar::width(c)
}

/// Display width of a grapheme cluster: the width of its first char, or 1
/// when that char has none (or the cluster is empty).
pub open spec fn cluster_width_spec(cluster: Seq<char>) -> nat {
    if cluster.len() == 0 {
        1
    } else {
        match char_width(cluster[0]) {
            Some(w) => w as nat,
            None => 1,
        }
    }
}

pub fn cluster_display_width(cluster: &[char]) -> (w: usize)
    ensures
        w == cluster_width_spec(cluster@),
        w <= 3,
{
    if cluster.len() == 0 {
        return 1;
    }
    match unicode_char_width(cluster[0]) {
        Some(w) => w,
        None => 1,
    }
}

/// Width of `cluster` drawn at visual column `col`: a tab runs to the next
/// tab stop, anything else takes its cluster width.
pub open spec fn cluster_width_at_spec(cluster: Seq<char>, col: int) -> nat {
    if cluster == seq!['\t'] {
        (TAB_STOP - col % (TAB_STOP as int)) as nat
    } else {
        cluster_width_spec(cluster)
    }
}

pub fn cluster_width_at(cluster: &[char], col: usize) -> (w: usize)
    ensures
        w == cluster_width_at_spec(cluster@, col as int),
        w <= TAB_STOP,
{
    if cluster.len() == 1 && cluster[0] == '\t' {
        assert(cluster@ == seq!['\t']);
        tab_width_at(col)
    } else {
        assert(cluster@ != seq!['\t']) by {
            if cluster@ == seq!['\t'] {
                assert(cluster@.len() == 1);
            }
        }
        cluster_display_width(cluster)
    }
}

/// The grapheme clusters of `s` as `unicode_segmentation` splits it.
pub uninterp spec fn grapheme_clusters(s: Seq<char>) -> Seq<Seq<char>>;

/// `UnicodeSegmentation::graphemes(s, true)`, each cluster copied out.
/// Claims the named result, and that the clusters are non-empty slices that
/// concatenate back to `s` (the iterator walks `s` from start to end).
#[verifier::external_body]
fn graphemes_of(s: &str) -> (out: Vec<Vec<char>>)
    ensures
        out@.map_values(|v: Vec<char>| v@) == grapheme_clusters(s@),
        out@.map_values(|v: Vec<char>| v@).flatten() == s@,
        forall|i: int| #![trigger out@[i]] 0 <= i < out@.len() ==> out@[i]@.len() > 0,
{
    unicode_segmentation::UnicodeSegmentation::graphemes(s, true).map(|g| g.chars().collect()).collect()
}

/// The clusters of `s`, as char vectors.
pub fn clusters(s: &str) -> (out: Vec<Vec<char>>)
    ensures
        out@.len() == grapheme_clusters(s@).len(),
        forall|i: int| #![trigger out@[i]] 0 <= i < out@.len() ==> out@[i]@ == grapheme_clusters(s@)[i],
        grapheme_clusters(s@).flatten() == s@,
        forall|i: int|
            #![trigger grapheme_clusters(s@)[i]]
            0 <= i < grapheme_clusters(s@).len() ==> grapheme_clusters(s@)[i].len() > 0,
{
    let out = graphemes_of(s);
    proof {
        let g = grapheme_clusters(s@);
        assert forall|i: int| 0 <= i < out@.len() implies #[trigger] out@[i]@ == g[i] by {
            assert(out@.map_values(|v: Vec<char>| v@)[i] == out@[i]@);
        }
        assert forall|i: int| 0 <= i < g.len() implies #[trigger] g[i].len() > 0 by {
            assert(out@.map_values(|v: Vec<char>| v@)[i] == out@[i]@);
            let _ = out@[i];
        }
    }
    out
}

/// Sum of cluster widths over `cs`.
pub open spec fn clusters_width(cs: Seq<Seq<char>>) -> nat
    decreases cs.len(),
{
    if cs.len() == 0 {
        0
    } else {
        clusters_width(cs.drop_last()) + cluster_width_spec(cs.last())
    }
}

/// Display width of `s`: the sum of its grapheme-cluster widths.
pub open spec fn string_display_width_spec(s: Seq<char>) -> nat {
    clusters_width(grapheme_clusters(s))
}

pub proof fn lemma_flatten_len(cs: Seq<Seq<char>>)
    requires
        forall|i: int| #![trigger cs[i]] 0 <= i < cs.len() ==> cs[i].len() > 0,
    ensures
        cs.len() <= cs.flatten().len(),
    decreases cs.len(),
{
    if cs.len() > 0 {
        lemma_flatten_len(cs.drop_first());
        assert(cs.flatten() == cs[0] + cs.drop_first().flatten());
    }
}

pub fn string_display_width(s: &str) -> (w: usize)
    requires
        s@.len() <= usize::MAX / 4,
    ensures
        w == string_display_width_spec(s@),
{
    let cs = clusters(s);
    proof {
        lemma_flatten_len(grapheme_clusters(s@));
    }
    let mut w: usize = 0;
    let mut i: usize = 0;
    while i < cs.len()
        invariant
            cs@.len() == grapheme_clusters(s@).len() <= usize::MAX / 4,
            forall|k: int| #![trigger cs@[k]] 0 <= k < cs@.len() ==> cs@[k]@ == grapheme_clusters(s@)[k],
            0 <= i <= cs@.len(),
            w == clusters_width(grapheme_clusters(s@).take(i as int)),
            w <= 3 * i,
        decreases cs.len() - i,
    {
        let cw = cluster_display_width(&cs[i]);
        proof {
            let g = grapheme_clusters(s@);
            assert(g.take(i + 1).drop_last() == g.take(i as int));
            assert(g.take(i + 1).last() == g[i as int]);
            let _ = cs@[i as int];
        }
        w = w + cw;
        i += 1;
    }
    assert(grapheme_clusters(s@).take(cs@.len() as int) == grapheme_clusters(s@));
    w
}

/// Width of a raw line with every cluster drawn and tabs expanded, walking
/// clusters from visual column `col`.
pub open spec fn raw_width_from(cs: Seq<Seq<char>>, col: int) -> int
    decreases cs.len(),
{
    if cs.len() == 0 {
        col
    } else {
        raw_width_from(cs.drop_first(), col + cluster_width_at_spec(cs[0], col))
    }
}

/// Display width of a raw line: all clusters visible, tabs expanded.
pub fn raw_display_width(line: &str) -> (w: usize)
    requires
        line@.len() <= usize::MAX / 4,
    ensures
        w == raw_width_from(grapheme_clusters(line@), 0),
{
    let cs = clusters(line);
    proof {
        lemma_flatten_len(grapheme_clusters(line@));
    }
    let mut col: usize = 0;
    let mut i: usize = 0;
    assert(grapheme_clusters(line@).skip(0) == grapheme_clusters(line@));
    while i < cs.len()
        invariant
            cs@.len() == grapheme_clusters(line@).len() <= usize::MAX / 4,
            forall|k: int| #![trigger cs@[k]] 0 <= k < cs@.len() ==> cs@[k]@ == grapheme_clusters(line@)[k],
            0 <= i <= cs@.len(),
            col <= 4 * i,
            raw_width_from(grapheme_clusters(line@).skip(i as int), col as int) == raw_width_from(
                grapheme_clusters(line@),
                0,
            ),
        decreases cs.len() - i,
    {
        let ghost g = grapheme_clusters(line@).skip(i as int);
        let w = cluster_width_at(&cs[i], col);
        proof {
            assert(g[0] == cs@[i as int]@);
            assert(g.drop_first() == grapheme_clusters(line@).skip(i + 1));
        }
        col = col + w;
        i += 1;
    }
    col
}

/// A styled markdown element on one line: chars `start_char..end_char`.
#[derive(Debug, Clone, Copy, PartialEq, Eq, Structural)]
pub struct Element {
    pub start_char: usize,
    pub end_char: usize,
    pub kind: ElementKind,
}

#[derive(Debug, Clone, Copy, PartialEq, Eq, Structural)]
pub enum ElementKind {
    Bold,
    Italic,
    Strikethrough,
    InlineCode,
    Link,
    HeadingH1,
    HeadingH2,
    HeadingH3,
    Blockquote,
    WikiLink,
    Image,
    Label,
}

pub open spec fn is_heading_kind(k: ElementKind) -> bool {
    k == ElementKind::HeadingH1 || k == ElementKind::HeadingH2 || k == ElementKind::HeadingH3
}

/// An image link `![alt](url)` on a line, drawn as `placeholder` in place of
/// its source chars `start_char..end_char`.
#[derive(Debug, Clone)]
pub struct ImagePlaceholder {
    pub start_char: usize,
    pub end_char: usize,
    pub placeholder: String,
    pub placeholder_width: usize,
}

/// The per-row construct classification of a parsed buffer.
#[derive(Debug, Clone, Copy, PartialEq, Eq, Structural)]
pub enum LineConstructKind {
    Blank,
    Plain,
    Heading,
    SetextUnderline,
    FenceMarker,
    FenceContent,
    IndentedCode,
    HtmlBlock,
    ListMarker,
    ListContinuation,
    Blockquote(u8),
}

/// What the note index's detectors report for one line: wikilink spans
/// `[[..]]` (char offsets), image links (char offsets plus the file name of
/// their target) and hashtag labels (byte offsets).
#[derive(Debug, Clone)]
pub struct LineMarks {
    pub wikilinks: Vec<(usize, usize)>,
    pub images: Vec<(usize, usize, String)>,
    pub labels: Vec<(usize, usize)>,
}

impl LineMarks {
    /// A line with no wikilinks, images or labels.
    pub fn none() -> (m: LineMarks)
        ensures
            m.wikilinks@.len() == 0,
            m.images@.len() == 0,
            m.labels@.len() == 0,
    {
        LineMarks { wikilinks: Vec::new(), images: Vec::new(), labels: Vec::new() }
    }

    /// Every wikilink span holds at least its four bracket chars, and every
    /// image file name is of a length a line can hold.
    pub open spec fn wf(&self) -> bool {
        &&& forall|i: int|
            #![trigger self.wikilinks@[i]]
            0 <= i < self.wikilinks@.len() ==> self.wikilinks@[i].0 + 4 <= self.wikilinks@[i].1
        &&& forall|i: int|
            #![trigger self.images@[i]]
            0 <= i < self.images@.len() ==> self.images@[i].2@.len() + 2 <= usize::MAX / 4
    }
}

impl View for LineMarks {
    type V = post::MarksV;

    open spec fn view(&self) -> post::MarksV {
        post::MarksV {
            wikilinks: self.wikilinks@,
            images: self.images@.map_values(|t: (usize, usize, String)| post::img_view(t)),
            labels: self.labels@,
        }
    }
}

impl View for ParsedLine {
    type V = post::LineOut;

    open spec fn view(&self) -> post::LineOut {
        post::LineOut {
            elements: self.elements@,
            content_vis: self.content_vis@,
            elem_vis: self.elem_vis@,
            elem_index: self.elem_index@,
            list_sigil_end: self.list_sigil_end,
            images: self.image_placeholders@.map_values(|ip: ImagePlaceholder| post::ip_view(ip)),
            blockquote_depth: self.blockquote_depth,
        }
    }
}

/// Pre-parsed data of one logical line.
#[derive(Debug, Clone)]
pub struct ParsedLine {
    pub elements: Vec<Element>,
    /// Per char: `true` when it is rendered content rather than a sigil.
    pub content_vis: Vec<bool>,
    /// Per char: `true` when it falls within some element.
    pub elem_vis: Vec<bool>,
    /// Per char: 1-based index of the last element covering it, 0 for none.
    pub elem_index: Vec<u16>,
    /// Where the list-item sigil (indent, marker, space) ends, when this row
    /// opens a list item.
    pub list_sigil_end: Option<usize>,
    /// Image-link spans, sorted by `start_char`.
    pub image_placeholders: Vec<ImagePlaceholder>,
    /// Blockquote nesting depth, when this row is a blockquote row.
    pub blockquote_depth: Option<u8>,
}

/// First content char of `e` (the end of its sigil region), or `e.end_char`.
pub open spec fn first_content_in(cv: Seq<bool>, s: int, e: int) -> int
    decreases e - s,
{
    if s >= e {
        e
    } else if s < cv.len() && cv[s] {
        s
    } else {
        first_content_in(cv, s + 1, e)
    }
}

/// Index of the first element satisfying `pred`, if any.
pub open spec fn first_heading(els: Seq<Element>) -> Option<int>
    decreases els.len(),
{
    if els.len() == 0 {
        None
    } else if is_heading_kind(els[0].kind) {
        Some(0)
    } else {
        match first_heading(els.drop_first()) {
            Some(i) => Some(i + 1),
            None => None,
        }
    }
}

pub open spec fn first_blockquote(els: Seq<Element>) -> Option<int>
    decreases els.len(),
{
    if els.len() == 0 {
        None
    } else if els[0].kind == ElementKind::Blockquote {
        Some(0)
    } else {
        match first_blockquote(els.drop_first()) {
            Some(i) => Some(i + 1),
            None => None,
        }
    }
}

impl ParsedLine {
    /// The per-char tables agree in length and every element index names an
    /// element.
    pub open spec fn wf(&self) -> bool {
        &&& self.elem_vis@.len() == self.content_vis@.len()
        &&& self.elem_index@.len() == self.content_vis@.len()
        &&& forall|p: int|
            #![trigger self.elem_index@[p]]
            0 <= p < self.elem_index@.len() ==> self.elem_index@[p] as int <= self.elements@.len()
    }

    pub open spec fn elem_at_spec(&self, pos: int) -> Option<usize> {
        self@.elem_at(pos)
    }

    /// Element index at `pos`, if any.
    pub fn elem_at(&self, pos: usize) -> (r: Option<usize>)
        ensures
            r == self.elem_at_spec(pos as int),
    {
        if pos < self.elem_index.len() {
            let tag = self.elem_index[pos];
            if tag == 0 {
                None
            } else {
                Some((tag as usize) - 1)
            }
        } else {
            None
        }
    }

    pub open spec fn in_any_element_spec(&self, pos: int) -> bool {
        self@.in_any_element(pos)
    }

    /// Whether `pos` falls inside any element.
    pub fn in_any_element(&self, pos: usize) -> (r: bool)
        ensures
            r == self.in_any_element_spec(pos as int),
    {
        pos < self.elem_vis.len() && self.elem_vis[pos]
    }

    pub open spec fn heading_sigil_end_spec(&self) -> Option<usize> {
        self@.heading_sigil_end()
    }

    /// First content char inside the first heading element (the end of the
    /// `#` sigil), or that element's end when it holds no content; `None`
    /// without a heading element.
    pub fn heading_sigil_end(&self) -> (r: Option<usize>)
        ensures
            r == self.heading_sigil_end_spec(),
    {
        let mut i: usize = 0;
        assert(self.elements@.skip(0) == self.elements@);
        while i < self.elements.len()
            invariant
                0 <= i <= self.elements@.len(),
                first_heading(self.elements@) == (match first_heading(self.elements@.skip(i as int)) {
                    Some(j) => Some(j + i),
                    None => None,
                }),
            decreases self.elements.len() - i,
        {
            let ghost rest = self.elements@.skip(i as int);
            assert(rest.drop_first() == self.elements@.skip(i + 1));
            let k = self.elements[i].kind;
            if k == ElementKind::HeadingH1 || k == ElementKind::HeadingH2 || k
                == ElementKind::HeadingH3 {
                let e = self.elements[i];
                assert(rest[0] == e);
                return Some(first_content(&self.content_vis, e.start_char, e.end_char));
            }
            i += 1;
        }
        None
    }

    pub fn list_sigil_end(&self) -> (r: Option<usize>)
        ensures
            r == self.list_sigil_end,
    {
        self.list_sigil_end
    }

    pub fn blockquote_depth(&self) -> (r: Option<u8>)
        ensures
            r == self.blockquote_depth,
    {
        self.blockquote_depth
    }

    pub open spec fn blockquote_sigil_end_spec(&self) -> Option<usize> {
        self@.blockquote_sigil_end()
    }

    /// First content char inside the blockquote element (the end of the `>`
    /// markers); `None` when the row is not a blockquote, `Some(0)` when it
    /// is one without a blockquote element.
    pub fn blockquote_sigil_end(&self) -> (r: Option<usize>)
        ensures
            r == self.blockquote_sigil_end_spec(),
    {
        if self.blockquote_depth.is_none() {
            return None;
        }
        let mut i: usize = 0;
        assert(self.elements@.skip(0) == self.elements@);
        while i < self.elements.len()
            invariant
                0 <= i <= self.elements@.len(),
                self.blockquote_depth is Some,
                first_blockquote(self.elements@) == (match first_blockquote(
                    self.elements@.skip(i as int),
                ) {
                    Some(j) => Some(j + i),
                    None => None,
                }),
            decreases self.elements.len() - i,
        {
            let ghost rest = self.elements@.skip(i as int);
            assert(rest.drop_first() == self.elements@.skip(i + 1));
            if self.elements[i].kind == ElementKind::Blockquote {
                let e = self.elements[i];
                assert(rest[0] == e);
                assert(first_blockquote(rest) == Some(0int));
                assert(first_blockquote(self.elements@) == Some(i as int));
                let r = first_content(&self.content_vis, e.start_char, e.end_char);
                assert(self.blockquote_depth is Some);
                return Some(r);
            }
            i += 1;
        }
        Some(0)
    }
}

/// The first `i` in `s..e` with `cv[i]`, or `e`.
fn first_content(cv: &Vec<bool>, s: usize, e: usize) -> (r: usize)
    ensures
        r == first_content_in(cv@, s as int, e as int),
{
    let mut i = s;
    while i < e
        invariant
            s <= i,
            i <= e || s > e,
            first_content_in(cv@, s as int, e as int) == first_content_in(cv@, i as int, e as int),
        decreases e - i,
    {
        if i < cv.len() && cv[i] {
            return i;
        }
        i += 1;
    }
    if s >= e {
        return e;
    }
    e
}

/// Leading run of ASCII space/tab chars of `line` (its byte length, which
/// is also its char count).
pub fn leading_ws_byte_len(line: &str) -> (n: usize)
    ensures
        n == lead_blank(line@),
{
    let l = chars_of(line);
    let n = blank_len(&l, 0);
    assert(l@.subrange(0, l@.len() as int) == l@);
    n
}

/// Marker length (with its trailing space) when `s` starts with an unordered
/// (`- `, `* `, `+ `) or ordered (`N. `) list marker.
pub open spec fn list_marker_len_spec(s: Seq<char>) -> Option<usize> {
    if s.len() >= 2 && (s[0] == '-' || s[0] == '*' || s[0] == '+') && s[1] == ' ' {
        Some(2)
    } else {
        let d = block_opener::lead_digits(s) as int;
        if d > 0 && d + 1 < s.len() && s[d] == '.' && s[d + 1] == ' ' {
            Some((d + 2) as usize)
        } else {
            None
        }
    }
}

pub fn list_marker_len(s: &[char]) -> (r: Option<usize>)
    ensures
        r == list_marker_len_spec(s@),
{
    if s.len() >= 2 && (s[0] == '-' || s[0] == '*' || s[0] == '+') && s[1] == ' ' {
        return Some(2);
    }
    let mut i: usize = 0;
    assert(s@.skip(0) == s@);
    while i < s.len() && is_digit(s[i])
        invariant
            0 <= i <= s@.len(),
            block_opener::lead_digits(s@) == i + block_opener::lead_digits(s@.skip(i as int)),
        decreases s.len() - i,
    {
        assert(s@.skip(i as int).drop_first() == s@.skip(i + 1));
        i += 1;
    }
    assert(block_opener::lead_digits(s@.skip(i as int)) == 0) by {
        if i < s@.len() {
            assert(s@.skip(i as int)[0] == s@[i as int]);
        }
    }
    if i > 0 && s.len() > 0 && i < s.len() - 1 && s[i] == '.' && s[i + 1] == ' ' {
        Some(i + 2)
    } else {
        None
    }
}

pub open spec fn needs_synthetic_list_parent_spec(l: Seq<char>) -> bool {
    let n = lead_blank(l) as int;
    n > 0 && list_marker_len_spec(l.subrange(n, l.len() as int)) is Some
}

/// Whether `line` is an indented list item, which on its own a CommonMark
/// parser reads as indented code.
pub fn needs_synthetic_list_parent(line: &[char]) -> (b: bool)
    ensures
        b == needs_synthetic_list_parent_spec(line@),
{
    let n = blank_len(line, 0);
    assert(line@.subrange(0, line@.len() as int) == line@);
    if n == 0 {
        return false;
    }
    let rest = slice_from(line, n);
    list_marker_len(&rest).is_some()
}

/// `s[from..]` as a vector.
pub fn slice_from(s: &[char], from: usize) -> (out: Vec<char>)
    requires
        from <= s@.len(),
    ensures
        out@ == s@.subrange(from as int, s@.len() as int),
{
    let mut out: Vec<char> = Vec::new();
    let mut i = from;
    while i < s.len()
        invariant
            from <= i <= s@.len(),
            out@ == s@.subrange(from as int, i as int),
        decreases s.len() - i,
    {
        out.push(s[i]);
        i += 1;
    }
    out
}

/// The styled element a start tag opens, for the tags pushed on start and
/// emitted on end.
pub open spec fn tag_to_kind_spec(t: cmark::MdTag) -> Option<ElementKind> {
    match t {
        cmark::MdTag::Strong => Some(ElementKind::Bold),
        cmark::MdTag::Emphasis => Some(ElementKind::Italic),
        cmark::MdTag::Strikethrough => Some(ElementKind::Strikethrough),
        cmark::MdTag::Link => Some(ElementKind::Link),
        cmark::MdTag::BlockQuote => Some(ElementKind::Blockquote),
        cmark::MdTag::Heading(l) => Some(
            if l == 1 {
                ElementKind::HeadingH1
            } else if l == 2 {
                ElementKind::HeadingH2
            } else {
                ElementKind::HeadingH3
            },
        ),
        _ => None,
    }
}

pub fn tag_to_kind(t: cmark::MdTag) -> (r: Option<ElementKind>)
    ensures
        r == tag_to_kind_spec(t),
{
    match t {
        cmark::MdTag::Strong => Some(ElementKind::Bold),
        cmark::MdTag::Emphasis => Some(ElementKind::Italic),
        cmark::MdTag::Strikethrough => Some(ElementKind::Strikethrough),
        cmark::MdTag::Link => Some(ElementKind::Link),
        cmark::MdTag::BlockQuote => Some(ElementKind::Blockquote),
        cmark::MdTag::Heading(l) => Some(
            if l == 1 {
                ElementKind::HeadingH1
            } else if l == 2 {
                ElementKind::HeadingH2
            } else {
                ElementKind::HeadingH3
            },
        ),
        _ => None,
    }
}

} // verus!
