//! `ParsedBuffer`: the whole buffer parsed in one CommonMark pass, split back
//! into per-row render data, the per-row construct classification, the
//! lazily-continuable block depth and the rows where the parser state is
//! reset; plus the range re-parse and splice used by incremental updates.
use vstd::prelude::*;
use crate::markdown::{LineConstructKind, LineMarks, ParsedLine, needs_synthetic_list_parent, needs_synthetic_list_parent_spec};
use crate::markdown::cmark::{MdClass, MdEvent, MdEventV, cmark_events, parse_events};
use crate::markdown::layout::{
    blens_ok, byte_len_of, join_lines, lemma_start_of_mono, start_of, starts_ok,
};
use crate::markdown::parse_spec::walk;
use crate::markdown::post::{
    LineOut, MarksV, boundaries_upto, continuation_pass, continuation_pass_exec, depth_and_boundaries,
    finish_line, in_code_block, in_code_exec, line_out, prefix_sum, quote_kinds, quote_opt, quote_pass,
    setext_pass, setext_pass_exec,
};
use crate::markdown::walk::{Ctx, walk_events};
use crate::text::{bytes_len, chars_of, string_from_chars};
use vstd::string::StringExecFns;

verus! {

/// The parsed buffer.
#[derive(Clone)]
pub struct ParsedBuffer {
    pub lines: Vec<ParsedLine>,
    pub kinds: Vec<LineConstructKind>,
    /// Ascending rows where a fresh parse starting there agrees with the full
    /// parse: `0`, `lines.len()`, and every blank row with no
    /// lazily-continuable block open.
    pub reset_boundaries: Vec<usize>,
    /// Per row: how many lazily-continuable blocks (lists, block quotes,
    /// indented code, HTML blocks) are open once the row's own opens count.
    pub lazy_depth: Vec<u32>,
}

/// A parsed buffer as plain values.
#[verifier::ext_equal]
pub struct BufferOut {
    pub lines: Seq<LineOut>,
    pub kinds: Seq<LineConstructKind>,
    pub reset_boundaries: Seq<usize>,
    pub lazy_depth: Seq<u32>,
}

impl View for ParsedBuffer {
    type V = BufferOut;

    open spec fn view(&self) -> BufferOut {
        BufferOut {
            lines: self.lines@.map_values(|l: ParsedLine| l@),
            kinds: self.kinds@,
            reset_boundaries: self.reset_boundaries@,
            lazy_depth: self.lazy_depth@,
        }
    }
}

/// The chars of each line.
pub open spec fn line_chars(lines: Seq<String>) -> Seq<Seq<char>> {
    lines.map_values(|s: String| s@)
}

/// The whole buffer fits the byte offsets of the joined text.
pub open spec fn fits(ls: Seq<Seq<char>>) -> bool {
    start_of(ls, ls.len() as int) <= usize::MAX
}

/// The parse of rows `ls` given their CommonMark events `evs` and what the
/// note index reports per row.
pub open spec fn buffer_out(ls: Seq<Seq<char>>, evs: Seq<MdEventV>, marks: Seq<MarksV>) -> BufferOut {
    let n = ls.len() as int;
    if n == 0 {
        BufferOut {
            lines: Seq::empty(),
            kinds: Seq::empty(),
            reset_boundaries: seq![0usize],
            lazy_depth: Seq::empty(),
        }
    } else {
        let a = walk(ls, evs, evs.len() as int);
        let k3 = continuation_pass(setext_pass(ls, quote_kinds(ls, a.kinds), n - 1), n);
        BufferOut {
            lines: Seq::new(
                n as nat,
                |r: int|
                    line_out(
                        ls[r],
                        a.cv[r],
                        a.els[r],
                        a.lse[r],
                        marks[r],
                        in_code_block(ls, a.cb_ranges, r),
                        quote_opt(ls[r], a.kinds[r]),
                    ),
            ),
            kinds: k3,
            reset_boundaries: boundaries_upto(a.lazy, k3, n, n + 1),
            lazy_depth: Seq::new(n as nat, |r: int| prefix_sum(a.lazy, r + 1) as u32),
        }
    }
}

/// No marks on any of `n` rows.
pub open spec fn no_marks(n: int) -> Seq<MarksV> {
    Seq::new(n as nat, |r: int| MarksV { wikilinks: Seq::empty(), images: Seq::empty(), labels: Seq::empty() })
}

/// The byte layout of `lines`: their chars, the start of each in the joined
/// text (plus the sentinel) and their byte lengths.
fn layout(lines: &[String]) -> (ctx: Ctx)
    requires
        lines@.len() >= 1,
        fits(line_chars(lines@)),
    ensures
        ctx.wf(),
        ctx.lv() == line_chars(lines@),
{
    let ghost ls = line_chars(lines@);
    let n = lines.len();
    let mut chars: Vec<Vec<char>> = Vec::new();
    let mut starts: Vec<usize> = Vec::new();
    let mut blens: Vec<usize> = Vec::new();
    let mut at: usize = 0;
    starts.push(0);
    let mut r: usize = 0;
    while r < n
        invariant
            r <= n,
            n == lines@.len() == ls.len(),
            ls == line_chars(lines@),
            fits(ls),
            chars@.len() == r,
            blens@.len() == r,
            starts@.len() == r + 1,
            at == start_of(ls, r as int),
            forall|q: int| #![trigger chars@[q]] 0 <= q < r ==> chars@[q]@ == ls[q],
            forall|q: int| #![trigger starts@[q]] 0 <= q <= r ==> starts@[q] == start_of(ls, q),
            forall|q: int| #![trigger blens@[q]] 0 <= q < r ==> blens@[q] == bytes_len(ls[q]),
        decreases n - r,
    {
        let cs = chars_of(lines[r].as_str());
        assert(cs@ == ls[r as int]);
        proof {
            lemma_start_of_mono(ls, r + 1, n as int);
        }
        let bl = byte_len_of(&cs);
        at = at + bl + 1;
        chars.push(cs);
        blens.push(bl);
        starts.push(at);
        r += 1;
    }
    let ctx = Ctx { ls: chars, starts, blens };
    assert(ctx.lv() =~= ls);
    ctx
}

impl ParsedBuffer {
    /// One row of each table per line, each line well formed.
    pub open spec fn wf(&self) -> bool {
        &&& self.kinds@.len() == self.lines@.len()
        &&& self.lazy_depth@.len() == self.lines@.len()
        &&& forall|r: int| #![trigger self.lines@[r]] 0 <= r < self.lines@.len() ==> self.lines@[r].wf()
    }

    /// The parse of `lines` from their CommonMark event stream `events` and
    /// the per-row `marks` of the note index.
    pub fn from_events(lines: &[String], events: &Vec<MdEvent>, marks: &Vec<LineMarks>) -> (pb: ParsedBuffer)
        requires
            lines@.len() >= 1,
            fits(line_chars(lines@)),
            marks@.len() == lines@.len(),
            forall|r: int| #![trigger marks@[r]] 0 <= r < marks@.len() ==> marks@[r].wf(),
            forall|i: int|
                #![trigger events@[i]]
                0 <= i < events@.len() ==> (events@[i].class == MdClass::Code <==> events@[i].code is Some),
        ensures
            pb@ == buffer_out(
                line_chars(lines@),
                events@.map_values(|e: MdEvent| e@),
                marks@.map_values(|m: LineMarks| m@),
            ),
            pb.wf(),
    {
        let ghost ls = line_chars(lines@);
        let ghost evs = events@.map_values(|e: MdEvent| e@);
        let ghost mks = marks@.map_values(|m: LineMarks| m@);
        let ctx = layout(lines);
        let n = ctx.ls.len();
        let mut acc = walk_events(&ctx, events);
        let ghost a = acc@;
        assert(a == walk(ls, evs, evs.len() as int));
        assert(acc.inv(ls, events@.len() as int));
        assert forall|q: int| 0 <= q < n implies #[trigger] a.cv[q].len() == ls[q].len() by {
            assert(a.cv[q] == acc.cv@[q]@);
        }
        let mut kinds: Vec<LineConstructKind> = Vec::new();
        std::mem::swap(&mut kinds, &mut acc.kinds);
        assert(kinds@ == a.kinds);
        let depths = quote_pass(&ctx, &mut kinds);
        setext_pass_exec(&ctx, &mut kinds);
        continuation_pass_exec(&mut kinds);
        let ghost old_lazy = acc.lazy@;
        let mut out: Vec<ParsedLine> = Vec::new();
        let mut r: usize = 0;
        while r < n
            invariant
                r <= n,
                n == ls.len() == marks@.len(),
                ctx.wf(),
                ls == ctx.lv(),
                mks == marks@.map_values(|m: LineMarks| m@),
                forall|q: int| #![trigger marks@[q]] 0 <= q < marks@.len() ==> marks@[q].wf(),
                acc.cv@.len() == n,
                acc.els@.len() == n,
                acc.lse@ == a.lse,
                a.lse.len() == n,
                acc.lazy@ == old_lazy,
                forall|q: int| 0 <= q < n ==> #[trigger] a.cv[q].len() == ls[q].len(),
                acc.cb_ranges@ == a.cb_ranges,
                forall|q: int| #![trigger acc.cv@[q]] r <= q < n ==> acc.cv@[q]@ == a.cv[q],
                forall|q: int| #![trigger acc.els@[q]] r <= q < n ==> acc.els@[q]@ == a.els[q],
                depths@ == Seq::new(n as nat, |q: int| quote_opt(ls[q], a.kinds[q])),
                out@.len() == r,
                forall|q: int|
                    #![trigger out@[q]]
                    0 <= q < r ==> out@[q]@ == line_out(
                        ls[q],
                        a.cv[q],
                        a.els[q],
                        a.lse[q],
                        mks[q],
                        in_code_block(ls, a.cb_ranges, q),
                        quote_opt(ls[q], a.kinds[q]),
                    ) && out@[q].wf(),
            decreases n - r,
        {
            let in_code = in_code_exec(&ctx, &acc.cb_ranges, r);
            let mut cv0: Vec<bool> = Vec::new();
            acc.cv.set_and_swap(r, &mut cv0);
            let mut els0: Vec<crate::markdown::Element> = Vec::new();
            acc.els.set_and_swap(r, &mut els0);
            assert(ctx.ls@[r as int]@ == ls[r as int]);
            assert(mks[r as int] == marks@[r as int]@);
            let pl = finish_line(&ctx.ls[r], cv0, els0, acc.lse[r], &marks[r], in_code, depths[r]);
            out.push(pl);
            r += 1;
            proof {
                assert forall|q: int| #![trigger acc.cv@[q]] r <= q < n implies acc.cv@[q]@ == a.cv[q] by {}
            }
        }
        proof {
            crate::markdown::post::lemma_setext_len(ls, quote_kinds(ls, a.kinds), n - 1);
            crate::markdown::post::lemma_continuation_len(
                setext_pass(ls, quote_kinds(ls, a.kinds), n - 1),
                n as int,
            );
        }
        assert(events@.len() == events.len());
        let (lazy_depth, reset_boundaries) = depth_and_boundaries(&acc.lazy, &kinds, Ghost(events@.len() as int));
        let pb = ParsedBuffer { lines: out, kinds, reset_boundaries, lazy_depth };
        assert(acc@.lazy == a.lazy);
        assert(pb@.lines =~= buffer_out(ls, evs, mks).lines);
        assert(pb@ =~= buffer_out(ls, evs, mks));
        pb
    }
}


/// The joined text of `lines`: rows separated by `'\n'`.
fn join(lines: &[String]) -> (out: String)
    requires
        lines@.len() >= 1,
    ensures
        out@ == join_lines(line_chars(lines@)),
{
    let ghost ls = line_chars(lines@);
    let mut out = String::new();
    out.append(lines[0].as_str());
    assert(ls.take(1) =~= seq![ls[0]]);
    let mut r: usize = 1;
    while r < lines.len()
        invariant
            1 <= r <= lines@.len(),
            ls == line_chars(lines@),
            out@ == join_lines(ls.take(r as int)),
        decreases lines.len() - r,
    {
        out.append("\n");
        proof {
            reveal_strlit("\n");
        }
        out.append(lines[r].as_str());
        proof {
            assert(ls.take(r + 1).drop_last() == ls.take(r as int));
            assert(ls.take(r + 1).last() == ls[r as int]);
        }
        r += 1;
    }
    assert(ls.take(lines@.len() as int) == ls);
    out
}

/// A parsed line with no elements, all chars content.
pub open spec fn plain_line_out(line: Seq<char>) -> LineOut {
    LineOut {
        elements: Seq::empty(),
        content_vis: Seq::new(line.len(), |p: int| true),
        elem_vis: Seq::new(line.len(), |p: int| false),
        elem_index: Seq::new(line.len(), |p: int| 0u16),
        list_sigil_end: None,
        images: Seq::empty(),
        blockquote_depth: None,
    }
}

/// The stand-in buffer: every row plain, no elements.
pub open spec fn placeholder_out(ls: Seq<Seq<char>>) -> BufferOut {
    BufferOut {
        lines: Seq::new(ls.len(), |r: int| plain_line_out(ls[r])),
        kinds: Seq::new(ls.len(), |r: int| LineConstructKind::Plain),
        reset_boundaries: if ls.len() == 0 {
            seq![0usize]
        } else {
            seq![0usize, ls.len() as usize]
        },
        lazy_depth: Seq::new(ls.len(), |r: int| 0u32),
    }
}

/// `s` with `s[a..b]` replaced by `m`.
pub open spec fn spliced<T>(s: Seq<T>, a: int, b: int, m: Seq<T>) -> Seq<T> {
    s.take(a) + m + s.skip(b)
}

/// Replaces `v[a..b]` with `m`.
fn splice_vec<T>(v: &mut Vec<T>, a: usize, b: usize, m: Vec<T>)
    requires
        a <= b <= old(v)@.len(),
    ensures
        final(v)@ == spliced(old(v)@, a as int, b as int, m@),
{
    let ghost o = v@;
    let ghost mm = m@;
    let mut tail = v.split_off(b);
    v.truncate(a);
    let mut m = m;
    v.append(&mut m);
    v.append(&mut tail);
    assert(v@ =~= spliced(o, a as int, b as int, mm));
}

/// The entries of `s` below `a`, in order.
pub open spec fn below(s: Seq<usize>, a: int) -> Seq<usize>
    decreases s.len(),
{
    if s.len() == 0 {
        s
    } else {
        let p = below(s.drop_last(), a);
        if s.last() < a {
            p.push(s.last())
        } else {
            p
        }
    }
}

/// The entries of `s` at or above `b`, in order.
pub open spec fn from_on(s: Seq<usize>, b: int) -> Seq<usize>
    decreases s.len(),
{
    if s.len() == 0 {
        s
    } else {
        let p = from_on(s.drop_last(), b);
        if s.last() >= b {
            p.push(s.last())
        } else {
            p
        }
    }
}

/// Interior rows of `a..k` that are blank with lazy depth 0.
pub open spec fn mid_boundaries(lazy: Seq<u32>, ks: Seq<LineConstructKind>, n: int, a: int, k: int) -> Seq<usize>
    decreases k - a,
{
    if k <= a {
        Seq::empty()
    } else {
        let p = mid_boundaries(lazy, ks, n, a, k - 1);
        let r = k - 1;
        if r != 0 && r != n && lazy[r] == 0 && ks[r] == LineConstructKind::Blank {
            p.push(r as usize)
        } else {
            p
        }
    }
}

/// `s` without repeats of the entry just before.
pub open spec fn dedup(s: Seq<usize>) -> Seq<usize>
    decreases s.len(),
{
    if s.len() <= 1 {
        s
    } else {
        let p = dedup(s.drop_last());
        if s.last() == s[s.len() - 2] {
            p
        } else {
            p.push(s.last())
        }
    }
}

/// The boundaries after replacing rows `a..b`: the old ones outside the
/// range, the range's own recomputed from the merged rows, `0` in front.
pub open spec fn splice_boundaries(
    rb: Seq<usize>,
    lazy: Seq<u32>,
    ks: Seq<LineConstructKind>,
    a: int,
    b: int,
) -> Seq<usize> {
    let n = ks.len() as int;
    let merged = below(rb, a) + mid_boundaries(lazy, ks, n, a, b) + from_on(rb, b);
    let m2 = if merged.len() > 0 && merged[0] == 0 {
        merged
    } else {
        seq![0usize] + merged
    };
    dedup(m2)
}

fn below_exec(s: &Vec<usize>, a: usize, out: &mut Vec<usize>)
    ensures
        final(out)@ == old(out)@ + below(s@, a as int),
{
    let ghost o = out@;
    let mut i: usize = 0;
    assert(s@.take(0) =~= Seq::<usize>::empty());
    while i < s.len()
        invariant
            i <= s@.len(),
            out@ == o + below(s@.take(i as int), a as int),
        decreases s.len() - i,
    {
        assert(s@.take(i + 1).drop_last() == s@.take(i as int));
        if s[i] < a {
            out.push(s[i]);
        }
        assert(out@ =~= o + below(s@.take(i + 1), a as int));
        i += 1;
    }
    assert(s@.take(s@.len() as int) == s@);
}

fn from_on_exec(s: &Vec<usize>, b: usize, out: &mut Vec<usize>)
    ensures
        final(out)@ == old(out)@ + from_on(s@, b as int),
{
    let ghost o = out@;
    let mut i: usize = 0;
    assert(s@.take(0) =~= Seq::<usize>::empty());
    while i < s.len()
        invariant
            i <= s@.len(),
            out@ == o + from_on(s@.take(i as int), b as int),
        decreases s.len() - i,
    {
        assert(s@.take(i + 1).drop_last() == s@.take(i as int));
        if s[i] >= b {
            out.push(s[i]);
        }
        assert(out@ =~= o + from_on(s@.take(i + 1), b as int));
        i += 1;
    }
    assert(s@.take(s@.len() as int) == s@);
}

fn dedup_exec(s: &Vec<usize>) -> (out: Vec<usize>)
    ensures
        out@ == dedup(s@),
{
    let mut out: Vec<usize> = Vec::new();
    let mut i: usize = 0;
    assert(s@.take(0) =~= Seq::<usize>::empty());
    while i < s.len()
        invariant
            i <= s@.len(),
            out@ == dedup(s@.take(i as int)),
        decreases s.len() - i,
    {
        proof {
            let t = s@.take(i + 1);
            assert(t.drop_last() == s@.take(i as int));
            if i >= 1 {
                assert(t[t.len() - 2] == s@[i - 1]);
            } else {
                assert(t =~= seq![s@[0]]);
                assert(dedup(s@.take(0)) =~= Seq::<usize>::empty());
            }
        }
        if i == 0 || s[i] != s[i - 1] {
            out.push(s[i]);
        }
        i += 1;
    }
    assert(s@.take(s@.len() as int) == s@);
    out
}


/// `n` rows of no marks.
fn no_marks_exec(n: usize) -> (out: Vec<LineMarks>)
    ensures
        out@.map_values(|m: LineMarks| m@) == no_marks(n as int),
        out@.len() == n,
        forall|r: int| #![trigger out@[r]] 0 <= r < out@.len() ==> out@[r].wf(),
{
    let mut out: Vec<LineMarks> = Vec::new();
    let mut r: usize = 0;
    while r < n
        invariant
            r <= n,
            out@.len() == r,
            forall|q: int| #![trigger out@[q]] 0 <= q < r ==> out@[q].wf() && out@[q]@ == no_marks(n as int)[q],
        decreases n - r,
    {
        let m = LineMarks::none();
        assert(m@.images =~= Seq::<(usize, usize, Seq<char>)>::empty());
        assert(m@.wikilinks =~= Seq::<(usize, usize)>::empty());
        assert(m@.labels =~= Seq::<(usize, usize)>::empty());
        out.push(m);
        r += 1;
    }
    assert(out@.map_values(|m: LineMarks| m@) =~= no_marks(n as int));
    out
}

impl ParsedBuffer {
    /// Parses `lines` with the note index's per-row `marks`: one CommonMark
    /// pass over the joined text, split back into rows.
    pub fn parse_marked(lines: &[String], marks: &Vec<LineMarks>) -> (pb: ParsedBuffer)
        requires
            fits(line_chars(lines@)),
            marks@.len() == lines@.len(),
            forall|r: int| #![trigger marks@[r]] 0 <= r < marks@.len() ==> marks@[r].wf(),
        ensures
            pb@ == buffer_out(
                line_chars(lines@),
                cmark_events(join_lines(line_chars(lines@))),
                marks@.map_values(|m: LineMarks| m@),
            ),
            pb.wf(),
            pb@.lines.len() == lines@.len(),
            boundaries_wf(pb@.reset_boundaries, pb@.kinds, pb@.lazy_depth, lines@.len() as int),
    {
        let _count: usize = lines.len();
        proof {
            law_parse_boundaries_wf(
                line_chars(lines@),
                cmark_events(join_lines(line_chars(lines@))),
                marks@.map_values(|m: LineMarks| m@),
            );
        }
        if lines.len() == 0 {
            let mut rb: Vec<usize> = Vec::new();
            rb.push(0);
            let pb = ParsedBuffer { lines: Vec::new(), kinds: Vec::new(), reset_boundaries: rb, lazy_depth: Vec::new() };
            assert(pb@.reset_boundaries =~= seq![0usize]);
            assert(pb@.lines =~= Seq::<LineOut>::empty());
            return pb;
        }
        let joined = join(lines);
        let events = parse_events(joined.as_str());
        assert(events@.map_values(|e: MdEvent| e@) =~= cmark_events(joined@));
        Self::from_events(lines, &events, marks)
    }

    /// Parses `lines` in a single CommonMark pass, with no note-index marks:
    /// wikilink, image and label elements come only through
    /// [`Self::parse_marked`], from the note scanner's spans.
    pub fn parse(lines: &[String]) -> (pb: ParsedBuffer)
        requires
            fits(line_chars(lines@)),
        ensures
            pb@ == buffer_out(
                line_chars(lines@),
                cmark_events(join_lines(line_chars(lines@))),
                no_marks(lines@.len() as int),
            ),
            pb.wf(),
            pb@.lines.len() == lines@.len(),
            boundaries_wf(pb@.reset_boundaries, pb@.kinds, pb@.lazy_depth, lines@.len() as int),
    {
        let marks = no_marks_exec(lines.len());
        Self::parse_marked(lines, &marks)
    }

    /// A stand-in buffer matching `lines`' row count: every row plain, every
    /// char content, no elements.
    pub fn placeholder(lines: &[String]) -> (pb: ParsedBuffer)
        ensures
            pb@ == placeholder_out(line_chars(lines@)),
            pb.wf(),
    {
        let ghost ls = line_chars(lines@);
        let n = lines.len();
        let mut out: Vec<ParsedLine> = Vec::new();
        let mut kinds: Vec<LineConstructKind> = Vec::new();
        let mut lazy: Vec<u32> = Vec::new();
        let mut r: usize = 0;
        while r < n
            invariant
                r <= n,
                n == ls.len(),
                ls == line_chars(lines@),
                out@.len() == r,
                kinds@.len() == r,
                lazy@.len() == r,
                forall|q: int| #![trigger out@[q]] 0 <= q < r ==> out@[q]@ == plain_line_out(ls[q]) && out@[q].wf(),
                forall|q: int| #![trigger kinds@[q]] 0 <= q < r ==> kinds@[q] == LineConstructKind::Plain,
                forall|q: int| #![trigger lazy@[q]] 0 <= q < r ==> lazy@[q] == 0,
            decreases n - r,
        {
            let total = chars_of(lines[r].as_str()).len();
            assert(total == ls[r as int].len());
            let (vis, idx) = crate::markdown::post::cover_tables(&Vec::new(), total);
            let pl = ParsedLine {
                elements: Vec::new(),
                content_vis: crate::markdown::walk::bools(total, true),
                elem_vis: vis,
                elem_index: idx,
                list_sigil_end: None,
                image_placeholders: Vec::new(),
                blockquote_depth: None,
            };
            assert(pl@.elem_index =~= plain_line_out(ls[r as int]).elem_index);
            assert(pl@.elem_vis =~= plain_line_out(ls[r as int]).elem_vis);
            assert(pl@.images =~= plain_line_out(ls[r as int]).images);
            assert(pl@ =~= plain_line_out(ls[r as int]));
            out.push(pl);
            kinds.push(LineConstructKind::Plain);
            lazy.push(0);
            r += 1;
        }
        let mut rb: Vec<usize> = Vec::new();
        rb.push(0);
        if n > 0 {
            rb.push(n);
        }
        let pb = ParsedBuffer { lines: out, kinds, reset_boundaries: rb, lazy_depth: lazy };
        assert(pb@.lines =~= placeholder_out(ls).lines);
        assert(pb@.kinds =~= placeholder_out(ls).kinds);
        assert(pb@.lazy_depth =~= placeholder_out(ls).lazy_depth);
        assert(pb@.reset_boundaries =~= placeholder_out(ls).reset_boundaries);
        pb
    }

    /// Parses `lines[range]` as a document of its own; the result is in
    /// slice-local row numbers.
    pub fn parse_range(lines: &[String], range: std::ops::Range<usize>) -> (pb: ParsedBuffer)
        requires
            range.start <= range.end <= lines@.len(),
            fits(line_chars(lines@.subrange(range.start as int, range.end as int))),
        ensures
            pb@ == buffer_out(
                line_chars(lines@.subrange(range.start as int, range.end as int)),
                cmark_events(join_lines(line_chars(lines@.subrange(range.start as int, range.end as int)))),
                no_marks(range.end - range.start),
            ),
            pb.wf(),
    {
        let sub = vstd::slice::slice_subrange(lines, range.start, range.end);
        Self::parse(sub)
    }

    /// Replaces rows `range` with the rows of `other` (a parse of the same
    /// rows) and recomputes the reset boundaries inside the range.
    pub fn splice(&mut self, range: std::ops::Range<usize>, other: ParsedBuffer)
        requires
            old(self).wf(),
            other.wf(),
            range.start <= range.end <= old(self).lines@.len(),
            other.lines@.len() == range.end - range.start,
        ensures
            final(self).wf(),
            final(self)@.lines == spliced(old(self)@.lines, range.start as int, range.end as int, other@.lines),
            final(self)@.kinds == spliced(old(self)@.kinds, range.start as int, range.end as int, other@.kinds),
            final(self)@.lazy_depth == spliced(
                old(self)@.lazy_depth,
                range.start as int,
                range.end as int,
                other@.lazy_depth,
            ),
            final(self)@.reset_boundaries == splice_boundaries(
                old(self)@.reset_boundaries,
                final(self)@.lazy_depth,
                final(self)@.kinds,
                range.start as int,
                range.end as int,
            ),
            boundaries_wf(
                old(self)@.reset_boundaries,
                old(self)@.kinds,
                old(self)@.lazy_depth,
                old(self)@.lines.len() as int,
            ) ==> {
                &&& boundaries_wf(
                    final(self)@.reset_boundaries,
                    final(self)@.kinds,
                    final(self)@.lazy_depth,
                    final(self)@.lines.len() as int,
                )
                &&& forall|x: usize|
                    #[trigger] final(self)@.reset_boundaries.contains(x) == (x == 0 || (old(self)@.reset_boundaries.contains(x)
                        && (x < range.start || x >= range.end)) || (range.start <= x < range.end && x
                        != old(self)@.lines.len() && final(self)@.lazy_depth[x as int] == 0
                        && final(self)@.kinds[x as int] == LineConstructKind::Blank))
            },
    {
        let a = range.start;
        let b = range.end;
        let ghost other_kinds = other@.kinds;
        let ghost other_lazy = other@.lazy_depth;
        let ghost old_lines = self.lines@;
        let ghost other_lines = other.lines@;
        splice_vec(&mut self.lines, a, b, other.lines);
        splice_vec(&mut self.kinds, a, b, other.kinds);
        splice_vec(&mut self.lazy_depth, a, b, other.lazy_depth);
        proof {
            assert(self@.lines =~= spliced(
                old_lines.map_values(|l: ParsedLine| l@),
                a as int,
                b as int,
                other_lines.map_values(|l: ParsedLine| l@),
            ));
            assert forall|r: int| #![trigger self.lines@[r]] 0 <= r < self.lines@.len() implies self.lines@[r].wf() by {
                if r < a {
                    assert(self.lines@[r] == old_lines[r]);
                } else if r < b {
                    assert(self.lines@[r] == other_lines[r - a]);
                } else {
                    assert(self.lines@[r] == old_lines[r - a - other_lines.len() + b]);
                }
            }
        }
        let n = self.lines.len();
        let ghost ks = self.kinds@;
        let ghost lz = self.lazy_depth@;
        let mut merged: Vec<usize> = Vec::new();
        below_exec(&self.reset_boundaries, a, &mut merged);
        let ghost low = merged@;
        let mut r = a;
        while r < b
            invariant
                a <= r <= b,
                b <= n,
                n == ks.len() == lz.len(),
                ks == self.kinds@,
                lz == self.lazy_depth@,
                merged@ == low + mid_boundaries(lz, ks, n as int, a as int, r as int),
            decreases b - r,
        {
            if r != 0 && r != n && self.lazy_depth[r] == 0 && self.kinds[r] == LineConstructKind::Blank {
                merged.push(r);
            }
            assert(merged@ =~= low + mid_boundaries(lz, ks, n as int, a as int, r + 1));
            r += 1;
        }
        from_on_exec(&self.reset_boundaries, b, &mut merged);
        let ghost m = merged@;
        if merged.len() == 0 || merged[0] != 0 {
            merged.insert(0, 0);
            assert(merged@ =~= seq![0usize] + m);
        }
        let rb = dedup_exec(&merged);
        self.reset_boundaries = rb;
        assert(m =~= below(old(self)@.reset_boundaries, a as int) + mid_boundaries(lz, ks, n as int, a as int, b as int)
            + from_on(old(self)@.reset_boundaries, b as int));
        proof {
            let o = old(self)@;
            if boundaries_wf(o.reset_boundaries, o.kinds, o.lazy_depth, o.lines.len() as int) {
                assert(self@.kinds == spliced(o.kinds, a as int, b as int, other_kinds));
                assert(self@.lazy_depth == spliced(o.lazy_depth, a as int, b as int, other_lazy));
                law_splice_keeps_boundaries_wf(
                    o.reset_boundaries,
                    o.kinds,
                    o.lazy_depth,
                    other_kinds,
                    other_lazy,
                    a as int,
                    b as int,
                );
                assert forall|x: usize|
                    #[trigger] self@.reset_boundaries.contains(x) == (x == 0 || (o.reset_boundaries.contains(x) && (x < a
                        || x >= b)) || (a <= x < b && x != o.lines.len() && self@.lazy_depth[x as int] == 0
                        && self@.kinds[x as int] == LineConstructKind::Blank)) by {
                    law_splice_boundaries_are_the_sorted_union(
                        o.reset_boundaries,
                        o.kinds,
                        o.lazy_depth,
                        other_kinds,
                        other_lazy,
                        a as int,
                        b as int,
                        x,
                    );
                }
            }
        }
    }
}

impl ParsedLine {
    /// Parses one line in isolation, with the note index's `marks` for it.
    /// An indented list item gets a synthetic `- ` parent row above it, so it
    /// parses as the nested item it is in a real buffer.
    pub fn parse_marked(line: &str, marks: LineMarks) -> (pl: ParsedLine)
        requires
            bytes_len(line@) + 4 <= usize::MAX,
            marks.wf(),
        ensures
            pl@ == parse_line_out(line@, marks@),
            pl@.elements.len() < 65536 ==> forall|pos: int| #[trigger] lookup_agrees(pl@, line@, pos),
    {
        proof {
            let ls = line_rows(line@);
            let ev = cmark_events(join_lines(ls));
            let mk = marks_rows(needs_synthetic_list_parent_spec(line@), marks@);
            let l = parse_line_out(line@, marks@);
            assert(ls.len() >= 1 && ls.last() == line@);
            if l.elements.len() < 65536 {
                assert forall|pos: int| #[trigger] lookup_agrees(l, line@, pos) by {
                    law_parsed_rows_look_up_their_elements(ls, ev, mk, ls.len() - 1, pos);
                }
            }
        }
        let owned = String::from_str(line);
        let mut lines: Vec<String> = Vec::new();
        let mut mk: Vec<LineMarks> = Vec::new();
        let synthetic = needs_synthetic_list_parent(&chars_of(line));
        let mut parent: Vec<char> = Vec::new();
        if synthetic {
            parent.push('-');
            parent.push(' ');
            lines.push(string_from_chars(&parent));
            let m0 = LineMarks::none();
            assert(m0@.images =~= no_marks(1)[0].images);
            assert(m0@.wikilinks =~= no_marks(1)[0].wikilinks);
            assert(m0@.labels =~= no_marks(1)[0].labels);
            mk.push(m0);
        }
        lines.push(owned);
        mk.push(marks);
        let ghost ls = line_chars(lines@);
        proof {
            if synthetic {
                assert(parent@ =~= seq!['-', ' ']);
                assert(ls[0] =~= seq!['-', ' ']);
                assert(ls =~= seq![seq!['-', ' '], line@]);
            } else {
                assert(ls =~= seq![line@]);
            }
            assert(bytes_len(seq!['-', ' ']) == 2) by {
                reveal_with_fuel(bytes_len, 3);
            }
            assert(start_of(ls, ls.len() as int) <= bytes_len(line@) + 4) by {
                reveal_with_fuel(start_of, 3);
            }
        }
        let mut pb = ParsedBuffer::parse_marked(lines.as_slice(), &mk);
        proof {
            assert(pb@.lines.len() == ls.len());
            assert(pb.lines@.last()@ == pb@.lines.last());
            if synthetic {
                assert(mk@[0]@ =~= no_marks(1)[0]);
            }
            assert(mk@.map_values(|m: LineMarks| m@) =~= marks_rows(synthetic, marks@));
        }
        pb.lines.pop().unwrap()
    }

    /// Parses one line in isolation, with no note-index marks (so no
    /// wikilink, image or label elements; see [`Self::parse_marked`]).
    pub fn parse(line: &str) -> (pl: ParsedLine)
        requires
            bytes_len(line@) + 4 <= usize::MAX,
        ensures
            pl@ == parse_line_out(line@, no_marks(1)[0]),
            pl@.elements.len() < 65536 ==> forall|pos: int| #[trigger] lookup_agrees(pl@, line@, pos),
    {
        let m = LineMarks::none();
        assert(m@.images =~= no_marks(1)[0].images);
        assert(m@.wikilinks =~= no_marks(1)[0].wikilinks);
        assert(m@.labels =~= no_marks(1)[0].labels);
        assert(m@ =~= no_marks(1)[0]);
        Self::parse_marked(line, m)
    }
}

/// The rows a single-line parse feeds: the synthetic parent row (when the
/// line needs one) and the line itself.
pub open spec fn line_rows(line: Seq<char>) -> Seq<Seq<char>> {
    if needs_synthetic_list_parent_spec(line) {
        seq![seq!['-', ' '], line]
    } else {
        seq![line]
    }
}

/// The marks of those rows.
pub open spec fn marks_rows(synthetic: bool, mk: MarksV) -> Seq<MarksV> {
    if synthetic {
        seq![no_marks(1)[0], mk]
    } else {
        seq![mk]
    }
}

/// A single line parsed in isolation: the last row of the parse of its rows.
pub open spec fn parse_line_out(line: Seq<char>, mk: MarksV) -> LineOut {
    let ls = line_rows(line);
    buffer_out(
        ls,
        cmark_events(join_lines(ls)),
        marks_rows(needs_synthetic_list_parent_spec(line), mk),
    ).lines.last()
}


// ---------------------------------------------------------------------------
// Laws.

/// Reset boundaries that are strictly ascending, start at `0`, end at `n`,
/// and whose interior entries are blank rows with lazy depth 0.
pub open spec fn boundaries_wf(rb: Seq<usize>, ks: Seq<LineConstructKind>, lazy: Seq<u32>, n: int) -> bool {
    &&& rb.len() >= 1
    &&& rb[0] == 0
    &&& rb.last() == n
    &&& forall|i: int, j: int| 0 <= i < j < rb.len() ==> rb[i] < rb[j]
    &&& forall|i: int|
        #![trigger rb[i]]
        0 <= i < rb.len() && rb[i] != 0 && rb[i] != n ==> rb[i] < n && ks[rb[i] as int]
            == LineConstructKind::Blank && lazy[rb[i] as int] == 0
}

proof fn lemma_boundaries_upto(lazy: Seq<int>, ks: Seq<LineConstructKind>, n: int, k: int)
    requires
        0 <= k <= usize::MAX + 1,
    ensures
        forall|i: int|
            #![trigger boundaries_upto(lazy, ks, n, k)[i]]
            0 <= i < boundaries_upto(lazy, ks, n, k).len() ==> 0 <= boundaries_upto(lazy, ks, n, k)[i] < k
                && is_boundary_at(lazy, ks, n, boundaries_upto(lazy, ks, n, k)[i] as int),
        forall|i: int, j: int|
            0 <= i < j < boundaries_upto(lazy, ks, n, k).len() ==> boundaries_upto(lazy, ks, n, k)[i] < boundaries_upto(
                lazy,
                ks,
                n,
                k,
            )[j],
        k >= 1 ==> boundaries_upto(lazy, ks, n, k).len() >= 1 && boundaries_upto(lazy, ks, n, k)[0] == 0,
    decreases k,
{
    if k > 0 {
        lemma_boundaries_upto(lazy, ks, n, k - 1);
        let p = boundaries_upto(lazy, ks, n, k - 1);
        let q = boundaries_upto(lazy, ks, n, k);
        if crate::markdown::post::is_boundary(lazy, ks, n, k - 1) {
            assert(q == p.push((k - 1) as usize));
            assert(((k - 1) as usize) as int == k - 1);
            assert forall|i: int| #![trigger q[i]] 0 <= i < q.len() implies 0 <= q[i] < k && is_boundary_at(
                lazy,
                ks,
                n,
                q[i] as int,
            ) by {
                if i < p.len() {
                    assert(q[i] == p[i]);
                }
            }
            assert forall|i: int, j: int| 0 <= i < j < q.len() implies q[i] < q[j] by {
                assert(q[i] == p[i]);
                if j < p.len() {
                    assert(q[j] == p[j]);
                }
            }
            if k == 1 {
                assert(q[0] == 0);
            }
        } else {
            assert(q == p);
            if k == 1 {
                assert(crate::markdown::post::is_boundary(lazy, ks, n, 0));
            }
        }
    }
}

/// `is_boundary`, named here for the law's triggers.
pub open spec fn is_boundary_at(lazy: Seq<int>, ks: Seq<LineConstructKind>, n: int, r: int) -> bool {
    crate::markdown::post::is_boundary(lazy, ks, n, r)
}

/// Every parse's reset boundaries are well formed: ascending, `0` first,
/// the row count last, and every interior one a blank row at lazy depth 0.
pub proof fn law_parse_boundaries_wf(ls: Seq<Seq<char>>, evs: Seq<MdEventV>, marks: Seq<MarksV>)
    requires
        ls.len() <= usize::MAX,
    ensures
        boundaries_wf(
            buffer_out(ls, evs, marks).reset_boundaries,
            buffer_out(ls, evs, marks).kinds,
            buffer_out(ls, evs, marks).lazy_depth,
            ls.len() as int,
        ),
{
    let n = ls.len() as int;
    let b = buffer_out(ls, evs, marks);
    if n == 0 {
        assert(b.reset_boundaries =~= seq![0usize]);
    } else {
        let a = walk(ls, evs, evs.len() as int);
        let k3 = continuation_pass(setext_pass(ls, quote_kinds(ls, a.kinds), n - 1), n);
        let rb = boundaries_upto(a.lazy, k3, n, n + 1);
        lemma_boundaries_upto(a.lazy, k3, n, n + 1);
        lemma_boundaries_upto(a.lazy, k3, n, n);
        assert(crate::markdown::post::is_boundary(a.lazy, k3, n, n));
        assert(rb == boundaries_upto(a.lazy, k3, n, n).push(n as usize));
        assert((n as usize) as int == n);
        assert(rb.last() == n);
        assert(b.reset_boundaries == rb);
        assert(b.kinds == k3);
        assert forall|i: int| #![trigger rb[i]] 0 <= i < rb.len() && rb[i] != 0 && rb[i] != n implies rb[i] < n
            && k3[rb[i] as int] == LineConstructKind::Blank && b.lazy_depth[rb[i] as int] == 0 by {
            assert(is_boundary_at(a.lazy, k3, n, rb[i] as int));
            assert(0 <= rb[i] < n + 1);
            assert(b.lazy_depth[rb[i] as int] == prefix_sum(a.lazy, rb[i] + 1) as u32);
        }
    }
}

proof fn lemma_boundaries_upto_complete(lazy: Seq<int>, ks: Seq<LineConstructKind>, n: int, k: int, r: int)
    requires
        0 <= r < k <= usize::MAX + 1,
        is_boundary_at(lazy, ks, n, r),
    ensures
        boundaries_upto(lazy, ks, n, k).contains(r as usize),
    decreases k,
{
    let p = boundaries_upto(lazy, ks, n, k - 1);
    if r == k - 1 {
        assert(boundaries_upto(lazy, ks, n, k) == p.push(r as usize));
        assert(p.push(r as usize)[p.len() as int] == r as usize);
    } else {
        lemma_boundaries_upto_complete(lazy, ks, n, k - 1, r);
        let i = choose|i: int| 0 <= i < p.len() && p[i] == r as usize;
        if crate::markdown::post::is_boundary(lazy, ks, n, k - 1) {
            assert(boundaries_upto(lazy, ks, n, k)[i] == r as usize);
        }
    }
}

/// Every blank row with no lazily-continued block open is a reset boundary,
/// and every interior boundary is such a row: for each row strictly between
/// the first and the end, being a boundary is being a blank row at lazy
/// depth 0. Holds where the lazy depth of every row fits in a `u32` and
/// never goes negative, which the walk's block bookkeeping keeps.
pub proof fn law_boundaries_are_the_blank_rows_at_depth_zero(ls: Seq<Seq<char>>, evs: Seq<MdEventV>, marks: Seq<MarksV>)
    requires
        ls.len() <= usize::MAX,
        forall|r: int|
            0 <= r < ls.len() ==> 0 <= #[trigger] prefix_sum(walk(ls, evs, evs.len() as int).lazy, r + 1) <= u32::MAX,
    ensures
        forall|r: int|
            0 < r < ls.len() ==> (#[trigger] buffer_out(ls, evs, marks).reset_boundaries.contains(r as usize) <==> (
            buffer_out(ls, evs, marks).kinds[r] == LineConstructKind::Blank && buffer_out(ls, evs, marks).lazy_depth[r]
                == 0)),
{
    let n = ls.len() as int;
    if n > 0 {
        let b = buffer_out(ls, evs, marks);
        let a = walk(ls, evs, evs.len() as int);
        let k3 = continuation_pass(setext_pass(ls, quote_kinds(ls, a.kinds), n - 1), n);
        let rb = boundaries_upto(a.lazy, k3, n, n + 1);
        lemma_boundaries_upto(a.lazy, k3, n, n + 1);
        assert(b.reset_boundaries == rb);
        assert(b.kinds == k3);
        assert forall|r: int| 0 < r < n implies (#[trigger] b.reset_boundaries.contains(r as usize) <==> (b.kinds[r]
            == LineConstructKind::Blank && b.lazy_depth[r] == 0)) by {
            let ps = prefix_sum(a.lazy, r + 1);
            assert(0 <= ps <= u32::MAX);
            assert(b.lazy_depth[r] == ps as u32);
            if rb.contains(r as usize) {
                let i = choose|i: int| 0 <= i < rb.len() && rb[i] == r as usize;
                assert(is_boundary_at(a.lazy, k3, n, rb[i] as int));
            }
            if k3[r] == LineConstructKind::Blank && b.lazy_depth[r] == 0 {
                assert(ps == 0);
                assert(is_boundary_at(a.lazy, k3, n, r));
                lemma_boundaries_upto_complete(a.lazy, k3, n, n + 1, r);
            }
        }
    }
}

/// What a parsed line's element lookup says: a char is inside some element
/// exactly when it is on the line and some element's range holds it, the
/// lookup finds one exactly then, and the element it names holds the char.
pub open spec fn lookup_agrees(l: LineOut, line: Seq<char>, pos: int) -> bool {
    &&& l.in_any_element(pos) == (0 <= pos < line.len() && exists|i: int|
        0 <= i < l.elements.len() && #[trigger] l.elements[i].start_char <= pos < l.elements[i].end_char)
    &&& (l.elem_at(pos) is Some) == l.in_any_element(pos)
    &&& (l.elem_at(pos) matches Some(i) ==> i < l.elements.len() && l.elements[i as int].start_char <= pos
        < l.elements[i as int].end_char)
}

/// Every row of a parse with fewer than 65536 elements looks its elements
/// up as their ranges say.
pub proof fn law_parsed_rows_look_up_their_elements(
    ls: Seq<Seq<char>>,
    evs: Seq<MdEventV>,
    marks: Seq<MarksV>,
    r: int,
    pos: int,
)
    requires
        0 <= r < ls.len(),
        buffer_out(ls, evs, marks).lines[r].elements.len() < 65536,
    ensures
        lookup_agrees(buffer_out(ls, evs, marks).lines[r], ls[r], pos),
{
    let n = ls.len() as int;
    let a = walk(ls, evs, evs.len() as int);
    crate::markdown::post::law_element_lookup_agrees_with_ranges(
        ls[r],
        a.cv[r],
        a.els[r],
        a.lse[r],
        marks[r],
        in_code_block(ls, a.cb_ranges, r),
        quote_opt(ls[r], a.kinds[r]),
        pos,
    );
}

/// Parsing the whole range of rows is parsing the rows.
pub proof fn law_parse_range_whole(lines: Seq<String>)
    ensures
        line_chars(lines.subrange(0, lines.len() as int)) == line_chars(lines),
{
    assert(lines.subrange(0, lines.len() as int) =~= lines);
}

proof fn lemma_below_prefix(s: Seq<usize>, a: int)
    requires
        forall|i: int, j: int| 0 <= i < j < s.len() ==> s[i] < s[j],
    ensures
        below(s, a).len() <= s.len(),
        below(s, a) == s.take(below(s, a).len() as int),
        forall|i: int| 0 <= i < below(s, a).len() ==> #[trigger] below(s, a)[i] < a,
        below(s, a).len() < s.len() ==> s[below(s, a).len() as int] >= a,
    decreases s.len(),
{
    if s.len() > 0 {
        lemma_below_prefix(s.drop_last(), a);
        let p = below(s.drop_last(), a);
        if s.last() < a {
            assert(p.len() == s.len() - 1) by {
                if p.len() < s.len() - 1 {
                    assert(s.drop_last()[p.len() as int] >= a);
                    assert(s[p.len() as int] < s.last());
                }
            }
            assert(p.push(s.last()) =~= s.take(s.len() as int));
        } else {
            assert(p == s.take(p.len() as int));
        }
    }
}

proof fn lemma_from_on_suffix(s: Seq<usize>, b: int)
    requires
        forall|i: int, j: int| 0 <= i < j < s.len() ==> s[i] < s[j],
    ensures
        from_on(s, b).len() <= s.len(),
        from_on(s, b) == s.skip(s.len() - from_on(s, b).len()),
        forall|i: int| 0 <= i < from_on(s, b).len() ==> #[trigger] from_on(s, b)[i] >= b,
        from_on(s, b).len() < s.len() ==> s[s.len() - from_on(s, b).len() - 1] < b,
    decreases s.len(),
{
    if s.len() > 0 {
        lemma_from_on_suffix(s.drop_last(), b);
        let p = from_on(s.drop_last(), b);
        if s.last() >= b {
            let d = s.drop_last();
            assert(p == d.skip(d.len() - p.len()));
            assert(p.push(s.last()) =~= s.skip(s.len() - (p.len() + 1)));
            if p.len() + 1 < s.len() {
                assert(s[s.len() - p.len() - 2] == d[d.len() - p.len() - 1]);
            }
        } else {
            assert(p.len() == 0) by {
                if p.len() > 0 {
                    let d = s.drop_last();
                    assert(p == d.skip(d.len() - p.len()));
                    assert(p[p.len() - 1] == d[d.len() - 1]);
                    assert(p[p.len() - 1] >= b);
                    assert(d[d.len() - 1] == s[s.len() - 2]);
                    assert(s[s.len() - 2] < s[s.len() - 1]);
                }
            }
            assert(from_on(s, b) =~= s.skip(s.len() as int));
        }
    }
}

proof fn lemma_mid_boundaries(lazy: Seq<u32>, ks: Seq<LineConstructKind>, n: int, a: int, k: int)
    requires
        0 <= a <= k <= usize::MAX + 1,
    ensures
        forall|i: int|
            #![trigger mid_boundaries(lazy, ks, n, a, k)[i]]
            0 <= i < mid_boundaries(lazy, ks, n, a, k).len() ==> a <= mid_boundaries(lazy, ks, n, a, k)[i] < k
                && mid_boundaries(lazy, ks, n, a, k)[i] != 0 && mid_boundaries(lazy, ks, n, a, k)[i] != n
                && lazy[mid_boundaries(lazy, ks, n, a, k)[i] as int] == 0 && ks[mid_boundaries(lazy, ks, n, a, k)[i] as int]
                == LineConstructKind::Blank,
        forall|i: int, j: int|
            0 <= i < j < mid_boundaries(lazy, ks, n, a, k).len() ==> mid_boundaries(lazy, ks, n, a, k)[i]
                < mid_boundaries(lazy, ks, n, a, k)[j],
    decreases k - a,
{
    if k > a {
        lemma_mid_boundaries(lazy, ks, n, a, k - 1);
        let p = mid_boundaries(lazy, ks, n, a, k - 1);
        let q = mid_boundaries(lazy, ks, n, a, k);
        let r = k - 1;
        if r != 0 && r != n && lazy[r] == 0 && ks[r] == LineConstructKind::Blank {
            assert(q == p.push(r as usize));
            assert((r as usize) as int == r);
            assert forall|i: int| #![trigger q[i]] 0 <= i < q.len() implies a <= q[i] < k && q[i] != 0 && q[i] != n
                && lazy[q[i] as int] == 0 && ks[q[i] as int] == LineConstructKind::Blank by {
                if i < p.len() {
                    assert(q[i] == p[i]);
                }
            }
            assert forall|i: int, j: int| 0 <= i < j < q.len() implies q[i] < q[j] by {
                assert(q[i] == p[i]);
                if j < p.len() {
                    assert(q[j] == p[j]);
                }
            }
        } else {
            assert(q == p);
        }
    }
}

proof fn lemma_dedup_ascending(s: Seq<usize>)
    requires
        forall|i: int, j: int| 0 <= i < j < s.len() ==> s[i] < s[j],
    ensures
        dedup(s) == s,
    decreases s.len(),
{
    if s.len() > 1 {
        lemma_dedup_ascending(s.drop_last());
        assert(s.drop_last().push(s.last()) =~= s);
    }
}

/// Splicing in a same-length range keeps the reset boundaries well formed:
/// still ascending from `0` to the row count, every interior one still a
/// blank row at lazy depth 0 of the merged rows.
pub proof fn law_splice_keeps_boundaries_wf(
    rb: Seq<usize>,
    ks: Seq<LineConstructKind>,
    lazy: Seq<u32>,
    mid_ks: Seq<LineConstructKind>,
    mid_lazy: Seq<u32>,
    a: int,
    b: int,
)
    requires
        ks.len() == lazy.len(),
        boundaries_wf(rb, ks, lazy, ks.len() as int),
        0 <= a <= b <= ks.len(),
        mid_ks.len() == b - a,
        mid_lazy.len() == b - a,
    ensures
        spliced(ks, a, b, mid_ks).len() == ks.len(),
        spliced(lazy, a, b, mid_lazy).len() == lazy.len(),
        boundaries_wf(
            splice_boundaries(rb, spliced(lazy, a, b, mid_lazy), spliced(ks, a, b, mid_ks), a, b),
            spliced(ks, a, b, mid_ks),
            spliced(lazy, a, b, mid_lazy),
            ks.len() as int,
        ),
{
    let n = ks.len() as int;
    let ks2 = spliced(ks, a, b, mid_ks);
    let lz2 = spliced(lazy, a, b, mid_lazy);
    assert(ks2.len() == n);
    assert(lz2.len() == n);
    lemma_below_prefix(rb, a);
    lemma_from_on_suffix(rb, b);
    lemma_mid_boundaries(lz2, ks2, n, a, b);
    let low = below(rb, a);
    let mid = mid_boundaries(lz2, ks2, n, a, b);
    let high = from_on(rb, b);
    let merged = low + mid + high;
    // The old boundary `n` sits at or above `b`, so `high` ends with it.
    assert(high.len() >= 1) by {
        if high.len() == 0 {
            assert(rb[rb.len() - 1] < b);
        }
    }
    assert(high.last() == n) by {
        assert(high[high.len() - 1] == rb[rb.len() - 1]);
    }
    // Rows outside the range keep their kind and depth.
    assert forall|x: int| 0 <= x < a implies ks2[x] == ks[x] && lz2[x] == lazy[x] by {}
    assert forall|x: int| b <= x < n implies ks2[x] == ks[x] && lz2[x] == lazy[x] by {
        assert(ks2[x] == ks.skip(b)[x - a - mid_ks.len()]);
        assert(lz2[x] == lazy.skip(b)[x - a - mid_lazy.len()]);
    }
    assert forall|i: int, j: int| 0 <= i < j < merged.len() implies merged[i] < merged[j] by {
        let l = low.len() as int;
        let m = mid.len() as int;
        if j < l {
            assert(merged[i] == rb[i] && merged[j] == rb[j]);
        } else if j < l + m {
            if i >= l {
                assert(merged[i] == mid[i - l] && merged[j] == mid[j - l]);
            } else {
                assert(merged[i] == low[i]);
                assert(merged[j] == mid[j - l]);
            }
        } else {
            let off = rb.len() - high.len();
            assert(merged[j] == high[j - l - m]);
            assert(high[j - l - m] == rb[off + j - l - m]);
            if i >= l + m {
                assert(merged[i] == high[i - l - m]);
                assert(high[i - l - m] == rb[off + i - l - m]);
            } else if i >= l {
                assert(merged[i] == mid[i - l]);
            } else {
                assert(merged[i] == low[i]);
            }
        }
    }
    assert forall|i: int|
        #![trigger merged[i]]
        0 <= i < merged.len() && merged[i] != 0 && merged[i] != n implies merged[i] < n && ks2[merged[i] as int]
            == LineConstructKind::Blank && lz2[merged[i] as int] == 0 by {
        let l = low.len() as int;
        let m = mid.len() as int;
        if i < l {
            assert(merged[i] == rb[i]);
        } else if i < l + m {
            assert(merged[i] == mid[i - l]);
        } else {
            let off = rb.len() - high.len();
            assert(merged[i] == high[i - l - m]);
            assert(high[i - l - m] == rb[off + i - l - m]);
        }
    }
    let m2 = if merged.len() > 0 && merged[0] == 0 {
        merged
    } else {
        seq![0usize] + merged
    };
    assert forall|i: int, j: int| 0 <= i < j < m2.len() implies m2[i] < m2[j] by {
        if !(merged.len() > 0 && merged[0] == 0) {
            if i == 0 {
                assert(m2[j] == merged[j - 1]);
                if j - 1 > 0 {
                    assert(merged[0] < merged[j - 1]);
                }
            } else {
                assert(m2[i] == merged[i - 1] && m2[j] == merged[j - 1]);
            }
        }
    }
    lemma_dedup_ascending(m2);
    assert(m2.last() == n);
    assert forall|i: int|
        #![trigger m2[i]]
        0 <= i < m2.len() && m2[i] != 0 && m2[i] != n implies m2[i] < n && ks2[m2[i] as int]
            == LineConstructKind::Blank && lz2[m2[i] as int] == 0 by {
        if !(merged.len() > 0 && merged[0] == 0) {
            assert(m2[i] == merged[i - 1]);
        }
    }
}

proof fn lemma_dedup_contains(s: Seq<usize>, x: usize)
    ensures
        dedup(s).contains(x) == s.contains(x),
    decreases s.len(),
{
    if s.len() > 1 {
        let d = s.drop_last();
        lemma_dedup_contains(d, x);
        let p = dedup(d);
        if s.contains(x) {
            let i = choose|i: int| 0 <= i < s.len() && s[i] == x;
            if i < s.len() - 1 {
                assert(d[i] == x);
                if s.last() != s[s.len() - 2] {
                    let j = choose|j: int| 0 <= j < p.len() && p[j] == x;
                    assert(p.push(s.last())[j] == x);
                }
            } else if s.last() == s[s.len() - 2] {
                assert(d[s.len() - 2] == x);
            } else {
                assert(p.push(s.last())[p.len() as int] == x);
            }
        }
        if dedup(s).contains(x) {
            let j = choose|j: int| 0 <= j < dedup(s).len() && dedup(s)[j] == x;
            if s.last() == s[s.len() - 2] {
                let k = choose|k: int| 0 <= k < d.len() && d[k] == x;
                assert(s[k] == x);
            } else if j < p.len() {
                assert(p[j] == x);
                let k = choose|k: int| 0 <= k < d.len() && d[k] == x;
                assert(s[k] == x);
            } else {
                assert(s[s.len() - 1] == x);
            }
        }
    }
}

proof fn lemma_mid_boundaries_complete(lazy: Seq<u32>, ks: Seq<LineConstructKind>, n: int, a: int, k: int, x: int)
    requires
        a <= x < k,
        x != 0,
        x != n,
        lazy[x] == 0,
        ks[x] == LineConstructKind::Blank,
        0 <= x <= usize::MAX,
    ensures
        mid_boundaries(lazy, ks, n, a, k).contains(x as usize),
    decreases k - a,
{
    let p = mid_boundaries(lazy, ks, n, a, k - 1);
    if x == k - 1 {
        assert(mid_boundaries(lazy, ks, n, a, k) == p.push(x as usize));
        assert(p.push(x as usize)[p.len() as int] == x as usize);
    } else {
        lemma_mid_boundaries_complete(lazy, ks, n, a, k - 1, x);
        let i = choose|i: int| 0 <= i < p.len() && p[i] == x as usize;
        let r = k - 1;
        if r != 0 && r != n && lazy[r] == 0 && ks[r] == LineConstructKind::Blank {
            assert(mid_boundaries(lazy, ks, n, a, k)[i] == x as usize);
        }
    }
}

/// Splicing rows `a..b` leaves as reset boundaries exactly the sorted union
/// of `0`, the old boundaries outside the range, and the rows inside the
/// range that are interior, blank and at lazy depth 0 in the spliced rows.
pub proof fn law_splice_boundaries_are_the_sorted_union(
    rb: Seq<usize>,
    ks: Seq<LineConstructKind>,
    lazy: Seq<u32>,
    mid_ks: Seq<LineConstructKind>,
    mid_lazy: Seq<u32>,
    a: int,
    b: int,
    x: usize,
)
    requires
        ks.len() == lazy.len(),
        boundaries_wf(rb, ks, lazy, ks.len() as int),
        0 <= a <= b <= ks.len(),
        mid_ks.len() == b - a,
        mid_lazy.len() == b - a,
    ensures
        ({
            let ks2 = spliced(ks, a, b, mid_ks);
            let lz2 = spliced(lazy, a, b, mid_lazy);
            let sb = splice_boundaries(rb, lz2, ks2, a, b);
            &&& forall|i: int, j: int| 0 <= i < j < sb.len() ==> sb[i] < sb[j]
            &&& sb.contains(x) == (x == 0 || (rb.contains(x) && (x < a || x >= b)) || (a <= x < b && x != ks.len()
                && lz2[x as int] == 0 && ks2[x as int] == LineConstructKind::Blank))
        }),
{
    law_splice_keeps_boundaries_wf(rb, ks, lazy, mid_ks, mid_lazy, a, b);
    let n = ks.len() as int;
    let ks2 = spliced(ks, a, b, mid_ks);
    let lz2 = spliced(lazy, a, b, mid_lazy);
    lemma_below_prefix(rb, a);
    lemma_from_on_suffix(rb, b);
    lemma_mid_boundaries(lz2, ks2, n, a, b);
    let low = below(rb, a);
    let mid = mid_boundaries(lz2, ks2, n, a, b);
    let high = from_on(rb, b);
    let merged = low + mid + high;
    let m2 = if merged.len() > 0 && merged[0] == 0 {
        merged
    } else {
        seq![0usize] + merged
    };
    lemma_dedup_contains(m2, x);
    let rhs = x == 0 || (rb.contains(x) && (x < a || x >= b)) || (a <= x < b && x != n && lz2[x as int] == 0
        && ks2[x as int] == LineConstructKind::Blank);
    let l = low.len() as int;
    let m = mid.len() as int;
    let off = rb.len() - high.len();
    // The old boundaries below `a` are `low`, those at or above `b` are `high`.
    assert(low.contains(x) == (rb.contains(x) && x < a)) by {
        if rb.contains(x) && x < a {
            let i = choose|i: int| 0 <= i < rb.len() && rb[i] == x;
            if i >= l {
                assert(rb[l] >= a);
                if i > l {
                    assert(rb[l] < rb[i]);
                }
            }
            assert(low[i] == x);
        }
        if low.contains(x) {
            let i = choose|i: int| 0 <= i < low.len() && low[i] == x;
            assert(rb[i] == x);
        }
    }
    assert(high.contains(x) == (rb.contains(x) && x >= b)) by {
        if rb.contains(x) && x >= b {
            let i = choose|i: int| 0 <= i < rb.len() && rb[i] == x;
            if i < off {
                assert(rb[off - 1] < b);
                if i < off - 1 {
                    assert(rb[i] < rb[off - 1]);
                }
            }
            assert(high[i - off] == x);
        }
        if high.contains(x) {
            let i = choose|i: int| 0 <= i < high.len() && high[i] == x;
            assert(rb[off + i] == x);
        }
    }
    assert(mid.contains(x) == (a <= x < b && x != 0 && x != n && lz2[x as int] == 0 && ks2[x as int]
        == LineConstructKind::Blank)) by {
        if a <= x < b && x != 0 && x != n && lz2[x as int] == 0 && ks2[x as int] == LineConstructKind::Blank {
            lemma_mid_boundaries_complete(lz2, ks2, n, a, b, x as int);
        }
        if mid.contains(x) {
            let i = choose|i: int| 0 <= i < mid.len() && mid[i] == x;
            assert(a <= mid[i] < b);
        }
    }
    assert(merged.contains(x) == (low.contains(x) || mid.contains(x) || high.contains(x))) by {
        if merged.contains(x) {
            let i = choose|i: int| 0 <= i < merged.len() && merged[i] == x;
            if i < l {
                assert(low[i] == x);
            } else if i < l + m {
                assert(mid[i - l] == x);
            } else {
                assert(high[i - l - m] == x);
            }
        }
        if low.contains(x) {
            let i = choose|i: int| 0 <= i < low.len() && low[i] == x;
            assert(merged[i] == x);
        }
        if mid.contains(x) {
            let i = choose|i: int| 0 <= i < mid.len() && mid[i] == x;
            assert(merged[l + i] == x);
        }
        if high.contains(x) {
            let i = choose|i: int| 0 <= i < high.len() && high[i] == x;
            assert(merged[l + m + i] == x);
        }
    }
    assert(m2.contains(x) == (x == 0 || merged.contains(x))) by {
        if merged.len() > 0 && merged[0] == 0 {
            if x == 0 {
                assert(merged[0] == x);
            }
        } else {
            if x == 0 {
                assert(m2[0] == x);
            }
            if merged.contains(x) {
                let i = choose|i: int| 0 <= i < merged.len() && merged[i] == x;
                assert(m2[i + 1] == x);
            }
            if m2.contains(x) {
                let i = choose|i: int| 0 <= i < m2.len() && m2[i] == x;
                if i > 0 {
                    assert(merged[i - 1] == x);
                }
            }
        }
    }
    // Row 0, when inside the range, is the sentinel anyway.
    assert(splice_boundaries(rb, lz2, ks2, a, b).contains(x) == rhs);
}

} // verus!
