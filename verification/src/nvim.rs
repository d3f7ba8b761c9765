//! The decisions of the embedded-neovim backend: byte offsets from nvim
//! converted to char indices, and what a key does (buffer the first `Z` of
//! `ZZ`/`ZQ`, intercept a quit command, or forward it); decoding nvim's
//! state replies into the mirrored snapshot, loading a note into it, and
//! spotting the notification that ends a redraw.
use vstd::prelude::*;
use crate::editor::{split_rows, split_rows_exec};
use crate::text::{bytes_len, chars_of, lead_run, run_len, string_from_chars, trim, trim_bounds, utf8_len, char_utf8_len};

verus! {

/// Number of chars of `s` whose encoding ends at or before byte `b`: the
/// char index of the last char boundary at or before `b`.
pub open spec fn chars_within(s: Seq<char>, b: int) -> int
    decreases s.len(),
{
    if s.len() == 0 {
        0
    } else if bytes_len(s) <= b {
        s.len() as int
    } else {
        chars_within(s.drop_last(), b)
    }
}

/// Char index of UTF-8 byte offset `byte_offset` in `line`; an offset inside
/// a char snaps back to that char's start, one past the end clamps.
pub fn byte_offset_to_char_idx(line: &str, byte_offset: usize) -> (r: usize)
    ensures
        r == chars_within(line@, byte_offset as int),
{
    let cs = chars_of(line);
    let mut i: usize = 0;
    let mut acc: usize = 0;
    proof {
        lemma_chars_within_eq(cs@, byte_offset as int);
        assert(cs@.take(0) =~= Seq::<char>::empty());
    }
    // Invariant: the first `i` chars end at byte `acc <= byte_offset`.
    while i < cs.len()
        invariant
            i <= cs@.len(),
            cs@ == line@,
            acc == bytes_len(cs@.take(i as int)),
            acc <= byte_offset,
            chars_within(cs@, byte_offset as int) == chars_within_from(cs@, byte_offset as int, i as int),
        decreases cs.len() - i,
    {
        let w = char_utf8_len(cs[i]);
        proof {
            assert(cs@.take(i + 1) == cs@.take(i as int).push(cs@[i as int]));
            crate::text::lemma_bytes_len_push(cs@.take(i as int), cs@[i as int]);
        }
        if w > byte_offset - acc {
            proof {
                lemma_chars_within_stop(cs@, byte_offset as int, i as int);
            }
            return i;
        }
        acc = acc + w;
        i += 1;
    }
    proof {
        assert(cs@.take(i as int) == cs@);
    }
    i
}

/// `chars_within` when the first `i` chars fit before `b`.
pub open spec fn chars_within_from(s: Seq<char>, b: int, i: int) -> int
    decreases s.len() - i,
{
    if i >= s.len() {
        s.len() as int
    } else if bytes_len(s.take(i + 1)) <= b {
        chars_within_from(s, b, i + 1)
    } else {
        i
    }
}

proof fn lemma_bytes_len_take_mono(s: Seq<char>, i: int, j: int)
    requires
        0 <= i <= j <= s.len(),
    ensures
        bytes_len(s.take(i)) <= bytes_len(s.take(j)),
    decreases j - i,
{
    if i < j {
        lemma_bytes_len_take_mono(s, i, j - 1);
        assert(s.take(j).drop_last() == s.take(j - 1));
    }
}

proof fn lemma_chars_within_stop(s: Seq<char>, b: int, i: int)
    requires
        0 <= i < s.len(),
        bytes_len(s.take(i + 1)) > b,
    ensures
        chars_within_from(s, b, i) == i,
{
}

proof fn lemma_chars_within_eq(s: Seq<char>, b: int)
    requires
        b >= 0,
    ensures
        chars_within(s, b) == chars_within_from(s, b, 0),
    decreases s.len(),
{
    // Both find the longest prefix whose encoding fits in `b` bytes.
    lemma_within_from_is_longest(s, b, 0);
    lemma_within_is_longest(s, b);
    let a = chars_within(s, b);
    let c = chars_within_from(s, b, 0);
    if a < c {
        lemma_bytes_len_take_mono(s, a + 1, c);
    } else if c < a {
        lemma_bytes_len_take_mono(s, c + 1, a);
    }
}

proof fn lemma_within_from_is_longest(s: Seq<char>, b: int, i: int)
    requires
        0 <= i <= s.len(),
        bytes_len(s.take(i)) <= b,
    ensures
        i <= chars_within_from(s, b, i) <= s.len(),
        bytes_len(s.take(chars_within_from(s, b, i))) <= b,
        chars_within_from(s, b, i) < s.len() ==> bytes_len(s.take(chars_within_from(s, b, i) + 1)) > b,
    decreases s.len() - i,
{
    if i < s.len() && bytes_len(s.take(i + 1)) <= b {
        lemma_within_from_is_longest(s, b, i + 1);
    }
}

proof fn lemma_within_is_longest(s: Seq<char>, b: int)
    requires
        b >= 0,
    ensures
        0 <= chars_within(s, b) <= s.len(),
        bytes_len(s.take(chars_within(s, b))) <= b,
        chars_within(s, b) < s.len() ==> bytes_len(s.take(chars_within(s, b) + 1)) > b,
    decreases s.len(),
{
    assert(s.take(s.len() as int) == s);
    if s.len() > 0 && bytes_len(s) > b {
        lemma_within_is_longest(s.drop_last(), b);
        let a = chars_within(s.drop_last(), b);
        assert(s.drop_last().take(a) == s.take(a));
        if a < s.len() - 1 {
            assert(s.drop_last().take(a + 1) == s.take(a + 1));
        } else {
            assert(s.take(a + 1) == s);
        }
    }
    if s.len() == 0 {
        assert(s.take(0) =~= Seq::<char>::empty());
    }
}

/// Where a quit came from; whether to save and whether to leave nvim's
/// current mode first both follow from it.
#[derive(Debug, Clone, Copy, PartialEq, Eq, Structural)]
pub enum QuitKind {
    /// `ZZ` from Normal mode: write and quit.
    WriteQuit,
    /// `ZQ` from Normal mode: quit without saving.
    DiscardQuit,
    /// A `:`-command quit; `save` is whether the command writes.
    Command { save: bool },
}

impl QuitKind {
    /// Whether to autosave before leaving the editor.
    pub fn saves(self) -> (r: bool)
        ensures
            r == (self == QuitKind::WriteQuit || self == (QuitKind::Command { save: true })),
    {
        match self {
            QuitKind::WriteQuit => true,
            QuitKind::DiscardQuit => false,
            QuitKind::Command { save } => save,
        }
    }

    /// Whether nvim must be escaped out of its current mode first: only a
    /// command-line quit leaves it in command-line mode.
    pub fn needs_escape(self) -> (r: bool)
        ensures
            r == (self is Command),
    {
        match self {
            QuitKind::Command { .. } => true,
            _ => false,
        }
    }
}

/// What one key does on the nvim backend.
#[derive(Debug, Clone, Copy, PartialEq, Eq, Structural)]
pub enum NvimKeyDecision {
    /// First `Z` of a possible `ZZ`/`ZQ` in Normal mode: swallow and wait.
    BufferZ,
    /// A quit or write-quit.
    Quit(QuitKind),
    /// A buffered `Z` not followed by `Z`/`Q`: replay the `Z`, then forward.
    ReplayZThenForward,
    /// Forward the key to nvim.
    Forward,
}

/// Outcome of applying a key on the nvim backend.
#[derive(Debug, Clone, Copy, PartialEq, Eq, Structural)]
pub enum NvimKeyResult {
    /// Handled without forwarding (a buffered `Z`, or a quit intercept).
    Consumed,
    /// The key (and maybe a replayed `Z`) went to nvim.
    Forwarded,
}

/// The part of a key event the decision reads.
#[derive(Debug, Clone, Copy, PartialEq, Eq, Structural)]
pub enum NvimKey {
    Char(char),
    Enter,
    Other,
}

/// The editor mode nvim reports.
#[derive(Debug, Clone, PartialEq, Eq)]
pub enum EditorMode {
    Normal,
    Insert,
    Visual,
    VisualLine,
    Command,
    /// Any other mode, with nvim's code for it.
    Other(String),
}

/// `m` is the mode nvim's code `s` names: `n`, `i`, `v`, `V` and `c` are
/// Normal, Insert, Visual, VisualLine and Command; every other code is
/// `Other`, carrying the code.
pub open spec fn mode_named(m: EditorMode, s: Seq<char>) -> bool {
    match m {
        EditorMode::Normal => s == seq!['n'],
        EditorMode::Insert => s == seq!['i'],
        EditorMode::Visual => s == seq!['v'],
        EditorMode::VisualLine => s == seq!['V'],
        EditorMode::Command => s == seq!['c'],
        EditorMode::Other(o) => o@ == s && s != seq!['n'] && s != seq!['i'] && s != seq!['v'] && s
            != seq!['V'] && s != seq!['c'],
    }
}

/// Separators ending a command word.
pub open spec fn is_cmd_sep(c: char) -> bool {
    c == ' ' || c == '\t' || c == '|'
}

/// Index of the first separator of `c`, or its length.
pub open spec fn first_sep(c: Seq<char>) -> int
    decreases c.len(),
{
    if c.len() == 0 {
        0
    } else if is_cmd_sep(c[0]) {
        0
    } else {
        1 + first_sep(c.drop_first())
    }
}

/// The leading word of a command line: leading `:`s dropped, trimmed, up to
/// the first space, tab or `|`.
pub open spec fn cmd_word(cmdline: Seq<char>) -> Seq<char> {
    let c = trim(cmdline.subrange(lead_run(cmdline, ':') as int, cmdline.len() as int));
    c.take(first_sep(c))
}

/// Command words that write (and leave).
pub open spec fn saving_word(w: Seq<char>) -> bool {
    ||| w == seq!['w']
    ||| w == seq!['w', 'q']
    ||| w == seq!['w', 'q', '!']
    ||| w == seq!['w', 'q', 'a']
    ||| w == seq!['w', 'q', 'a', '!']
    ||| w == seq!['x']
    ||| w == seq!['x', 'a']
    ||| w == seq!['x', '!']
}

/// Command words that leave without writing.
pub open spec fn quitting_word(w: Seq<char>) -> bool {
    ||| w == seq!['q']
    ||| w == seq!['q', '!']
    ||| w == seq!['q', 'a']
    ||| w == seq!['q', 'a', '!']
    ||| w == seq!['c', 'q']
    ||| w == seq!['c', 'q', '!']
}

proof fn lemma_first_sep_none(c: Seq<char>)
    requires
        forall|i: int| 0 <= i < c.len() ==> !is_cmd_sep(#[trigger] c[i]),
    ensures
        first_sep(c) == c.len(),
    decreases c.len(),
{
    if c.len() > 0 {
        assert(!is_cmd_sep(c[0]));
        assert forall|i: int| 0 <= i < c.drop_first().len() implies !is_cmd_sep(#[trigger] c.drop_first()[i]) by {
            assert(c.drop_first()[i] == c[i + 1]);
        }
        lemma_first_sep_none(c.drop_first());
    }
}

/// The command word of `:` then a word free of `:` at its start, white
/// space and separators is that word.
proof fn lemma_cmd_word_plain(w: Seq<char>)
    requires
        w.len() > 0,
        w[0] != ':',
        forall|i: int| 0 <= i < w.len() ==> !is_cmd_sep(#[trigger] w[i]) && !crate::text::is_ws_spec(w[i]),
    ensures
        cmd_word(seq![':'] + w) == w,
{
    let cl = seq![':'] + w;
    assert(cl[0] == ':');
    assert(cl.drop_first() =~= w);
    assert(lead_run(w, ':') == 0);
    assert(lead_run(cl, ':') == 1);
    assert(cl.subrange(1, cl.len() as int) =~= w);
    assert(!crate::text::is_ws_spec(w[0]));
    assert(!crate::text::is_ws_spec(w.last()));
    assert(crate::text::lead_ws(w) == 0);
    assert(crate::text::trail_ws(w) == 0);
    assert(w.subrange(0, w.len() as int) =~= w);
    assert(trim(w) == w);
    lemma_first_sep_none(w);
    assert(w.take(w.len() as int) =~= w);
}

/// On Enter in command-line mode, vim's leave commands are intercepted:
/// the write-and-quit words (`w`, `wq`, `wq!`, `wqa`, `wqa!`, `x`, `xa`,
/// `x!`) leave saving, the quit words (`q`, `q!`, `qa`, `qa!`, `cq`, `cq!`)
/// leave without saving.
pub proof fn law_vim_leave_commands_are_intercepted(w: Seq<char>)
    ensures
        (w == seq!['w'] || w == seq!['w', 'q'] || w == seq!['w', 'q', '!'] || w == seq!['w', 'q', 'a'] || w == seq![
            'w',
            'q',
            'a',
            '!',
        ] || w == seq!['x'] || w == seq!['x', 'a'] || w == seq!['x', '!']) ==> classify_spec(
            false,
            NvimKey::Enter,
            EditorMode::Command,
            seq![':'] + w,
        ) == NvimKeyDecision::Quit(QuitKind::Command { save: true }),
        (w == seq!['q'] || w == seq!['q', '!'] || w == seq!['q', 'a'] || w == seq!['q', 'a', '!'] || w == seq!['c', 'q']
            || w == seq!['c', 'q', '!']) ==> classify_spec(false, NvimKey::Enter, EditorMode::Command, seq![':'] + w)
            == NvimKeyDecision::Quit(QuitKind::Command { save: false }),
{
    let saving = w == seq!['w'] || w == seq!['w', 'q'] || w == seq!['w', 'q', '!'] || w == seq!['w', 'q', 'a'] || w
        == seq!['w', 'q', 'a', '!'] || w == seq!['x'] || w == seq!['x', 'a'] || w == seq!['x', '!'];
    let quitting = w == seq!['q'] || w == seq!['q', '!'] || w == seq!['q', 'a'] || w == seq!['q', 'a', '!'] || w
        == seq!['c', 'q'] || w == seq!['c', 'q', '!'];
    if saving || quitting {
        assert forall|i: int| 0 <= i < w.len() implies !is_cmd_sep(#[trigger] w[i]) && !crate::text::is_ws_spec(w[i]) by {
            assert(w[i] == 'w' || w[i] == 'q' || w[i] == 'a' || w[i] == '!' || w[i] == 'x' || w[i] == 'c');
        }
        lemma_cmd_word_plain(w);
    }
}

/// The decision for `key` given the pending-`Z` flag, the mode and the
/// command line.
pub open spec fn classify_spec(pending_z: bool, key: NvimKey, mode: EditorMode, cmdline: Seq<char>) -> NvimKeyDecision {
    if pending_z {
        if key == NvimKey::Char('Z') {
            NvimKeyDecision::Quit(QuitKind::WriteQuit)
        } else if key == NvimKey::Char('Q') {
            NvimKeyDecision::Quit(QuitKind::DiscardQuit)
        } else {
            NvimKeyDecision::ReplayZThenForward
        }
    } else if key == NvimKey::Char('Z') && mode is Normal {
        NvimKeyDecision::BufferZ
    } else if key == NvimKey::Enter && mode is Command {
        let w = cmd_word(cmdline);
        if saving_word(w) || quitting_word(w) {
            NvimKeyDecision::Quit(QuitKind::Command { save: saving_word(w) })
        } else {
            NvimKeyDecision::Forward
        }
    } else {
        NvimKeyDecision::Forward
    }
}

fn lit_chars(s: &str) -> (out: Vec<char>)
    ensures
        out@ == s@,
{
    chars_of(s)
}

fn same(a: &Vec<char>, b: &Vec<char>) -> (r: bool)
    ensures
        r == (a@ == b@),
{
    if a.len() != b.len() {
        return false;
    }
    let mut i: usize = 0;
    while i < a.len()
        invariant
            i <= a@.len() == b@.len(),
            forall|k: int| 0 <= k < i ==> a@[k] == b@[k],
        decreases a.len() - i,
    {
        if a[i] != b[i] {
            return false;
        }
        i += 1;
    }
    assert(a@ =~= b@);
    true
}

fn is_saving_word(w: &Vec<char>) -> (r: bool)
    ensures
        r == saving_word(w@),
{
    proof {
        reveal_strlit("w");
        reveal_strlit("wq");
        reveal_strlit("wq!");
        reveal_strlit("wqa");
        reveal_strlit("wqa!");
        reveal_strlit("x");
        reveal_strlit("xa");
        reveal_strlit("x!");
        assert("w"@ =~= seq!['w']);
        assert("wq"@ =~= seq!['w', 'q']);
        assert("wq!"@ =~= seq!['w', 'q', '!']);
        assert("wqa"@ =~= seq!['w', 'q', 'a']);
        assert("wqa!"@ =~= seq!['w', 'q', 'a', '!']);
        assert("x"@ =~= seq!['x']);
        assert("xa"@ =~= seq!['x', 'a']);
        assert("x!"@ =~= seq!['x', '!']);
    }
    let b1 = same(w, &lit_chars("w"));
    let b2 = same(w, &lit_chars("wq"));
    let b3 = same(w, &lit_chars("wq!"));
    let b4 = same(w, &lit_chars("wqa"));
    let b5 = same(w, &lit_chars("wqa!"));
    let b6 = same(w, &lit_chars("x"));
    let b7 = same(w, &lit_chars("xa"));
    let b8 = same(w, &lit_chars("x!"));
    b1 || b2 || b3 || b4 || b5 || b6 || b7 || b8
}

fn is_quitting_word(w: &Vec<char>) -> (r: bool)
    ensures
        r == quitting_word(w@),
{
    proof {
        reveal_strlit("q");
        reveal_strlit("q!");
        reveal_strlit("qa");
        reveal_strlit("qa!");
        reveal_strlit("cq");
        reveal_strlit("cq!");
        assert("q"@ =~= seq!['q']);
        assert("q!"@ =~= seq!['q', '!']);
        assert("qa"@ =~= seq!['q', 'a']);
        assert("qa!"@ =~= seq!['q', 'a', '!']);
        assert("cq"@ =~= seq!['c', 'q']);
        assert("cq!"@ =~= seq!['c', 'q', '!']);
    }
    let b1 = same(w, &lit_chars("q"));
    let b2 = same(w, &lit_chars("q!"));
    let b3 = same(w, &lit_chars("qa"));
    let b4 = same(w, &lit_chars("qa!"));
    let b5 = same(w, &lit_chars("cq"));
    let b6 = same(w, &lit_chars("cq!"));
    b1 || b2 || b3 || b4 || b5 || b6
}

/// The leading command word of `cmdline`.
fn cmd_word_exec(cmdline: &str) -> (w: Vec<char>)
    ensures
        w@ == cmd_word(cmdline@),
{
    let cs = chars_of(cmdline);
    let colons = run_len(&cs, 0, ':');
    assert(cs@.subrange(0, cs@.len() as int) == cs@);
    let rest = crate::markdown::slice_from(&cs, colons);
    let (a, b) = trim_bounds(&rest);
    let ghost c = trim(rest@);
    let mut w: Vec<char> = Vec::new();
    let mut i = a;
    assert(c.skip(0) == c);
    while i < b && !(rest[i] == ' ' || rest[i] == '\t' || rest[i] == '|')
        invariant
            a <= i <= b <= rest@.len(),
            c == rest@.subrange(a as int, b as int),
            w@ == c.take(i - a),
            first_sep(c) == (i - a) + first_sep(c.skip(i - a)),
        decreases b - i,
    {
        assert(c.skip(i - a)[0] == rest@[i as int]);
        assert(c.skip(i - a).drop_first() == c.skip(i - a + 1));
        w.push(rest[i]);
        i += 1;
        assert(w@ =~= c.take(i - a));
    }
    assert(first_sep(c.skip(i - a)) == 0) by {
        if i < b {
            assert(c.skip(i - a)[0] == rest@[i as int]);
        }
    }
    w
}

/// Decides what `key` does on the nvim backend.
pub fn classify_nvim_key(pending_z: bool, key: NvimKey, mode: &EditorMode, cmdline: Option<&str>) -> (d: NvimKeyDecision)
    ensures
        d == classify_spec(
            pending_z,
            key,
            *mode,
            match cmdline {
                Some(c) => c@,
                None => Seq::empty(),
            },
        ),
{
    if pending_z {
        return match key {
            NvimKey::Char('Z') => NvimKeyDecision::Quit(QuitKind::WriteQuit),
            NvimKey::Char('Q') => NvimKeyDecision::Quit(QuitKind::DiscardQuit),
            _ => NvimKeyDecision::ReplayZThenForward,
        };
    }
    if key == NvimKey::Char('Z') && matches!(mode, EditorMode::Normal) {
        return NvimKeyDecision::BufferZ;
    }
    if key == NvimKey::Enter && matches!(mode, EditorMode::Command) {
        let line = match cmdline {
            Some(c) => c,
            None => "",
        };
        proof {
            reveal_strlit("");
        }
        let w = cmd_word_exec(line);
        let saves = is_saving_word(&w);
        let quits = saves || is_quitting_word(&w);
        if quits {
            return NvimKeyDecision::Quit(QuitKind::Command { save: saves });
        }
    }
    NvimKeyDecision::Forward
}

/// Whether [`classify_nvim_key`] reads the mode or the command line for
/// this input.
pub fn needs_snapshot(pending_z: bool, key: NvimKey) -> (r: bool)
    ensures
        r == (!pending_z && (key == NvimKey::Char('Z') || key == NvimKey::Enter)),
{
    !pending_z && (key == NvimKey::Char('Z') || key == NvimKey::Enter)
}

/// What the render loop takes from the nvim backend each frame.
#[derive(Debug, Clone, Copy, PartialEq, Eq)]
pub struct FrameSync {
    /// The content revision to mirror (never zero), if any.
    pub rev: Option<u64>,
    /// Active visual selection to render.
    pub selection: Option<((usize, usize), (usize, usize))>,
}

impl FrameSync {
    /// The frame data for content generation `content_gen`: the revision is
    /// the generation plus one (saturating), so generation 0 maps to 1.
    pub fn from_generation(content_gen: u64, selection: Option<((usize, usize), (usize, usize))>) -> (f: FrameSync)
        ensures
            f.rev == Some((if content_gen == u64::MAX { u64::MAX as int } else { content_gen + 1 }) as u64),
            f.selection == selection,
    {
        FrameSync { rev: Some(content_gen.saturating_add(1)), selection }
    }
}

/// Host-side nvim state: the pending-`Z` flag of the `ZZ`/`ZQ` sequence.
#[derive(Debug, Default)]
pub struct NvimHost {
    pending_z: bool,
}

impl NvimHost {
    pub closed spec fn pending(&self) -> bool {
        self.pending_z
    }

    /// A host with no `Z` pending.
    pub fn new() -> (h: NvimHost)
        ensures
            !h.pending(),
    {
        NvimHost { pending_z: false }
    }

    /// Decides `key` and records whether a `Z` is now pending.
    pub fn decide(&mut self, key: NvimKey, mode: &EditorMode, cmdline: Option<&str>) -> (d: NvimKeyDecision)
        ensures
            d == classify_spec(
                old(self).pending(),
                key,
                *mode,
                match cmdline {
                    Some(c) => c@,
                    None => Seq::empty(),
                },
            ),
            final(self).pending() == (d == NvimKeyDecision::BufferZ),
    {
        let d = classify_nvim_key(self.pending_z, key, mode, cmdline);
        self.pending_z = d == NvimKeyDecision::BufferZ;
        d
    }

    /// What the host reports for decision `d`: forwarded keys bump the
    /// cursor generation, the rest were consumed.
    pub fn result_of(d: NvimKeyDecision) -> (r: NvimKeyResult)
        ensures
            r == (if d == NvimKeyDecision::ReplayZThenForward || d == NvimKeyDecision::Forward {
                NvimKeyResult::Forwarded
            } else {
                NvimKeyResult::Consumed
            }),
    {
        match d {
            NvimKeyDecision::ReplayZThenForward | NvimKeyDecision::Forward => NvimKeyResult::Forwarded,
            _ => NvimKeyResult::Consumed,
        }
    }

    /// Per-frame sync, once nvim has been resized to the editor area: the
    /// content revision mirrored from the snapshot's generation, and its
    /// visual selection.
    pub fn frame_sync(&self, snap: &NvimSnapshot) -> (f: FrameSync)
        ensures
            f.rev == Some(
                (if snap.content_gen == u64::MAX { u64::MAX as int } else { snap.content_gen + 1 }) as u64,
            ),
            f.selection == snap.visual_selection,
    {
        FrameSync::from_generation(snap.content_gen, snap.visual_selection)
    }
}


/// Converting a char column to its byte offset and back gives the column
/// (clamped to the line): the byte offset of char `k` maps to char `k`.
pub proof fn law_char_byte_round_trip(s: Seq<char>, k: int)
    requires
        0 <= k <= s.len(),
    ensures
        chars_within(s, bytes_len(s.take(k)) as int) == k,
{
    let b = bytes_len(s.take(k)) as int;
    lemma_within_is_longest(s, b);
    let c = chars_within(s, b);
    if c < k {
        lemma_bytes_len_take_mono(s, c + 1, k);
    } else if c > k {
        lemma_bytes_len_take_mono(s, k + 1, c);
        assert(s.take(k + 1).drop_last() == s.take(k));
        assert(utf8_len(s.take(k + 1).last()) >= 1);
    }
}

/// After the first `Z` is buffered, the next key never buffers again: it
/// quits (`ZZ`, `ZQ`) or replays the `Z`.
pub proof fn law_buffered_z_resolves(key: NvimKey, mode: EditorMode, cmdline: Seq<char>)
    ensures
        classify_spec(true, key, mode, cmdline) != NvimKeyDecision::BufferZ,
        classify_spec(true, key, mode, cmdline) is Quit <==> (key == NvimKey::Char('Z') || key
            == NvimKey::Char('Q')),
{
}

impl EditorMode {
    /// The mode nvim's mode code `s` names.
    pub fn from_nvim_str(s: &str) -> (m: EditorMode)
        ensures
            mode_named(m, s@),
    {
        proof {
            reveal_strlit("n");
            reveal_strlit("i");
            reveal_strlit("v");
            reveal_strlit("V");
            reveal_strlit("c");
            assert("n"@ =~= seq!['n']);
            assert("i"@ =~= seq!['i']);
            assert("v"@ =~= seq!['v']);
            assert("V"@ =~= seq!['V']);
            assert("c"@ =~= seq!['c']);
        }
        let cs = chars_of(s);
        if same(&cs, &lit_chars("n")) {
            EditorMode::Normal
        } else if same(&cs, &lit_chars("i")) {
            EditorMode::Insert
        } else if same(&cs, &lit_chars("v")) {
            EditorMode::Visual
        } else if same(&cs, &lit_chars("V")) {
            EditorMode::VisualLine
        } else if same(&cs, &lit_chars("c")) {
            EditorMode::Command
        } else {
            EditorMode::Other(string_from_chars(&cs))
        }
    }
}

/// A msgpack value as the state decoder reads it: a string, an unsigned
/// integer, an array, or anything else.
#[derive(Debug, PartialEq)]
pub enum WireValue {
    Str(String),
    UInt(u64),
    Array(Vec<WireValue>),
    Other,
}

/// A redraw event that is a flush: an array whose first item is the string
/// `flush`.
pub open spec fn is_flush_event(e: WireValue) -> bool {
    match e {
        WireValue::Array(ea) => str_of(item(ea@, 0)) == Some(seq!['f', 'l', 'u', 's', 'h']),
        _ => false,
    }
}

/// Item `j` of the event batch `batch` is a flush event.
pub open spec fn flush_at(batch: WireValue, j: int) -> bool {
    match batch {
        WireValue::Array(evs) => 0 <= j < evs@.len() && is_flush_event(evs@[j]),
        _ => false,
    }
}

/// A notification that ends a redraw: named `redraw`, with a flush event in
/// one of its event batches.
pub open spec fn ends_redraw(name: Seq<char>, args: Seq<WireValue>) -> bool {
    &&& name == seq!['r', 'e', 'd', 'r', 'a', 'w']
    &&& exists|i: int, j: int| 0 <= i < args.len() && #[trigger] flush_at(args[i], j)
}

fn flush_event(e: &WireValue) -> (r: bool)
    ensures
        r == is_flush_event(*e),
{
    proof {
        reveal_strlit("flush");
        assert("flush"@ =~= seq!['f', 'l', 'u', 's', 'h']);
    }
    match e {
        WireValue::Array(ea) => {
            if ea.len() == 0 {
                return false;
            }
            match &ea[0] {
                WireValue::Str(s) => same(&chars_of(s.as_str()), &lit_chars("flush")),
                _ => false,
            }
        },
        _ => false,
    }
}

/// Whether an nvim notification ends a redraw, so the screen mirror is due
/// a refresh.
pub fn is_flush_notification(name: &str, args: &[WireValue]) -> (r: bool)
    ensures
        r == ends_redraw(name@, args@),
{
    proof {
        reveal_strlit("redraw");
        assert("redraw"@ =~= seq!['r', 'e', 'd', 'r', 'a', 'w']);
    }
    if !same(&chars_of(name), &lit_chars("redraw")) {
        return false;
    }
    let mut i: usize = 0;
    while i < args.len()
        invariant
            i <= args@.len(),
            name@ == seq!['r', 'e', 'd', 'r', 'a', 'w'],
            forall|p: int, j: int| 0 <= p < i ==> !#[trigger] flush_at(args@[p], j),
        decreases args.len() - i,
    {
        match &args[i] {
            WireValue::Array(evs) => {
                let mut j: usize = 0;
                while j < evs.len()
                    invariant
                        j <= evs@.len(),
                        i < args@.len(),
                        name@ == seq!['r', 'e', 'd', 'r', 'a', 'w'],
                        args@[i as int] == WireValue::Array(*evs),
                        forall|q: int| 0 <= q < j ==> !is_flush_event(#[trigger] evs@[q]),
                    decreases evs.len() - j,
                {
                    if flush_event(&evs[j]) {
                        assert(flush_at(args@[i as int], j as int));
                        return true;
                    }
                    j += 1;
                }
                assert forall|q: int| !#[trigger] flush_at(args@[i as int], q) by {
                    if 0 <= q < evs@.len() {
                        assert(!is_flush_event(evs@[q]));
                    }
                }
            },
            _ => {},
        }
        i += 1;
    }
    false
}

/// One decoded state response: a command line, or a buffer with its cursor
/// and visual selection.
#[derive(Debug, PartialEq)]
pub enum DecodedState {
    /// Nvim is in command-line mode; `cmdline` starts with its type (`:`, `/`).
    Command { cmdline: String },
    /// Any other mode: the buffer (never empty), the cursor as `(row, char
    /// column)` from 0, and the visual selection in the same coordinates
    /// (a linewise one spans columns `0` to `usize::MAX`).
    Content {
        mode: EditorMode,
        lines: Vec<String>,
        cursor: (usize, usize),
        visual_selection: Option<((usize, usize), (usize, usize))>,
    },
}

/// Element `i` of `a`, if there is one.
pub open spec fn item(a: Seq<WireValue>, i: int) -> Option<WireValue> {
    if 0 <= i < a.len() {
        Some(a[i])
    } else {
        None
    }
}

pub open spec fn str_of(v: Option<WireValue>) -> Option<Seq<char>> {
    match v {
        Some(WireValue::Str(s)) => Some(s@),
        _ => None,
    }
}

pub open spec fn u64_of(v: Option<WireValue>) -> Option<u64> {
    match v {
        Some(WireValue::UInt(n)) => Some(n),
        _ => None,
    }
}

pub open spec fn array_of(v: Option<WireValue>) -> Option<Seq<WireValue>> {
    match v {
        Some(WireValue::Array(a)) => Some(a@),
        _ => None,
    }
}

/// The mode code leading a response, when the response is an array that
/// starts with a string.
pub open spec fn mode_code(v: WireValue) -> Option<Seq<char>> {
    match v {
        WireValue::Array(a) => str_of(item(a@, 0)),
        _ => None,
    }
}

/// The strings of `ls`, in order, anything else skipped.
pub open spec fn strings_in(ls: Seq<WireValue>) -> Seq<Seq<char>>
    decreases ls.len(),
{
    if ls.len() == 0 {
        Seq::empty()
    } else {
        strings_in(ls.drop_last()) + match ls.last() {
            WireValue::Str(s) => seq![s@],
            _ => Seq::empty(),
        }
    }
}

/// The buffer of a content response: the strings of its second element,
/// a single empty line when there are none.
pub open spec fn decoded_lines(a: Seq<WireValue>) -> Seq<Seq<char>> {
    let raw = match array_of(item(a, 1)) {
        Some(ls) => strings_in(ls),
        None => Seq::empty(),
    };
    if raw.len() == 0 {
        seq![Seq::empty()]
    } else {
        raw
    }
}

/// Char column of byte column `b` in row `row` of `lines`; the byte column
/// itself past the last row.
pub open spec fn char_col_in(lines: Seq<Seq<char>>, row: int, b: int) -> int {
    if 0 <= row < lines.len() {
        chars_within(lines[row], b)
    } else {
        b
    }
}

/// `n - 1`, stopping at 0.
pub open spec fn less_one(n: int) -> int {
    if n >= 1 {
        n - 1
    } else {
        0
    }
}

/// The cursor of a content response: its third element holds the row from
/// 1 and the byte column; `(0, 0)` when either is missing.
pub open spec fn decoded_cursor(a: Seq<WireValue>, lines: Seq<Seq<char>>) -> (usize, usize) {
    match array_of(item(a, 2)) {
        Some(c) => match (u64_of(item(c, 0)), u64_of(item(c, 1))) {
            (Some(row), Some(bc)) => {
                let row0 = less_one(row as usize as int);
                (row0 as usize, char_col_in(lines, row0, bc as usize as int) as usize)
            },
            _ => (0, 0),
        },
        None => (0, 0),
    }
}

/// `a` at or before `b`, row first.
pub open spec fn pos_le(a: (usize, usize), b: (usize, usize)) -> bool {
    a.0 < b.0 || (a.0 == b.0 && a.1 <= b.1)
}

/// The visual selection of a content response in a visual mode: the anchor
/// (fourth element: row from 1 at index 1, byte column from 1 at index 2)
/// and the cursor, in order; linewise, from column 0 to `usize::MAX`. None
/// outside the visual modes, for a missing anchor, or an anchor on row 0.
pub open spec fn decoded_selection(code: Seq<char>, a: Seq<WireValue>, lines: Seq<Seq<char>>, cursor: (usize, usize)) -> Option<((usize, usize), (usize, usize))> {
    if code != seq!['v'] && code != seq!['V'] {
        None
    } else {
        match array_of(item(a, 3)) {
            Some(p) => match (u64_of(item(p, 1)), u64_of(item(p, 2))) {
                (Some(l), Some(vb)) => if l as usize == 0 {
                    None
                } else {
                    let row0 = (l as usize - 1) as usize;
                    let vcb = less_one(vb as usize as int);
                    let anchor = (row0, char_col_in(lines, row0 as int, vcb) as usize);
                    let (start, end) = if pos_le(anchor, cursor) {
                        (anchor, cursor)
                    } else {
                        (cursor, anchor)
                    };
                    if code == seq!['V'] {
                        Some(((start.0, 0usize), (end.0, usize::MAX)))
                    } else {
                        Some((start, end))
                    }
                },
                _ => None,
            },
            None => None,
        }
    }
}

/// The command line of a command response: its type then its text, each
/// empty when missing.
pub open spec fn decoded_cmdline(a: Seq<WireValue>) -> Seq<char> {
    let t = match str_of(item(a, 1)) {
        Some(s) => s,
        None => Seq::empty(),
    };
    let l = match str_of(item(a, 2)) {
        Some(s) => s,
        None => Seq::empty(),
    };
    t + l
}

fn get_str(a: &Vec<WireValue>, i: usize) -> (r: Option<&String>)
    ensures
        match r {
            Some(s) => str_of(item(a@, i as int)) == Some(s@),
            None => str_of(item(a@, i as int)) is None,
        },
{
    if i < a.len() {
        match &a[i] {
            WireValue::Str(s) => Some(s),
            _ => None,
        }
    } else {
        None
    }
}

fn get_u64(a: &Vec<WireValue>, i: usize) -> (r: Option<u64>)
    ensures
        r == u64_of(item(a@, i as int)),
{
    if i < a.len() {
        match &a[i] {
            WireValue::UInt(n) => Some(*n),
            _ => None,
        }
    } else {
        None
    }
}

fn get_array(a: &Vec<WireValue>, i: usize) -> (r: Option<&Vec<WireValue>>)
    ensures
        match r {
            Some(v) => array_of(item(a@, i as int)) == Some(v@),
            None => array_of(item(a@, i as int)) is None,
        },
{
    if i < a.len() {
        match &a[i] {
            WireValue::Array(v) => Some(v),
            _ => None,
        }
    } else {
        None
    }
}

/// The chars of `s`, or none.
fn chars_or_empty(s: Option<&String>) -> (out: Vec<char>)
    ensures
        out@ == match s {
            Some(t) => t@,
            None => Seq::<char>::empty(),
        },
{
    match s {
        Some(t) => chars_of(t.as_str()),
        None => Vec::new(),
    }
}

/// Char column of byte column `b` in row `row`, the byte column past the
/// last row.
fn char_col_exec(lines: &Vec<String>, row: usize, b: usize) -> (c: usize)
    ensures
        c as int == char_col_in(lines@.map_values(|s: String| s@), row as int, b as int),
{
    if row < lines.len() {
        byte_offset_to_char_idx(lines[row].as_str(), b)
    } else {
        b
    }
}

/// The five mode codes are distinct.
proof fn lemma_mode_codes_distinct()
    ensures
        forall|x: char, y: char| x != y ==> seq![x] != seq![y],
{
    assert forall|x: char, y: char| x != y implies seq![x] != seq![y] by {
        assert(seq![x][0] == x && seq![y][0] == y);
    }
}

/// Decodes one state response: `[mode, cmdtype, cmdline]` in command-line
/// mode, `[mode, lines, cursor, anchor]` otherwise. `None` when the response
/// is not an array starting with a mode string.
pub fn decode(value: &WireValue) -> (r: Option<DecodedState>)
    ensures
        r is None <==> mode_code(*value) is None,
        match r {
            Some(DecodedState::Command { cmdline }) => {
                &&& mode_code(*value) == Some(seq!['c'])
                &&& cmdline@ == decoded_cmdline(value->Array_0@)
            },
            Some(DecodedState::Content { mode, lines, cursor, visual_selection }) => {
                let code = mode_code(*value).unwrap();
                let a = value->Array_0@;
                let ls = decoded_lines(a);
                &&& code != seq!['c']
                &&& mode_named(mode, code)
                &&& lines@.map_values(|s: String| s@) == ls
                &&& cursor == decoded_cursor(a, ls)
                &&& visual_selection == decoded_selection(code, a, ls, cursor)
            },
            None => true,
        },
{
    let arr = match value {
        WireValue::Array(a) => a,
        _ => return None,
    };
    let mode_s = match get_str(arr, 0) {
        Some(m) => m,
        None => return None,
    };
    let mode = EditorMode::from_nvim_str(mode_s.as_str());
    if matches!(mode, EditorMode::Command) {
        let t = chars_or_empty(get_str(arr, 1));
        let all = chars_or_empty(get_str(arr, 2));
        let mut joined: Vec<char> = Vec::new();
        let mut i: usize = 0;
        while i < t.len()
            invariant
                i <= t@.len(),
                joined@ == t@.take(i as int),
            decreases t.len() - i,
        {
            joined.push(t[i]);
            i += 1;
            assert(joined@ =~= t@.take(i as int));
        }
        let mut j: usize = 0;
        while j < all.len()
            invariant
                j <= all@.len(),
                i == t@.len(),
                joined@ == t@ + all@.take(j as int),
            decreases all.len() - j,
        {
            joined.push(all[j]);
            j += 1;
            assert(joined@ =~= t@ + all@.take(j as int));
        }
        assert(joined@ =~= decoded_cmdline(arr@));
        return Some(DecodedState::Command { cmdline: string_from_chars(&joined) });
    }
    let ghost a = arr@;
    // The buffer: every string of the second element, or one empty line.
    let mut lines: Vec<String> = Vec::new();
    match get_array(arr, 1) {
        Some(ls) => {
            let mut k: usize = 0;
            while k < ls.len()
                invariant
                    k <= ls@.len(),
                    lines@.map_values(|s: String| s@) == strings_in(ls@.take(k as int)),
                decreases ls.len() - k,
            {
                proof {
                    assert(ls@.take(k + 1).drop_last() == ls@.take(k as int));
                    assert(ls@.take(k + 1).last() == ls@[k as int]);
                }
                match &ls[k] {
                    WireValue::Str(s) => {
                        lines.push(s.clone());
                    },
                    _ => {},
                }
                k += 1;
                assert(lines@.map_values(|s: String| s@) =~= strings_in(ls@.take(k as int)));
            }
            assert(ls@.take(ls@.len() as int) == ls@);
        },
        None => {},
    }
    if lines.len() == 0 {
        lines.push(String::new());
    }
    let ghost lv = lines@.map_values(|s: String| s@);
    assert(lv =~= decoded_lines(a));
    // The cursor: row from 1, byte column.
    let cursor = match get_array(arr, 2) {
        Some(c) => match (get_u64(c, 0), get_u64(c, 1)) {
            (Some(row), Some(bc)) => {
                let row0 = (row as usize).saturating_sub(1);
                (row0, char_col_exec(&lines, row0, bc as usize))
            },
            _ => (0, 0),
        },
        None => (0, 0),
    };
    // The visual selection: anchor and cursor in order.
    let visual = match mode {
        EditorMode::Visual | EditorMode::VisualLine => match get_array(arr, 3) {
            Some(p) => match (get_u64(p, 1), get_u64(p, 2)) {
                (Some(l), Some(vb)) => {
                    let lnum = l as usize;
                    if lnum == 0 {
                        None
                    } else {
                        let row0 = lnum - 1;
                        let vcb = (vb as usize).saturating_sub(1);
                        let anchor = (row0, char_col_exec(&lines, row0, vcb));
                        let le = anchor.0 < cursor.0 || (anchor.0 == cursor.0 && anchor.1 <= cursor.1);
                        let (start, end) = if le { (anchor, cursor) } else { (cursor, anchor) };
                        if matches!(mode, EditorMode::VisualLine) {
                            Some(((start.0, 0usize), (end.0, usize::MAX)))
                        } else {
                            Some((start, end))
                        }
                    }
                },
                _ => None,
            },
            None => None,
        },
        _ => None,
    };
    proof {
        lemma_mode_codes_distinct();
    }
    Some(DecodedState::Content { mode, lines, cursor, visual_selection: visual })
}

/// A decoded buffer is never empty: a blank buffer decodes to one empty
/// line. A linewise visual selection spans whole rows.
pub proof fn law_decoded_buffer_is_never_empty(a: Seq<WireValue>, cursor: (usize, usize))
    ensures
        decoded_lines(a).len() >= 1,
        decoded_selection(seq!['V'], a, decoded_lines(a), cursor) matches Some(sel) ==> sel.0.1 == 0 && sel.1.1
            == usize::MAX,
{
}

/// What the editor mirrors of the embedded nvim between frames.
#[derive(Debug)]
pub struct NvimSnapshot {
    pub lines: Vec<String>,
    pub cursor: (usize, usize),
    pub mode: EditorMode,
    /// The command line, while in command-line mode.
    pub cmdline: Option<String>,
    pub visual_selection: Option<((usize, usize), (usize, usize))>,
    /// The buffer changed since the last save.
    pub dirty: bool,
    /// Bumped (wrapping) on every real change of the buffer.
    pub content_gen: u64,
}

/// `s` without one trailing `\r`.
pub open spec fn strip_cr(s: Seq<char>) -> Seq<char> {
    if s.len() > 0 && s.last() == '\r' {
        s.drop_last()
    } else {
        s
    }
}

/// The lines of `t`: split at each `\n`, a `\r` just before a `\n` going
/// with it, and no empty line after a final `\n` (a text without `\n` is
/// one line, or none when it is empty).
pub open spec fn text_lines(t: Seq<char>) -> Seq<Seq<char>> {
    let rows = split_rows(t);
    let ended = rows.drop_last().map_values(|r: Seq<char>| strip_cr(r));
    if rows.last().len() > 0 {
        ended.push(rows.last())
    } else {
        ended
    }
}

proof fn lemma_split_rows_nonempty(t: Seq<char>)
    ensures
        split_rows(t).len() >= 1,
    decreases t.len(),
{
    match crate::text::first_newline(t) {
        Some(i) => if 0 <= i < t.len() {
            lemma_split_rows_nonempty(t.skip(i + 1));
        },
        None => {},
    }
}

/// `s` without one trailing `\r`.
fn strip_cr_exec(s: &String) -> (r: String)
    ensures
        r@ == strip_cr(s@),
{
    let cs = chars_of(s.as_str());
    let n = cs.len();
    if n > 0 && cs[n - 1] == '\r' {
        let mut out: Vec<char> = Vec::new();
        let mut i: usize = 0;
        while i < n - 1
            invariant
                n == cs@.len(),
                n > 0,
                i <= n - 1,
                out@ == cs@.take(i as int),
            decreases n - 1 - i,
        {
            out.push(cs[i]);
            i += 1;
            assert(out@ =~= cs@.take(i as int));
        }
        assert(out@ =~= s@.drop_last());
        string_from_chars(&out)
    } else {
        assert(cs@ == s@);
        string_from_chars(&cs)
    }
}

/// The lines of `text`, as [`text_lines`] has them.
pub fn lines_of(text: &str) -> (out: Vec<String>)
    ensures
        out@.map_values(|s: String| s@) == text_lines(text@),
{
    let cs = chars_of(text);
    let rows = split_rows_exec(&cs);
    proof {
        lemma_split_rows_nonempty(cs@);
    }
    let ghost rv = rows@.map_values(|s: String| s@);
    let n = rows.len();
    let mut out: Vec<String> = Vec::new();
    let mut i: usize = 0;
    while i + 1 < n
        invariant
            n == rows@.len(),
            n >= 1,
            rv == rows@.map_values(|s: String| s@),
            rv == split_rows(text@),
            i <= n - 1,
            out@.map_values(|s: String| s@) == rv.take(i as int).map_values(|r: Seq<char>| strip_cr(r)),
        decreases n - i,
    {
        let ghost before = out@.map_values(|s: String| s@);
        out.push(strip_cr_exec(&rows[i]));
        assert(out@.map_values(|s: String| s@) =~= before.push(strip_cr(rv[i as int])));
        i += 1;
        assert(rv.take(i as int).map_values(|r: Seq<char>| strip_cr(r)) =~= rv.take(i - 1).map_values(
            |r: Seq<char>| strip_cr(r),
        ).push(strip_cr(rv[i - 1])));
    }
    assert(rv.take(i as int) =~= rv.drop_last());
    if !rows[n - 1].as_str().is_empty() {
        let ghost before = out@.map_values(|s: String| s@);
        let last = rows[n - 1].clone();
        out.push(last);
        assert(out@.map_values(|s: String| s@) =~= before.push(rv.last()));
    } else {
        assert(rv.last().len() == 0);
    }
    out
}

impl NvimSnapshot {
    /// Loads `text` into the mirror ahead of the rows reaching nvim: its
    /// lines (one empty row for a text without any), the cursor at the
    /// start, clean, the generation bumped (wrapping). Returns the lines to
    /// send.
    pub fn set_text(&mut self, text: &str) -> (lines: Vec<String>)
        ensures
            lines@.map_values(|s: String| s@) == text_lines(text@),
            final(self).lines@.map_values(|s: String| s@) == (if text_lines(text@).len() == 0 {
                seq![Seq::<char>::empty()]
            } else {
                text_lines(text@)
            }),
            final(self).cursor == (0usize, 0usize),
            !final(self).dirty,
            final(self).content_gen == (if old(self).content_gen == u64::MAX { 0 } else { old(self).content_gen + 1 }),
            final(self).mode == old(self).mode,
            final(self).cmdline == old(self).cmdline,
            final(self).visual_selection == old(self).visual_selection,
    {
        let lines = lines_of(text);
        if lines.len() == 0 {
            let mut one: Vec<String> = Vec::new();
            one.push(String::new());
            assert(one@.map_values(|s: String| s@) =~= seq![Seq::<char>::empty()]);
            self.lines = one;
        } else {
            self.lines = lines.clone();
            assert(self.lines@ == lines@);
        }
        self.cursor = (0, 0);
        self.dirty = false;
        self.content_gen = self.content_gen.wrapping_add(1);
        lines
    }

    /// The cursor with its row clamped to the mirrored rows: the mirror can
    /// lag nvim's cursor by a frame.
    pub fn clamped_cursor(&self) -> (c: (usize, usize))
        ensures
            c.0 == (if self.cursor.0 + 1 <= self.lines@.len() {
                self.cursor.0 as int
            } else if self.lines@.len() == 0 {
                0
            } else {
                self.lines@.len() - 1
            }),
            c.1 == self.cursor.1,
    {
        let max_row = self.lines.len().saturating_sub(1);
        let row = if self.cursor.0 < max_row { self.cursor.0 } else { max_row };
        (row, self.cursor.1)
    }
}

/// Whether two row lists hold the same text.
fn same_rows(a: &Vec<String>, b: &Vec<String>) -> (r: bool)
    ensures
        r == (a@.map_values(|s: String| s@) == b@.map_values(|s: String| s@)),
{
    if a.len() != b.len() {
        assert(a@.map_values(|s: String| s@).len() != b@.map_values(|s: String| s@).len());
        return false;
    }
    let mut i: usize = 0;
    while i < a.len()
        invariant
            i <= a@.len() == b@.len(),
            forall|k: int| 0 <= k < i ==> a@[k]@ == b@[k]@,
        decreases a.len() - i,
    {
        if a[i] != b[i] {
            assert(a@.map_values(|s: String| s@)[i as int] != b@.map_values(|s: String| s@)[i as int]);
            return false;
        }
        i += 1;
    }
    assert(a@.map_values(|s: String| s@) =~= b@.map_values(|s: String| s@));
    true
}

/// Applies one state response to the snapshot. A command-line response sets
/// the mode and the command line. A content response sets the cursor, mode
/// and selection and clears the command line; its rows replace the
/// snapshot's, marking it dirty and bumping the generation, only when they
/// differ and no load is in flight. A response that does not decode
/// changes nothing.
pub fn apply_lua_state(snap: &mut NvimSnapshot, value: &WireValue, in_flight: bool)
    ensures
        mode_code(*value) is None ==> *final(snap) == *old(snap),
        mode_code(*value) == Some(seq!['c']) ==> {
            &&& final(snap).mode == EditorMode::Command
            &&& final(snap).cmdline matches Some(c) && c@ == decoded_cmdline(value->Array_0@)
            &&& final(snap).lines == old(snap).lines
            &&& final(snap).cursor == old(snap).cursor
            &&& final(snap).visual_selection == old(snap).visual_selection
            &&& final(snap).dirty == old(snap).dirty
            &&& final(snap).content_gen == old(snap).content_gen
        },
        (mode_code(*value) matches Some(code) && code != seq!['c']) ==> {
            let code = mode_code(*value).unwrap();
            let a = value->Array_0@;
            let ls = decoded_lines(a);
            let cursor = decoded_cursor(a, ls);
            let changed = ls != old(snap).lines@.map_values(|s: String| s@) && !in_flight;
            &&& mode_named(final(snap).mode, code)
            &&& final(snap).cursor == cursor
            &&& final(snap).visual_selection == decoded_selection(code, a, ls, cursor)
            &&& final(snap).cmdline is None
            &&& (changed ==> {
                &&& final(snap).lines@.map_values(|s: String| s@) == ls
                &&& final(snap).dirty
                &&& final(snap).content_gen == (if old(snap).content_gen == u64::MAX { 0 } else { old(snap).content_gen + 1 })
            })
            &&& (!changed ==> {
                &&& final(snap).lines == old(snap).lines
                &&& final(snap).dirty == old(snap).dirty
                &&& final(snap).content_gen == old(snap).content_gen
            })
        },
{
    let decoded = match decode(value) {
        Some(d) => d,
        None => return,
    };
    match decoded {
        DecodedState::Command { cmdline } => {
            snap.mode = EditorMode::Command;
            snap.cmdline = Some(cmdline);
        },
        DecodedState::Content { mode, lines, cursor, visual_selection } => {
            if !same_rows(&lines, &snap.lines) && !in_flight {
                snap.dirty = true;
                snap.lines = lines;
                snap.content_gen = snap.content_gen.wrapping_add(1);
            }
            snap.cursor = cursor;
            snap.mode = mode;
            snap.cmdline = None;
            snap.visual_selection = visual_selection;
        },
    }
}

} // verus!
