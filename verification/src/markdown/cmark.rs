//! The CommonMark event stream of a text, as plain values.
//!
//! `pulldown_cmark` parses; the wrappers here only convert each event of its
//! offset iterator into a library value. Every wrapper projects the same
//! named result, `cmark_events`, so the pieces line up index by index.
use vstd::prelude::*;
use pulldown_cmark::{CodeBlockKind, Options, Parser, Tag};
use pulldown_cmark::Event::{Code, End, HardBreak, Html, InlineHtml, SoftBreak, Start, Text};
use pulldown_cmark::TagEnd::{
    BlockQuote, CodeBlock, Emphasis, Heading, HtmlBlock, Image, Item, Link, List, Paragraph, Strikethrough,
    Strong,
};

verus! {

/// Which variant of `pulldown_cmark::Event` an event is.
#[derive(Debug, Clone, Copy, PartialEq, Eq, Structural)]
pub enum MdClass {
    Start,
    End,
    Text,
    Code,
    Html,
    InlineHtml,
    SoftBreak,
    HardBreak,
    Other,
}

/// The block or inline construct a start or end event opens or closes.
#[derive(Debug, Clone, Copy, PartialEq, Eq, Structural)]
pub enum MdTag {
    Paragraph,
    Heading(u8),
    BlockQuote,
    CodeBlock,
    HtmlBlock,
    List,
    Item,
    Emphasis,
    Strong,
    Strikethrough,
    Link,
    Image,
    Other,
}

/// One event of the stream: its variant, its tag (for start and end
/// events), whether it opens an indented code block, the text of an inline
/// code span, and the byte range it covers in the source.
pub struct MdEvent {
    pub class: MdClass,
    pub tag: Option<MdTag>,
    pub indented: bool,
    pub code: Option<String>,
    pub start: usize,
    pub end: usize,
}

/// The plain-value view of an [`MdEvent`].
pub struct MdEventV {
    pub class: MdClass,
    pub tag: Option<MdTag>,
    pub indented: bool,
    pub code: Option<Seq<char>>,
    pub start: usize,
    pub end: usize,
}

impl View for MdEvent {
    type V = MdEventV;

    open spec fn view(&self) -> MdEventV {
        MdEventV {
            class: self.class,
            tag: self.tag,
            indented: self.indented,
            code: match self.code {
                Some(s) => Some(s@),
                None => None,
            },
            start: self.start,
            end: self.end,
        }
    }
}

/// The events `pulldown_cmark` yields for `text` with strikethrough enabled,
/// with their source byte ranges (`Parser::new_ext(..).into_offset_iter()`).
pub uninterp spec fn cmark_events(text: Seq<char>) -> Seq<MdEventV>;

/// Runs `Parser::new_ext(text, ENABLE_STRIKETHROUGH).into_offset_iter()` and
/// records the variant of each event. Claims only that the result is the
/// `class` field of `cmark_events(text)`.
#[verifier::external_body]
fn cmark_classes(text: &str) -> (out: Vec<MdClass>)
    ensures
        out@.len() == cmark_events(text@).len(),
        forall|i: int| #![trigger out@[i]] 0 <= i < out@.len() ==> out@[i] == cmark_events(text@)[i].class,
{
    let mut out = Vec::new();
    for (e, _) in Parser::new_ext(text, Options::ENABLE_STRIKETHROUGH).into_offset_iter() {
        out.push(match e {
            Start(_) => MdClass::Start, End(_) => MdClass::End, Text(_) => MdClass::Text,
            Code(_) => MdClass::Code, Html(_) => MdClass::Html, InlineHtml(_) => MdClass::InlineHtml,
            SoftBreak => MdClass::SoftBreak, HardBreak => MdClass::HardBreak, _ => MdClass::Other,
        });
    }
    out
}

/// Runs the same parse and records, per event, whether it starts an
/// indented code block, the text of an inline code span, and its byte
/// range. Claims only that these are those fields of `cmark_events(text)`,
/// the text present exactly for code spans.
#[verifier::external_body]
fn cmark_details(text: &str) -> (out: Vec<(bool, Option<String>, usize, usize)>)
    ensures
        out@.len() == cmark_events(text@).len(),
        forall|i: int|
            #![trigger out@[i]]
            0 <= i < out@.len() ==> {
                let e = cmark_events(text@)[i];
                &&& out@[i].0 == e.indented
                &&& (match out@[i].1 {
                    Some(s) => e.code == Some(s@),
                    None => e.code is None,
                })
                &&& out@[i].2 == e.start
                &&& out@[i].3 == e.end
                &&& (e.class == MdClass::Code <==> out@[i].1 is Some)
            },
{
    let mut out = Vec::new();
    for (e, r) in Parser::new_ext(text, Options::ENABLE_STRIKETHROUGH).into_offset_iter() {
        let ind = matches!(e, Start(Tag::CodeBlock(CodeBlockKind::Indented)));
        let code = match e { Code(s) => Some(s.to_string()), _ => None };
        out.push((ind, code, r.start, r.end));
    }
    out
}

/// Runs the same parse and records, per event, the tag a
/// start event opens (`Tag::to_end`) or an end event closes. Claims only that
/// the result is the `tag` field of `cmark_events(text)`.
#[verifier::external_body]
fn cmark_tags(text: &str) -> (out: Vec<Option<MdTag>>)
    ensures
        out@.len() == cmark_events(text@).len(),
        forall|i: int| #![trigger out@[i]] 0 <= i < out@.len() ==> out@[i] == cmark_events(text@)[i].tag,
{
    let mut out = Vec::new();
    for (e, _) in Parser::new_ext(text, Options::ENABLE_STRIKETHROUGH).into_offset_iter() {
        let t = match e { Start(t) => Some(t.to_end()), End(t) => Some(t), _ => None };
        out.push(t.map(|t| match t {
            Paragraph => MdTag::Paragraph, Heading(l) => MdTag::Heading(l as u8),
            BlockQuote(_) => MdTag::BlockQuote, CodeBlock => MdTag::CodeBlock,
            HtmlBlock => MdTag::HtmlBlock, List(_) => MdTag::List, Item => MdTag::Item,
            Emphasis => MdTag::Emphasis, Strong => MdTag::Strong,
            Strikethrough => MdTag::Strikethrough, Link => MdTag::Link,
            Image => MdTag::Image, _ => MdTag::Other,
        }));
    }
    out
}

/// The CommonMark events of `text`: exactly `cmark_events(text@)`.
pub fn parse_events(text: &str) -> (out: Vec<MdEvent>)
    ensures
        out@.len() == cmark_events(text@).len(),
        forall|i: int| #![trigger out@[i]] 0 <= i < out@.len() ==> out@[i]@ == cmark_events(text@)[i],
        forall|i: int|
            #![trigger out@[i]]
            0 <= i < out@.len() ==> (out@[i].class == MdClass::Code <==> out@[i].code is Some),
{
    let classes = cmark_classes(text);
    let details = cmark_details(text);
    let tags = cmark_tags(text);
    let mut out: Vec<MdEvent> = Vec::new();
    let mut i: usize = 0;
    while i < classes.len()
        invariant
            classes@.len() == details@.len() == tags@.len() == cmark_events(text@).len(),
            forall|k: int| #![trigger classes@[k]] 0 <= k < classes@.len() ==> classes@[k] == cmark_events(text@)[k].class,
            forall|k: int|
                #![trigger details@[k]]
                0 <= k < details@.len() ==> {
                    let e = cmark_events(text@)[k];
                    &&& details@[k].0 == e.indented
                    &&& (match details@[k].1 {
                        Some(s) => e.code == Some(s@),
                        None => e.code is None,
                    })
                    &&& details@[k].2 == e.start
                    &&& details@[k].3 == e.end
                    &&& (e.class == MdClass::Code <==> details@[k].1 is Some)
                },
            forall|k: int| #![trigger tags@[k]] 0 <= k < tags@.len() ==> tags@[k] == cmark_events(text@)[k].tag,
            0 <= i <= classes@.len(),
            out@.len() == i,
            forall|k: int| #![trigger out@[k]] 0 <= k < i ==> out@[k]@ == cmark_events(text@)[k],
            forall|k: int|
                #![trigger out@[k]]
                0 <= k < i ==> (out@[k].class == MdClass::Code <==> out@[k].code is Some),
        decreases classes.len() - i,
    {
        let d = &details[i];
        let code = match &d.1 {
            Some(s) => Some(s.clone()),
            None => None,
        };
        let ev = MdEvent { class: classes[i], tag: tags[i], indented: d.0, code, start: d.2, end: d.3 };
        proof {
            let _ = classes@[i as int];
            let _ = details@[i as int];
            let _ = tags@[i as int];
        }
        out.push(ev);
        i += 1;
    }
    out
}

} // verus!
