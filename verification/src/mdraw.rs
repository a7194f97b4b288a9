//! The boundary with pulldown-cmark: its parser, the events it yields, and
//! their conversion to the plain values of `crate::md`.
use vstd::prelude::*;
use pulldown_cmark::{Event, Options, Parser, Tag, TagEnd};
use crate::md::{MdKind, MdTag, kind_of, md_events, payload_of, tag_of};
use crate::md::MdTag::{
    BlockQuote, CodeBlock, Emphasis, Heading, Item, Link, List, Paragraph, Strong, Table, TableCell,
    TableHead, TableRow,
};

verus! {

#[verifier::external_type_specification]
#[verifier::external_body]
#[verifier::reject_recursive_types(F)]
pub struct ExMdParser<'a, F>(pulldown_cmark::Parser<'a, F>);

#[verifier::external_type_specification]
#[verifier::external_body]
pub struct ExMdDefaultCallback(pulldown_cmark::DefaultBrokenLinkCallback);

#[verifier::external_type_specification]
#[verifier::external_body]
pub struct ExMdEvent<'a>(pulldown_cmark::Event<'a>);

/// The text a pulldown-cmark parser reads and how many events it has
/// yielded: what a parser made by `Parser::new_ext` has read, counted in
/// events.
pub uninterp spec fn md_parser_at(p: Parser) -> (Seq<char>, nat);

/// An event as pulldown-cmark yielded it, with the position it was yielded
/// at: event `index` of `text`, or nothing when `index` is past the last.
/// Only `parser_next` makes one.
pub struct MdRaw<'a> {
    ev: Option<Event<'a>>,
    text: Ghost<Seq<char>>,
    index: Ghost<nat>,
}

impl<'a> MdRaw<'a> {
    /// (text, index) the event was yielded at.
    pub closed spec fn at(&self) -> (Seq<char>, nat) {
        (self.text@, self.index@)
    }
}

/// `pulldown_cmark::Parser::new_ext` with tables and strikethrough enabled:
/// a parser over `text` that has yielded no event yet.
#[verifier::external_body]
pub(crate) fn parser_new<'a>(text: &'a str) -> (p: Parser<'a>)
    ensures
        md_parser_at(p) == (text@, 0nat),
{
    Parser::new_ext(text, Options::ENABLE_STRIKETHROUGH | Options::ENABLE_TABLES)
}

/// `Iterator::next` of pulldown-cmark's parser: the event at the parser's
/// position, held with that position, and the parser advanced by one event.
#[verifier::external_body]
pub(crate) fn parser_next<'a>(p: &mut Parser<'a>) -> (r: MdRaw<'a>)
    ensures
        r.at() == md_parser_at(*old(p)),
        md_parser_at(*final(p)) == (md_parser_at(*old(p)).0, md_parser_at(*old(p)).1 + 1),
{
    let at = Ghost(md_parser_at(*p));
    MdRaw { ev: p.next(), text: Ghost(at@.0), index: Ghost(at@.1) }
}

/// Tells pulldown-cmark's event variants apart: the kind of the event at the
/// raw event's position (past the last event there is none).
#[verifier::external_body]
pub(crate) fn raw_kind(r: &MdRaw) -> (k: Option<MdKind>)
    ensures
        r.at().1 < md_events(r.at().0).len() ==> k == Some(kind_of(md_events(r.at().0)[r.at().1 as int])),
        r.at().1 >= md_events(r.at().0).len() ==> k is None,
{
    Some(match r.ev.as_ref()? {
        Event::Start(_) => MdKind::Start,
        Event::End(_) => MdKind::End,
        Event::Text(_) => MdKind::Text,
        Event::Code(_) => MdKind::Code,
        Event::SoftBreak => MdKind::SoftBreak,
        Event::HardBreak => MdKind::HardBreak,
        Event::Rule => MdKind::Rule,
        _ => MdKind::Other,
    })
}

/// Tells pulldown-cmark's tag variants apart (through `Tag::to_end` for a
/// start tag, and the heading level's number): the element of the start or
/// end event at the raw event's position.
#[verifier::external_body]
pub(crate) fn raw_tag(r: &MdRaw) -> (t: MdTag)
    requires
        r.at().1 < md_events(r.at().0).len(),
    ensures
        t == tag_of(md_events(r.at().0)[r.at().1 as int]),
{
    let e = match r.ev.as_ref() {
        Some(Event::Start(t)) => t.to_end(),
        Some(Event::End(e)) => *e,
        _ => return MdTag::Other,
    };
    match e {
        TagEnd::Paragraph => Paragraph, TagEnd::Heading(l) => Heading(l as u8),
        TagEnd::BlockQuote(_) => BlockQuote, TagEnd::CodeBlock => CodeBlock,
        TagEnd::List(_) => List, TagEnd::Item => Item, TagEnd::Table => Table,
        TagEnd::TableHead => TableHead, TagEnd::TableRow => TableRow,
        TagEnd::TableCell => TableCell, TagEnd::Emphasis => Emphasis,
        TagEnd::Strong => Strong, TagEnd::Link => Link, _ => MdTag::Other,
    }
}

/// The text of a text or code event, or the destination of a link start, at
/// the raw event's position (`CowStr` made an owned `String`).
#[verifier::external_body]
pub(crate) fn raw_text(r: &MdRaw) -> (s: String)
    requires
        r.at().1 < md_events(r.at().0).len(),
    ensures
        s@ == payload_of(md_events(r.at().0)[r.at().1 as int]),
{
    match r.ev.as_ref() {
        Some(Event::Text(t)) | Some(Event::Code(t)) => t.to_string(),
        Some(Event::Start(Tag::Link { dest_url, .. })) => dest_url.to_string(),
        _ => String::new(),
    }
}

} // verus!
