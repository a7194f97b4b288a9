//! A pull reader over markdown text, built on pulldown-cmark (with tables and
//! strikethrough enabled). Events are handed to the rest of the library as
//! plain values.
use vstd::prelude::*;
use pulldown_cmark::Parser;
use crate::mdraw::{md_parser_at, parser_new, parser_next, raw_kind, raw_tag, raw_text};

verus! {

/// The block and inline elements that the library distinguishes.
#[derive(Clone, Copy, PartialEq, Eq, Structural)]
pub enum MdTag {
    Paragraph,
    /// A heading of level 1 to 6.
    Heading(u8),
    BlockQuote,
    CodeBlock,
    List,
    Item,
    Table,
    TableHead,
    TableRow,
    TableCell,
    Emphasis,
    Strong,
    Link,
    /// Every other element.
    Other,
}

/// The events that the library reads.
pub enum MdEvent {
    /// An element starts; for a link the string is its destination, else empty.
    Start(MdTag, String),
    End(MdTag),
    Text(String),
    Code(String),
    SoftBreak,
    HardBreak,
    Rule,
    /// Every other event.
    Other,
}

/// The kind of an event, without its payload.
#[derive(Clone, Copy, PartialEq, Eq, Structural)]
pub enum MdKind {
    Start,
    End,
    Text,
    Code,
    SoftBreak,
    HardBreak,
    Rule,
    Other,
}

/// The events that pulldown-cmark's parser yields for `text`, with tables
/// and strikethrough enabled, in order and converted to plain values. The
/// parser is a fused iterator: after these it yields nothing.
pub uninterp spec fn md_events(text: Seq<char>) -> Seq<MdEvent>;

/// Kind of an event.
pub open spec fn kind_of(ev: MdEvent) -> MdKind {
    match ev {
        MdEvent::Start(_, _) => MdKind::Start,
        MdEvent::End(_) => MdKind::End,
        MdEvent::Text(_) => MdKind::Text,
        MdEvent::Code(_) => MdKind::Code,
        MdEvent::SoftBreak => MdKind::SoftBreak,
        MdEvent::HardBreak => MdKind::HardBreak,
        MdEvent::Rule => MdKind::Rule,
        MdEvent::Other => MdKind::Other,
    }
}

/// Element of a start or end event; `Other` for any other event.
pub open spec fn tag_of(ev: MdEvent) -> MdTag {
    match ev {
        MdEvent::Start(t, _) => t,
        MdEvent::End(t) => t,
        _ => MdTag::Other,
    }
}

/// Text of a text or code event, destination of a link start; empty otherwise.
pub open spec fn payload_of(ev: MdEvent) -> Seq<char> {
    match ev {
        MdEvent::Start(_, u) => u@,
        MdEvent::Text(s) => s@,
        MdEvent::Code(s) => s@,
        _ => Seq::empty(),
    }
}

/// What the library reads of an event: its kind, its element and its text.
pub open spec fn md_view(ev: MdEvent) -> (MdKind, MdTag, Seq<char>) {
    (kind_of(ev), tag_of(ev), payload_of(ev))
}

impl View for MdEvent {
    type V = (MdKind, MdTag, Seq<char>);

    open spec fn view(&self) -> (MdKind, MdTag, Seq<char>) {
        md_view(*self)
    }
}

/// A parser positioned after the first `pos` events of `text`, where
/// `(text, pos)` is its view.
pub struct MdParser<'a> {
    inner: Parser<'a>,
}

impl<'a> View for MdParser<'a> {
    type V = (Seq<char>, nat);

    closed spec fn view(&self) -> (Seq<char>, nat) {
        md_parser_at(self.inner)
    }
}

impl<'a> MdParser<'a> {
    /// A parser at the first event of `text`.
    pub fn new(text: &'a str) -> (p: Self)
        ensures
            p@ == (text@, 0nat),
    {
        MdParser { inner: parser_new(text) }
    }

    /// The next event, or `None` after the last.
    pub fn next_event(&mut self) -> (ev: Option<MdEvent>)
        ensures
            final(self)@.0 == old(self)@.0,
            final(self)@.1 == old(self)@.1 + 1,
            old(self)@.1 < md_events(old(self)@.0).len() ==> (ev matches Some(e)
                && e@ == md_view(md_events(old(self)@.0)[old(self)@.1 as int])),
            old(self)@.1 >= md_events(old(self)@.0).len() ==> ev is None,
    {
        let r = parser_next(&mut self.inner);
        let k = match raw_kind(&r) {
            Some(k) => k,
            None => return None,
        };
        let ghost e = md_events(r.at().0)[r.at().1 as int];
        let ev = match k {
            MdKind::Start => MdEvent::Start(raw_tag(&r), raw_text(&r)),
            MdKind::End => MdEvent::End(raw_tag(&r)),
            MdKind::Text => MdEvent::Text(raw_text(&r)),
            MdKind::Code => MdEvent::Code(raw_text(&r)),
            MdKind::SoftBreak => MdEvent::SoftBreak,
            MdKind::HardBreak => MdEvent::HardBreak,
            MdKind::Rule => MdEvent::Rule,
            MdKind::Other => MdEvent::Other,
        };
        assert(ev@ == md_view(e));
        Some(ev)
    }
}

} // verus!
