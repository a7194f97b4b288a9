//! A pull reader over XML text, built on quick-xml. Events are handed to the
//! rest of the library as plain values.
use vstd::prelude::*;
use quick_xml::events::Event;
use quick_xml::reader::Reader;
use vstd::string::StringSliceAdditionalSpecFns;
use crate::xml::XmlEvent::{End, Eof, Error, Other, Tag, Text};

verus! {

#[verifier::external_type_specification]
#[verifier::external_body]
#[verifier::reject_recursive_types(R)]
pub struct ExXmlReader<R>(Reader<R>);

/// A start or empty tag: its raw qualified name and its well-formed attributes
/// as (raw key, raw still-escaped value) pairs, in document order.
pub struct XmlTag {
    pub name: Vec<u8>,
    pub attrs: Vec<(Vec<u8>, Vec<u8>)>,
}

/// The events that the library reads. `Tag` is a start tag, or an empty-element
/// tag where its flag is set. `Text` holds the unescaped character data (empty
/// where unescaping fails); every kind of event that the library does not look
/// at is `Other`.
pub enum XmlEvent {
    Tag(XmlTag, bool),
    End(Vec<u8>),
    Text(String),
    Eof,
    Error,
    Other,
}

/// The event that quick-xml's reader, with its default configuration, yields
/// as its `index`-th event (counting from 0) when reading `text`.
pub uninterp spec fn xml_event_at(text: Seq<char>, index: nat) -> XmlEvent;

/// The end of the document or a syntax error: where reading stops.
pub open spec fn is_stop(ev: XmlEvent) -> bool {
    ev is Eof || ev is Error
}

/// Event `p` is the first stopping event of `text`.
pub open spec fn first_stop(text: Seq<char>, p: nat) -> bool {
    &&& is_stop(xml_event_at(text, p))
    &&& forall|i: nat| i < p ==> !is_stop(#[trigger] xml_event_at(text, i))
}

/// Position of the first stopping event of `text`.
pub open spec fn stop_index(text: Seq<char>) -> nat {
    choose|p: nat| first_stop(text, p)
}

/// There is at most one first stopping event.
pub proof fn lemma_first_stop_unique(text: Seq<char>, p: nat)
    requires
        first_stop(text, p),
    ensures
        stop_index(text) == p,
{
    let q = stop_index(text);
    assert(first_stop(text, q));
    if q < p {
        assert(!is_stop(xml_event_at(text, q)));
    } else if p < q {
        assert(!is_stop(xml_event_at(text, p)));
    }
}

/// The state reached from `init` by applying `step` to the first `k` events of `text`.
pub open spec fn fold_events<S>(text: Seq<char>, k: nat, init: S, step: spec_fn(S, XmlEvent) -> S) -> S
    decreases k,
{
    if k == 0 {
        init
    } else {
        step(fold_events(text, (k - 1) as nat, init, step), xml_event_at(text, (k - 1) as nat))
    }
}

/// Value of the last attribute named `key`, if any.
pub open spec fn attr_last(attrs: Seq<(Vec<u8>, Vec<u8>)>, key: Seq<u8>) -> Option<Seq<u8>>
    decreases attrs.len(),
{
    if attrs.len() == 0 {
        None
    } else if attrs.last().0@ == key {
        Some(attrs.last().1@)
    } else {
        attr_last(attrs.drop_last(), key)
    }
}

/// Value of the first attribute named `key`, if any.
pub open spec fn attr_first(attrs: Seq<(Vec<u8>, Vec<u8>)>, key: Seq<u8>) -> Option<Seq<u8>>
    decreases attrs.len(),
{
    if attrs.len() == 0 {
        None
    } else if attrs[0].0@ == key {
        Some(attrs[0].1@)
    } else {
        attr_first(attrs.drop_first(), key)
    }
}

/// The value of the first attribute of `tag` named `key`.
pub fn first_attr<'t>(tag: &'t XmlTag, key: &str) -> (v: Option<&'t Vec<u8>>)
    ensures
        match v {
            Some(x) => attr_first(tag.attrs@, key.spec_bytes()) == Some(x@),
            None => attr_first(tag.attrs@, key.spec_bytes()) is None,
        },
{
    let k = key.as_bytes();
    let mut i: usize = 0;
    assert(tag.attrs@.skip(0) =~= tag.attrs@);
    while i < tag.attrs.len()
        invariant
            i <= tag.attrs@.len(),
            k@ == key.spec_bytes(),
            attr_first(tag.attrs@, key.spec_bytes()) == attr_first(tag.attrs@.skip(i as int), key.spec_bytes()),
        decreases tag.attrs@.len() - i,
    {
        let a = &tag.attrs[i];
        assert(tag.attrs@.skip(i as int).drop_first() =~= tag.attrs@.skip(i + 1));
        if crate::text::bytes_eq(a.0.as_slice(), k) {
            return Some(&a.1);
        }
        i = i + 1;
    }
    None
}

/// Whether a tag's raw name is `lit`.
pub open spec fn named(name: Vec<u8>, lit: &str) -> bool {
    name@ == lit.spec_bytes()
}

/// Whether a tag's raw name is the bytes of `lit`.
pub fn name_is(name: &Vec<u8>, lit: &str) -> (r: bool)
    ensures
        r == named(*name, lit),
{
    crate::text::bytes_eq(name.as_slice(), lit.as_bytes())
}

/// The value of the last attribute of `tag` named `key`.
pub fn last_attr<'t>(tag: &'t XmlTag, key: &str) -> (v: Option<&'t Vec<u8>>)
    ensures
        match v {
            Some(x) => attr_last(tag.attrs@, key.spec_bytes()) == Some(x@),
            None => attr_last(tag.attrs@, key.spec_bytes()) is None,
        },
{
    let k = key.as_bytes();
    let mut i: usize = tag.attrs.len();
    assert(tag.attrs@.take(i as int) =~= tag.attrs@);
    while i > 0
        invariant
            i <= tag.attrs@.len(),
            k@ == key.spec_bytes(),
            attr_last(tag.attrs@, key.spec_bytes()) == attr_last(tag.attrs@.take(i as int), key.spec_bytes()),
        decreases i,
    {
        let a = &tag.attrs[i - 1];
        assert(tag.attrs@.take(i as int).drop_last() =~= tag.attrs@.take(i - 1));
        if crate::text::bytes_eq(a.0.as_slice(), k) {
            return Some(&a.1);
        }
        i = i - 1;
    }
    None
}

/// The text a quick-xml reader reads and how many events it has yielded:
/// what a reader made by `Reader::from_str` has read, counted in events.
pub uninterp spec fn xml_reader_at(r: Reader<&[u8]>) -> (Seq<char>, nat);

/// A reader over XML text.
pub struct XmlReader<'a> {
    inner: Reader<&'a [u8]>,
}

impl<'a> View for XmlReader<'a> {
    type V = (Seq<char>, nat);

    closed spec fn view(&self) -> (Seq<char>, nat) {
        xml_reader_at(self.inner)
    }
}

/// `quick_xml::Reader::from_str`: a reader at the start of `text`, having
/// yielded no event.
#[verifier::external_body]
fn reader_from_str<'a>(text: &'a str) -> (r: Reader<&'a [u8]>)
    ensures
        xml_reader_at(r) == (text@, 0nat),
{
    Reader::from_str(text)
}

/// `quick_xml::Reader::read_event`: yields the reader's next event and
/// advances it by one event. The event is the one quick-xml produces at this
/// position of the text, converted to plain values: tag names and attributes
/// as raw bytes (attributes that quick-xml reports as malformed are left out),
/// text unescaped. Every event before the end or an error consumes at least
/// one byte of the text (with the default configuration no empty text event
/// is produced), so there are fewer such events than bytes.
#[verifier::external_body]
fn read_next<'a>(r: &mut Reader<&'a [u8]>) -> (ev: XmlEvent)
    ensures
        ev == xml_event_at(xml_reader_at(*old(r)).0, xml_reader_at(*old(r)).1),
        xml_reader_at(*final(r)) == (xml_reader_at(*old(r)).0, xml_reader_at(*old(r)).1 + 1),
        !is_stop(ev) ==> xml_reader_at(*old(r)).1 < vstd::utf8::encode_utf8(xml_reader_at(*old(r)).0).len(),
{
    let (tag, empty) = match r.read_event() {
        Ok(Event::Start(e)) => (e, false),
        Ok(Event::Empty(e)) => (e, true),
        Ok(Event::End(e)) => return End(e.name().0.to_vec()),
        Ok(Event::Text(t)) => return Text(t.unescape().unwrap_or_default().into_owned()),
        Ok(Event::Eof) => return Eof,
        Err(_) => return Error,
        Ok(_) => return Other,
    };
    let attrs = tag.attributes().flatten().map(|a| (a.key.0.to_vec(), a.value.into_owned())).collect();
    Tag(XmlTag { name: tag.name().0.to_vec(), attrs }, empty)
}

impl<'a> XmlReader<'a> {
    /// A reader at the first event of `text`.
    pub fn new(text: &'a str) -> (r: Self)
        ensures
            r@ == (text@, 0nat),
    {
        XmlReader { inner: reader_from_str(text) }
    }

    /// The next event; the reader advances by one event.
    pub(crate) fn next_event(&mut self) -> (ev: XmlEvent)
        ensures
            ev == xml_event_at(old(self)@.0, old(self)@.1),
            final(self)@ == (old(self)@.0, old(self)@.1 + 1),
            !is_stop(ev) ==> old(self)@.1 < vstd::utf8::encode_utf8(old(self)@.0).len(),
    {
        read_next(&mut self.inner)
    }
}

} // verus!
