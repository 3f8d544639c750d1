//! The tokenizer that the feed parser reads from.
//!
//! Splitting markup into events is the work of the `quick-xml` crate.  This
//! module declares its reader, gives names to what the reader returns, and wraps
//! the calls that the parser makes.  Nothing in here is proved: the contracts
//! below are what the rest of the crate takes on trust.

use quick_xml::events::{BytesText, Event};
use quick_xml::reader::Reader;
use vstd::prelude::*;

verus! {

/// One structural event of a markup document, as far as the feed parser looks
/// at it.
#[derive(Debug, Clone, PartialEq, Eq)]
pub enum FeedEvent {
    /// An opening tag, with the element's name.
    Open(String),
    /// A closing tag, with the element's name.
    Close(String),
    /// Text between tags, as it stands in the document: entities are still
    /// escaped.
    Text(String),
    /// Any other well-formed piece of markup: a comment, a CDATA section, a
    /// declaration, a processing instruction, a self-closing tag.
    Other,
    /// The end of the document.
    End,
    /// The tokenizer could not go on.
    Malformed,
}

/// What a [`FeedEvent`] stands for in contracts.
pub enum EventView {
    Open(Seq<char>),
    Close(Seq<char>),
    Text(Seq<char>),
    Other,
    End,
    Malformed,
}

impl View for FeedEvent {
    type V = EventView;

    open spec fn view(&self) -> EventView {
        match *self {
            FeedEvent::Open(name) => EventView::Open(name@),
            FeedEvent::Close(name) => EventView::Close(name@),
            FeedEvent::Text(raw) => EventView::Text(raw@),
            FeedEvent::Other => EventView::Other,
            FeedEvent::End => EventView::End,
            FeedEvent::Malformed => EventView::Malformed,
        }
    }
}

impl EventView {
    /// Whether reading stops at this event.
    pub open spec fn is_last(self) -> bool {
        self is End || self is Malformed
    }
}

/// One read from the tokenizer: the event, and the position in the document,
/// in bytes, that the tokenizer reports after it.
#[derive(Debug, Clone, PartialEq, Eq)]
pub struct Reading {
    pub event: FeedEvent,
    pub offset: u64,
}

/// What a [`Reading`] stands for in contracts.
pub struct ReadingView {
    pub event: EventView,
    pub offset: u64,
}

impl View for Reading {
    type V = ReadingView;

    open spec fn view(&self) -> ReadingView {
        ReadingView { event: self.event@, offset: self.offset }
    }
}

/// A run of readings is complete when it stops at its last reading and nowhere
/// before.
pub open spec fn is_complete(readings: Seq<ReadingView>) -> bool {
    &&& readings.len() > 0
    &&& readings.last().event.is_last()
    &&& forall|i: int| 0 <= i < readings.len() - 1 ==> !(#[trigger] readings[i]).event.is_last()
}

/// `quick_xml::reader::Reader`, the pull tokenizer.  Verified code only carries
/// it from one wrapper to the next.
#[verifier::external_type_specification]
#[verifier::external_body]
#[verifier::reject_recursive_types(R)]
pub struct ExReader<R>(Reader<R>);

/// The readings that a fresh reader gives for the document `text`, from the
/// first call of `read_event` up to and including the first that reports the
/// end of the document or an error, each with what `buffer_position` returns
/// after it.  The two flags are the reader's options of the same names; its
/// other options are as the crate sets them by default.
pub uninterp spec fn feed_readings(
    text: Seq<char>,
    check_end_names: bool,
    allow_unmatched_ends: bool,
) -> Seq<ReadingView>;

/// The readings that `reader` has yet to give, up to and including the first
/// that reports the end of the document or an error; empty once that one has
/// been handed out.
pub uninterp spec fn pending(reader: Reader<&[u8]>) -> Seq<ReadingView>;

/// What `BytesText::unescape` makes of the raw text `raw`: the text with each
/// entity (`&amp;`, `&#38;`, ...) replaced by the characters it stands for, or
/// `None` where it reports an error, as it does for an `&` that starts no
/// entity it knows.
pub uninterp spec fn unescaped(raw: Seq<char>) -> Option<Seq<char>>;

/// Calls `Reader::from_str` and sets the two options on the reader's
/// `Config`.
///
/// Claims that the new reader has the whole of `feed_readings` for this
/// document and these options before it, and that this run is complete: the
/// tokenizer consumes at least one byte for every event but the last, so on a
/// finite document it reaches the end or an error after finitely many reads.
#[verifier::external_body]
pub(crate) fn open_reader<'a>(text: &'a str, check_end_names: bool, allow_unmatched_ends: bool) -> (reader:
    Reader<&'a [u8]>)
    ensures
        pending(reader) == feed_readings(text@, check_end_names, allow_unmatched_ends),
        is_complete(pending(reader)),
{
    let mut reader = Reader::from_str(text);
    reader.config_mut().check_end_names = check_end_names;
    reader.config_mut().allow_unmatched_ends = allow_unmatched_ends;
    reader
}

/// Calls `Reader::read_event`, then `Reader::buffer_position`.
///
/// Claims that the reader hands out its pending readings one by one, in order.
/// The event is converted variant by variant: a start tag and an end tag keep
/// their name, text keeps its raw content, every other successful event
/// becomes `Other`, an error becomes `Malformed`.  Names and text are slices of
/// a document that was given as a `str`, cut at ASCII bytes, so turning them
/// into `String`s loses nothing.
#[verifier::external_body]
pub(crate) fn next_reading<'a>(reader: &mut Reader<&'a [u8]>) -> (reading: Reading)
    ensures
        pending(*old(reader)).len() > 0 ==> reading@ == pending(*old(reader))[0],
        pending(*old(reader)).len() > 0 ==> pending(*final(reader)) == pending(*old(reader)).skip(1),
{
    let event = match reader.read_event() {
        Ok(Event::Start(e)) => FeedEvent::Open(String::from_utf8_lossy(e.name().as_ref()).into_owned()),
        Ok(Event::End(e)) => FeedEvent::Close(String::from_utf8_lossy(e.name().as_ref()).into_owned()),
        Ok(Event::Text(e)) => FeedEvent::Text(String::from_utf8_lossy(&e).into_owned()),
        Ok(Event::Eof) => FeedEvent::End,
        Ok(_) => FeedEvent::Other,
        Err(_) => FeedEvent::Malformed,
    };
    Reading { event, offset: reader.buffer_position() }
}

/// Calls `BytesText::from_escaped` on the raw text of a text event, and
/// `BytesText::unescape` on what that gives.
///
/// Claims only that the result is `unescaped(raw)`: the same raw text always
/// decodes to the same text, or always fails.
#[verifier::external_body]
pub(crate) fn unescape(raw: &str) -> (text: Option<String>)
    ensures
        match text {
            Some(t) => unescaped(raw@) == Some(t@),
            None => unescaped(raw@) is None,
        },
{
    match BytesText::from_escaped(raw).unescape() {
        Ok(text) => Some(text.into_owned()),
        Err(_) => None,
    }
}

} // verus!
