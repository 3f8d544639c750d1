//! The feed parser: from a feed document to its articles.
//!
//! The parser looks at a document as a stream of events and keeps two flags,
//! "inside a `title` element" and "inside a `comments` element".  Text read
//! while the first is up becomes the current title; text read while the second
//! is up becomes the link of a new article, which takes the current title.  Tags
//! are followed by name alone: there is no stack, and a `title` anywhere in the
//! document counts.

use crate::article::{Article, ArticleView};
use crate::text::same_text;
use crate::xml::{
    feed_readings, is_complete, next_reading, open_reader, pending, unescape, unescaped,
    EventView, FeedEvent, ReadingView,
};
use vstd::prelude::*;

verus! {

/// The document could not be split into events, or a text that the parser
/// needed could not be decoded.
#[derive(Debug, Clone, Copy, PartialEq, Eq)]
pub struct MalformedFeedError {
    /// The byte offset in the document at which the failure was detected.
    pub offset: u64,
}

/// The state of a parse between two events.
#[derive(Debug)]
pub struct FeedParser {
    /// Whether the last `title` tag seen was an opening one.
    pub in_title: bool,
    /// Whether the last `comments` tag seen was an opening one.
    pub in_comments: bool,
    /// The title that the next link will be paired with.
    pub current_title: String,
    /// The articles found so far, in document order.
    pub articles: Vec<Article>,
}

/// What a [`FeedParser`] stands for in contracts.
pub struct ParserView {
    pub in_title: bool,
    pub in_comments: bool,
    pub title: Seq<char>,
    pub articles: Seq<ArticleView>,
}

impl View for FeedParser {
    type V = ParserView;

    open spec fn view(&self) -> ParserView {
        ParserView {
            in_title: self.in_title,
            in_comments: self.in_comments,
            title: self.current_title@,
            articles: self.articles.deep_view(),
        }
    }
}

impl ParserView {
    /// The state before the first event: no flag up, an empty title, no
    /// article.
    pub open spec fn initial() -> ParserView {
        ParserView { in_title: false, in_comments: false, title: Seq::empty(), articles: Seq::empty() }
    }

    /// Whether text read in this state is looked at.
    pub open spec fn wants_text(self) -> bool {
        self.in_title || self.in_comments
    }

    /// The state after an opening tag named `name`.
    pub open spec fn after_open(self, name: Seq<char>) -> ParserView {
        if name == "title"@ {
            ParserView { in_title: true, ..self }
        } else if name == "comments"@ {
            ParserView { in_comments: true, ..self }
        } else {
            self
        }
    }

    /// The state after a closing tag named `name`.
    pub open spec fn after_close(self, name: Seq<char>) -> ParserView {
        if name == "title"@ {
            ParserView { in_title: false, ..self }
        } else if name == "comments"@ {
            ParserView { in_comments: false, ..self }
        } else {
            self
        }
    }

    /// The state after the decoded text `text`.  Inside a title the text
    /// replaces the current title.  Inside a comments element it becomes the link
    /// of a new article under the current title; where both flags are up, that
    /// is the title just set.
    pub open spec fn after_text(self, text: Seq<char>) -> ParserView {
        let title = if self.in_title { text } else { self.title };
        let articles = if self.in_comments {
            self.articles.push(ArticleView { title, link: text })
        } else {
            self.articles
        };
        ParserView { title, articles, ..self }
    }

    /// The state after `event`, or `None` where the parser needs the text of
    /// the event and it cannot be decoded.
    pub open spec fn after(self, event: EventView) -> Option<ParserView> {
        match event {
            EventView::Open(name) => Some(self.after_open(name)),
            EventView::Close(name) => Some(self.after_close(name)),
            EventView::Text(raw) => if self.wants_text() {
                match unescaped(raw) {
                    Some(text) => Some(self.after_text(text)),
                    None => None,
                }
            } else {
                Some(self)
            },
            _ => Some(self),
        }
    }

    /// The result of parsing on from this state through `readings`: the
    /// articles gathered when the end of the document is read, or the offset of
    /// the first reading at which the tokenizer or the decoding of a needed text
    /// failed.
    pub open spec fn finish(self, readings: Seq<ReadingView>) -> Result<Seq<ArticleView>, MalformedFeedError>
        decreases readings.len(),
    {
        if readings.len() == 0 || readings[0].event is End {
            Ok(self.articles)
        } else if readings[0].event is Malformed {
            Err(MalformedFeedError { offset: readings[0].offset })
        } else {
            match self.after(readings[0].event) {
                Some(next) => next.finish(readings.skip(1)),
                None => Err(MalformedFeedError { offset: readings[0].offset }),
            }
        }
    }
}

/// The readings that the parser takes from the tokenizer for the document
/// `text`.  The tokenizer is told not to hold closing tags against the tags
/// that were opened: the parser follows tags by name, and a closing tag that
/// matches no opening one, or the wrong one, is no error.
pub open spec fn readings_of(text: Seq<char>) -> Seq<ReadingView> {
    feed_readings(text, false, true)
}

/// The articles of a document whose tokenizer gives `readings`.
pub open spec fn articles_of(readings: Seq<ReadingView>) -> Result<Seq<ArticleView>, MalformedFeedError> {
    ParserView::initial().finish(readings)
}

impl FeedParser {
    /// A parser that has seen nothing yet.
    pub fn new() -> (parser: FeedParser)
        ensures
            parser@ == ParserView::initial(),
    {
        let parser = FeedParser {
            in_title: false,
            in_comments: false,
            current_title: String::new(),
            articles: Vec::new(),
        };
        assert(parser.articles.deep_view() =~= Seq::empty());
        parser
    }

    /// Whether the parser looks at text in its present state.
    pub fn wants_text(&self) -> (wanted: bool)
        ensures
            wanted == self@.wants_text(),
    {
        self.in_title || self.in_comments
    }

    /// Takes note of an opening tag.
    pub fn start_element(&mut self, name: &str)
        ensures
            final(self)@ == old(self)@.after_open(name@),
    {
        if same_text(name, "title") {
            self.in_title = true;
        } else if same_text(name, "comments") {
            self.in_comments = true;
        }
    }

    /// Takes note of a closing tag.
    pub fn end_element(&mut self, name: &str)
        ensures
            final(self)@ == old(self)@.after_close(name@),
    {
        if same_text(name, "title") {
            self.in_title = false;
        } else if same_text(name, "comments") {
            self.in_comments = false;
        }
    }

    /// Takes in a piece of decoded text.
    pub fn text(&mut self, text: String)
        ensures
            final(self)@ == old(self)@.after_text(text@),
    {
        if self.in_title {
            self.current_title = text.clone();
        }
        if self.in_comments {
            let article = Article { title: self.current_title.clone(), link: text };
            self.articles.push(article);
            assert(self.articles.deep_view() =~= old(self).articles.deep_view().push(article@));
        }
    }

    /// Hands over the articles found.
    pub fn into_articles(self) -> (articles: Vec<Article>)
        ensures
            articles.deep_view() == self@.articles,
    {
        self.articles
    }
}

/// Parses a feed document into its articles, in document order.
///
/// Fails where the tokenizer does, and where a text inside a `title` or
/// `comments` element cannot be decoded; the error carries the offset at which
/// the tokenizer then stood.  A document without such elements has no articles.
pub fn parse_articles_from_xml(text: &str) -> (result: Result<Vec<Article>, MalformedFeedError>)
    ensures
        match result {
            Ok(articles) => articles_of(readings_of(text@)) == Ok::<Seq<ArticleView>, MalformedFeedError>(
                articles.deep_view(),
            ),
            Err(error) => articles_of(readings_of(text@)) == Err::<Seq<ArticleView>, MalformedFeedError>(
                error,
            ),
        },
{
    let mut reader = open_reader(text, false, true);
    let mut parser = FeedParser::new();
    loop
        invariant
            is_complete(pending(reader)),
            parser@.finish(pending(reader)) == articles_of(readings_of(text@)),
        decreases pending(reader).len(),
    {
        let ghost before = pending(reader);
        let reading = next_reading(&mut reader);
        let offset: u64 = reading.offset;
        match reading.event {
            FeedEvent::End => {
                return Ok(parser.into_articles());
            },
            FeedEvent::Malformed => {
                return Err(MalformedFeedError { offset });
            },
            FeedEvent::Open(name) => {
                parser.start_element(name.as_str());
            },
            FeedEvent::Close(name) => {
                parser.end_element(name.as_str());
            },
            FeedEvent::Text(raw) => {
                if parser.wants_text() {
                    match unescape(raw.as_str()) {
                        Some(decoded) => {
                            parser.text(decoded);
                        },
                        None => {
                            return Err(MalformedFeedError { offset });
                        },
                    }
                }
            },
            FeedEvent::Other => {},
        }
        proof {
            assert(!before[0].event.is_last());
            assert(before.len() > 1);
            assert(pending(reader) == before.skip(1));
            assert(is_complete(pending(reader))) by {
                assert(before.skip(1).last() == before.last());
                assert forall|i: int| 0 <= i < before.skip(1).len() - 1 implies !(#[trigger] before.skip(
                    1,
                )[i]).event.is_last() by {
                    assert(before.skip(1)[i] == before[i + 1]);
                }
            }
        }
    }
}

/// An event takes no article away and changes none; it adds at most one, at
/// the end.  So articles stand in the order in which the document gave them.
pub proof fn lemma_event_appends(state: ParserView, event: EventView)
    ensures
        state.after(event) matches Some(next) ==> next.articles == state.articles || (
        next.articles.len() == state.articles.len() + 1 && next.articles.drop_last() == state.articles),
{
    match state.after(event) {
        Some(next) => {
            if next.articles != state.articles {
                assert(next.articles.drop_last() == state.articles);
            }
        },
        None => {},
    }
}

/// A link read while no title is open is paired with the title that was read
/// last, or with the empty title if none was, and leaves that title in place
/// for the link after it.
pub proof fn lemma_link_takes_current_title(state: ParserView, link: Seq<char>)
    requires
        state.in_comments,
        !state.in_title,
    ensures
        state.after_text(link).articles == state.articles.push(ArticleView { title: state.title, link }),
        state.after_text(link).title == state.title,
        ParserView::initial().title == Seq::<char>::empty(),
{
}

/// Whether `event` opens one of the two elements that the parser follows.
pub open spec fn opens_feed_element(event: EventView) -> bool {
    event matches EventView::Open(name) && (name == "title"@ || name == "comments"@)
}

/// A parser with both flags down that meets no opening `title` or `comments`
/// tag returns the articles it has, or the tokenizer's failure.
proof fn lemma_finish_without_feed_elements(state: ParserView, readings: Seq<ReadingView>)
    requires
        !state.wants_text(),
        is_complete(readings),
        forall|i: int| 0 <= i < readings.len() ==> !opens_feed_element((#[trigger] readings[i]).event),
    ensures
        readings.last().event is End ==> state.finish(readings) == Ok::<Seq<ArticleView>, MalformedFeedError>(
            state.articles,
        ),
        readings.last().event is Malformed ==> state.finish(readings) == Err::<
            Seq<ArticleView>,
            MalformedFeedError,
        >(MalformedFeedError { offset: readings.last().offset }),
    decreases readings.len(),
{
    let first = readings[0];
    if !first.event.is_last() {
        let rest = readings.skip(1);
        assert(readings.len() > 1);
        assert(rest.last() == readings.last());
        assert forall|i: int| 0 <= i < rest.len() implies {
            &&& !opens_feed_element((#[trigger] rest[i]).event)
            &&& i < rest.len() - 1 ==> !rest[i].event.is_last()
        } by {
            assert(rest[i] == readings[i + 1]);
        }
        assert(!opens_feed_element(first.event));
        let next = state.after(first.event).unwrap();
        assert(next == state);
        lemma_finish_without_feed_elements(state, rest);
    }
}

/// A document in which no `title` and no `comments` element is opened has no
/// articles.  Parsing it gives the empty list, unless the
/// tokenizer fails on the document, and then gives the tokenizer's failure.
pub proof fn lemma_no_feed_elements_no_articles(readings: Seq<ReadingView>)
    requires
        is_complete(readings),
        forall|i: int| 0 <= i < readings.len() ==> !opens_feed_element((#[trigger] readings[i]).event),
    ensures
        readings.last().event is End ==> articles_of(readings) == Ok::<Seq<ArticleView>, MalformedFeedError>(
            Seq::empty(),
        ),
        readings.last().event is Malformed ==> articles_of(readings) == Err::<
            Seq<ArticleView>,
            MalformedFeedError,
        >(MalformedFeedError { offset: readings.last().offset }),
{
    lemma_finish_without_feed_elements(ParserView::initial(), readings);
}

} // verus!
