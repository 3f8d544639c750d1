//! The cache codec: articles to text and back.
//!
//! The cache is plain text with one article per line: the title, one tab, the
//! link, one line feed.  Nothing is escaped: a line feed ends a line wherever
//! it stands, and the first tab of a line ends the title.  Articles whose
//! titles and links hold neither character come back from the cache as they
//! went in.  With a tab or a line feed inside a title or a link, what comes
//! back is something else, or an error.

use crate::article::{Article, ArticleView};
use crate::text::{chars_of, position_of, string_of};
use vstd::prelude::*;
use vstd::string::StringExecFns;

verus! {

/// A line of the cache holds no tab.
#[derive(Debug, Clone, Copy, PartialEq, Eq)]
pub struct FormatError {
    /// The number of the line, counted from 1.
    pub line: usize,
}

/// Where the cache of the user whose home directory is `home` lies: the file
/// `.hn2` in that directory.
pub open spec fn path_in(home: Seq<char>) -> Seq<char> {
    home + "/"@ + ".hn2"@
}

/// The line that stores `article`, with the line feed that ends it.
pub open spec fn line_of(article: ArticleView) -> Seq<char> {
    article.title + seq!['\t'] + article.link + seq!['\n']
}

/// The cache text for `articles`: their lines, in order.
pub open spec fn encoded(articles: Seq<ArticleView>) -> Seq<char>
    decreases articles.len(),
{
    if articles.len() == 0 {
        Seq::empty()
    } else {
        encoded(articles.drop_last()) + line_of(articles.last())
    }
}

/// The lines of `text`, without the line feeds that end them.  A last line
/// needs no line feed; an empty text has no line.
pub open spec fn lines(text: Seq<char>) -> Seq<Seq<char>>
    decreases text.len(),
    via lines_decreases
{
    if text.len() == 0 {
        Seq::empty()
    } else {
        match text.index_of_first('\n') {
            Some(end) => seq![text.subrange(0, end)] + lines(text.subrange(end + 1, text.len() as int)),
            None => seq![text],
        }
    }
}

#[via_fn]
proof fn lines_decreases(text: Seq<char>) {
    text.index_of_first_ensures('\n');
}

/// The article that `line` stores: what stands before its first tab is the
/// title, what stands after it the link.  `None` where the line has no tab.
pub open spec fn record_of(line: Seq<char>) -> Option<ArticleView> {
    match line.index_of_first('\t') {
        Some(tab) => Some(
            ArticleView { title: line.subrange(0, tab), link: line.subrange(tab + 1, line.len() as int) },
        ),
        None => None,
    }
}

/// The articles that `lines` store, or the position of the first line that
/// stores none.
pub open spec fn records(lines: Seq<Seq<char>>) -> Result<Seq<ArticleView>, int>
    decreases lines.len(),
{
    if lines.len() == 0 {
        Ok(Seq::empty())
    } else {
        match records(lines.drop_last()) {
            Ok(articles) => match record_of(lines.last()) {
                Some(article) => Ok(articles.push(article)),
                None => Err(lines.len() - 1),
            },
            Err(at) => Err(at),
        }
    }
}

/// What reading the cache text `text` gives: the articles of its lines, or
/// the number of the first line without a tab.
pub open spec fn decoded(text: Seq<char>) -> Result<Seq<ArticleView>, FormatError> {
    match records(lines(text)) {
        Ok(articles) => Ok(articles),
        Err(at) => Err(FormatError { line: (at + 1) as usize }),
    }
}

/// Whether `text` can stand in a field of the cache as it is: it holds
/// neither a tab nor a line feed.
pub open spec fn is_plain(text: Seq<char>) -> bool {
    !text.contains('\t') && !text.contains('\n')
}

/// Whether both texts of every article can stand in the cache as they are.
pub open spec fn all_plain(articles: Seq<ArticleView>) -> bool {
    forall|i: int|
        0 <= i < articles.len() ==> is_plain((#[trigger] articles[i]).title) && is_plain(articles[i].link)
}

/// The path of the cache file under the home directory `home`.
pub fn cache_path(home: &str) -> (path: String)
    ensures
        path@ == path_in(home@),
{
    let mut path = String::new();
    path.append(home);
    path.append("/");
    path.append(".hn2");
    path
}

/// Writes `articles` out as cache text.
pub fn encode_cache(articles: &[Article]) -> (text: String)
    ensures
        text@ == encoded(articles.deep_view()),
{
    let mut text = String::new();
    let mut i: usize = 0;
    while i < articles.len()
        invariant
            i <= articles@.len(),
            text@ == encoded(articles.deep_view().take(i as int)),
        decreases articles@.len() - i,
    {
        let article = &articles[i];
        proof {
            let next = articles.deep_view().take(i + 1);
            assert(next.drop_last() == articles.deep_view().take(i as int));
            assert(next.last() == article@);
        }
        text.append(article.title.as_str());
        text.push('\t');
        text.append(article.link.as_str());
        text.push('\n');
        i += 1;
    }
    assert(articles.deep_view().take(i as int) == articles.deep_view());
    text
}

/// Reads cache text back into articles.
///
/// Every line must hold a tab.  The first that holds none fails the whole
/// read, and the error names it.
pub fn decode_cache(text: &str) -> (result: Result<Vec<Article>, FormatError>)
    ensures
        match result {
            Ok(articles) => decoded(text@) == Ok::<Seq<ArticleView>, FormatError>(articles.deep_view()),
            Err(error) => decoded(text@) == Err::<Seq<ArticleView>, FormatError>(error),
        },
{
    let chars = chars_of(text);
    let mut articles: Vec<Article> = Vec::new();
    let mut start: usize = 0;
    let ghost mut done: Seq<Seq<char>> = Seq::empty();
    assert(articles.deep_view() == Seq::<ArticleView>::empty());
    assert(text@.subrange(0, text@.len() as int) == text@);
    while start < chars.len()
        invariant
            chars@ == text@,
            start <= chars@.len(),
            lines(text@) == done + lines(text@.subrange(start as int, text@.len() as int)),
            records(done) == Ok::<Seq<ArticleView>, int>(articles.deep_view()),
            done.len() == articles@.len() <= start,
        decreases chars@.len() - start,
    {
        let end: usize = position_of(chars.as_slice(), start, chars.len(), '\n');
        let tab: usize = position_of(chars.as_slice(), start, end, '\t');
        let next: usize = if end < chars.len() { end + 1 } else { end };
        let ghost rest = text@.subrange(start as int, text@.len() as int);
        let ghost line = text@.subrange(start as int, end as int);
        proof {
            if end < chars.len() {
                lemma_first_at(rest, '\n', end - start);
                assert(rest.subrange(0, end - start) == line);
                assert(rest.subrange(end - start + 1, rest.len() as int) == text@.subrange(
                    next as int,
                    text@.len() as int,
                ));
            } else {
                lemma_first_absent(rest, '\n');
                assert(rest == line);
                assert(lines(text@.subrange(next as int, text@.len() as int)) == Seq::<Seq<char>>::empty());
            }
            assert(lines(rest) == seq![line] + lines(text@.subrange(next as int, text@.len() as int)));
            assert(done + lines(rest) == done.push(line) + lines(
                text@.subrange(next as int, text@.len() as int),
            ));
            assert(done.push(line).drop_last() == done);
        }
        if tab == end {
            proof {
                lemma_first_absent(line, '\t');
                lemma_records_stop(done.push(line), lines(text@.subrange(next as int, text@.len() as int)));
            }
            return Err(FormatError { line: articles.len() + 1 });
        }
        let title = string_of(chars.as_slice(), start, tab);
        let link = string_of(chars.as_slice(), tab + 1, end);
        let article = Article { title, link };
        proof {
            lemma_first_at(line, '\t', tab - start);
            assert(line.subrange(0, tab - start) == article@.title);
            assert(line.subrange(tab - start + 1, line.len() as int) == article@.link);
            assert(record_of(line) == Some(article@));
        }
        let ghost before = articles.deep_view();
        articles.push(article);
        proof {
            assert(articles.deep_view() == before.push(article@));
            done = done.push(line);
        }
        start = next;
    }
    Ok(articles)
}

/// Tells whether `text` can stand in a field of the cache as it is.
pub fn is_plain_text(text: &str) -> (plain: bool)
    ensures
        plain == is_plain(text@),
{
    let chars = chars_of(text);
    let tab: usize = position_of(chars.as_slice(), 0, chars.len(), '\t');
    let feed: usize = position_of(chars.as_slice(), 0, chars.len(), '\n');
    proof {
        if tab < chars.len() {
            assert(text@[tab as int] == '\t');
        }
        if feed < chars.len() {
            assert(text@[feed as int] == '\n');
        }
    }
    tab == chars.len() && feed == chars.len()
}

/// Tells whether `articles` will come back from the cache as they are: whether
/// no title and no link among them holds a tab or a line feed.
pub fn all_plain_articles(articles: &[Article]) -> (plain: bool)
    ensures
        plain == all_plain(articles.deep_view()),
{
    let mut i: usize = 0;
    while i < articles.len()
        invariant
            i <= articles@.len(),
            all_plain(articles.deep_view().take(i as int)),
        decreases articles@.len() - i,
    {
        if !is_plain_text(articles[i].title.as_str()) || !is_plain_text(articles[i].link.as_str()) {
            assert(articles.deep_view()[i as int] == articles@[i as int]@);
            return false;
        }
        proof {
            let seen = articles.deep_view().take(i + 1);
            assert forall|j: int| 0 <= j < seen.len() implies {
                &&& is_plain((#[trigger] seen[j]).title)
                &&& is_plain(seen[j].link)
            } by {
                if j < i {
                    assert(seen[j] == articles.deep_view().take(i as int)[j]);
                }
            }
        }
        i += 1;
    }
    assert(articles.deep_view().take(i as int) == articles.deep_view());
    true
}

/// `c` first stands at `at` in `s`.
proof fn lemma_first_at(s: Seq<char>, c: char, at: int)
    requires
        0 <= at < s.len(),
        s[at] == c,
        forall|j: int| 0 <= j < at ==> s[j] != c,
    ensures
        s.index_of_first(c) == Some(at),
{
    s.index_of_first_ensures(c);
    assert(s.contains(c));
}

/// `c` stands nowhere in `s`.
proof fn lemma_first_absent(s: Seq<char>, c: char)
    requires
        forall|j: int| 0 <= j < s.len() ==> s[j] != c,
    ensures
        s.index_of_first(c) is None,
{
    s.index_of_first_ensures(c);
}

/// Once a line stores no article, no line after it changes the outcome.
proof fn lemma_records_stop(done: Seq<Seq<char>>, rest: Seq<Seq<char>>)
    requires
        records(done) is Err,
    ensures
        records(done + rest) == records(done),
    decreases rest.len(),
{
    if rest.len() == 0 {
        assert(done + rest == done);
    } else {
        lemma_records_stop(done, rest.drop_last());
        assert((done + rest).drop_last() == done + rest.drop_last());
    }
}

/// Cache text ends with a line feed, unless it is empty.
proof fn lemma_encoded_ends_line(articles: Seq<ArticleView>)
    ensures
        encoded(articles).len() == 0 || encoded(articles).last() == '\n',
{
}

/// A text that ends a line can be read apart from what follows it.
proof fn lemma_lines_concat(head: Seq<char>, tail: Seq<char>)
    requires
        head.len() == 0 || head.last() == '\n',
    ensures
        lines(head + tail) == lines(head) + lines(tail),
    decreases head.len(),
{
    if head.len() == 0 {
        assert(head + tail == tail);
    } else {
        head.index_of_first_ensures('\n');
        assert(head.contains('\n')) by {
            assert(head[head.len() - 1] == '\n');
        }
        let end: int = head.index_of_first('\n').unwrap();
        let whole = head + tail;
        lemma_first_at(whole, '\n', end);
        let head_rest = head.subrange(end + 1, head.len() as int);
        assert(whole.subrange(0, end) == head.subrange(0, end));
        assert(whole.subrange(end + 1, whole.len() as int) == head_rest + tail);
        lemma_lines_concat(head_rest, tail);
    }
}

/// The line of an article whose texts hold no line feed reads back as one
/// line.
proof fn lemma_lines_of_line(article: ArticleView)
    requires
        !article.title.contains('\n'),
        !article.link.contains('\n'),
    ensures
        lines(line_of(article)) == seq![article.title + seq!['\t'] + article.link],
{
    let body = article.title + seq!['\t'] + article.link;
    let line = line_of(article);
    assert forall|j: int| 0 <= j < body.len() implies body[j] != '\n' by {
        if j < article.title.len() {
            assert(article.title.contains(body[j]));
        } else if j > article.title.len() {
            assert(article.link[j - article.title.len() - 1] == body[j]);
            assert(article.link.contains(body[j]));
        }
    }
    lemma_first_at(line, '\n', body.len() as int);
    assert(line.subrange(0, body.len() as int) == body);
    assert(line.subrange(body.len() as int + 1, line.len() as int) == Seq::<char>::empty());
    assert(lines(Seq::<char>::empty()) == Seq::<Seq<char>>::empty());
    assert(seq![body] + Seq::<Seq<char>>::empty() == seq![body]);
}

/// A line made of a title without a tab, a tab and a link stores just that
/// title and that link.
proof fn lemma_record_of_line(article: ArticleView)
    requires
        !article.title.contains('\t'),
    ensures
        record_of(article.title + seq!['\t'] + article.link) == Some(article),
{
    let body = article.title + seq!['\t'] + article.link;
    let tab: int = article.title.len() as int;
    assert forall|j: int| 0 <= j < tab implies body[j] != '\t' by {
        assert(article.title.contains(body[j]));
    }
    lemma_first_at(body, '\t', tab);
    assert(body.subrange(0, tab) == article.title);
    assert(body.subrange(tab + 1, body.len() as int) == article.link);
}

/// What was written is what is read.  For articles whose titles
/// and links hold neither a tab nor a line feed, reading the text that
/// [`encode_cache`] wrote gives the same articles in the same order.
pub proof fn lemma_round_trip(articles: Seq<ArticleView>)
    requires
        all_plain(articles),
    ensures
        decoded(encoded(articles)) == Ok::<Seq<ArticleView>, FormatError>(articles),
{
    lemma_lines_of_encoded(articles);
}

/// For plain articles, the cache text has one line for each, and each line
/// stores its article.
proof fn lemma_lines_of_encoded(articles: Seq<ArticleView>)
    requires
        all_plain(articles),
    ensures
        lines(encoded(articles)).len() == articles.len(),
        records(lines(encoded(articles))) == Ok::<Seq<ArticleView>, int>(articles),
    decreases articles.len(),
{
    if articles.len() > 0 {
        let init = articles.drop_last();
        let last = articles.last();
        assert(is_plain(last.title) && is_plain(last.link));
        assert(all_plain(init)) by {
            assert forall|i: int| 0 <= i < init.len() implies is_plain((#[trigger] init[i]).title)
                && is_plain(init[i].link) by {
                assert(init[i] == articles[i]);
            }
        }
        lemma_lines_of_encoded(init);
        lemma_encoded_ends_line(init);
        lemma_lines_concat(encoded(init), line_of(last));
        lemma_lines_of_line(last);
        lemma_record_of_line(last);
        let body = last.title + seq!['\t'] + last.link;
        assert(lines(encoded(articles)) == lines(encoded(init)).push(body));
        assert(lines(encoded(articles)).drop_last() == lines(encoded(init)));
        assert(init.push(last) == articles);
    } else {
        assert(articles == Seq::<ArticleView>::empty());
    }
}

/// A cache with a line that holds no tab cannot be read, and a cache that
/// cannot be read has such a line.
pub proof fn lemma_unreadable_iff_line_without_tab(text: Seq<char>)
    ensures
        decoded(text) is Err <==> exists|i: int|
            0 <= i < lines(text).len() && !(#[trigger] lines(text)[i]).contains('\t'),
{
    lemma_first_line_without_tab_fails(lines(text));
}

/// Lines store one article each unless one of them holds no tab; the outcome
/// then names the first such line, and no article is handed out.
pub proof fn lemma_first_line_without_tab_fails(lines: Seq<Seq<char>>)
    ensures
        records(lines) is Err <==> exists|i: int|
            0 <= i < lines.len() && !(#[trigger] lines[i]).contains('\t'),
        records(lines) matches Ok(articles) ==> articles.len() == lines.len(),
        records(lines) matches Err(at) ==> {
            &&& 0 <= at < lines.len()
            &&& !lines[at].contains('\t')
            &&& forall|i: int| 0 <= i < at ==> (#[trigger] lines[i]).contains('\t')
        },
    decreases lines.len(),
{
    if lines.len() > 0 {
        let init = lines.drop_last();
        lemma_first_line_without_tab_fails(init);
        lines.last().index_of_first_ensures('\t');
        assert forall|i: int| 0 <= i < init.len() implies init[i] == lines[i] by {}
        if records(init) is Err {
            let i = choose|i: int| 0 <= i < init.len() && !(#[trigger] init[i]).contains('\t');
            assert(!lines[i].contains('\t'));
        } else if record_of(lines.last()) is None {
            assert(!lines[lines.len() - 1].contains('\t'));
        } else {
            assert forall|i: int| 0 <= i < lines.len() implies (#[trigger] lines[i]).contains('\t') by {
                if i < init.len() {
                    assert(init[i] == lines[i]);
                }
            }
        }
    }
}

} // verus!
