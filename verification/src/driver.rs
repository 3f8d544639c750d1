//! What the command line needs decided: which numbers the arguments name,
//! which links they select, what the listing says, and which program opens a
//! link.
//!
//! Every function here goes from plain values to plain values.  Reading the
//! arguments, printing and starting the program are the caller's part.

use crate::article::{Article, ArticleView};
use crate::cache::{all_plain, decoded, encoded, lemma_round_trip};
use crate::text::{chars_of, same_text};
use vstd::prelude::*;
use vstd::string::StringExecFns;

verus! {

/// An argument is not a number.
#[derive(Debug, Clone, Copy, PartialEq, Eq)]
pub struct UsageError {
    /// The position of the argument among those given, counted from 0.
    pub argument: usize,
}

/// Whether `c` is one of the ten decimal digits.
pub open spec fn is_digit(c: char) -> bool {
    '0' <= c <= '9'
}

/// The value of the decimal digit `c`.
pub open spec fn digit_value(c: char) -> nat {
    (c as u32 - '0' as u32) as nat
}

/// The number that the decimal digits `digits` write; 0 for no digit.
pub open spec fn number_of(digits: Seq<char>) -> nat
    decreases digits.len(),
{
    if digits.len() == 0 {
        0
    } else {
        10 * number_of(digits.drop_last()) + digit_value(digits.last())
    }
}

/// `arg` without the plus sign that may lead it.
pub open spec fn unsigned(arg: Seq<char>) -> Seq<char> {
    if arg.len() > 0 && arg[0] == '+' {
        arg.subrange(1, arg.len() as int)
    } else {
        arg
    }
}

/// Whether every character of `digits` is a decimal digit.
pub open spec fn all_digits(digits: Seq<char>) -> bool {
    forall|i: int| 0 <= i < digits.len() ==> is_digit(#[trigger] digits[i])
}

/// The number that the argument `arg` names: one or more decimal digits,
/// after an optional plus sign, that write a number within `u64`.  `None` for
/// anything else.
pub open spec fn index_of(arg: Seq<char>) -> Option<u64> {
    let digits = unsigned(arg);
    if digits.len() > 0 && all_digits(digits) && number_of(digits) <= u64::MAX {
        Some(number_of(digits) as u64)
    } else {
        None
    }
}

/// A number is at least the number that any of its leading digits write.
proof fn lemma_number_grows(digits: Seq<char>, n: int)
    requires
        0 <= n <= digits.len(),
    ensures
        number_of(digits.take(n)) <= number_of(digits),
    decreases digits.len() - n,
{
    if n < digits.len() {
        lemma_number_grows(digits, n + 1);
        assert(digits.take(n + 1).drop_last() == digits.take(n));
    } else {
        assert(digits.take(n) == digits);
    }
}

/// Reads one argument as a number.
pub fn parse_index(arg: &str) -> (index: Option<u64>)
    ensures
        index == index_of(arg@),
{
    let chars = chars_of(arg);
    let first: usize = if chars.len() > 0 && chars[0] == '+' { 1 } else { 0 };
    let ghost digits = unsigned(arg@);
    assert(digits == chars@.subrange(first as int, chars@.len() as int));
    if first == chars.len() {
        return None;
    }
    let mut value: u64 = 0;
    let mut i: usize = first;
    assert(digits.take(0) == Seq::<char>::empty());
    while i < chars.len()
        invariant
            first <= i <= chars@.len(),
            digits == unsigned(arg@),
            digits == chars@.subrange(first as int, chars@.len() as int),
            all_digits(digits.take(i - first)),
            value == number_of(digits.take(i - first)),
        decreases chars@.len() - i,
    {
        let c = chars[i];
        assert(c == digits[i - first]);
        if !(c >= '0' && c <= '9') {
            return None;
        }
        let digit: u64 = (c as u32 - '0' as u32) as u64;
        proof {
            lemma_number_grows(digits, i - first + 1);
            assert(digits.take(i - first + 1).drop_last() == digits.take(i - first));
        }
        let next: Option<u64> = match value.checked_mul(10) {
            Some(shifted) => shifted.checked_add(digit),
            None => None,
        };
        match next {
            Some(n) => {
                value = n;
            },
            None => {
                return None;
            },
        }
        i += 1;
    }
    assert(digits.take(i - first) == digits);
    Some(value)
}

/// The numbers that `args` name, in order, or the first argument that names
/// none.
pub open spec fn indices_of(args: Seq<Seq<char>>) -> Result<Seq<u64>, UsageError>
    decreases args.len(),
{
    if args.len() == 0 {
        Ok(Seq::empty())
    } else {
        match indices_of(args.drop_last()) {
            Ok(indices) => match index_of(args.last()) {
                Some(index) => Ok(indices.push(index)),
                None => Err(UsageError { argument: (args.len() - 1) as usize }),
            },
            Err(error) => Err(error),
        }
    }
}

/// Once an argument names no number, no argument after it changes the
/// outcome.
proof fn lemma_indices_stop(done: Seq<Seq<char>>, rest: Seq<Seq<char>>)
    requires
        indices_of(done) is Err,
    ensures
        indices_of(done + rest) == indices_of(done),
    decreases rest.len(),
{
    if rest.len() == 0 {
        assert(done + rest == done);
    } else {
        lemma_indices_stop(done, rest.drop_last());
        assert((done + rest).drop_last() == done + rest.drop_last());
    }
}

/// Reads all arguments as numbers before anything is done with any of them.
pub fn parse_indices(args: &[String]) -> (result: Result<Vec<u64>, UsageError>)
    ensures
        match result {
            Ok(indices) => indices_of(args.deep_view()) == Ok::<Seq<u64>, UsageError>(indices@),
            Err(error) => indices_of(args.deep_view()) == Err::<Seq<u64>, UsageError>(error),
        },
{
    let mut indices: Vec<u64> = Vec::new();
    let mut i: usize = 0;
    assert(args.deep_view().take(0) == Seq::<Seq<char>>::empty());
    while i < args.len()
        invariant
            i <= args@.len(),
            indices_of(args.deep_view().take(i as int)) == Ok::<Seq<u64>, UsageError>(indices@),
        decreases args@.len() - i,
    {
        proof {
            let next = args.deep_view().take(i + 1);
            assert(next.drop_last() == args.deep_view().take(i as int));
            assert(next.last() == args@[i as int]@);
        }
        match parse_index(args[i].as_str()) {
            Some(index) => {
                indices.push(index);
            },
            None => {
                proof {
                    let seen = args.deep_view().take(i + 1);
                    let rest = args.deep_view().subrange(i + 1, args@.len() as int);
                    lemma_indices_stop(seen, rest);
                    assert(seen + rest == args.deep_view());
                }
                return Err(UsageError { argument: i });
            },
        }
        i += 1;
    }
    assert(args.deep_view().take(i as int) == args.deep_view());
    Ok(indices)
}

/// What a run is asked to do.
#[derive(Debug, Clone, PartialEq, Eq)]
pub enum Mode {
    /// Fetch the feed, list it and store it in the cache.
    Fetch,
    /// Open the cached links listed under these numbers, in this order.
    Open(Vec<u64>),
}

/// What a [`Mode`] stands for in contracts.
pub enum ModeView {
    Fetch,
    Open(Seq<u64>),
}

impl View for Mode {
    type V = ModeView;

    open spec fn view(&self) -> ModeView {
        match *self {
            Mode::Fetch => ModeView::Fetch,
            Mode::Open(indices) => ModeView::Open(indices@),
        }
    }
}

/// The mode that the arguments `args` ask for: fetching where there is none,
/// else opening what they name, provided every one of them names a number.
pub open spec fn mode_of(args: Seq<Seq<char>>) -> Result<ModeView, UsageError> {
    if args.len() == 0 {
        Ok(ModeView::Fetch)
    } else {
        match indices_of(args) {
            Ok(indices) => Ok(ModeView::Open(indices)),
            Err(error) => Err(error),
        }
    }
}

/// Decides from the arguments, the program's name left out, what the run is to
/// do.
pub fn mode_for(args: &[String]) -> (result: Result<Mode, UsageError>)
    ensures
        match result {
            Ok(mode) => mode_of(args.deep_view()) == Ok::<ModeView, UsageError>(mode@),
            Err(error) => mode_of(args.deep_view()) == Err::<ModeView, UsageError>(error),
        },
{
    if args.len() == 0 {
        return Ok(Mode::Fetch);
    }
    match parse_indices(args) {
        Ok(indices) => Ok(Mode::Open(indices)),
        Err(error) => Err(error),
    }
}

/// The article listed under `index`: numbers count from 1, and a number that
/// no article is listed under selects none.
pub open spec fn at_index(articles: Seq<ArticleView>, index: int) -> Option<ArticleView> {
    if 1 <= index <= articles.len() {
        Some(articles[index - 1])
    } else {
        None
    }
}

/// Looks up the article listed under `index`.
pub fn article_at(articles: &[Article], index: u64) -> (found: Option<&Article>)
    ensures
        match found {
            Some(article) => 1 <= index <= articles@.len() && *article == articles@[index - 1] && at_index(
                articles.deep_view(),
                index as int,
            ) == Some(article@),
            None => at_index(articles.deep_view(), index as int) is None,
        },
{
    if index >= 1 && index - 1 < articles.len() as u64 {
        Some(&articles[(index - 1) as usize])
    } else {
        None
    }
}

/// The links that `indices` select from `articles`: one for each index that
/// an article is listed under, in the order of the indices.
pub open spec fn links_for(articles: Seq<ArticleView>, indices: Seq<u64>) -> Seq<Seq<char>>
    decreases indices.len(),
{
    if indices.len() == 0 {
        Seq::empty()
    } else {
        let before = links_for(articles, indices.drop_last());
        match at_index(articles, indices.last() as int) {
            Some(article) => before.push(article.link),
            None => before,
        }
    }
}

/// After plain articles have been written to the cache and read back, the
/// number `k` selects the `k`-th of them, counted from 1, and the link to open
/// is its link.  0 and every number above the count select nothing, so
/// nothing is opened.
pub proof fn lemma_index_after_round_trip(articles: Seq<ArticleView>, index: u64)
    requires
        all_plain(articles),
    ensures
        decoded(encoded(articles)) matches Ok(read) && at_index(read, index as int) == at_index(
            articles,
            index as int,
        ) && links_for(read, seq![index]) == links_for(articles, seq![index]),
        1 <= index <= articles.len() ==> at_index(articles, index as int) == Some(articles[index - 1])
            && links_for(articles, seq![index]) == seq![articles[index - 1].link],
        !(1 <= index <= articles.len()) ==> at_index(articles, index as int) is None && links_for(
            articles,
            seq![index],
        ) == Seq::<Seq<char>>::empty(),
{
    lemma_round_trip(articles);
    let one = seq![index];
    assert(one.drop_last() == Seq::<u64>::empty());
    assert(links_for(articles, one.drop_last()) == Seq::<Seq<char>>::empty());
    assert(one.last() == index);
}

/// The links for a run of indices are the links for its first part followed
/// by the links for the rest.  Links come out in the
/// order of the indices, whatever the order of the articles.
pub proof fn lemma_links_follow_indices(articles: Seq<ArticleView>, first: Seq<u64>, rest: Seq<u64>)
    ensures
        links_for(articles, first + rest) == links_for(articles, first) + links_for(articles, rest),
    decreases rest.len(),
{
    if rest.len() == 0 {
        assert(first + rest == first);
        assert(links_for(articles, first) + Seq::<Seq<char>>::empty() == links_for(articles, first));
    } else {
        lemma_links_follow_indices(articles, first, rest.drop_last());
        assert((first + rest).drop_last() == first + rest.drop_last());
        assert((first + rest).last() == rest.last());
        let before = links_for(articles, first) + links_for(articles, rest.drop_last());
        match at_index(articles, rest.last() as int) {
            Some(article) => {
                assert(before.push(article.link) == links_for(articles, first) + links_for(
                    articles,
                    rest.drop_last(),
                ).push(article.link));
            },
            None => {},
        }
    }
}

/// Where every index has an article listed under it, there is one link for
/// each index, and the link at each position is the link of the article that
/// the index at that position names.
pub proof fn lemma_links_of_listed_indices(articles: Seq<ArticleView>, indices: Seq<u64>)
    requires
        forall|i: int| 0 <= i < indices.len() ==> 1 <= #[trigger] indices[i] <= articles.len(),
    ensures
        links_for(articles, indices).len() == indices.len(),
        forall|i: int|
            0 <= i < indices.len() ==> #[trigger] links_for(articles, indices)[i] == articles[indices[i]
                - 1].link,
    decreases indices.len(),
{
    if indices.len() > 0 {
        let init = indices.drop_last();
        assert forall|i: int| 0 <= i < init.len() implies 1 <= #[trigger] init[i] <= articles.len() by {
            assert(init[i] == indices[i]);
        }
        lemma_links_of_listed_indices(articles, init);
        assert(1 <= indices[indices.len() - 1] <= articles.len());
        assert forall|i: int| 0 <= i < indices.len() implies #[trigger] links_for(articles, indices)[i]
            == articles[indices[i] - 1].link by {
            if i < init.len() {
                assert(init[i] == indices[i]);
                assert(links_for(articles, indices)[i] == links_for(articles, init)[i]);
            }
        }
    }
}

/// The links to open for `indices`, in the order in which to open them.
pub fn links_to_open(articles: &[Article], indices: &[u64]) -> (links: Vec<String>)
    ensures
        links.deep_view() == links_for(articles.deep_view(), indices@),
{
    let mut links: Vec<String> = Vec::new();
    let mut i: usize = 0;
    assert(indices@.take(0) == Seq::<u64>::empty());
    assert(links.deep_view() == Seq::<Seq<char>>::empty());
    while i < indices.len()
        invariant
            i <= indices@.len(),
            links.deep_view() == links_for(articles.deep_view(), indices@.take(i as int)),
        decreases indices@.len() - i,
    {
        proof {
            let next = indices@.take(i + 1);
            assert(next.drop_last() == indices@.take(i as int));
            assert(next.last() == indices@[i as int]);
        }
        match article_at(articles, indices[i]) {
            Some(article) => {
                let ghost before = links.deep_view();
                let link = article.link.clone();
                links.push(link);
                assert(links.deep_view() == before.push(article@.link));
            },
            None => {},
        }
        i += 1;
    }
    assert(indices@.take(i as int) == indices@);
    links
}

/// The character that writes the decimal digit `digit`.
pub open spec fn digit_char(digit: nat) -> char {
    if digit == 0 {
        '0'
    } else if digit == 1 {
        '1'
    } else if digit == 2 {
        '2'
    } else if digit == 3 {
        '3'
    } else if digit == 4 {
        '4'
    } else if digit == 5 {
        '5'
    } else if digit == 6 {
        '6'
    } else if digit == 7 {
        '7'
    } else if digit == 8 {
        '8'
    } else {
        '9'
    }
}

/// The decimal digits that write `n`, without leading zeros.
pub open spec fn decimal(n: nat) -> Seq<char>
    decreases n,
{
    if n < 10 {
        seq![digit_char(n)]
    } else {
        decimal(n / 10).push(digit_char(n % 10))
    }
}

/// The digits that write a number are digits, and they write that number.
proof fn lemma_decimal_is_number(n: nat)
    ensures
        decimal(n).len() > 0,
        all_digits(decimal(n)),
        number_of(decimal(n)) == n,
        decimal(n)[0] != '+',
    decreases n,
{
    if n < 10 {
        let one = seq![digit_char(n)];
        assert(one.drop_last() == Seq::<char>::empty());
        assert(number_of(one.drop_last()) == 0);
        assert(number_of(one) == digit_value(digit_char(n)));
    } else {
        lemma_decimal_is_number(n / 10);
        let init = decimal(n / 10);
        let digits = init.push(digit_char(n % 10));
        assert(digits.drop_last() == init);
        assert(digits[0] == init[0]);
        assert forall|i: int| 0 <= i < digits.len() implies is_digit(#[trigger] digits[i]) by {
            if i < init.len() {
                assert(digits[i] == init[i]);
            }
        }
    }
}

/// The number shown in the listing is the number to ask for: written in
/// decimal as the listing writes it, a number within `u64` is read back by
/// [`parse_index`] as itself.
pub proof fn lemma_listed_number_reads_back(n: u64)
    ensures
        index_of(decimal(n as nat)) == Some(n),
{
    lemma_decimal_is_number(n as nat);
}

/// The line of the listing for the article numbered `number`.
pub open spec fn listing_line(number: nat, article: ArticleView) -> Seq<char> {
    decimal(number) + seq!['\t'] + article.title + seq!['\n']
}

/// The listing of `articles`: for each, in order, its number counted from 1,
/// a tab, its title and a line feed.
pub open spec fn listing_of(articles: Seq<ArticleView>) -> Seq<char>
    decreases articles.len(),
{
    if articles.len() == 0 {
        Seq::empty()
    } else {
        listing_of(articles.drop_last()) + listing_line(articles.len(), articles.last())
    }
}

/// Appends the decimal digits of `n` to `out`.
fn push_decimal(out: &mut String, n: u64)
    ensures
        final(out)@ == old(out)@ + decimal(n as nat),
    decreases n,
{
    if n >= 10 {
        push_decimal(out, n / 10);
    }
    let digit: u64 = n % 10;
    let c = if digit == 0 {
        '0'
    } else if digit == 1 {
        '1'
    } else if digit == 2 {
        '2'
    } else if digit == 3 {
        '3'
    } else if digit == 4 {
        '4'
    } else if digit == 5 {
        '5'
    } else if digit == 6 {
        '6'
    } else if digit == 7 {
        '7'
    } else if digit == 8 {
        '8'
    } else {
        '9'
    };
    out.push(c);
    assert(final(out)@ == old(out)@ + decimal(n as nat));
}

/// Writes the listing that is shown after a fetch.
pub fn render_listing(articles: &[Article]) -> (text: String)
    ensures
        text@ == listing_of(articles.deep_view()),
{
    let mut text = String::new();
    let mut i: usize = 0;
    while i < articles.len()
        invariant
            i <= articles@.len(),
            text@ == listing_of(articles.deep_view().take(i as int)),
        decreases articles@.len() - i,
    {
        proof {
            let next = articles.deep_view().take(i + 1);
            assert(next.drop_last() == articles.deep_view().take(i as int));
            assert(next.last() == articles@[i as int]@);
        }
        push_decimal(&mut text, i as u64 + 1);
        text.push('\t');
        text.append(articles[i].title.as_str());
        text.push('\n');
        i += 1;
    }
    assert(articles.deep_view().take(i as int) == articles.deep_view());
    text
}

/// The program that opens a link on the platform named `os`, where one is
/// known.
pub open spec fn launcher_for(os: Seq<char>) -> Option<Seq<char>> {
    if os == "linux"@ {
        Some("xdg-open"@)
    } else if os == "macos"@ {
        Some("open"@)
    } else if os == "windows"@ {
        Some("start"@)
    } else {
        None
    }
}

/// Picks the program that opens a link on the platform named `os`.
pub fn launcher_command(os: &str) -> (command: Option<&'static str>)
    ensures
        match command {
            Some(program) => launcher_for(os@) == Some(program@),
            None => launcher_for(os@) is None,
        },
{
    if same_text(os, "linux") {
        Some("xdg-open")
    } else if same_text(os, "macos") {
        Some("open")
    } else if same_text(os, "windows") {
        Some("start")
    } else {
        None
    }
}

} // verus!
