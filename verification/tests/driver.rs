use hn2::article::Article;
use hn2::cache::{decode_cache, encode_cache};
use hn2::driver::{
    article_at, launcher_command, links_to_open, mode_for, parse_index, parse_indices, render_listing, Mode,
    UsageError,
};

fn three() -> Vec<Article> {
    vec![
        Article::new("One".to_string(), "https://x.example/1".to_string()),
        Article::new("Two".to_string(), "https://x.example/2".to_string()),
        Article::new("Three".to_string(), "https://x.example/3".to_string()),
    ]
}

fn strings(items: &[&str]) -> Vec<String> {
    let mut out = Vec::new();
    for item in items {
        out.push(item.to_string());
    }
    out
}

#[test]
fn decimal_digits_are_a_number() {
    assert_eq!(parse_index("3"), Some(3));
    assert_eq!(parse_index("0"), Some(0));
    assert_eq!(parse_index("42"), Some(42));
    assert_eq!(parse_index("1234567890"), Some(1234567890));
}

#[test]
fn plus_sign_and_leading_zeros_are_accepted() {
    assert_eq!(parse_index("+7"), Some(7));
    assert_eq!(parse_index("007"), Some(7));
    assert_eq!(parse_index("+000"), Some(0));
}

#[test]
fn largest_number_is_accepted_and_the_next_is_not() {
    assert_eq!(parse_index("18446744073709551615"), Some(u64::MAX));
    assert_eq!(parse_index("18446744073709551616"), None);
    assert_eq!(parse_index("99999999999999999999999"), None);
    assert_eq!(parse_index("000018446744073709551615"), Some(u64::MAX));
}

#[test]
fn anything_else_is_no_number() {
    assert_eq!(parse_index(""), None);
    assert_eq!(parse_index("+"), None);
    assert_eq!(parse_index("-1"), None);
    assert_eq!(parse_index("++1"), None);
    assert_eq!(parse_index("1+"), None);
    assert_eq!(parse_index("12a"), None);
    assert_eq!(parse_index("a12"), None);
    assert_eq!(parse_index(" 5"), None);
    assert_eq!(parse_index("5 "), None);
    assert_eq!(parse_index("1_000"), None);
    assert_eq!(parse_index("3.0"), None);
    assert_eq!(parse_index("\u{663}"), None);
    assert_eq!(parse_index("three"), None);
}

#[test]
fn arguments_are_read_in_order() {
    assert_eq!(parse_indices(&strings(&["3", "1", "2"])), Ok(vec![3, 1, 2]));
    assert_eq!(parse_indices(&strings(&[])), Ok(vec![]));
    assert_eq!(parse_indices(&strings(&["0", "+5", "5"])), Ok(vec![0, 5, 5]));
}

#[test]
fn first_bad_argument_is_reported() {
    assert_eq!(
        parse_indices(&strings(&["1", "x", "y"])),
        Err(UsageError { argument: 1 })
    );
    assert_eq!(parse_indices(&strings(&["", "2"])), Err(UsageError { argument: 0 }));
    assert_eq!(
        parse_indices(&strings(&["1", "2", "-3"])),
        Err(UsageError { argument: 2 })
    );
}

#[test]
fn no_argument_asks_for_a_fetch() {
    assert_eq!(mode_for(&strings(&[])), Ok(Mode::Fetch));
}

#[test]
fn numbers_ask_for_opening_in_their_order() {
    assert_eq!(mode_for(&strings(&["3", "1", "2"])), Ok(Mode::Open(vec![3, 1, 2])));
    assert_eq!(mode_for(&strings(&["0"])), Ok(Mode::Open(vec![0])));
}

#[test]
fn anything_but_numbers_is_a_usage_error() {
    assert_eq!(mode_for(&strings(&["fetch"])), Err(UsageError { argument: 0 }));
    assert_eq!(mode_for(&strings(&["2", "--help"])), Err(UsageError { argument: 1 }));
    assert_eq!(mode_for(&strings(&[""])), Err(UsageError { argument: 0 }));
}

#[test]
fn numbers_count_from_one() {
    let articles = three();
    assert_eq!(article_at(&articles, 1), Some(&articles[0]));
    assert_eq!(article_at(&articles, 2), Some(&articles[1]));
    assert_eq!(article_at(&articles, 3), Some(&articles[2]));
}

#[test]
fn numbers_out_of_range_select_nothing() {
    let articles = three();
    assert_eq!(article_at(&articles, 0), None);
    assert_eq!(article_at(&articles, 4), None);
    assert_eq!(article_at(&articles, u64::MAX), None);
    assert_eq!(article_at(&[], 1), None);
    assert_eq!(article_at(&[], 0), None);
}

#[test]
fn links_follow_the_order_of_the_arguments() {
    let articles = three();
    assert_eq!(
        links_to_open(&articles, &[3, 1, 2]),
        strings(&["https://x.example/3", "https://x.example/1", "https://x.example/2"])
    );
}

#[test]
fn numbers_out_of_range_open_nothing() {
    let articles = three();
    assert_eq!(links_to_open(&articles, &[0, 2, 9]), strings(&["https://x.example/2"]));
    assert_eq!(links_to_open(&articles, &[0]), strings(&[]));
    assert_eq!(links_to_open(&articles, &[4, u64::MAX]), strings(&[]));
    assert_eq!(links_to_open(&articles, &[]), strings(&[]));
}

#[test]
fn a_number_given_twice_opens_twice() {
    let articles = three();
    assert_eq!(
        links_to_open(&articles, &[1, 1]),
        strings(&["https://x.example/1", "https://x.example/1"])
    );
}

#[test]
fn cached_articles_are_found_under_their_numbers() {
    let written = three();
    let read = decode_cache(&encode_cache(&written)).unwrap();
    for k in 1..=3u64 {
        assert_eq!(
            article_at(&read, k).unwrap().link,
            written[(k - 1) as usize].link
        );
    }
    assert_eq!(article_at(&read, 0), None);
    assert_eq!(article_at(&read, 4), None);
    assert_eq!(
        links_to_open(&read, &[3, 1, 2]),
        strings(&["https://x.example/3", "https://x.example/1", "https://x.example/2"])
    );
}

#[test]
fn listing_numbers_titles_from_one() {
    assert_eq!(render_listing(&three()), "1\tOne\n2\tTwo\n3\tThree\n");
    assert_eq!(render_listing(&[]), "");
}

#[test]
fn listing_writes_numbers_in_decimal() {
    let mut articles = Vec::new();
    for i in 0..120 {
        articles.push(Article::new(format!("t{}", i), String::new()));
    }
    let listing = render_listing(&articles);
    let lines: Vec<&str> = listing.lines().collect();
    assert_eq!(lines.len(), 120);
    assert_eq!(lines[0], "1\tt0");
    assert_eq!(lines[8], "9\tt8");
    assert_eq!(lines[9], "10\tt9");
    assert_eq!(lines[98], "99\tt98");
    assert_eq!(lines[99], "100\tt99");
    assert_eq!(lines[119], "120\tt119");
}

#[test]
fn listed_number_selects_the_listed_article() {
    let articles = three();
    let listing = render_listing(&articles);
    for line in listing.lines() {
        let (number, title) = line.split_once('\t').unwrap();
        let index = parse_index(number).unwrap();
        assert_eq!(article_at(&articles, index).unwrap().title, title);
    }
}

#[test]
fn known_platforms_have_a_launcher() {
    assert_eq!(launcher_command("linux"), Some("xdg-open"));
    assert_eq!(launcher_command("macos"), Some("open"));
    assert_eq!(launcher_command("windows"), Some("start"));
}

#[test]
fn other_platforms_have_none() {
    assert_eq!(launcher_command("freebsd"), None);
    assert_eq!(launcher_command(""), None);
    assert_eq!(launcher_command("Linux"), None);
    assert_eq!(launcher_command("linux "), None);
    assert_eq!(launcher_command("linu"), None);
}
