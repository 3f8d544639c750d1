use hn2::article::Article;
use hn2::feed::{parse_articles_from_xml, FeedParser, MalformedFeedError};

fn article(title: &str, link: &str) -> Article {
    Article::new(title.to_string(), link.to_string())
}

#[test]
fn title_is_carried_over_to_a_link_without_one() {
    let feed = "<item><title>T1</title><comments>L1</comments></item><item><comments>L2</comments></item>";
    assert_eq!(
        parse_articles_from_xml(feed),
        Ok(vec![article("T1", "L1"), article("T1", "L2")])
    );
}

#[test]
fn articles_come_in_document_order() {
    let feed = "<rss><channel><title>Feed</title>\
        <item><title>One</title><link>x</link><comments>c1</comments></item>\
        <item><title>Two</title><link>y</link><comments>c2</comments></item>\
        <item><title>Three</title><link>z</link><comments>c3</comments></item>\
        </channel></rss>";
    assert_eq!(
        parse_articles_from_xml(feed),
        Ok(vec![article("One", "c1"), article("Two", "c2"), article("Three", "c3")])
    );
}

#[test]
fn ampersand_entity_becomes_one_character() {
    let feed = "<item><title>&amp;</title><comments>L</comments></item>";
    let articles = parse_articles_from_xml(feed).unwrap();
    assert_eq!(articles.len(), 1);
    assert_eq!(articles[0].title, "&");
    assert_eq!(articles[0].title.chars().count(), 1);
}

#[test]
fn entities_are_decoded_in_titles_and_links() {
    let feed = "<item><title>Rust &amp; Verus &lt;3</title>\
        <comments>https://example.com/item?id=1&amp;p=2</comments></item>";
    assert_eq!(
        parse_articles_from_xml(feed),
        Ok(vec![article("Rust & Verus <3", "https://example.com/item?id=1&p=2")])
    );
}

#[test]
fn character_references_are_decoded() {
    let feed = "<title>&#65;&#x42;&quot;&apos;&gt;</title><comments>c</comments>";
    assert_eq!(parse_articles_from_xml(feed), Ok(vec![article("AB\"'>", "c")]));
}

#[test]
fn empty_document_has_no_articles() {
    assert_eq!(parse_articles_from_xml(""), Ok(vec![]));
}

#[test]
fn document_without_feed_elements_has_no_articles() {
    let feed = "<?xml version=\"1.0\"?><rss version=\"2.0\"><channel>\
        <description>nothing to see</description><link>https://example.com</link>\
        </channel></rss>";
    assert_eq!(parse_articles_from_xml(feed), Ok(vec![]));
}

#[test]
fn text_outside_feed_elements_is_never_decoded() {
    let feed = "<description>a &bogus; entity</description><title>T</title><comments>L</comments>";
    assert_eq!(parse_articles_from_xml(feed), Ok(vec![article("T", "L")]));
}

#[test]
fn link_before_any_title_gets_the_empty_title() {
    assert_eq!(
        parse_articles_from_xml("<comments>L</comments>"),
        Ok(vec![article("", "L")])
    );
}

#[test]
fn later_title_replaces_earlier_one() {
    let feed = "<title>Feed</title><title>Item</title><comments>L</comments>";
    assert_eq!(parse_articles_from_xml(feed), Ok(vec![article("Item", "L")]));
}

#[test]
fn text_inside_both_elements_is_title_and_link() {
    let feed = "<title>Old</title><comments><title>X</title></comments>";
    assert_eq!(parse_articles_from_xml(feed), Ok(vec![article("X", "X")]));
}

#[test]
fn text_split_by_a_comment_gives_two_texts() {
    let feed = "<title>A<!-- note -->B</title><comments>L</comments>";
    assert_eq!(parse_articles_from_xml(feed), Ok(vec![article("B", "L")]));
}

#[test]
fn tag_names_are_case_sensitive() {
    let feed = "<TITLE>T</TITLE><Comments>L</Comments>";
    assert_eq!(parse_articles_from_xml(feed), Ok(vec![]));
}

#[test]
fn attributes_do_not_change_a_tag_name() {
    let feed = "<title type=\"text\">T</title><comments rel=\"replies\">L</comments>";
    assert_eq!(parse_articles_from_xml(feed), Ok(vec![article("T", "L")]));
}

#[test]
fn namespace_prefix_is_part_of_the_name() {
    let feed = "<media:title>T</media:title><comments>L</comments>";
    assert_eq!(parse_articles_from_xml(feed), Ok(vec![article("", "L")]));
}

#[test]
fn self_closing_tags_and_cdata_are_passed_over() {
    let feed = "<title/><comments><![CDATA[L]]></comments>";
    assert_eq!(parse_articles_from_xml(feed), Ok(vec![]));
}

#[test]
fn whitespace_in_text_is_kept() {
    let feed = "<title> T </title><comments>\n L\t</comments>";
    assert_eq!(parse_articles_from_xml(feed), Ok(vec![article(" T ", "\n L\t")]));
}

#[test]
fn byte_order_mark_is_skipped() {
    let feed = "\u{feff}<title>T</title><comments>L</comments>";
    assert_eq!(parse_articles_from_xml(feed), Ok(vec![article("T", "L")]));
}

#[test]
fn badly_nested_tags_are_tolerated() {
    let feed = "<a><b></a></b><title>T</title><comments>L</comments>";
    assert_eq!(parse_articles_from_xml(feed), Ok(vec![article("T", "L")]));
}

#[test]
fn closing_tag_without_opening_tag_is_tolerated() {
    let feed = "</item><comments>L</comments></channel>";
    assert_eq!(parse_articles_from_xml(feed), Ok(vec![article("", "L")]));
}

#[test]
fn closing_tag_of_another_name_lowers_only_its_own_flag() {
    let feed = "<title>T</comments>U<comments>L</title>M";
    assert_eq!(
        parse_articles_from_xml(feed),
        Ok(vec![article("L", "L"), article("L", "M")])
    );
}

#[test]
fn elements_left_open_at_the_end_are_no_error() {
    assert_eq!(parse_articles_from_xml("<rss><title>T"), Ok(vec![]));
    assert_eq!(
        parse_articles_from_xml("<title>T</title><comments>L"),
        Ok(vec![article("T", "L")])
    );
}

#[test]
fn unterminated_tag_is_malformed() {
    assert_eq!(
        parse_articles_from_xml("<rss><title"),
        Err(MalformedFeedError { offset: 11 })
    );
}

#[test]
fn articles_before_a_malformed_tag_are_not_returned() {
    let feed = "<title>T</title><comments>L</comments><broken";
    assert_eq!(
        parse_articles_from_xml(feed),
        Err(MalformedFeedError { offset: feed.len() as u64 })
    );
}

#[test]
fn unknown_entity_in_a_title_is_malformed() {
    assert_eq!(
        parse_articles_from_xml("<title>&bogus;</title>"),
        Err(MalformedFeedError { offset: 14 })
    );
}

#[test]
fn unterminated_entity_in_a_link_is_malformed() {
    assert_eq!(
        parse_articles_from_xml("<comments>a & b</comments>"),
        Err(MalformedFeedError { offset: 15 })
    );
}

#[test]
fn new_parser_has_seen_nothing() {
    let parser = FeedParser::new();
    assert!(!parser.in_title);
    assert!(!parser.in_comments);
    assert!(!parser.wants_text());
    assert_eq!(parser.current_title, "");
    assert_eq!(parser.into_articles(), vec![]);
}

#[test]
fn tags_raise_and_lower_their_flags() {
    let mut parser = FeedParser::new();
    parser.start_element("item");
    assert!(!parser.wants_text());
    parser.start_element("title");
    assert!(parser.in_title && !parser.in_comments);
    assert!(parser.wants_text());
    parser.start_element("comments");
    assert!(parser.in_title && parser.in_comments);
    parser.end_element("title");
    assert!(!parser.in_title && parser.in_comments);
    assert!(parser.wants_text());
    parser.end_element("item");
    assert!(parser.in_comments);
    parser.end_element("comments");
    assert!(!parser.in_title && !parser.in_comments);
    assert!(!parser.wants_text());
}

#[test]
fn text_in_a_title_sets_the_title_only() {
    let mut parser = FeedParser::new();
    parser.start_element("title");
    parser.text("T1".to_string());
    assert_eq!(parser.current_title, "T1");
    parser.text("T2".to_string());
    assert_eq!(parser.current_title, "T2");
    assert_eq!(parser.into_articles(), vec![]);
}

#[test]
fn text_in_comments_adds_an_article_under_the_current_title() {
    let mut parser = FeedParser::new();
    parser.start_element("title");
    parser.text("T1".to_string());
    parser.end_element("title");
    parser.start_element("comments");
    parser.text("L1".to_string());
    parser.end_element("comments");
    parser.start_element("comments");
    parser.text("L2".to_string());
    assert_eq!(parser.current_title, "T1");
    assert_eq!(
        parser.into_articles(),
        vec![article("T1", "L1"), article("T1", "L2")]
    );
}

#[test]
fn text_with_no_flag_up_changes_nothing() {
    let mut parser = FeedParser::new();
    parser.text("stray".to_string());
    assert_eq!(parser.current_title, "");
    assert_eq!(parser.into_articles(), vec![]);
}

#[test]
fn text_with_both_flags_up_is_title_and_link() {
    let mut parser = FeedParser::new();
    parser.start_element("title");
    parser.text("Old".to_string());
    parser.start_element("comments");
    parser.text("X".to_string());
    assert_eq!(parser.current_title, "X");
    assert_eq!(parser.into_articles(), vec![article("X", "X")]);
}
