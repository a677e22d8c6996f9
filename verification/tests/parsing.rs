//! Tests of the delimiter lexer and the content parser.

use mold::content::{Content, Node, Sign, Tag, TagType, find_sign, find_tag, skip_sign};
use mold::cursor::Cursor;
use mold::error::ParseError;

#[test]
fn no_signs() {
    let mut cursor = Cursor::new("abc");

    let sign = find_sign(&mut cursor);

    // When there are no signs to be found,
    // the cursor should be at the end of the input
    // and the returned value should be None.
    assert!(sign.is_none());
    assert_eq!(cursor.first(), None);
}

#[test]
fn only_one_opening_sign() {
    let mut cursor = Cursor::new("<<");

    let sign = find_sign(&mut cursor);

    assert_eq!(sign, Some(Sign::Opening));
    assert_eq!((cursor.first(), cursor.second()), (Some('<'), Some('<')));
    assert_eq!(cursor.input().chars().count() - cursor.position(), 2);
}

#[test]
fn only_two_opening_signs() {
    let mut cursor = Cursor::new("<<<<");

    let sign = find_sign(&mut cursor);

    assert_eq!(sign, Some(Sign::Opening));
    assert_eq!((cursor.first(), cursor.second()), (Some('<'), Some('<')));
    assert_eq!(cursor.position(), 0);

    cursor.skip(2);

    let sign = find_sign(&mut cursor);

    assert_eq!(sign, Some(Sign::Opening));
    assert_eq!((cursor.first(), cursor.second()), (Some('<'), Some('<')));
    assert_eq!(cursor.position(), 2);
}

#[test]
fn one_opening_sign() {
    let mut cursor = Cursor::new("abc<<def");

    let sign = find_sign(&mut cursor);

    assert_eq!(sign, Some(Sign::Opening));
    assert_eq!((cursor.first(), cursor.second()), (Some('<'), Some('<')));
    assert_eq!(cursor.position(), 3);
}

#[test]
fn find_tag_moves_to_end_without_any_tags_left() {
    let mut cursor = Cursor::new("<<abc<<def");

    skip_sign(&mut cursor);
    skip_sign(&mut cursor);

    let tag_t = find_tag(&mut cursor);

    assert_eq!(tag_t, Ok(None));
    assert_eq!(cursor.next(), None);
}

#[test]
fn only_text_content() {
    let content = Content::parse("abc");

    assert!(content.is_ok());

    let content = content.unwrap();

    assert_eq!(content.children.len(), 1);
    assert_eq!(content.children[0], Node::Text(String::from("abc")));
}

#[test]
fn one_tag_with_only_text_content() {
    let content = Content::parse("<<foo<<bar>>foo>>");

    assert!(content.is_ok());

    let content = content.unwrap();

    let mut eq = Content { children: Vec::new() };

    eq.children.push(Node::Tag(Tag {
        name: String::from("foo"),
        content: Content { children: vec![Node::Text(String::from("bar"))] },
    }));

    assert_eq!(content, eq);
}

#[test]
fn unclosed_tag() {
    let content = Content::parse("<<foo<<bar");

    assert_eq!(content, Err(ParseError::NoClosingTag));
}

#[test]
fn closing_tag_that_does_not_match() {
    let content = Content::parse("<<foo<<bar>>baz>>");

    assert_eq!(content, Err(ParseError::InvalidClosingTag));
}

#[test]
fn only_closing_tag() {
    let content = Content::parse(">>foo>>");

    assert_eq!(content, Err(ParseError::NoOpeningTag));
}

#[test]
fn empty_input_parses_to_empty_tree() {
    let content = Content::parse("").unwrap();
    assert_eq!(content.children.len(), 0);
}

#[test]
fn self_closing_tag_has_empty_body() {
    let content = Content::parse("<<title>>").unwrap();

    assert_eq!(content.children.len(), 1);
    match &content.children[0] {
        Node::Tag(t) => {
            assert_eq!(t.name, "title");
            assert_eq!(t.content.children.len(), 0);
        },
        Node::Text(_) => panic!("expected a tag node"),
    }
}

#[test]
fn boundary_kinds_are_classified_by_the_second_sign() {
    let mut opening = Cursor::new("<<a<<b>>a>>");
    assert_eq!(find_tag(&mut opening), Ok(Some(TagType::Opening)));

    let mut self_closing = Cursor::new("<<a>>");
    assert_eq!(find_tag(&mut self_closing), Ok(Some(TagType::SelfClosing)));

    let mut closing = Cursor::new(">>a>>");
    assert_eq!(find_tag(&mut closing), Ok(Some(TagType::Closing)));
}

#[test]
fn lone_sign_is_malformed() {
    assert_eq!(Content::parse("ab<<cd"), Err(ParseError::MalformedDelimiter));
}

#[test]
fn closing_then_opening_pair_is_malformed() {
    let mut cursor = Cursor::new(">>a<<");
    assert_eq!(find_tag(&mut cursor), Err(ParseError::MalformedDelimiter));
}

#[test]
fn whitespace_before_tag_name_is_skipped() {
    let content = Content::parse("<< foo<<bar>>foo>>").unwrap();
    match &content.children[0] {
        Node::Tag(t) => assert_eq!(t.name, "foo"),
        Node::Text(_) => panic!("expected a tag node"),
    }
}
