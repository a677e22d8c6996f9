//! Round-trip tests: serializing a parsed tree and parsing it again.

use mold::content::Content;

#[test]
fn text_only_round_trip() {
    let input = "just some text with a lone < and > inside";
    let tree = Content::parse(input).unwrap();
    assert_eq!(tree.render(), input);
    assert_eq!(Content::parse(&tree.render()).unwrap(), tree);
}

#[test]
fn open_tag_round_trip() {
    let input = "before<<foo<<bar>>foo>>after";
    let tree = Content::parse(input).unwrap();
    assert_eq!(tree.render(), input);
    assert_eq!(Content::parse(&tree.render()).unwrap(), tree);
}

#[test]
fn self_closing_round_trip() {
    let tree = Content::parse("<<title>>").unwrap();
    // The empty body renders in the self-closing form, not as
    // an opening and a closing boundary around nothing.
    assert_eq!(tree.render(), "<<title>>");
    assert_eq!(Content::parse(&tree.render()).unwrap(), tree);
}

#[test]
fn nested_tags_round_trip() {
    let input = "<<page<<head<<title<<T>>title>>tail>>page>>";
    let tree = Content::parse(input).unwrap();
    assert_eq!(tree.render(), input);
    assert_eq!(Content::parse(&tree.render()).unwrap(), tree);
}

#[test]
fn empty_open_form_renders_self_closing() {
    // An opening tag with an empty body parses, and renders in the
    // shorter self-closing form.
    let tree = Content::parse("<<a<<>>a>>").unwrap();
    assert_eq!(tree.render(), "<<a>>");
    assert_eq!(Content::parse(&tree.render()).unwrap(), tree);
}
