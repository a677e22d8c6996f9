//! Tests of edges, hierarchies and flattening.

use mold::content::{Content, Node};
use mold::templates::{build_hierarchy, create_edges, flatten, flatten_all};

#[test]
fn only_root_node() {
    let nodes = vec![(None, String::from("foo"))];

    let hier = build_hierarchy(&nodes);

    assert_eq!(hier.len(), 1);
    assert_eq!(hier[0].name, "foo");
    assert_eq!(hier[0].children.len(), 0);
}

#[test]
fn one_root_with_one_child() {
    let nodes = vec![
        (None, String::from("foo")),
        (Some(String::from("foo")), String::from("bar")),
    ];

    let hier = build_hierarchy(&nodes);

    assert_eq!(hier.len(), 1);
    assert_eq!(hier[0].name, "foo");
    assert_eq!(hier[0].children.len(), 1);
    assert_eq!(hier[0].children[0].name, "bar");
}

#[test]
fn one_root_with_two_children() {
    let nodes = vec![
        (None, String::from("foo")),
        (Some(String::from("foo")), String::from("bar")),
        (Some(String::from("foo")), String::from("baz")),
    ];

    let hier = build_hierarchy(&nodes);

    assert_eq!(hier.len(), 1);
    assert_eq!(hier[0].name, "foo");
    assert_eq!(hier[0].children.len(), 2);
}

#[test]
fn one_root_with_two_level_chilren() {
    let nodes = vec![
        (None, String::from("foo")),
        (Some(String::from("foo")), String::from("bar")),
        (Some(String::from("bar")), String::from("baz")),
    ];

    let hier = build_hierarchy(&nodes);

    assert_eq!(hier.len(), 1);
    assert_eq!(hier[0].name, "foo");
    assert_eq!(hier[0].children.len(), 1);
    assert_eq!(hier[0].children[0].children.len(), 1);
}

#[test]
fn two_roots() {
    let nodes = vec![(None, String::from("foo")), (None, String::from("bar"))];

    let hier = build_hierarchy(&nodes);

    assert_eq!(hier.len(), 2);
}

#[test]
fn ignores_trailing_newline() {
    let t_root = "This is the root template.\n";
    let t_child = "<<root<<This template extends root>>root>>\n";

    let pairs = vec![
        (String::from("root"), Content::parse(t_root).unwrap()),
        (String::from("child"), Content::parse(t_child).unwrap()),
    ];

    let edges = create_edges(&pairs);

    assert_eq!(
        edges,
        vec![
            (None, String::from("root")),
            (Some(String::from("root")), String::from("child")),
        ]
    );
}

#[test]
fn flatten_substitutes_a_slot_by_name() {
    let parent = Content::parse("a<<slot<<old>>slot>>b").unwrap();
    let child = Content::parse("<<slot<<new>>slot>>").unwrap();

    let merged = flatten(&parent, &child);

    assert_eq!(merged.render(), "a<<slot<<new>>slot>>b");
}

#[test]
fn flatten_with_empty_override_is_identity() {
    let root = Content::parse("<<content>>here").unwrap();
    let empty = Content { children: Vec::new() };

    let merged = flatten(&root, &empty);

    assert_eq!(merged, root);
}

#[test]
fn flatten_leaves_unmatched_slots_alone() {
    let parent = Content::parse("<<head<<h>>head>><<body<<b>>body>>").unwrap();
    let child = Content::parse("<<body<<new>>body>>").unwrap();

    let merged = flatten(&parent, &child);

    assert_eq!(merged.render(), "<<head<<h>>head>><<body<<new>>body>>");
}

#[test]
fn multi_level_inheritance_keeps_each_level_separate() {
    let templates = vec![
        (String::from("root"), Content::parse("[<<content>>]").unwrap()),
        (
            String::from("child"),
            Content::parse("<<root<<<<content<<X>>content>>>>root>>").unwrap(),
        ),
        (
            String::from("grand"),
            Content::parse("<<child<<<<content<<Y>>content>>>>child>>").unwrap(),
        ),
    ];

    let flat = flatten_all(&templates);

    assert_eq!(flat.len(), 3);
    let child_flat = flat.iter().find(|(n, _)| n == "child").unwrap();
    let grand_flat = flat.iter().find(|(n, _)| n == "grand").unwrap();
    assert_eq!(child_flat.1.render(), "[<<content<<X>>content>>]");
    assert_eq!(grand_flat.1.render(), "[<<content<<Y>>content>>]");
}

#[test]
fn roots_are_emitted_as_parsed() {
    let templates = vec![(String::from("base"), Content::parse("plain text").unwrap())];

    let flat = flatten_all(&templates);

    assert_eq!(flat.len(), 1);
    assert_eq!(flat[0].0, "base");
    assert_eq!(flat[0].1.render(), "plain text");
}

#[test]
fn whole_corpus_flattening_matches_the_slot_table() {
    let t_base = "<html><<title<<My Website>>title>><main><<content>></main></html>";
    let t_post = "<<base<<<<content<<an article>>content>>>>base>>";

    let templates = vec![
        (String::from("base"), Content::parse(t_base).unwrap()),
        (String::from("post"), Content::parse(t_post).unwrap()),
    ];

    let flat = flatten_all(&templates);

    assert_eq!(flat.len(), 2);
    let base = flat.iter().find(|(n, _)| n == "base").unwrap();
    let post = flat.iter().find(|(n, _)| n == "post").unwrap();
    assert_eq!(base.1.render(), t_base);
    assert_eq!(
        post.1.render(),
        "<html><<title<<My Website>>title>><main><<content<<an article>>content>></main></html>"
    );
}

#[test]
fn edge_needs_exactly_one_wrapper_tag() {
    let pairs = vec![
        (String::from("two"), Content::parse("<<a>><<b>>").unwrap()),
        (String::from("text"), Content::parse("x<<a>>").unwrap()),
        (String::from("wrapped"), Content::parse("<<a>>").unwrap()),
    ];

    let edges = create_edges(&pairs);

    assert_eq!(
        edges,
        vec![
            (None, String::from("two")),
            (None, String::from("text")),
            (Some(String::from("a")), String::from("wrapped")),
        ]
    );
}

#[test]
fn last_tag_of_a_name_wins_the_slot() {
    let parent = Content::parse("<<s<<one>>s>>|<<s<<two>>s>>").unwrap();
    let child = Content::parse("<<s<<n>>s>>").unwrap();

    let merged = flatten(&parent, &child);

    // Only the last parent tag named `s` is addressed by the slot table.
    assert_eq!(merged.render(), "<<s<<one>>s>>|<<s<<n>>s>>");
    assert!(matches!(&merged.children[0], Node::Tag(_)));
}
