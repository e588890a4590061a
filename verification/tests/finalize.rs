//! Finalization and serialization: liveness of detached nodes and the
//! round trip from arena operations to markup.

use owned_dom::node::{Attribute, NodeEnum};
use owned_dom::owned::{Node, OwnedDom};
use owned_dom::serialize::TraversalScope;
use owned_dom::sink::{NodeOrText, Sink};

fn attr(name: &str, value: &str) -> Attribute {
    Attribute { name: String::from(name), value: String::from(value) }
}

fn tree_mentions_comment(node: &Node, needle: &str) -> bool {
    if let NodeEnum::Comment(t) = &node.node {
        if t == needle {
            return true;
        }
    }
    node.children.iter().any(|c| tree_mentions_comment(c, needle))
}

#[test]
fn liveness_finalization() {
    let mut sink = Sink::default();
    let doc = sink.get_document();
    let kept = sink.create_comment(String::from("kept"));
    sink.append(doc, NodeOrText::AppendNode(kept));
    let dropped = sink.create_comment(String::from("dropped"));
    sink.append(doc, NodeOrText::AppendNode(dropped));
    sink.remove_from_parent(dropped);
    let dom = OwnedDom::get_result(sink);
    assert!(tree_mentions_comment(&dom.document, "kept"));
    assert!(!tree_mentions_comment(&dom.document, "dropped"));
    assert_eq!(dom.document.children.len(), 1);
}

#[test]
fn never_attached_node_is_dropped() {
    let mut sink = Sink::default();
    let _orphan = sink.create_element(String::from("div"), vec![]);
    let dom = OwnedDom::get_result(sink);
    assert!(dom.document.children.is_empty());
    assert!(matches!(dom.document.node, NodeEnum::Document));
}

#[test]
fn finalized_tree_preserves_order_and_payloads() {
    let mut sink = Sink::default();
    let doc = sink.get_document();
    let html = sink.create_element(String::from("html"), vec![]);
    sink.append(doc, NodeOrText::AppendNode(html));
    sink.append(html, NodeOrText::AppendText(String::from("hello")));
    let em = sink.create_element(String::from("em"), vec![attr("class", "x")]);
    sink.append(html, NodeOrText::AppendNode(em));
    sink.append(em, NodeOrText::AppendText(String::from("world")));
    let dom = OwnedDom::get_result(sink);
    assert_eq!(dom.document.children.len(), 1);
    let html_node = &dom.document.children[0];
    match &html_node.node {
        NodeEnum::Element(name, attrs) => {
            assert_eq!(name, "html");
            assert!(attrs.is_empty());
        }
        _ => panic!("expected an element"),
    }
    assert_eq!(html_node.children.len(), 2);
    match &html_node.children[0].node {
        NodeEnum::Text(t) => assert_eq!(t, "hello"),
        _ => panic!("expected text"),
    }
    match &html_node.children[1].node {
        NodeEnum::Element(name, attrs) => {
            assert_eq!(name, "em");
            assert_eq!(attrs.len(), 1);
            assert_eq!(attrs[0].name, "class");
            assert_eq!(attrs[0].value, "x");
        }
        _ => panic!("expected an element"),
    }
}

#[test]
fn round_trip() {
    let mut sink = Sink::default();
    let doc = sink.get_document();
    sink.append_doctype_to_document(
        String::from("html"),
        String::from(""),
        String::from(""),
    );
    let html = sink.create_element(String::from("html"), vec![]);
    sink.append(doc, NodeOrText::AppendNode(html));
    let p = sink.create_element(String::from("p"), vec![attr("id", "x"), attr("class", "y")]);
    sink.append(html, NodeOrText::AppendNode(p));
    sink.append(p, NodeOrText::AppendText(String::from("hi ")));
    sink.append(p, NodeOrText::AppendText(String::from("there")));
    let note = sink.create_comment(String::from(" note "));
    sink.append(html, NodeOrText::AppendNode(note));
    let dom = OwnedDom::get_result(sink);
    let mut out = String::new();
    dom.document.serialize(&mut out, TraversalScope::ChildrenOnly);
    assert_eq!(
        out,
        "<!DOCTYPE html><html><p id=\"x\" class=\"y\">hi there</p><!-- note --></html>"
    );
}

#[test]
fn serialize_subtree_include_node() {
    let mut sink = Sink::default();
    let doc = sink.get_document();
    let a = sink.create_element(String::from("a"), vec![attr("href", "u")]);
    sink.append(doc, NodeOrText::AppendNode(a));
    sink.append(a, NodeOrText::AppendText(String::from("link")));
    let dom = OwnedDom::get_result(sink);
    let anchor = &dom.document.children[0];
    let mut out = String::new();
    anchor.serialize(&mut out, TraversalScope::IncludeNode);
    assert_eq!(out, "<a href=\"u\">link</a>");
    let mut inner = String::new();
    anchor.serialize(&mut inner, TraversalScope::ChildrenOnly);
    assert_eq!(inner, "link");
}

#[test]
fn serialize_leaf_children_only_is_empty() {
    let mut sink = Sink::default();
    let doc = sink.get_document();
    let c = sink.create_comment(String::from("quiet"));
    sink.append(doc, NodeOrText::AppendNode(c));
    let dom = OwnedDom::get_result(sink);
    let leaf = &dom.document.children[0];
    let mut out = String::new();
    leaf.serialize(&mut out, TraversalScope::ChildrenOnly);
    assert_eq!(out, "");
}
