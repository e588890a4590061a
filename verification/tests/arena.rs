//! Behaviour of the mutable arena: coalescing, insertion, reparenting,
//! attribute merging, detaching, and bookkeeping.

use owned_dom::node::{Attribute, NodeEnum, QuirksMode};
use owned_dom::sink::{NodeOrText, Sink};

fn attr(name: &str, value: &str) -> Attribute {
    Attribute { name: String::from(name), value: String::from(value) }
}

fn text_of(sink: &Sink, h: owned_dom::sink::Handle) -> String {
    match sink.node_payload(h) {
        NodeEnum::Text(t) => t,
        _ => panic!("expected a text node"),
    }
}

#[test]
fn text_coalescing() {
    let mut sink = Sink::default();
    let doc = sink.get_document();
    sink.append(doc, NodeOrText::AppendText(String::from("ab")));
    sink.append(doc, NodeOrText::AppendText(String::from("cd")));
    assert_eq!(sink.child_count(doc), 1);
    let only = sink.child_at(doc, 0);
    assert_eq!(text_of(&sink, only), "abcd");
}

#[test]
fn insertion_before_with_merge() {
    let mut sink = Sink::default();
    let doc = sink.get_document();
    sink.append(doc, NodeOrText::AppendText(String::from("foo")));
    let span = sink.create_element(String::from("span"), vec![]);
    sink.append(doc, NodeOrText::AppendNode(span));
    assert_eq!(sink.child_count(doc), 2);
    sink.append_before_sibling(span, NodeOrText::AppendText(String::from("bar")));
    assert_eq!(sink.child_count(doc), 2);
    let first = sink.child_at(doc, 0);
    assert_eq!(text_of(&sink, first), "foobar");
    let second = sink.child_at(doc, 1);
    assert!(sink.same_node(second, span));
    assert_eq!(sink.elem_name(span), "span");
}

#[test]
fn insertion_before_without_merge() {
    let mut sink = Sink::default();
    let doc = sink.get_document();
    let span = sink.create_element(String::from("span"), vec![]);
    sink.append(doc, NodeOrText::AppendNode(span));
    sink.append_before_sibling(span, NodeOrText::AppendText(String::from("bar")));
    assert_eq!(sink.child_count(doc), 2);
    let first = sink.child_at(doc, 0);
    assert_eq!(text_of(&sink, first), "bar");
}

#[test]
fn reparent_on_insert() {
    let mut sink = Sink::default();
    let doc = sink.get_document();
    let old_parent = sink.create_element(String::from("div"), vec![]);
    let new_parent = sink.create_element(String::from("ul"), vec![]);
    let moved = sink.create_element(String::from("li"), vec![]);
    let sibling = sink.create_element(String::from("li"), vec![]);
    sink.append(doc, NodeOrText::AppendNode(old_parent));
    sink.append(doc, NodeOrText::AppendNode(new_parent));
    sink.append(old_parent, NodeOrText::AppendNode(moved));
    sink.append(new_parent, NodeOrText::AppendNode(sibling));
    assert_eq!(sink.child_count(old_parent), 1);
    sink.append_before_sibling(sibling, NodeOrText::AppendNode(moved));
    assert_eq!(sink.child_count(old_parent), 0);
    assert_eq!(sink.child_count(new_parent), 2);
    assert!(sink.same_node(sink.child_at(new_parent, 0), moved));
    assert!(sink.same_node(sink.child_at(new_parent, 1), sibling));
}

#[test]
fn move_within_same_parent_stays_before_sibling() {
    let mut sink = Sink::default();
    let doc = sink.get_document();
    let parent = sink.create_element(String::from("tbody"), vec![]);
    sink.append(doc, NodeOrText::AppendNode(parent));
    let a = sink.create_element(String::from("tr"), vec![]);
    let b = sink.create_element(String::from("td"), vec![]);
    let c = sink.create_element(String::from("table"), vec![]);
    sink.append(parent, NodeOrText::AppendNode(a));
    sink.append(parent, NodeOrText::AppendNode(b));
    sink.append(parent, NodeOrText::AppendNode(c));
    sink.append_before_sibling(c, NodeOrText::AppendNode(a));
    assert_eq!(sink.child_count(parent), 3);
    assert!(sink.same_node(sink.child_at(parent, 0), b));
    assert!(sink.same_node(sink.child_at(parent, 1), a));
    assert!(sink.same_node(sink.child_at(parent, 2), c));
}

#[test]
fn attribute_merge_precedence() {
    let mut sink = Sink::default();
    let doc = sink.get_document();
    let elem = sink.create_element(String::from("a"), vec![attr("href", "a")]);
    sink.append(doc, NodeOrText::AppendNode(elem));
    sink.add_attrs_if_missing(elem, vec![attr("href", "b"), attr("class", "c")]);
    match sink.node_payload(elem) {
        NodeEnum::Element(name, attrs) => {
            assert_eq!(name, "a");
            assert_eq!(attrs.len(), 2);
            assert_eq!(attrs[0].name, "href");
            assert_eq!(attrs[0].value, "a");
            assert_eq!(attrs[1].name, "class");
            assert_eq!(attrs[1].value, "c");
        }
        _ => panic!("expected an element"),
    }
}

#[test]
fn add_attrs_on_non_element_is_noop() {
    let mut sink = Sink::default();
    let doc = sink.get_document();
    let comment = sink.create_comment(String::from("note"));
    sink.append(doc, NodeOrText::AppendNode(comment));
    sink.add_attrs_if_missing(comment, vec![attr("href", "b")]);
    match sink.node_payload(comment) {
        NodeEnum::Comment(t) => assert_eq!(t, "note"),
        _ => panic!("expected a comment"),
    }
}

#[test]
fn idempotent_detach() {
    let mut sink = Sink::default();
    let doc = sink.get_document();
    let node = sink.create_element(String::from("p"), vec![]);
    sink.append(doc, NodeOrText::AppendNode(node));
    assert!(sink.has_parent_node(node));
    sink.remove_from_parent(node);
    assert!(!sink.has_parent_node(node));
    assert_eq!(sink.child_count(doc), 0);
    sink.remove_from_parent(node);
    sink.remove_from_parent(node);
    assert!(!sink.has_parent_node(node));
    assert_eq!(sink.child_count(doc), 0);
}

#[test]
fn reparent_children_moves_all_in_order() {
    let mut sink = Sink::default();
    let doc = sink.get_document();
    let source = sink.create_element(String::from("div"), vec![]);
    let dest = sink.create_element(String::from("section"), vec![]);
    sink.append(doc, NodeOrText::AppendNode(source));
    sink.append(doc, NodeOrText::AppendNode(dest));
    let kept = sink.create_element(String::from("em"), vec![]);
    sink.append(dest, NodeOrText::AppendNode(kept));
    let a = sink.create_element(String::from("b"), vec![]);
    let b = sink.create_element(String::from("i"), vec![]);
    sink.append(source, NodeOrText::AppendNode(a));
    sink.append(source, NodeOrText::AppendNode(b));
    sink.reparent_children(source, dest);
    assert_eq!(sink.child_count(source), 0);
    assert_eq!(sink.child_count(dest), 3);
    assert!(sink.same_node(sink.child_at(dest, 0), kept));
    assert!(sink.same_node(sink.child_at(dest, 1), a));
    assert!(sink.same_node(sink.child_at(dest, 2), b));
    assert!(sink.has_parent_node(a));
    assert!(sink.has_parent_node(b));
}

#[test]
fn doctype_goes_under_document() {
    let mut sink = Sink::default();
    let doc = sink.get_document();
    sink.append_doctype_to_document(
        String::from("html"),
        String::from(""),
        String::from(""),
    );
    assert_eq!(sink.child_count(doc), 1);
    match sink.node_payload(sink.child_at(doc, 0)) {
        NodeEnum::Doctype(name, public_id, system_id) => {
            assert_eq!(name, "html");
            assert_eq!(public_id, "");
            assert_eq!(system_id, "");
        }
        _ => panic!("expected a doctype"),
    }
}

#[test]
fn parse_errors_and_quirks_are_bookkept() {
    let mut sink = Sink::default();
    sink.parse_error(String::from("unexpected tag"));
    sink.parse_error(String::from("stray end tag"));
    sink.set_quirks_mode(QuirksMode::Quirks);
    let dom = owned_dom::owned::OwnedDom::get_result(sink);
    assert_eq!(dom.errors.len(), 2);
    assert_eq!(dom.errors[0], "unexpected tag");
    assert_eq!(dom.errors[1], "stray end tag");
    assert!(matches!(dom.quirks_mode, QuirksMode::Quirks));
}

#[test]
fn same_node_is_reference_identity() {
    let mut sink = Sink::default();
    let a = sink.create_comment(String::from("x"));
    let b = sink.create_comment(String::from("x"));
    assert!(sink.same_node(a, a));
    assert!(!sink.same_node(a, b));
}

#[test]
fn append_to_existing_text_reports_merge() {
    let mut sink = Sink::default();
    let doc = sink.get_document();
    let t = sink.new_node(NodeEnum::Text(String::from("ab")));
    sink.append(doc, NodeOrText::AppendNode(t));
    assert!(sink.append_to_existing_text(t, &String::from("cd")));
    assert_eq!(text_of(&sink, t), "abcd");
    let c = sink.create_comment(String::from("x"));
    assert!(!sink.append_to_existing_text(c, &String::from("cd")));
}
