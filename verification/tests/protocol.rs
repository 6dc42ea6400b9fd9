use scraper::Attribute;
use scraper::Html;
use scraper::Node;
use scraper::NodeOrText;
use scraper::QualName;
use scraper::QuirksMode;

fn qual(local: &str) -> QualName {
    QualName { ns: String::new(), local: String::from(local) }
}

fn html_qual(local: &str) -> QualName {
    QualName {
        ns: String::from("http://www.w3.org/1999/xhtml"),
        local: String::from(local),
    }
}

fn attr(local: &str, value: &str) -> Attribute {
    Attribute { name: qual(local), value: String::from(value) }
}

fn text_of(h: &Html, id: scraper::NodeId) -> String {
    match h.tree.get(id) {
        Node::Text(t) => t.text.clone(),
        other => panic!("expected a text node, found {:?}", other),
    }
}

#[test]
fn appending_two_text_runs_yields_one_child() {
    let mut h = Html::new_fragment();
    let root = h.get_document();
    h.append(root, NodeOrText::AppendText(String::from("a")));
    h.append(root, NodeOrText::AppendText(String::from("b")));
    let only = h.tree.first_child(root).unwrap();
    assert_eq!(h.tree.last_child(root), Some(only));
    assert!(h.tree.next_sibling(only).is_none());
    assert_eq!(text_of(&h, only), "ab");
}

#[test]
fn text_does_not_merge_across_an_element() {
    let mut h = Html::new_fragment();
    let root = h.get_document();
    h.append(root, NodeOrText::AppendText(String::from("a")));
    let div = h.create_element(html_qual("div"), Vec::new());
    h.append(root, NodeOrText::AppendNode(div));
    h.append(root, NodeOrText::AppendText(String::from("b")));
    let first = h.tree.first_child(root).unwrap();
    let second = h.tree.next_sibling(first).unwrap();
    let third = h.tree.next_sibling(second).unwrap();
    assert!(h.tree.next_sibling(third).is_none());
    assert_eq!(text_of(&h, first), "a");
    assert!(h.tree.get(second).is_element());
    assert_eq!(text_of(&h, third), "b");
}

#[test]
fn append_before_detached_sibling_fails_without_mutating() {
    let mut h = Html::new_fragment();
    let orphan = h.create_element(html_qual("div"), Vec::new());
    let r = h.append_before_sibling(orphan, NodeOrText::AppendText(String::from("x")));
    assert!(r.is_err());
    assert!(h.tree.first_child(h.get_document()).is_none());
}

#[test]
fn append_before_sibling_coalesces_with_previous_text() {
    let mut h = Html::new_fragment();
    let root = h.get_document();
    h.append(root, NodeOrText::AppendText(String::from("he")));
    let b = h.create_element(html_qual("b"), Vec::new());
    h.append(root, NodeOrText::AppendNode(b));
    let r = h.append_before_sibling(b, NodeOrText::AppendText(String::from("llo")));
    assert!(r.is_ok());
    let first = h.tree.first_child(root).unwrap();
    assert_eq!(text_of(&h, first), "hello");
    assert_eq!(h.tree.next_sibling(first), Some(b));
    assert_eq!(h.tree.last_child(root), Some(b));
}

#[test]
fn append_before_sibling_inserts_fresh_text_after_element() {
    let mut h = Html::new_fragment();
    let root = h.get_document();
    let a = h.create_element(html_qual("a"), Vec::new());
    let b = h.create_element(html_qual("b"), Vec::new());
    h.append(root, NodeOrText::AppendNode(a));
    h.append(root, NodeOrText::AppendNode(b));
    let r = h.append_before_sibling(b, NodeOrText::AppendText(String::from("mid")));
    assert!(r.is_ok());
    let second = h.tree.next_sibling(a).unwrap();
    assert_eq!(text_of(&h, second), "mid");
    assert_eq!(h.tree.next_sibling(second), Some(b));
    assert_eq!(h.tree.prev_sibling(b), Some(second));
}

#[test]
fn append_before_sibling_moves_an_attached_node() {
    let mut h = Html::new_fragment();
    let root = h.get_document();
    let a = h.create_element(html_qual("a"), Vec::new());
    let b = h.create_element(html_qual("b"), Vec::new());
    h.append(root, NodeOrText::AppendNode(a));
    h.append(root, NodeOrText::AppendNode(b));
    let r = h.append_before_sibling(a, NodeOrText::AppendNode(b));
    assert!(r.is_ok());
    assert_eq!(h.tree.first_child(root), Some(b));
    assert_eq!(h.tree.next_sibling(b), Some(a));
    assert_eq!(h.tree.last_child(root), Some(a));
}

#[test]
fn template_element_carries_fragment_contents() {
    let mut h = Html::new_document();
    let t = h.create_element(html_qual("template"), Vec::new());
    let contents = h.get_template_contents(t);
    assert!(h.tree.get(contents).is_fragment());
    assert_eq!(h.tree.parent(contents), Some(t));
    let div = h.create_element(html_qual("div"), Vec::new());
    assert!(h.tree.get(div).is_element());
    assert!(h.tree.first_child(div).is_none());
}

#[test]
fn add_attrs_if_missing_keeps_earliest_values() {
    let mut h = Html::new_document();
    let e = h.create_element(html_qual("input"), vec![attr("type", "hidden")]);
    h.add_attrs_if_missing(e, vec![attr("type", "text"), attr("name", "foo")]);
    let elem = h.tree.get(e).as_element().unwrap();
    assert_eq!(elem.attr("type").map(|s| s.as_str()), Some("hidden"));
    assert_eq!(elem.attr("name").map(|s| s.as_str()), Some("foo"));
}

#[test]
fn doctype_lands_under_the_document_root() {
    let mut h = Html::new_document();
    h.append_doctype_to_document(
        String::from("html"),
        String::new(),
        String::new(),
    );
    let first = h.tree.first_child(h.get_document()).unwrap();
    let d = h.tree.get(first).as_doctype().unwrap();
    assert_eq!(d.name, "html");
    assert_eq!(d.public_id, "");
    assert_eq!(d.system_id, "");
}

#[test]
fn quirks_mode_last_write_wins() {
    let mut h = Html::new_document();
    assert_eq!(h.quirks_mode, QuirksMode::NoQuirks);
    h.set_quirks_mode(QuirksMode::LimitedQuirks);
    h.set_quirks_mode(QuirksMode::Quirks);
    assert_eq!(h.quirks_mode, QuirksMode::Quirks);
}

#[test]
fn parse_errors_accumulate_in_order() {
    let mut h = Html::new_document();
    h.parse_error(String::from("first"));
    h.parse_error(String::from("second"));
    assert_eq!(h.errors, vec![String::from("first"), String::from("second")]);
}

#[test]
fn remove_from_parent_detaches() {
    let mut h = Html::new_fragment();
    let root = h.get_document();
    let a = h.create_element(html_qual("a"), Vec::new());
    h.append(root, NodeOrText::AppendNode(a));
    h.remove_from_parent(a);
    assert!(h.tree.parent(a).is_none());
    assert!(h.tree.first_child(root).is_none());
    h.remove_from_parent(a);
    assert!(h.tree.parent(a).is_none());
}

#[test]
fn created_element_derives_id_and_classes() {
    let mut h = Html::new_fragment();
    let e = h.create_element(
        html_qual("p"),
        vec![attr("id", "link_id_456"), attr("class", "  my_class  other ")],
    );
    let elem = h.tree.get(e).as_element().unwrap();
    assert_eq!(elem.id().as_deref(), Some("link_id_456"));
    assert!(elem.has_class("my_class"));
    assert!(elem.has_class("other"));
    assert!(!elem.has_class("missing"));
    assert_eq!(elem.name().as_str(), "p");
}

#[test]
fn same_node_is_handle_identity() {
    let mut h = Html::new_fragment();
    let a = h.create_element(html_qual("a"), Vec::new());
    let b = h.create_element(html_qual("a"), Vec::new());
    assert!(h.same_node(a, a));
    assert!(!h.same_node(a, b));
    h.mark_script_already_started(a);
    assert!(h.same_node(a, a));
}

#[test]
fn test_has_class() {
    let mut h = Html::new_fragment();
    let with_class = h.create_element(html_qual("p"), vec![attr("class", "my_class")]);
    let elem = h.tree.get(with_class).as_element().unwrap();
    assert_eq!(true, elem.has_class("my_class"));

    let without_class = h.create_element(html_qual("p"), Vec::new());
    let elem = h.tree.get(without_class).as_element().unwrap();
    assert_eq!(false, elem.has_class("my_class"));
}
