use scraper::Attribute;
use scraper::Html;
use scraper::NodeOrText;
use scraper::QualName;
use scraper::SelectorErrorKind;

fn html_qual(local: &str) -> QualName {
    QualName {
        ns: String::from("http://www.w3.org/1999/xhtml"),
        local: String::from(local),
    }
}

fn attr(local: &str, value: &str) -> Attribute {
    Attribute {
        name: QualName { ns: String::new(), local: String::from(local) },
        value: String::from(value),
    }
}

fn list_fragment() -> Html {
    let mut h = Html::new_fragment();
    let root = h.get_document();
    let ul = h.create_element(html_qual("ul"), Vec::new());
    h.append(root, NodeOrText::AppendNode(ul));
    let li1 = h.create_element(html_qual("li"), Vec::new());
    h.append(ul, NodeOrText::AppendNode(li1));
    h.append(li1, NodeOrText::AppendText(String::from("Foo")));
    let li2 = h.create_element(html_qual("li"), Vec::new());
    h.append(ul, NodeOrText::AppendNode(li2));
    h.append(li2, NodeOrText::AppendText(String::from("Bar")));
    h
}

#[test]
fn candidates_are_descendant_elements_in_document_order() {
    let h = list_fragment();
    let root = h.get_document();
    let cands = h.select_candidates(root);
    let names: Vec<&str> = cands
        .iter()
        .map(|id| h.tree.get(*id).as_element().unwrap().name().as_str())
        .collect();
    assert_eq!(names, ["ul", "li", "li"]);
    let li_texts: Vec<Vec<String>> = cands
        .iter()
        .filter(|id| h.tree.get(**id).as_element().unwrap().name().as_str() == "li")
        .map(|id| h.text_fragments(*id))
        .collect();
    assert_eq!(li_texts, [vec![String::from("Foo")], vec![String::from("Bar")]]);
}

#[test]
fn candidate_walk_is_lazy_and_ordered() {
    let h = list_fragment();
    let root = h.get_document();
    let mut walk = h.select(root);
    let first = walk.next().unwrap();
    assert_eq!(h.tree.get(first).as_element().unwrap().name().as_str(), "ul");
    let second = walk.next().unwrap();
    assert_eq!(h.tree.get(second).as_element().unwrap().name().as_str(), "li");
    let third = walk.next().unwrap();
    assert_eq!(h.tree.get(third).as_element().unwrap().name().as_str(), "li");
    assert!(walk.next().is_none());
    assert!(walk.next().is_none());
}

#[test]
fn scope_is_excluded_from_its_own_candidates() {
    let h = list_fragment();
    let root = h.get_document();
    let ul = h.select_candidates(root)[0];
    let under_ul = h.select_candidates(ul);
    let names: Vec<&str> = under_ul
        .iter()
        .map(|id| h.tree.get(*id).as_element().unwrap().name().as_str())
        .collect();
    assert_eq!(names, ["li", "li"]);
}

#[test]
fn attribute_lookup_through_candidates() {
    let mut h = Html::new_fragment();
    let root = h.get_document();
    let input = h.create_element(
        html_qual("input"),
        vec![attr("type", "hidden"), attr("name", "foo"), attr("value", "bar")],
    );
    h.append(root, NodeOrText::AppendNode(input));
    let cands = h.select_candidates(root);
    let found: Vec<_> = cands
        .iter()
        .filter(|id| {
            let e = h.tree.get(**id).as_element().unwrap();
            e.name().as_str() == "input"
                && e.attr("name").map(|v| v.as_str()) == Some("foo")
        })
        .collect();
    assert_eq!(found.len(), 1);
    let e = h.tree.get(*found[0]).as_element().unwrap();
    assert_eq!(e.attr("value").map(|v| v.as_str()), Some("bar"));
}

#[test]
fn text_fragments_walk_the_subtree_in_order() {
    let h = list_fragment();
    let root = h.get_document();
    assert_eq!(
        h.text_fragments(root),
        vec![String::from("Foo"), String::from("Bar")]
    );
}

#[test]
fn selector_error_messages_render() {
    let e = SelectorErrorKind::UnexpectedToken(String::from("<"));
    assert_eq!(e.message(), "Token \"<\" was not expected");
    assert_eq!(SelectorErrorKind::EndOfLine.message(), "Unexpected EOL");
    let e = SelectorErrorKind::InvalidAtRule(String::from("media"));
    assert_eq!(e.message(), "Invalid @-rule \"media\"");
    assert_eq!(
        SelectorErrorKind::InvalidAtRuleBody.message(),
        "The body of an @-rule was invalid"
    );
    assert_eq!(
        SelectorErrorKind::QualRuleInvalid.message(),
        "The qualified name was invalid"
    );
    let e = SelectorErrorKind::ExpectedColonOnPseudoElement(String::from("#"));
    assert_eq!(e.message(), "Expected a ':' token for pseudoelement, got \"#\" instead");
    let e = SelectorErrorKind::ExpectedIdentityOnPseudoElement(String::from("1"));
    assert_eq!(e.message(), "Expected identity for pseudoelement, got \"1\" instead");
}
