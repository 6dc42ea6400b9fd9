use scraper::Attribute;
use scraper::Element;
use scraper::Node;
use scraper::QualName;
use scraper::Text;

fn qual(local: &str) -> QualName {
    QualName { ns: String::new(), local: String::from(local) }
}

fn sample_input() -> Element {
    Element {
        name: qual("input"),
        id: None,
        classes: vec![String::from("wide"), String::from("hidden")],
        attrs: vec![
            Attribute { name: qual("type"), value: String::from("hidden") },
            Attribute { name: qual("name"), value: String::from("foo") },
            Attribute { name: qual("value"), value: String::from("bar") },
        ],
    }
}

#[test]
fn attr_finds_value_by_name() {
    let e = sample_input();
    assert_eq!(e.attr("value").map(|s| s.as_str()), Some("bar"));
    assert_eq!(e.attr("name").map(|s| s.as_str()), Some("foo"));
    assert_eq!(e.attr("missing"), None);
    assert_eq!(e.name().as_str(), "input");
    assert!(e.id().is_none());
}

#[test]
fn has_class_checks_membership() {
    let e = sample_input();
    assert!(e.has_class("wide"));
    assert!(e.has_class("hidden"));
    assert!(!e.has_class("narrow"));
    assert!(!e.has_class(""));
}

#[test]
fn node_variant_accessors_agree() {
    let t = Node::Text(Text { text: String::from("ab") });
    assert!(t.is_text());
    assert!(!t.is_element());
    assert!(!t.is_document());
    assert_eq!(t.as_text().map(|x| x.text.as_str()), Some("ab"));
    assert!(t.as_element().is_none());

    let d = Node::Document;
    assert!(d.is_document());
    assert!(!d.is_fragment());

    let e = Node::Element(sample_input());
    assert!(e.is_element());
    assert_eq!(e.as_element().map(|x| x.name().as_str()), Some("input"));
    assert!(e.as_comment().is_none());
}
