use scraper::escape_default;
use scraper::CssLocalName;
use scraper::CssString;

#[test]
fn escape_default_rewrites_controls_and_quotes() {
    assert_eq!(escape_default("plain"), "plain");
    assert_eq!(escape_default("a\tb"), "a\\tb");
    assert_eq!(escape_default("line\nbreak\r"), "line\\nbreak\\r");
    assert_eq!(escape_default("back\\slash"), "back\\\\slash");
    assert_eq!(escape_default("'quoted' \"twice\""), "\\'quoted\\' \\\"twice\\\"");
    assert_eq!(escape_default(""), "");
}

#[test]
fn escape_default_hex_escapes_other_characters() {
    assert_eq!(escape_default("\u{1}"), "\\u{1}");
    assert_eq!(escape_default("\u{7f}"), "\\u{7f}");
    assert_eq!(escape_default("caf\u{e9}"), "caf\\u{e9}");
    assert_eq!(escape_default("\u{1f600}"), "\\u{1f600}");
    assert_eq!(
        "\u{1}".chars().flat_map(|c| c.escape_default()).collect::<String>(),
        escape_default("\u{1}")
    );
    assert_eq!(
        "a\tb caf\u{e9}\u{0}".chars().flat_map(|c| c.escape_default()).collect::<String>(),
        escape_default("a\tb caf\u{e9}\u{0}")
    );
}

#[test]
fn css_wrappers_keep_their_text() {
    let v = CssString::new(String::from("bar"));
    assert_eq!(v.text, "bar");
    let n = CssLocalName::new(String::from("li"));
    assert_eq!(n.text, "li");
}
