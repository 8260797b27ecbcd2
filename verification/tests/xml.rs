use railml2dgraph::text::{chars_of, str_eq};
use railml2dgraph::xml::Element;

fn el(name: &str, ns: Option<&str>, attrs: &[(&str, &str)], children: Vec<Element>) -> Element {
    Element {
        name: name.to_string(),
        namespace: ns.map(|s| s.to_string()),
        attributes: attrs.iter().map(|(k, v)| (k.to_string(), v.to_string())).collect(),
        children,
    }
}

#[test]
fn attr_gives_the_first_value() {
    let e = el("x", None, &[("a", "1"), ("b", "2"), ("a", "3")], vec![]);
    assert_eq!(e.attr("a").map(|s| s.as_str()), Some("1"));
    assert_eq!(e.attr("b").map(|s| s.as_str()), Some("2"));
    assert_eq!(e.attr("c"), None);
}

#[test]
fn get_child_matches_name_and_namespace() {
    let e = el(
        "root",
        Some("n"),
        &[],
        vec![
            el("kid", None, &[("i", "0")], vec![]),
            el("kid", Some("m"), &[("i", "1")], vec![]),
            el("kid", Some("n"), &[("i", "2")], vec![]),
            el("kid", Some("n"), &[("i", "3")], vec![]),
        ],
    );
    assert_eq!(e.get_child("kid", "n").unwrap().attr("i").unwrap(), "2");
    assert_eq!(e.get_child("kid", "m").unwrap().attr("i").unwrap(), "1");
    assert!(e.get_child("kid", "").is_none());
    assert!(e.get_child("Kid", "n").is_none());
}

#[test]
fn lowercase_lookup_follows_unicode() {
    let e = el(
        "root",
        None,
        &[],
        vec![el("Other", None, &[], vec![]), el("TRAC\u{212A}S", None, &[("i", "k")], vec![]), el("tracks", None, &[], vec![])],
    );
    assert_eq!(e.first_child_lowercase("tracks").unwrap().attr("i").unwrap(), "k");
    assert!(e.first_child_lowercase("TRACKS").is_none());
}

#[test]
fn children_named_counts_and_finds_the_first() {
    let e = el(
        "switch",
        None,
        &[],
        vec![
            el("x", None, &[], vec![]),
            el("connection", Some("a"), &[("i", "1")], vec![]),
            el("connection", None, &[("i", "2")], vec![]),
        ],
    );
    let (n, first) = e.children_named("connection");
    assert_eq!(n, 2);
    assert_eq!(first.unwrap().attr("i").unwrap(), "1");
    let (n, first) = e.children_named("none");
    assert_eq!(n, 0);
    assert!(first.is_none());
}

#[test]
fn text_helpers() {
    assert!(str_eq("abc", "abc"));
    assert!(!str_eq("abc", "abd"));
    assert_eq!(chars_of("aé€"), vec!['a', 'é', '€']);
}
