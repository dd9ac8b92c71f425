use robinson::css::{Declaration, Rule, Selector, SimpleSelector, StyleSheet, Value};
use robinson::dom::{elem, text, AttrMap, ElementData};
use robinson::style::{specified_values, style_tree, Display};

fn simple(tag: Option<&str>, id: Option<&str>, classes: &[&str]) -> Selector {
    Selector::Simple(SimpleSelector {
        tag_name: tag.map(String::from),
        id: id.map(String::from),
        class: classes.iter().map(|c| String::from(*c)).collect(),
    })
}

fn rule(selectors: Vec<Selector>, declarations: Vec<(&str, &str)>) -> Rule {
    Rule {
        selectors,
        declarations: declarations
            .into_iter()
            .map(|(name, value)| Declaration {
                name: String::from(name),
                value: Value::Keyword(String::from(value)),
            })
            .collect(),
    }
}

fn div_element(attrs: AttrMap) -> ElementData {
    ElementData {
        tag_name: String::from("div"),
        attributes: attrs,
    }
}

fn keyword_of(map: &robinson::style::PropertyMap, name: &str) -> Option<String> {
    match map.get(name) {
        Some(Value::Keyword(s)) => Some(s.clone()),
        _ => None,
    }
}

#[test]
fn selector_specificity_counts() {
    let sel = simple(Some("div"), Some("main"), &["a", "b"]);
    assert_eq!(sel.specificity(), (1, 2, 1));
    let tag_only = simple(Some("div"), None, &[]);
    assert_eq!(tag_only.specificity(), (0, 0, 1));
}

#[test]
fn empty_selector_matches_everything() {
    let e = div_element(AttrMap::new());
    assert!(robinson::style::matches(&e, &simple(None, None, &[])));
}

#[test]
fn tag_selector_matching() {
    let e = div_element(AttrMap::new());
    assert!(robinson::style::matches(&e, &simple(Some("div"), None, &[])));
    assert!(!robinson::style::matches(&e, &simple(Some("p"), None, &[])));
}

#[test]
fn id_selector_matching() {
    let mut attrs = AttrMap::new();
    attrs.insert(String::from("id"), String::from("main"));
    let e = div_element(attrs);
    assert!(robinson::style::matches(&e, &simple(None, Some("main"), &[])));
    assert!(!robinson::style::matches(&e, &simple(None, Some("other"), &[])));
    let bare = div_element(AttrMap::new());
    assert!(!robinson::style::matches(&bare, &simple(None, Some("main"), &[])));
}

#[test]
fn class_selector_matching() {
    let mut attrs = AttrMap::new();
    attrs.insert(String::from("class"), String::from("a b"));
    let e = div_element(attrs);
    assert!(robinson::style::matches(&e, &simple(None, None, &["a"])));
    assert!(robinson::style::matches(&e, &simple(None, None, &["a", "b"])));
    assert!(!robinson::style::matches(&e, &simple(None, None, &["c"])));
    let bare = div_element(AttrMap::new());
    assert!(!robinson::style::matches(&bare, &simple(None, None, &["a"])));
}

#[test]
fn no_matching_rule_gives_empty_map() {
    let e = div_element(AttrMap::new());
    let sheet = StyleSheet {
        rules: vec![rule(vec![simple(Some("p"), None, &[])], vec![("display", "block")])],
    };
    let map = specified_values(&e, &sheet);
    assert!(map.get("display").is_none());
}

#[test]
fn later_rule_wins_on_equal_specificity() {
    let e = div_element(AttrMap::new());
    let sheet = StyleSheet {
        rules: vec![
            rule(vec![simple(Some("div"), None, &[])], vec![("display", "inline")]),
            rule(vec![simple(Some("div"), None, &[])], vec![("display", "block")]),
        ],
    };
    let map = specified_values(&e, &sheet);
    assert_eq!(keyword_of(&map, "display"), Some(String::from("block")));
}

#[test]
fn id_rule_beats_tag_rule_in_either_order() {
    let mut attrs = AttrMap::new();
    attrs.insert(String::from("id"), String::from("main"));
    let e = div_element(attrs);
    let id_first = StyleSheet {
        rules: vec![
            rule(vec![simple(None, Some("main"), &[])], vec![("display", "block")]),
            rule(vec![simple(Some("div"), None, &[])], vec![("display", "inline")]),
        ],
    };
    let tag_first = StyleSheet {
        rules: vec![
            rule(vec![simple(Some("div"), None, &[])], vec![("display", "inline")]),
            rule(vec![simple(None, Some("main"), &[])], vec![("display", "block")]),
        ],
    };
    let a = specified_values(&e, &id_first);
    let b = specified_values(&e, &tag_first);
    assert_eq!(keyword_of(&a, "display"), Some(String::from("block")));
    assert_eq!(keyword_of(&b, "display"), Some(String::from("block")));
}

#[test]
fn first_matching_selector_sets_rule_specificity() {
    // Within one rule, selectors are alternatives tried in declared order.
    let e = div_element(AttrMap::new());
    let sheet = StyleSheet {
        rules: vec![
            rule(
                vec![simple(Some("p"), None, &[]), simple(Some("div"), None, &[])],
                vec![("margin", "auto")],
            ),
        ],
    };
    let map = specified_values(&e, &sheet);
    assert_eq!(keyword_of(&map, "margin"), Some(String::from("auto")));
}

#[test]
fn style_tree_mirrors_document_shape() {
    let doc = elem(
        String::from("div"),
        AttrMap::new(),
        vec![text(String::from("hi")), elem(String::from("p"), AttrMap::new(), Vec::new())],
    );
    let sheet = StyleSheet { rules: Vec::new() };
    let styled = style_tree(&doc, &sheet);
    assert_eq!(styled.children.len(), 2);
    assert!(styled.children[0].children.is_empty());
    assert!(styled.value("display").is_none());
}

#[test]
fn display_defaults_to_inline() {
    let doc = elem(String::from("div"), AttrMap::new(), Vec::new());
    let sheet = StyleSheet { rules: Vec::new() };
    let styled = style_tree(&doc, &sheet);
    assert!(matches!(styled.display(), Display::Inline));
}

#[test]
fn display_reads_block_and_none_keywords() {
    let doc = elem(String::from("div"), AttrMap::new(), Vec::new());
    let block_sheet = StyleSheet {
        rules: vec![rule(vec![simple(Some("div"), None, &[])], vec![("display", "block")])],
    };
    let none_sheet = StyleSheet {
        rules: vec![rule(vec![simple(Some("div"), None, &[])], vec![("display", "none")])],
    };
    assert!(matches!(style_tree(&doc, &block_sheet).display(), Display::Block));
    assert!(matches!(style_tree(&doc, &none_sheet).display(), Display::Nothing));
}

#[test]
fn lookup_uses_fallback_then_default() {
    let doc = elem(String::from("div"), AttrMap::new(), Vec::new());
    let sheet = StyleSheet {
        rules: vec![rule(vec![simple(Some("div"), None, &[])], vec![("margin-left", "1em")])],
    };
    let styled = style_tree(&doc, &sheet);
    let default = Value::Keyword(String::from("0"));
    match styled.lookup("margin-left", "margin", &default) {
        Value::Keyword(s) => assert_eq!(s, "1em"),
        _ => panic!("expected a keyword"),
    }
    match styled.lookup("margin-top", "margin-left", &default) {
        Value::Keyword(s) => assert_eq!(s, "1em"),
        _ => panic!("expected a keyword"),
    }
    match styled.lookup("margin-top", "margin", &default) {
        Value::Keyword(s) => assert_eq!(s, "0"),
        _ => panic!("expected a keyword"),
    }
}
