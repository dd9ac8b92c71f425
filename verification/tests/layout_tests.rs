use robinson::css::{Declaration, Rule, Selector, SimpleSelector, StyleSheet, Value};
use robinson::dom::{elem, AttrMap};
use robinson::layout::{build_layout_tree, BoxType, LayoutError};
use robinson::style::style_tree;

fn tag_rule(tag: &str, display: &str) -> Rule {
    Rule {
        selectors: vec![Selector::Simple(SimpleSelector {
            tag_name: Some(String::from(tag)),
            id: None,
            class: Vec::new(),
        })],
        declarations: vec![Declaration {
            name: String::from("display"),
            value: Value::Keyword(String::from(display)),
        }],
    }
}

fn block_div_sheet(rules: Vec<Rule>) -> StyleSheet {
    let mut all = vec![tag_rule("div", "block")];
    all.extend(rules);
    StyleSheet { rules: all }
}

#[test]
fn block_then_inline_child_boxes() {
    // A block containing a block child then an inline child: a Block box,
    // then an AnonymousBlock holding the inline box.
    let doc = elem(
        String::from("div"),
        AttrMap::new(),
        vec![
            elem(String::from("p"), AttrMap::new(), Vec::new()),
            elem(String::from("span"), AttrMap::new(), Vec::new()),
        ],
    );
    let sheet = block_div_sheet(vec![tag_rule("p", "block")]);
    let styled = style_tree(&doc, &sheet);
    let root = build_layout_tree(&styled).unwrap();
    assert!(matches!(root.box_type, BoxType::BlockNode(_)));
    assert_eq!(root.children.len(), 2);
    assert!(matches!(root.children[0].box_type, BoxType::BlockNode(_)));
    assert!(matches!(root.children[1].box_type, BoxType::AnonymousBlock));
    assert_eq!(root.children[1].children.len(), 1);
    assert!(matches!(
        root.children[1].children[0].box_type,
        BoxType::InlineNode(_)
    ));
}

#[test]
fn consecutive_inline_children_share_one_anonymous_block() {
    let doc = elem(
        String::from("div"),
        AttrMap::new(),
        vec![
            elem(String::from("span"), AttrMap::new(), Vec::new()),
            elem(String::from("span"), AttrMap::new(), Vec::new()),
        ],
    );
    let sheet = block_div_sheet(Vec::new());
    let styled = style_tree(&doc, &sheet);
    let root = build_layout_tree(&styled).unwrap();
    assert_eq!(root.children.len(), 1);
    assert!(matches!(root.children[0].box_type, BoxType::AnonymousBlock));
    assert_eq!(root.children[0].children.len(), 2);
}

#[test]
fn display_none_child_contributes_no_box() {
    let doc = elem(
        String::from("div"),
        AttrMap::new(),
        vec![
            elem(String::from("p"), AttrMap::new(), Vec::new()),
            elem(String::from("aside"), AttrMap::new(), Vec::new()),
            elem(String::from("h1"), AttrMap::new(), Vec::new()),
        ],
    );
    let sheet = block_div_sheet(
        vec![
            tag_rule("p", "block"),
            tag_rule("aside", "none"),
            tag_rule("h1", "block"),
        ],
    );
    let styled = style_tree(&doc, &sheet);
    let root = build_layout_tree(&styled).unwrap();
    assert_eq!(root.children.len(), 2);
    assert!(matches!(root.children[0].box_type, BoxType::BlockNode(_)));
    assert!(matches!(root.children[1].box_type, BoxType::BlockNode(_)));
}

#[test]
fn root_display_none_is_an_error() {
    let doc = elem(String::from("div"), AttrMap::new(), Vec::new());
    let sheet = StyleSheet {
        rules: vec![tag_rule("div", "none")],
    };
    let styled = style_tree(&doc, &sheet);
    assert_eq!(
        build_layout_tree(&styled).err(),
        Some(LayoutError::RootDisplayNone)
    );
}

#[test]
fn inline_root_keeps_inline_children_unwrapped() {
    let doc = elem(
        String::from("span"),
        AttrMap::new(),
        vec![elem(String::from("em"), AttrMap::new(), Vec::new())],
    );
    let sheet = StyleSheet { rules: Vec::new() };
    let styled = style_tree(&doc, &sheet);
    let root = build_layout_tree(&styled).unwrap();
    assert!(matches!(root.box_type, BoxType::InlineNode(_)));
    assert_eq!(root.children.len(), 1);
    assert!(matches!(root.children[0].box_type, BoxType::InlineNode(_)));
}
