use robinson::dom::{elem, text, AttrMap};
use robinson::parser::{ParseError, Parser};

#[test]
fn display_simple() {
    let node = elem(
        String::from("div"),
        AttrMap::new(),
        vec![
            elem(
                String::from("h1"),
                AttrMap::new(),
                vec![text(String::from("h1 text"))],
            ),
            elem(
                String::from("h2"),
                AttrMap::new(),
                vec![text(String::from("h2 text"))],
            ),
            elem(
                String::from("h3"),
                AttrMap::new(),
                vec![text(String::from("h3 text"))],
            ),
        ],
    );
    assert_eq!(
        "<div><h1>h1 text</h1><h2>h2 text</h2><h3>h3 text</h3></div>",
        node.serialize()
    );
}

#[test]
fn display_attr() {
    let mut attrs = AttrMap::new();
    attrs.insert(String::from("a"), String::from("b"));
    attrs.insert(String::from("c"), String::from("d"));
    let node = elem(String::from("div"), attrs, Vec::new());
    assert_eq!("<div a=\"b\" c=\"d\"></div>", node.serialize());
}

#[test]
fn display_attr_either_insertion_order() {
    let mut first = AttrMap::new();
    first.insert(String::from("a"), String::from("b"));
    first.insert(String::from("c"), String::from("d"));
    let mut second = AttrMap::new();
    second.insert(String::from("c"), String::from("d"));
    second.insert(String::from("a"), String::from("b"));
    let one = elem(String::from("div"), first, Vec::new());
    let other = elem(String::from("div"), second, Vec::new());
    assert_eq!("<div a=\"b\" c=\"d\"></div>", one.serialize());
    assert_eq!(one.serialize(), other.serialize());
}

#[test]
fn parse_simple() {
    let node = Parser::parse(
        "
<p>p1</p>
<p>p2</p>
<p a=\"b\">p3</p>
        "
        .to_string(),
    )
    .unwrap();

    assert_eq!(
        "<html><p>p1</p><p>p2</p><p a=\"b\">p3</p></html>",
        node.serialize()
    );
}

#[test]
fn parse_single_root_is_not_wrapped() {
    let node = Parser::parse("<p>hi</p>".to_string()).unwrap();
    assert_eq!("<p>hi</p>", node.serialize());
}

#[test]
fn parse_empty_input_gives_empty_root() {
    let node = Parser::parse(String::new()).unwrap();
    assert_eq!("<html></html>", node.serialize());
}

#[test]
fn parse_attribute_without_equals() {
    assert_eq!(
        Parser::parse("<p a>x</p>".to_string()).err(),
        Some(ParseError::ExpectedEquals)
    );
}

#[test]
fn parse_attribute_without_quote() {
    assert_eq!(
        Parser::parse("<p a=b>x</p>".to_string()).err(),
        Some(ParseError::ExpectedQuote)
    );
}

#[test]
fn parse_attribute_without_closing_quote() {
    assert_eq!(
        Parser::parse("<p a=\"b>x</p>".to_string()).err(),
        Some(ParseError::UnterminatedValue)
    );
}

#[test]
fn parse_unclosed_open_tag() {
    assert_eq!(
        Parser::parse("<p".to_string()).err(),
        Some(ParseError::UnclosedTag)
    );
}

#[test]
fn parse_missing_closing_tag() {
    assert_eq!(
        Parser::parse("<p>x".to_string()).err(),
        Some(ParseError::MissingClosingTag)
    );
}

#[test]
fn parse_mismatched_closing_tag() {
    assert_eq!(
        Parser::parse("<p>x</q>".to_string()).err(),
        Some(ParseError::MismatchedClosingTag)
    );
}

#[test]
fn parse_single_quoted_attribute() {
    let node = Parser::parse("<p a='b'>x</p>".to_string()).unwrap();
    assert_eq!("<p a=\"b\">x</p>", node.serialize());
}

#[test]
fn attr_map_get_and_overwrite() {
    let mut attrs = AttrMap::new();
    assert_eq!(attrs.len(), 0);
    assert!(attrs.get("id").is_none());
    attrs.insert(String::from("id"), String::from("one"));
    attrs.insert(String::from("id"), String::from("two"));
    assert_eq!(attrs.len(), 1);
    assert_eq!(attrs.get("id").map(String::as_str), Some("two"));
}

#[test]
fn element_id_and_classes() {
    let mut attrs = AttrMap::new();
    attrs.insert(String::from("id"), String::from("main"));
    attrs.insert(String::from("class"), String::from("a b"));
    let node = elem(String::from("div"), attrs, Vec::new());
    match &node.node_type {
        robinson::dom::NodeType::Element(e) => {
            assert_eq!(e.id().map(String::as_str), Some("main"));
            let classes = e.classes();
            assert_eq!(classes, vec![String::from("a"), String::from("b")]);
        }
        robinson::dom::NodeType::Text(_) => panic!("expected an element"),
    }
}
