use cascade::css::{Color, Declaration, Rule, Selector, SimpleSelector, Stylesheet, Unit, Value};
use cascade::dom::{AttrMap, ElementData, Node, NodeType};
use cascade::error::ParseError;
use cascade::cssparse::parse_stylesheet;
use cascade::markup::source;
use cascade::style::{specified_values, style_tree};

fn simple(tag: Option<&str>, id: Option<&str>, classes: &[&str]) -> Selector {
    Selector::Simple(SimpleSelector {
        tag_name: tag.map(|s| s.to_string()),
        id: id.map(|s| s.to_string()),
        class: classes.iter().map(|s| s.to_string()).collect(),
    })
}

fn div_x_ab() -> ElementData {
    let mut attrs = AttrMap::new();
    attrs.insert("id".to_string(), "x".to_string());
    attrs.insert("class".to_string(), "a b".to_string());
    ElementData { tag_name: "div".to_string(), attributes: attrs }
}

fn keyword_rule(sel: Selector, name: &str, value: &str) -> Rule {
    Rule {
        selectors: vec![sel],
        declarations: vec![Declaration {
            name: name.to_string(),
            value: Value::Keyword(value.to_string()),
        }],
    }
}

#[test]
fn single_root_is_returned_directly() {
    let root = source("<a></a>".to_string()).unwrap();
    match &root.node_type {
        NodeType::Element(ed) => assert_eq!(ed.tag_name, "a"),
        _ => panic!("expected an element root"),
    }
    assert_eq!(root.children.len(), 0);
}

#[test]
fn several_roots_get_a_synthetic_wrapper() {
    let root = source("<a></a><b></b>".to_string()).unwrap();
    match &root.node_type {
        NodeType::Element(ed) => assert_eq!(ed.tag_name, "html"),
        _ => panic!("expected an element root"),
    }
    assert_eq!(root.children.len(), 2);
}

#[test]
fn empty_input_gets_a_synthetic_wrapper() {
    let root = source(String::new()).unwrap();
    match &root.node_type {
        NodeType::Element(ed) => assert_eq!(ed.tag_name, "html"),
        _ => panic!("expected an element root"),
    }
    assert_eq!(root.children.len(), 0);
}

#[test]
fn round_trip_of_attributes_and_children() {
    let root = source("<a id=\"x\" class=\"p q\"><b>hi</b></a>".to_string()).unwrap();
    match &root.node_type {
        NodeType::Element(ed) => {
            assert_eq!(ed.tag_name, "a");
            assert_eq!(ed.attributes.get("id"), Some(&"x".to_string()));
            assert_eq!(ed.attributes.get("class"), Some(&"p q".to_string()));
            assert_eq!(ed.attributes.get("missing"), None);
        },
        _ => panic!("expected an element root"),
    }
    assert_eq!(root.children.len(), 1);
    let b = &root.children[0];
    match &b.node_type {
        NodeType::Element(ed) => assert_eq!(ed.tag_name, "b"),
        _ => panic!("expected an element child"),
    }
    assert_eq!(b.children.len(), 1);
    match &b.children[0].node_type {
        NodeType::Text(t) => assert_eq!(t, "hi"),
        _ => panic!("expected a text grandchild"),
    }
}

#[test]
fn mismatched_closing_tag_is_fatal() {
    assert!(matches!(source("<a></b>".to_string()), Err(ParseError::MalformedMarkup)));
}

#[test]
fn unterminated_quote_is_fatal() {
    assert!(matches!(source("<a id=\"x></a>".to_string()), Err(ParseError::MalformedMarkup)));
}

#[test]
fn leftover_input_is_fatal() {
    assert!(matches!(source("<a></a></b>".to_string()), Err(ParseError::MalformedMarkup)));
}

#[test]
fn specificity_triples_order_lexicographically() {
    let id_sel = simple(None, Some("x"), &[]);
    let class_sel = simple(None, None, &["a", "b"]);
    let tag_sel = simple(Some("div"), None, &[]);
    let empty_sel = simple(None, None, &[]);
    assert_eq!(id_sel.specificity(), (1, 0, 0));
    assert_eq!(class_sel.specificity(), (0, 2, 0));
    assert_eq!(tag_sel.specificity(), (0, 0, 1));
    assert_eq!(empty_sel.specificity(), (0, 0, 0));
    assert!(id_sel.specificity() > class_sel.specificity());
    assert!(class_sel.specificity() > tag_sel.specificity());
    assert!(tag_sel.specificity() > empty_sel.specificity());
}

#[test]
fn matching_obeys_every_present_constraint() {
    let ed = div_x_ab();
    assert!(cascade::style::matches(&ed, &simple(Some("div"), None, &[])));
    assert!(cascade::style::matches(&ed, &simple(None, Some("x"), &[])));
    assert!(cascade::style::matches(&ed, &simple(None, None, &["a"])));
    assert!(cascade::style::matches(&ed, &simple(None, None, &["b"])));
    assert!(cascade::style::matches(&ed, &simple(Some("div"), Some("x"), &["a", "b"])));
    assert!(cascade::style::matches(&ed, &simple(None, None, &[])));
    assert!(!cascade::style::matches(&ed, &simple(Some("span"), None, &[])));
    assert!(!cascade::style::matches(&ed, &simple(None, Some("y"), &[])));
    assert!(!cascade::style::matches(&ed, &simple(None, None, &["c"])));
}

#[test]
fn classes_split_on_whitespace() {
    let ed = div_x_ab();
    assert_eq!(ed.classes(), vec!["a".to_string(), "b".to_string()]);
    assert_eq!(ed.id(), Some(&"x".to_string()));
}

#[test]
fn classes_split_on_tabs_and_runs_of_whitespace() {
    let mut attrs = AttrMap::new();
    attrs.insert("class".to_string(), " a\tb  c ".to_string());
    let ed = ElementData { tag_name: "div".to_string(), attributes: attrs };
    assert_eq!(
        ed.classes(),
        vec!["a".to_string(), "b".to_string(), "c".to_string()]
    );
    assert!(cascade::style::matches(&ed, &simple(None, None, &["b"])));
    assert!(!cascade::style::matches(&ed, &simple(None, None, &[""])));
}

#[test]
fn higher_specificity_wins_regardless_of_source_order() {
    let sheet = Stylesheet {
        rules: vec![
            keyword_rule(simple(None, None, &["a"]), "color", "red"),
            keyword_rule(simple(None, Some("x"), &[]), "color", "blue"),
        ],
    };
    let ed = div_x_ab();
    let values = specified_values(&ed, &sheet);
    match values.get("color") {
        Some(Value::Keyword(k)) => assert_eq!(k, "blue"),
        _ => panic!("expected the id rule's keyword"),
    }
    let reversed = Stylesheet {
        rules: vec![
            keyword_rule(simple(None, Some("x"), &[]), "color", "blue"),
            keyword_rule(simple(None, None, &["a"]), "color", "red"),
        ],
    };
    let values = specified_values(&ed, &reversed);
    match values.get("color") {
        Some(Value::Keyword(k)) => assert_eq!(k, "blue"),
        _ => panic!("expected the id rule's keyword"),
    }
}

#[test]
fn equal_specificity_later_rule_wins() {
    let sheet = Stylesheet {
        rules: vec![
            keyword_rule(simple(None, Some("x"), &[]), "color", "red"),
            keyword_rule(simple(None, Some("x"), &[]), "color", "blue"),
        ],
    };
    let ed = div_x_ab();
    let values = specified_values(&ed, &sheet);
    match values.get("color") {
        Some(Value::Keyword(k)) => assert_eq!(k, "blue"),
        _ => panic!("expected the later rule's keyword"),
    }
}

#[test]
fn later_declaration_in_one_rule_wins() {
    let sheet = Stylesheet {
        rules: vec![Rule {
            selectors: vec![simple(Some("div"), None, &[])],
            declarations: vec![
                Declaration {
                    name: "color".to_string(),
                    value: Value::Keyword("red".to_string()),
                },
                Declaration {
                    name: "color".to_string(),
                    value: Value::Keyword("green".to_string()),
                },
            ],
        }],
    };
    let values = specified_values(&div_x_ab(), &sheet);
    match values.get("color") {
        Some(Value::Keyword(k)) => assert_eq!(k, "green"),
        _ => panic!("expected the later declaration's keyword"),
    }
}

#[test]
fn stylesheet_parses_values_of_each_kind() {
    let sheet = parse_stylesheet("div { color: #ff0080; margin: 4px; display: block; }").unwrap();
    assert_eq!(sheet.rules.len(), 1);
    let rule = &sheet.rules[0];
    assert_eq!(rule.selectors.len(), 1);
    match &rule.selectors[0] {
        Selector::Simple(ss) => {
            assert_eq!(ss.tag_name, Some("div".to_string()));
            assert_eq!(ss.id, None);
        },
    }
    assert_eq!(rule.declarations.len(), 3);
    assert_eq!(rule.declarations[0].name, "color");
    match &rule.declarations[0].value {
        Value::ColorValue(Color { r, g, b, a }) => {
            assert_eq!((*r, *g, *b, *a), (255, 0, 128, 255));
        },
        _ => panic!("expected a color"),
    }
    match &rule.declarations[1].value {
        Value::Length(n, Unit::Px) => assert_eq!(*n, 4),
        _ => panic!("expected a length"),
    }
    match &rule.declarations[2].value {
        Value::Keyword(k) => assert_eq!(k, "block"),
        _ => panic!("expected a keyword"),
    }
}

#[test]
fn selector_list_is_sorted_by_specificity_descending() {
    let sheet = parse_stylesheet("span, #y, * { color: red; }").unwrap();
    let rule = &sheet.rules[0];
    assert_eq!(rule.selectors.len(), 3);
    assert_eq!(rule.selectors[0].specificity(), (1, 0, 0));
    assert_eq!(rule.selectors[1].specificity(), (0, 0, 1));
    assert_eq!(rule.selectors[2].specificity(), (0, 0, 0));
}

#[test]
fn unexpected_selector_character_is_fatal() {
    assert!(matches!(
        parse_stylesheet("div ! { color: red; }"),
        Err(ParseError::MalformedStylesheet)
    ));
}

#[test]
fn missing_semicolon_is_fatal() {
    assert!(matches!(
        parse_stylesheet("div { color: red }"),
        Err(ParseError::MalformedStylesheet)
    ));
}

#[test]
fn styled_tree_mirrors_the_document() {
    let root = source("<div id=\"x\" class=\"a\">hello<b></b></div>".to_string()).unwrap();
    let sheet = parse_stylesheet("div { color: red; } b { color: blue; }").unwrap();
    let styled = style_tree(&root, &sheet);
    assert_eq!(styled.children.len(), 2);
    match styled.specified_values.get("color") {
        Some(Value::Keyword(k)) => assert_eq!(k, "red"),
        _ => panic!("expected the div rule to apply"),
    }
    // the text child carries no properties
    assert!(styled.children[0].specified_values.get("color").is_none());
    match styled.children[1].specified_values.get("color") {
        Some(Value::Keyword(k)) => assert_eq!(k, "blue"),
        _ => panic!("expected the b rule to apply"),
    }
}
