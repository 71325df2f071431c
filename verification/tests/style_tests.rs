//! Tests of the style resolver: matching, the cascade, and the styled
//! tree.

use yoyo::css::{Declaration, Rule, Selector, SimpleSelector, StyleSheet, Value};
use yoyo::dom::{AttrMap, ElementData};
use yoyo::style::{match_rules, matches_simple_selectors, specified_values, style_tree};

fn rule_1() -> Rule {
    Rule {
        selectors: vec![Selector::Simple(SimpleSelector {
            tag_name: None,
            id: Some("1".to_string()),
            class: Vec::new(),
        })],
        declarations: vec![Declaration {
            name: "margin".to_string(),
            value: Value::Keyword("auto".to_string()),
        }],
    }
}

fn rule_2() -> Rule {
    Rule {
        selectors: vec![Selector::Simple(SimpleSelector {
            tag_name: Some("h1".to_string()),
            id: None,
            class: Vec::new(),
        })],
        declarations: vec![Declaration {
            name: "margin".to_string(),
            value: Value::Keyword("0".to_string()),
        }],
    }
}

fn style_sheet() -> StyleSheet {
    StyleSheet {
        rules: vec![rule_1(), rule_2()],
    }
}

#[test]
fn test_matches_simple_selectors() {
    let mut hash = AttrMap::new();
    hash.insert("id".to_string(), "1".to_string());
    hash.insert("class".to_string(), "square".to_string());
    let elem = ElementData {
        tag_name: "h1".to_string(),
        attributes: hash,
    };
    let heading_selector = SimpleSelector {
        tag_name: Some("h1".to_string()),
        id: None,
        class: Vec::new(),
    };
    let id_selector = SimpleSelector {
        tag_name: None,
        id: Some("1".to_string()),
        class: Vec::new(),
    };
    let class_selector = SimpleSelector {
        tag_name: None,
        id: None,
        class: vec!["square".to_string()],
    };
    assert!(matches_simple_selectors(&elem, &heading_selector));
    assert!(matches_simple_selectors(&elem, &id_selector));
    assert!(matches_simple_selectors(&elem, &class_selector))
}

#[test]
fn test_match_rules() {
    let mut hash = AttrMap::new();
    hash.insert("id".to_string(), "1".to_string());
    let elem = ElementData {
        tag_name: "h1".to_string(),
        attributes: hash,
    };
    println!("{:?}", match_rules(&elem, &style_sheet()));
}

#[test]
fn test_specified_values() {
    let mut hash = AttrMap::new();
    hash.insert("id".to_string(), "1".to_string());
    let elem = ElementData {
        tag_name: "h1".to_string(),
        attributes: hash,
    };
    println!("{:?}", specified_values(&elem, &style_sheet()));
}

#[test]
fn test_cascade_id_beats_tag() {
    // both rules bind `margin`; the id selector is more specific, so its
    // value lands last and wins
    let mut hash = AttrMap::new();
    hash.insert("id".to_string(), "1".to_string());
    let elem = ElementData {
        tag_name: "h1".to_string(),
        attributes: hash,
    };
    let values = specified_values(&elem, &style_sheet());
    assert_eq!(values.get("margin"), Some(&Value::Keyword("auto".to_string())));
}

#[test]
fn test_cascade_source_order_breaks_ties() {
    // equal specificity: the later rule's declaration wins
    let sheet = StyleSheet {
        rules: vec![
            Rule {
                selectors: vec![Selector::Simple(SimpleSelector {
                    tag_name: Some("p".to_string()),
                    id: None,
                    class: Vec::new(),
                })],
                declarations: vec![Declaration {
                    name: "display".to_string(),
                    value: Value::Keyword("inline".to_string()),
                }],
            },
            Rule {
                selectors: vec![Selector::Simple(SimpleSelector {
                    tag_name: Some("p".to_string()),
                    id: None,
                    class: Vec::new(),
                })],
                declarations: vec![Declaration {
                    name: "display".to_string(),
                    value: Value::Keyword("block".to_string()),
                }],
            },
        ],
    };
    let elem = ElementData {
        tag_name: "p".to_string(),
        attributes: AttrMap::new(),
    };
    let values = specified_values(&elem, &sheet);
    assert_eq!(values.get("display"), Some(&Value::Keyword("block".to_string())));
}

#[test]
fn test_style_tree_comment_gets_empty_map() {
    let root = yoyo::html::parse("<div><!-- note --><p></p></div>".to_string()).unwrap();
    let sheet = yoyo::css::parse("p { margin: auto; }".to_string()).unwrap();
    let styled = style_tree(&root, &sheet);
    assert_eq!(styled.children.len(), 2);
    assert_eq!(styled.children[0].specified_values.get("margin"), None);
    assert_eq!(
        styled.children[1].specified_values.get("margin"),
        Some(&Value::Keyword("auto".to_string()))
    );
}
