//! Tests of the CSS parser: selectors, declarations and value forms.

use yoyo::css::{parse, Color, Parser, Selector, SimpleSelector, Unit, Value};

fn get_parser(source: &str) -> Parser {
    Parser {
        pos: 0,
        input: source.to_string(),
    }
}

#[test]
fn test_parse_rules() {
    let source = "
        h1 {
          margin: auto;
        }

        h2 {
          color: #111111;
        }
        ";
    println!("{:?}", Parser::parse_rules(&mut get_parser(source)));
}

#[test]
fn test_parse_rule() {
    let source = "h1,
        h2,
        h3 {
          margin: auto;
          display: inline;
        }
        ";
    println!("{:?}", Parser::parse_rule(&mut get_parser(source)));
}

#[test]
fn test_parse_simple_selectors() {
    let source = "h1, h2 {";
    let expected = vec![
        Selector::Simple(SimpleSelector {
            id: None,
            class: Vec::new(),
            tag_name: Some("h1".to_string()),
        }),
        Selector::Simple(SimpleSelector {
            id: None,
            class: Vec::new(),
            tag_name: Some("h2".to_string()),
        }),
    ];
    assert_eq!(Parser::parse_selectors(&mut get_parser(source)).unwrap(), expected);
}

#[test]
fn test_parse_class_selectors() {
    let source = ".fruit.apple {";
    let expected = vec![Selector::Simple(SimpleSelector {
        id: None,
        class: vec!["fruit".to_string(), "apple".to_string()],
        tag_name: None,
    })];
    assert_eq!(Parser::parse_selectors(&mut get_parser(source)).unwrap(), expected);
}

#[test]
fn test_parse_id_selectors() {
    let source = "#id {";
    let expected = vec![Selector::Simple(SimpleSelector {
        id: Some("id".to_string()),
        class: Vec::new(),
        tag_name: None,
    })];
    assert_eq!(Parser::parse_selectors(&mut get_parser(source)).unwrap(), expected);
}

#[test]
fn test_parse_declarations() {
    let source = "{
            display: none;
            margin-left: 10.2px;
          }";
    println!("{:?}", Parser::parse_declarations(&mut get_parser(source)));
}

#[test]
fn test_parse_declaration() {
    let source = "margin: auto;";
    assert_eq!(
        Parser::parse_declaration(&mut get_parser(source)).unwrap(),
        yoyo::css::Declaration {
            name: "margin".to_string(),
            value: Value::Keyword("auto".to_string())
        }
    );
}

#[test]
fn test_parse_keyword_value() {
    let source = "auto;";
    assert_eq!(
        Parser::parse_value(&mut get_parser(source)).unwrap(),
        Value::Keyword("auto".to_string())
    );
}

#[test]
fn test_parse_unit_value() {
    let source = "10px";
    assert_eq!(
        Parser::parse_value(&mut get_parser(source)).unwrap(),
        Value::Length(10_000, Unit::Px)
    );
}

#[test]
fn test_parse_color_value() {
    let source = "#812dd3";
    assert_eq!(
        Parser::parse_value(&mut get_parser(source)).unwrap(),
        Value::Color(Color {
            r: 129,
            g: 45,
            b: 211,
            a: 255
        })
    );
}

#[test]
fn test_parse_fractional_length() {
    let source = "1.5px";
    assert_eq!(
        Parser::parse_value(&mut get_parser(source)).unwrap(),
        Value::Length(1_500, Unit::Px)
    );
}

#[test]
fn test_parse_length_junk_unit() {
    // everything after the number up to `;` is discarded
    let source = "10foo;";
    assert_eq!(
        Parser::parse_value(&mut get_parser(source)).unwrap(),
        Value::Length(10_000, Unit::Px)
    );
}

#[test]
fn test_parse_two_dots_fail() {
    assert!(Parser::parse_value(&mut get_parser("1.2.3;")).is_err());
}

#[test]
fn test_parse_missing_semicolon_fails() {
    assert!(parse("h1 { margin: auto }".to_string()).is_err());
}

#[test]
fn test_parse_whole_stylesheet() {
    let sheet = parse("h1 { width: 10px; } .a, #b { color: #010203; }".to_string()).unwrap();
    assert_eq!(sheet.rules.len(), 2);
    assert_eq!(sheet.rules[0].declarations.len(), 1);
    assert_eq!(sheet.rules[1].selectors.len(), 2);
    assert_eq!(
        sheet.rules[1].declarations[0].value,
        Value::Color(Color { r: 1, g: 2, b: 3, a: 255 })
    );
}

#[test]
fn test_specificity_ordering_values() {
    let id_sel = Selector::Simple(SimpleSelector {
        id: Some("x".to_string()),
        class: Vec::new(),
        tag_name: None,
    });
    let tag_sel = Selector::Simple(SimpleSelector {
        id: None,
        class: Vec::new(),
        tag_name: Some("h1".to_string()),
    });
    let class_sel = Selector::Simple(SimpleSelector {
        id: None,
        class: vec!["a".to_string(), "b".to_string()],
        tag_name: Some("p".to_string()),
    });
    assert_eq!(id_sel.specificity(), (1, 0, 0));
    assert_eq!(tag_sel.specificity(), (0, 0, 1));
    assert_eq!(class_sel.specificity(), (0, 2, 1));
}
