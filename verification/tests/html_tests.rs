//! Tests of the HTML parser: the cursor primitives and every node form.

use yoyo::dom;
use yoyo::html::{parse, Parser};

fn get_parser(source: &str) -> Parser {
    Parser {
        pos: 0,
        input: source.to_string(),
    }
}

#[test]
fn test_next_char() {
    let source = "Test";
    assert_eq!(Parser::next_char(&get_parser(source)), 'T');
}

#[test]
fn test_next_next_char() {
    let source = "Test";
    assert_eq!(Parser::next_next_char(&get_parser(source)), 'e');
}

#[test]
fn test_start_with() {
    let source = "Test";
    assert!(Parser::start_with(&get_parser(source), "T"));
    assert!(!Parser::start_with(&get_parser(source), "e"));
}

#[test]
fn test_eof() {
    let source = "Test";
    let mut parser = get_parser(source);
    assert!(!Parser::eof(&parser));
    parser.pos = 4;
    assert!(Parser::eof(&parser));
}

#[test]
fn test_consume_char() {
    let source = "Test";
    assert_eq!(Parser::consume_char(&mut get_parser(source)), 'T');
}

#[test]
fn test_consume_while() {
    let source = "test";
    assert_eq!(
        Parser::consume_while(&mut get_parser(source), |char| matches!(char, 'a'..='z')),
        "test"
    );
}

#[test]
fn test_consume_whitespace() {
    let source = "   test";
    let mut parser = get_parser(source);
    Parser::consume_whitespace(&mut parser);
    assert_eq!(parser.pos, 3);
}

#[test]
fn test_parse_tag_name() {
    let source = "h1>";
    assert_eq!(Parser::parse_tag_name(&mut get_parser(source)), "h1");
}

#[test]
fn test_parse_node() {
    let comment = "<!-- comment -->";
    let elem = "<title>Title</title>";
    let text = "text";
    assert_eq!(
        Parser::parse_node(&mut get_parser(comment)),
        Parser::parse_comment(&mut get_parser(comment))
    );
    assert_eq!(
        Parser::parse_node(&mut get_parser(elem)),
        Parser::parse_element(&mut get_parser(elem))
    );
    assert_eq!(
        Parser::parse_node(&mut get_parser(text)).unwrap(),
        Parser::parse_text(&mut get_parser(text))
    );
}

#[test]
fn test_parse_comment() {
    let comment = "<!-- comment -->";
    assert_eq!(
        Parser::parse_comment(&mut get_parser(comment)).unwrap(),
        dom::comment()
    );
}

#[test]
fn test_parse_text() {
    let text = "text<p>";
    let node = dom::Node {
        node_type: dom::NodeType::Text("text".to_string()),
        children: Vec::new(),
    };
    assert_eq!(Parser::parse_text(&mut get_parser(text)), node);
}

#[test]
fn test_parse_element() {
    let elem = "<title>Title</title>";
    let expected = dom::element(
        "title".to_string(),
        dom::AttrMap::new(),
        vec![dom::text("Title".to_string())],
    );
    assert_eq!(Parser::parse_element(&mut get_parser(elem)).unwrap(), expected);
}

#[test]
fn test_parse_attr() {
    let attr = "id=\"1\"";
    assert_eq!(
        Parser::parse_attr(&mut get_parser(attr)).unwrap(),
        ("id".to_string(), "1".to_string())
    );
}

#[test]
fn test_parse_attributes_value() {
    let value = "\"1\"";
    assert_eq!(
        Parser::parse_attributes_value(&mut get_parser(value)).unwrap(),
        "1".to_string()
    );
}

#[test]
fn test_parse_nodes() {
    let source = "<title id='1'>Test</title>";
    println!("{:?}", Parser::parse_nodes(&mut get_parser(source)));
}

#[test]
fn test_parse_nodes_with_comments() {
    let source = "
        <div>
            <!-- comments -->
            <title id='1'>Test</title>
        </div>
        ";
    println!("{:?}", Parser::parse_nodes(&mut get_parser(source)));
}

#[test]
fn test_parse_last_top_level_node() {
    let root = parse("<p></p><div></div>".to_string()).unwrap();
    match root.node_type {
        dom::NodeType::Element(e) => assert_eq!(e.tag_name, "div"),
        _ => panic!("expected an element"),
    }
}

#[test]
fn test_parse_mismatched_tags_fail() {
    assert!(parse("<p></div>".to_string()).is_err());
}

#[test]
fn test_parse_empty_source_fails() {
    assert!(parse("".to_string()).is_err());
}

#[test]
fn test_parse_unclosed_element_fails() {
    assert!(parse("<p>".to_string()).is_err());
}

#[test]
fn test_parse_attr_last_writer_wins() {
    let root = parse("<p id='1' id='2'></p>".to_string()).unwrap();
    match root.node_type {
        dom::NodeType::Element(e) => {
            assert_eq!(e.attributes.get("id"), Some(&"2".to_string()));
        }
        _ => panic!("expected an element"),
    }
}

#[test]
fn test_serialize_then_parse_round_trip() {
    let src = "<div id=\"1\"><p></p><b class=\"x y\"></b></div>";
    let tree = parse(src.to_string()).unwrap();
    let out = yoyo::html::node_to_html(&tree);
    assert_eq!(out, src);
    let tree2 = parse(out).unwrap();
    assert_eq!(tree, tree2);
}

#[test]
fn test_comment_swallows_following_text() {
    // the comment parser stops only at the next `<`, so text after the
    // comment marker is consumed with it
    let root = parse("<div><!-- note --> lost text <p></p></div>".to_string()).unwrap();
    assert_eq!(root.children.len(), 2);
    assert_eq!(root.children[0], dom::comment());
}
