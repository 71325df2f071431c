//! Tests of the document tree: constructors and attribute maps.

use yoyo::dom::{comment, element, text, AttrMap, ElementData, Node, NodeType};

#[test]
fn test_text() {
    let data = "data".to_string();
    let data2 = "data".to_string();
    assert_eq!(
        text(data),
        Node {
            node_type: NodeType::Text(data2),
            children: vec![]
        }
    );
}

#[test]
fn test_comment() {
    assert_eq!(
        comment(),
        Node {
            node_type: NodeType::Comment,
            children: vec![]
        }
    );
}

#[test]
fn test_element() {
    let mut attrs = AttrMap::new();
    attrs.insert("id".to_string(), "1".to_string());
    let mut attrs2 = AttrMap::new();
    attrs2.insert("id".to_string(), "1".to_string());
    assert_eq!(
        element("h1".to_string(), attrs, vec![]),
        Node {
            node_type: NodeType::Element(ElementData {
                tag_name: "h1".to_string(),
                attributes: attrs2
            }),
            children: vec![]
        }
    );
}

#[test]
fn test_attr_map_last_writer_wins() {
    let mut attrs = AttrMap::new();
    attrs.insert("id".to_string(), "1".to_string());
    attrs.insert("id".to_string(), "2".to_string());
    assert_eq!(attrs.get("id"), Some(&"2".to_string()));
    assert_eq!(attrs.get("class"), None);
}

#[test]
fn test_classes_split() {
    let mut attrs = AttrMap::new();
    attrs.insert("class".to_string(), "fruit apple".to_string());
    let elem = ElementData {
        tag_name: "p".to_string(),
        attributes: attrs,
    };
    assert_eq!(elem.classes(), vec!["fruit".to_string(), "apple".to_string()]);
    let bare = ElementData {
        tag_name: "p".to_string(),
        attributes: AttrMap::new(),
    };
    assert_eq!(bare.classes(), Vec::<String>::new());
}
