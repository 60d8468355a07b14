use web_browser::dom::{elem, text, AttrMap, ElementData, NodeType};

#[test]
fn text_node_has_no_children() {
    let node = text("hello".to_string());

    assert!(node.children.is_empty());
    assert!(matches!(node.node_type, NodeType::Text(ref s) if s == "hello"));
}

#[test]
fn elem_node_stores_tag_and_attrs() {
    let mut attrs = AttrMap::new();
    attrs.insert("id".to_string(), "main".to_string());
    let node = elem("div".to_string(), attrs, vec![]);

    match &node.node_type {
        NodeType::Element(data) => {
            assert_eq!(data.tag_name, "div");
            assert_eq!(data.attrs.get("id").unwrap(), "main");
        }
        _ => panic!("expected element"),
    }
}

#[test]
fn elem_node_has_children() {
    let child = text("hi".to_string());
    let parent = elem("p".to_string(), AttrMap::new(), vec![child]);

    assert_eq!(parent.children.len(), 1);
}

#[test]
fn id_returns_id_attribute() {
    let mut attrs = AttrMap::new();

    attrs.insert("id".to_string(), "main".to_string());

    let data = ElementData {
        tag_name: "div".to_string(),
        attrs,
    };

    assert_eq!(data.id(), Some(&"main".to_string()));
}

#[test]
fn id_returns_none_when_missing() {
    let data = ElementData {
        tag_name: "div".to_string(),
        attrs: AttrMap::new(),
    };

    assert_eq!(data.id(), None);
}

#[test]
fn classes_parses_space_separated_list() {
    let mut attrs = AttrMap::new();

    attrs.insert("class".to_string(), "foo bar baz".to_string());

    let data = ElementData {
        tag_name: "div".to_string(),
        attrs,
    };

    let classes = data.classes();
    assert!(classes.contains(&"foo".to_string()));
    assert!(classes.contains(&"bar".to_string()));
    assert!(classes.contains(&"baz".to_string()));
    assert_eq!(classes.len(), 3);
}

#[test]
fn classes_returns_empty_when_missing() {
    let data = ElementData {
        tag_name: "div".to_string(),
        attrs: AttrMap::new(),
    };

    assert!(data.classes().is_empty());
}

#[test]
fn classes_keep_each_name_once_and_empty_pieces() {
    let mut attrs = AttrMap::new();
    attrs.insert("class".to_string(), "a  b a".to_string());
    let data = ElementData { tag_name: "div".to_string(), attrs };
    let mut classes = data.classes();
    classes.sort();
    assert_eq!(classes, vec!["".to_string(), "a".to_string(), "b".to_string()]);
}

#[test]
fn later_insert_replaces_earlier_value() {
    let mut attrs = AttrMap::new();
    assert!(attrs.is_empty());
    attrs.insert("id".to_string(), "one".to_string());
    attrs.insert("class".to_string(), "x".to_string());
    attrs.insert("id".to_string(), "two".to_string());
    assert_eq!(attrs.get("id").unwrap(), "two");
    assert_eq!(attrs.get("class").unwrap(), "x");
    assert_eq!(attrs.get("title"), None);
    assert!(!attrs.is_empty());
}
