use web_browser::dom::NodeType;
use web_browser::html::HtmlParser;

#[test]
fn parse_single_text_node() {
    let node = HtmlParser::parse("hello world".to_string()).unwrap();
    assert!(matches!(node.node_type, NodeType::Text(ref s) if s == "hello world"));
}

#[test]
fn parse_simple_element() {
    let node = HtmlParser::parse("<p></p>".to_string()).unwrap();
    match &node.node_type {
        NodeType::Element(data) => assert_eq!(data.tag_name, "p"),
        _ => panic!("expected element"),
    }
}

#[test]
fn parse_element_with_text_child() {
    let node = HtmlParser::parse("<p>hello</p>".to_string()).unwrap();
    match &node.node_type {
        NodeType::Element(data) => {
            assert_eq!(data.tag_name, "p");
            assert_eq!(node.children.len(), 1);
            assert!(matches!(&node.children[0].node_type, NodeType::Text(s) if s == "hello"));
        }
        _ => panic!("expected element"),
    }
}

#[test]
fn parse_element_with_attributes() {
    let node =
        HtmlParser::parse(r#"<div id="main" class="container"></div>"#.to_string()).unwrap();
    match &node.node_type {
        NodeType::Element(data) => {
            assert_eq!(data.tag_name, "div");
            assert_eq!(data.attrs.get("id").unwrap(), "main");
            assert_eq!(data.attrs.get("class").unwrap(), "container");
        }
        _ => panic!("expected element"),
    }
}

#[test]
fn parse_nested_elements() {
    let html = "<div><p><span>hi</span></p></div>".to_string();
    let node = HtmlParser::parse(html).unwrap();

    match &node.node_type {
        NodeType::Element(data) => assert_eq!(data.tag_name, "div"),
        _ => panic!("expected div"),
    }

    let p = &node.children[0];
    match &p.node_type {
        NodeType::Element(data) => assert_eq!(data.tag_name, "p"),
        _ => panic!("expected p"),
    }

    let span = &p.children[0];
    match &span.node_type {
        NodeType::Element(data) => assert_eq!(data.tag_name, "span"),
        _ => panic!("expected span"),
    }

    assert!(matches!(&span.children[0].node_type, NodeType::Text(s) if s == "hi"));
}

#[test]
fn parse_sibling_elements() {
    let html = "<div><p>one</p><p>two</p></div>".to_string();
    let node = HtmlParser::parse(html).unwrap();
    assert_eq!(node.children.len(), 2);
}

#[test]
fn parse_single_quoted_attributes() {
    let node = HtmlParser::parse("<div id='main'></div>".to_string()).unwrap();
    match &node.node_type {
        NodeType::Element(data) => assert_eq!(data.attrs.get("id").unwrap(), "main"),
        _ => panic!("expected element"),
    }
}

#[test]
fn parse_wraps_multiple_roots_in_html_element() {
    let node = HtmlParser::parse("<p>a</p><p>b</p>".to_string()).unwrap();
    match &node.node_type {
        NodeType::Element(data) => {
            assert_eq!(data.tag_name, "html");
            assert_eq!(node.children.len(), 2);
        }
        _ => panic!("expected html wrapper"),
    }
}

#[test]
fn parse_unclosed_tag_returns_error() {
    assert!(HtmlParser::parse("<div>".to_string()).is_err());
}

#[test]
fn parse_unclosed_tag_error_is_at_end_of_input() {
    let e = HtmlParser::parse("<div>".to_string()).unwrap_err();
    assert_eq!(e.message, "Expected \"</\"");
    assert_eq!(e.pos, 5);
}

#[test]
fn parse_mismatched_closing_tag_returns_error() {
    let e = HtmlParser::parse("<div></p>".to_string()).unwrap_err();
    assert_eq!(e.message, "Expected \"div\"");
    assert_eq!(e.pos, 7);
}

#[test]
fn parse_missing_tag_name_returns_error() {
    let e = HtmlParser::parse("< p></p>".to_string()).unwrap_err();
    assert_eq!(e.message, "Expected tag or attribute name");
    assert_eq!(e.pos, 1);
}

#[test]
fn parse_unquoted_attribute_returns_error() {
    let e = HtmlParser::parse("<div id=main></div>".to_string()).unwrap_err();
    assert_eq!(e.message, "Expected opening quote, got 'm'");
    assert_eq!(e.pos, 9);
}

#[test]
fn parse_attributes_at_end_of_input_returns_error() {
    let e = HtmlParser::parse("<div id='x'  ".to_string()).unwrap_err();
    assert_eq!(e.message, "Unexpected end of input while parsing attributes");
    assert_eq!(e.pos, 13);
}

#[test]
fn parse_unterminated_attribute_value_returns_error() {
    let e = HtmlParser::parse("<div id='x".to_string()).unwrap_err();
    assert_eq!(e.message, "Unexpected end of input");
    assert_eq!(e.pos, 10);
}

#[test]
fn parse_empty_input_gives_empty_html_element() {
    let node = HtmlParser::parse("   ".to_string()).unwrap();
    match &node.node_type {
        NodeType::Element(data) => {
            assert_eq!(data.tag_name, "html");
            assert!(data.attrs.is_empty());
            assert!(node.children.is_empty());
        }
        _ => panic!("expected html wrapper"),
    }
}

#[test]
fn parse_later_duplicate_attribute_wins() {
    let node = HtmlParser::parse("<a x='1' x=\"2\"></a>".to_string()).unwrap();
    match &node.node_type {
        NodeType::Element(data) => assert_eq!(data.attrs.get("x").unwrap(), "2"),
        _ => panic!("expected element"),
    }
}

#[test]
fn parse_stops_at_a_stray_closing_tag() {
    let node = HtmlParser::parse("<p>a</p></div>trailing".to_string()).unwrap();
    match &node.node_type {
        NodeType::Element(data) => assert_eq!(data.tag_name, "p"),
        _ => panic!("expected element"),
    }
}

#[test]
fn parse_keeps_non_ascii_text_and_byte_positions() {
    let node = HtmlParser::parse("<p>héllo wörld</p>".to_string()).unwrap();
    assert!(matches!(&node.children[0].node_type, NodeType::Text(s) if s == "héllo wörld"));
    let e = HtmlParser::parse("<p>é".to_string()).unwrap_err();
    assert_eq!(e.pos, 5);
}
