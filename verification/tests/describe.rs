use web_browser::css;
use web_browser::describe::{box_name, color_property, dotted_words, node_name, style_summary};
use web_browser::html::HtmlParser;
use web_browser::layout::build_layout_tree;
use web_browser::style::style_tree;

#[test]
fn node_name_shows_tag_id_and_classes() {
    let dom = HtmlParser::parse("<div id=\"main\" class=\"a  b\"></div>".to_string()).unwrap();
    let stylesheet = css::parse(String::new()).unwrap();
    let styled = style_tree(&dom, &stylesheet);
    assert_eq!(node_name(&styled), "<div#main.a.b>");
}

#[test]
fn node_name_of_plain_element() {
    let dom = HtmlParser::parse("<p></p>".to_string()).unwrap();
    let stylesheet = css::parse(String::new()).unwrap();
    let styled = style_tree(&dom, &stylesheet);
    assert_eq!(node_name(&styled), "<p>");
}

#[test]
fn node_name_quotes_text() {
    let dom = HtmlParser::parse("<p>say \"hi\"</p>".to_string()).unwrap();
    let stylesheet = css::parse(String::new()).unwrap();
    let styled = style_tree(&dom, &stylesheet);
    assert_eq!(node_name(&styled.children[0]), "text(\"say \\\"hi\\\"\")");
}

#[test]
fn dotted_words_splits_on_any_whitespace() {
    assert_eq!(dotted_words("  x\ty\n z "), ".x.y.z");
    assert_eq!(dotted_words(""), "");
    assert_eq!(dotted_words("   "), "");
    assert_eq!(dotted_words("one"), ".one");
}

#[test]
fn color_property_formats_lowercase_hex() {
    let dom = HtmlParser::parse("<div></div>".to_string()).unwrap();
    let stylesheet =
        css::parse("div { background: #0aFf10; border-color: #000000; display: block; }".to_string())
            .unwrap();
    let styled = style_tree(&dom, &stylesheet);
    assert_eq!(color_property(&styled, "background"), Some("#0aff10".to_string()));
    assert_eq!(color_property(&styled, "border-color"), Some("#000000".to_string()));
    assert_eq!(color_property(&styled, "display"), None);
    assert_eq!(color_property(&styled, "color"), None);
}

#[test]
fn style_summary_lists_both_colors() {
    let dom = HtmlParser::parse("<div></div>".to_string()).unwrap();
    let stylesheet =
        css::parse("div { border-color: #102030; background: #ff0000; }".to_string()).unwrap();
    let styled = style_tree(&dom, &stylesheet);
    assert_eq!(style_summary(&styled), " background=#ff0000 border-color=#102030");
}

#[test]
fn style_summary_is_empty_without_colors() {
    let dom = HtmlParser::parse("<div></div>".to_string()).unwrap();
    let stylesheet = css::parse("div { display: block; }".to_string()).unwrap();
    let styled = style_tree(&dom, &stylesheet);
    assert_eq!(style_summary(&styled), "");
}

#[test]
fn box_name_describes_each_kind_of_box() {
    let dom = HtmlParser::parse("<div class=\"x\"><span></span></div>".to_string()).unwrap();
    let stylesheet =
        css::parse("div { display: block; border-color: #00ff00; }".to_string()).unwrap();
    let styled = style_tree(&dom, &stylesheet);
    let layout = build_layout_tree(&styled);
    assert_eq!(box_name(&layout), "block <div.x> border-color=#00ff00");
    assert_eq!(box_name(&layout.children[0]), "anonymous block");
    assert_eq!(box_name(&layout.children[0].children[0]), "inline <span>");
}
