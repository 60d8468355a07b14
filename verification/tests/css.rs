use web_browser::css::{self, Color, Selector, SimpleSelector, Unit, Value};

/// The number that a length value holds, read as `f32`.
fn px(value: &Value) -> f32 {
    match value {
        Value::Length(n, Unit::Px) => n.parse::<f32>().unwrap(),
        _ => panic!("expected a length"),
    }
}

#[test]
fn parse_tag_selector() {
    let stylesheet = css::parse("div { display: block; }".to_string()).unwrap();
    assert_eq!(stylesheet.rules.len(), 1);

    let rule = &stylesheet.rules[0];
    match &rule.selectors[0] {
        Selector::Simple(s) => assert_eq!(s.tag_name, Some("div".to_string())),
    }
}

#[test]
fn parse_id_selector() {
    let stylesheet = css::parse("#main { display: block; }".to_string()).unwrap();

    let rule = &stylesheet.rules[0];
    match &rule.selectors[0] {
        Selector::Simple(s) => assert_eq!(s.id, Some("main".to_string())),
    }
}

#[test]
fn parse_class_selector() {
    let stylesheet = css::parse(".active { display: block; }".to_string()).unwrap();

    let rule = &stylesheet.rules[0];
    match &rule.selectors[0] {
        Selector::Simple(s) => assert_eq!(s.class, vec!["active".to_string()]),
    }
}

#[test]
fn parse_universal_selector() {
    let stylesheet = css::parse("* { margin: 0px; }".to_string()).unwrap();

    let rule = &stylesheet.rules[0];
    match &rule.selectors[0] {
        Selector::Simple(s) => {
            assert_eq!(s.tag_name, None);
            assert_eq!(s.id, None);
            assert!(s.class.is_empty());
        }
    }
}

#[test]
fn parse_multiple_selectors() {
    let stylesheet = css::parse("h1, h2 { color: #ff0000; }".to_string()).unwrap();

    assert_eq!(stylesheet.rules[0].selectors.len(), 2);
}

#[test]
fn parse_declaration_keyword_value() {
    let stylesheet = css::parse("div { display: block; }".to_string()).unwrap();
    let decl = &stylesheet.rules[0].declarations[0];

    assert_eq!(decl.name, "display");
    assert_eq!(decl.value, Value::Keyword("block".to_string()));
}

#[test]
fn parse_declaration_length_value() {
    let stylesheet = css::parse("div { width: 100px; }".to_string()).unwrap();
    let decl = &stylesheet.rules[0].declarations[0];

    assert_eq!(decl.name, "width");
    assert_eq!(px(&decl.value), 100.0);
}

#[test]
fn parse_declaration_color_value() {
    let stylesheet = css::parse("div { color: #ff8800; }".to_string()).unwrap();
    let decl = &stylesheet.rules[0].declarations[0];

    assert_eq!(decl.name, "color");
    assert_eq!(
        decl.value,
        Value::ColorValue(Color {
            r: 255,
            g: 136,
            b: 0,
            a: 255
        })
    );
}

#[test]
fn parse_multiple_declarations() {
    let css = "div { width: 100px; height: 200px; }".to_string();
    let stylesheet = css::parse(css).unwrap();

    assert_eq!(stylesheet.rules[0].declarations.len(), 2);
}

#[test]
fn parse_multiple_rules() {
    let css = "div { display: block; } p { color: #000000; }".to_string();
    let stylesheet = css::parse(css).unwrap();

    assert_eq!(stylesheet.rules.len(), 2);
}

#[test]
fn specificity_id_highest() {
    let s = Selector::Simple(SimpleSelector {
        tag_name: None,
        id: Some("main".to_string()),
        class: vec![],
    });

    assert_eq!(s.specificity(), (1, 0, 0));
}

#[test]
fn specificity_class_middle() {
    let s = Selector::Simple(SimpleSelector {
        tag_name: None,
        id: None,
        class: vec!["active".to_string(), "visible".to_string()],
    });

    assert_eq!(s.specificity(), (0, 2, 0));
}

#[test]
fn specificity_tag_lowest() {
    let s = Selector::Simple(SimpleSelector {
        tag_name: Some("div".to_string()),
        id: None,
        class: vec![],
    });

    assert_eq!(s.specificity(), (0, 0, 1));
}

#[test]
fn specificity_ordering() {
    let id = (1, 0, 0);
    let class = (0, 1, 0);
    let tag = (0, 0, 1);

    assert!(id > class);
    assert!(class > tag);
    assert!(!web_browser::order::specificity_le(id, class));
    assert!(web_browser::order::specificity_le(tag, class));
}

#[test]
fn parse_float_value() {
    let stylesheet = css::parse("div { opacity: 0.5px; }".to_string()).unwrap();
    let decl = &stylesheet.rules[0].declarations[0];

    assert_eq!(px(&decl.value), 0.5);
}

#[test]
fn selectors_are_sorted_by_specificity() {
    let stylesheet = css::parse("#a, div.b.c, p, .d { x: y; }".to_string()).unwrap();
    let specs: Vec<_> = stylesheet.rules[0].selectors.iter().map(|s| s.specificity()).collect();
    assert_eq!(specs, vec![(0, 0, 1), (0, 1, 0), (0, 2, 1), (1, 0, 0)]);
}

#[test]
fn equal_specificity_keeps_source_order() {
    let stylesheet = css::parse("h1, h2, h3 { x: y; }".to_string()).unwrap();
    let names: Vec<_> = stylesheet.rules[0]
        .selectors
        .iter()
        .map(|s| match s {
            Selector::Simple(s) => s.tag_name.clone().unwrap(),
        })
        .collect();
    assert_eq!(names, vec!["h1", "h2", "h3"]);
}

#[test]
fn unit_is_case_insensitive() {
    let stylesheet = css::parse("div { width: 12PX; }".to_string()).unwrap();
    assert_eq!(px(&stylesheet.rules[0].declarations[0].value), 12.0);
}

#[test]
fn unknown_unit_is_an_error() {
    let e = css::parse("div { width: 12Em; }".to_string()).unwrap_err();
    assert_eq!(e.message, "Unrecognized unit: \"em\"");
    assert_eq!(e.pos, 17);
}

#[test]
fn number_with_two_dots_is_an_error() {
    let e = css::parse("div { width: 1.2.3px; }".to_string()).unwrap_err();
    assert_eq!(e.message, "Invalid float: \"1.2.3\"");
    assert_eq!(e.pos, 18);
}

#[test]
fn number_with_trailing_dot_is_a_length() {
    let stylesheet = css::parse("div { width: 5.px; }".to_string()).unwrap();
    assert_eq!(px(&stylesheet.rules[0].declarations[0].value), 5.0);
}

#[test]
fn hex_pair_accepts_plus_sign_and_upper_case() {
    let stylesheet = css::parse("a { color: #+fA0B0; }".to_string()).unwrap();
    assert_eq!(
        stylesheet.rules[0].declarations[0].value,
        Value::ColorValue(Color { r: 15, g: 160, b: 176, a: 255 })
    );
}

#[test]
fn invalid_hex_pair_is_an_error() {
    let e = css::parse("a { color: #zz0000; }".to_string()).unwrap_err();
    assert_eq!(e.message, "Invalid hex pair: \"zz\"");
    assert_eq!(e.pos, 14);
}

#[test]
fn short_color_is_an_error() {
    let e = css::parse("a { color: #ff".to_string()).unwrap_err();
    assert_eq!(e.message, "Unexpected end of input in hex color");
    assert_eq!(e.pos, 14);
}

#[test]
fn hex_pair_over_a_two_byte_char_is_an_error() {
    let e = css::parse("a { color: #é0000; }".to_string()).unwrap_err();
    assert_eq!(e.message, "Invalid hex pair: \"é\"");
    assert_eq!(e.pos, 14);
}

#[test]
fn hex_pair_splitting_a_char_is_refused() {
    assert!(css::parse_checked("a { color: #f€0000; }".to_string()).is_none());
    assert!(css::parse_checked("a { color: #€0000; }".to_string()).is_none());
    assert!(css::parse_checked("a { color: #ff0000; }".to_string()).is_some());
}

#[test]
fn bad_selector_character_is_an_error() {
    let e = css::parse("div > p { x: y; }".to_string()).unwrap_err();
    assert_eq!(e.message, "Unexpected character '>' in selector list");
    assert_eq!(e.pos, 4);
}

#[test]
fn missing_colon_is_an_error() {
    let e = css::parse("div { color red; }".to_string()).unwrap_err();
    assert_eq!(e.message, "Expected ':', got 'r'");
    assert_eq!(e.pos, 13);
}

#[test]
fn missing_identifier_is_an_error() {
    let e = css::parse("# { x: y; }".to_string()).unwrap_err();
    assert_eq!(e.message, "Expected identifier");
    assert_eq!(e.pos, 1);
}

#[test]
fn unterminated_rule_is_an_error() {
    let e = css::parse("div { x: y;".to_string()).unwrap_err();
    assert_eq!(e.message, "Unexpected end of input");
    assert_eq!(e.pos, 11);
}

#[test]
fn empty_sheet_has_no_rules() {
    let stylesheet = css::parse("  \n ".to_string()).unwrap();
    assert!(stylesheet.rules.is_empty());
}

#[test]
fn value_clone_is_equal() {
    let v = Value::Length("3".to_string(), Unit::Px);
    assert_eq!(v.clone(), v);
}
