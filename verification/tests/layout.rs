use web_browser::css;
use web_browser::html::HtmlParser;
use web_browser::layout::{build_layout_tree, BoxType, LayoutBox};
use web_browser::style::style_tree;

fn with_layout_tree(html: &str, css: &str, assert_layout: impl FnOnce(&LayoutBox)) {
    let dom = HtmlParser::parse(html.to_string()).unwrap();
    let stylesheet = css::parse(css.to_string()).unwrap();
    let styled = style_tree(&dom, &stylesheet);
    let layout = build_layout_tree(&styled);

    assert_layout(&layout);
}

#[test]
fn builds_block_layout_tree() {
    with_layout_tree(
        "<div><p></p><section></section></div>",
        "div, p, section { display: block; }",
        |layout| {
            assert!(matches!(layout.box_type, BoxType::BlockNode(_)));
            assert_eq!(layout.children.len(), 2);
            assert!(matches!(layout.children[0].box_type, BoxType::BlockNode(_)));
            assert!(matches!(layout.children[1].box_type, BoxType::BlockNode(_)));
        },
    );
}

#[test]
fn wraps_inline_children_in_anonymous_block() {
    with_layout_tree(
        "<div><span></span><em></em></div>",
        "div { display: block; } span, em { display: inline; }",
        |layout| {
            assert!(matches!(layout.box_type, BoxType::BlockNode(_)));
            assert_eq!(layout.children.len(), 1);

            let anonymous = &layout.children[0];
            assert!(matches!(anonymous.box_type, BoxType::AnonymousBlock));
            assert_eq!(anonymous.children.len(), 2);
            assert!(matches!(
                anonymous.children[0].box_type,
                BoxType::InlineNode(_)
            ));
            assert!(matches!(
                anonymous.children[1].box_type,
                BoxType::InlineNode(_)
            ));
        },
    );
}

#[test]
fn separates_inline_runs_around_block_children() {
    with_layout_tree(
        "<div><span></span><p></p><em></em></div>",
        "div, p { display: block; } span, em { display: inline; }",
        |layout| {
            assert_eq!(layout.children.len(), 3);
            assert!(matches!(
                layout.children[0].box_type,
                BoxType::AnonymousBlock
            ));
            assert!(matches!(layout.children[1].box_type, BoxType::BlockNode(_)));
            assert!(matches!(
                layout.children[2].box_type,
                BoxType::AnonymousBlock
            ));
        },
    );
}

#[test]
fn skips_display_none_children() {
    with_layout_tree(
        "<div><p></p><script></script><section></section></div>",
        "div, p, section { display: block; } script { display: none; }",
        |layout| {
            assert_eq!(layout.children.len(), 2);
            assert!(matches!(layout.children[0].box_type, BoxType::BlockNode(_)));
            assert!(matches!(layout.children[1].box_type, BoxType::BlockNode(_)));
        },
    );
}

#[test]
fn inline_root_takes_children_directly() {
    with_layout_tree(
        "<span><b></b><p></p></span>",
        "p { display: block; }",
        |layout| {
            assert!(matches!(layout.box_type, BoxType::InlineNode(_)));
            assert_eq!(layout.children.len(), 2);
            assert!(matches!(layout.children[0].box_type, BoxType::InlineNode(_)));
            assert!(matches!(layout.children[1].box_type, BoxType::BlockNode(_)));
        },
    );
}

#[test]
fn hidden_child_does_not_split_an_inline_run() {
    with_layout_tree(
        "<div><i></i><script></script><b></b></div>",
        "div { display: block; } script { display: none; }",
        |layout| {
            assert_eq!(layout.children.len(), 1);
            assert_eq!(layout.children[0].children.len(), 2);
        },
    );
}
