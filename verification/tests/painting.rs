use web_browser::css::{self, Color};
use web_browser::html::HtmlParser;
use web_browser::layout::build_layout_tree;
use web_browser::painting::{build_display_list, get_color, paint, Canvas, DisplayCommand, Fill, Part};
use web_browser::style::style_tree;

fn rgb(r: u8, g: u8, b: u8) -> Color {
    Color { r, g, b, a: 255 }
}

#[test]
fn new_canvas_is_white() {
    let canvas = Canvas::new(3, 2);
    assert_eq!(canvas.width, 3);
    assert_eq!(canvas.height, 2);
    assert_eq!(canvas.pixels.len(), 6);
    assert!(canvas.pixels.iter().all(|c| *c == rgb(255, 255, 255)));
}

#[test]
fn paint_rect_fills_only_the_rectangle() {
    let mut canvas = Canvas::new(4, 3);
    canvas.paint_rect(rgb(1, 2, 3), 1, 1, 3, 3);
    for y in 0..3 {
        for x in 0..4 {
            let expected = if (1..3).contains(&x) && (1..3).contains(&y) {
                rgb(1, 2, 3)
            } else {
                rgb(255, 255, 255)
            };
            assert_eq!(canvas.pixels[x + y * 4], expected);
        }
    }
}

#[test]
fn paint_rect_with_empty_range_changes_nothing() {
    let mut canvas = Canvas::new(2, 2);
    canvas.paint_rect(rgb(0, 0, 0), 2, 0, 1, 2);
    assert!(canvas.pixels.iter().all(|c| *c == rgb(255, 255, 255)));
}

#[test]
fn get_color_reads_color_properties() {
    let dom = HtmlParser::parse("<div><span></span></div>".to_string()).unwrap();
    let stylesheet = css::parse(
        "div { display: block; background: #102030; border-color: red; }".to_string(),
    )
    .unwrap();
    let styled = style_tree(&dom, &stylesheet);
    let layout = build_layout_tree(&styled);
    assert_eq!(get_color(&layout, "background"), Some(rgb(16, 32, 48)));
    assert_eq!(get_color(&layout, "border-color"), None);
    assert_eq!(get_color(&layout.children[0], "background"), None);
}

#[test]
fn display_list_paints_backgrounds_then_borders_in_pre_order() {
    let dom = HtmlParser::parse("<div><p></p><section></section></div>".to_string()).unwrap();
    let stylesheet = css::parse(
        "div, p, section { display: block; } div { background: #010203; border-color: #040506; } \
         section { background: #070809; }"
            .to_string(),
    )
    .unwrap();
    let styled = style_tree(&dom, &stylesheet);
    let layout = build_layout_tree(&styled);
    let list = build_display_list(&layout);
    let cmd = |box_index, part, color| DisplayCommand { box_index, part, color };
    assert_eq!(
        list,
        vec![
            cmd(0, Part::Background, rgb(1, 2, 3)),
            cmd(0, Part::LeftBorder, rgb(4, 5, 6)),
            cmd(0, Part::RightBorder, rgb(4, 5, 6)),
            cmd(0, Part::TopBorder, rgb(4, 5, 6)),
            cmd(0, Part::BottomBorder, rgb(4, 5, 6)),
            cmd(2, Part::Background, rgb(7, 8, 9)),
        ]
    );
}

#[test]
fn display_list_numbers_anonymous_boxes_too() {
    let dom = HtmlParser::parse("<div><span></span><p></p></div>".to_string()).unwrap();
    let stylesheet =
        css::parse("div, p { display: block; } p { background: #ffffff; }".to_string()).unwrap();
    let styled = style_tree(&dom, &stylesheet);
    let layout = build_layout_tree(&styled);
    let list = build_display_list(&layout);
    assert_eq!(
        list,
        vec![DisplayCommand { box_index: 3, part: Part::Background, color: rgb(255, 255, 255) }]
    );
}

#[test]
fn later_fills_paint_over_earlier_ones() {
    let fills = vec![
        Fill { color: rgb(1, 1, 1), x0: 0, y0: 0, x1: 3, y1: 2 },
        Fill { color: rgb(2, 2, 2), x0: 1, y0: 1, x1: 2, y1: 2 },
    ];
    let canvas = paint(3, 3, &fills);
    let expected = [
        rgb(1, 1, 1), rgb(1, 1, 1), rgb(1, 1, 1),
        rgb(1, 1, 1), rgb(2, 2, 2), rgb(1, 1, 1),
        rgb(255, 255, 255), rgb(255, 255, 255), rgb(255, 255, 255),
    ];
    assert_eq!(canvas.pixels, expected.to_vec());
}
