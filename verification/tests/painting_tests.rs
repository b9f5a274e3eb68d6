use boxrs::css::{px, Color};
use boxrs::layout::{LayoutError, Rect};
use boxrs::painting::DisplayCommand;
use boxrs::{build_display_list, build_layout_tree, build_style_tree, parse_css, parse_html};
use boxrs::layout::Dimensions;

fn viewport() -> Dimensions {
    let mut viewport: Dimensions = Default::default();
    viewport.content.width = px(800);
    viewport.content.height = px(600);
    viewport
}

#[test]
fn boxes_paint_their_border_box_in_document_order() {
    let document = parse_html("<a><b><c></c></b><d></d><b></b></a>").unwrap();
    let style = parse_css(
        "a,b,c,d{display:block}
         a{background-color:#010101}
         b{background:rgb(2,2,2);height:10px;margin:5px;padding:1px;border-width:2px}
         c{background-color:rgba(3,3,3,3);background:#040404;height:4px}
         d{background-color:red;height:7px}",
    )
    .unwrap();
    let styled = build_style_tree(&document, &style);
    let root = build_layout_tree(&styled, viewport()).unwrap();
    let list = build_display_list(&root).unwrap();
    let opaque = |n: u8| Color { r: n, g: n, b: n, a: 255 };
    assert_eq!(
        list,
        vec![
            DisplayCommand::SolidColor(
                opaque(1),
                Rect { x: 0, y: 0, width: px(800), height: px(26 + 7 + 26) }
            ),
            DisplayCommand::SolidColor(
                opaque(2),
                Rect { x: px(5), y: px(5), width: px(790), height: px(16) }
            ),
            DisplayCommand::SolidColor(
                Color { r: 3, g: 3, b: 3, a: 3 },
                Rect { x: px(8), y: px(8), width: px(784), height: px(4) }
            ),
            DisplayCommand::SolidColor(
                opaque(2),
                Rect { x: px(5), y: px(26 + 7 + 5), width: px(790), height: px(16) }
            ),
        ]
    );
}

#[test]
fn boxes_below_an_anonymous_box_paint_too() {
    let document = parse_html("<a><i></i><b></b></a>").unwrap();
    let style = parse_css("a,b{display:block} i{background-color:#0a0b0c} b{height:3px;background-color:#010203}")
        .unwrap();
    let styled = build_style_tree(&document, &style);
    let root = build_layout_tree(&styled, viewport()).unwrap();
    let list = build_display_list(&root).unwrap();
    assert_eq!(
        list,
        vec![
            DisplayCommand::SolidColor(
                Color { r: 10, g: 11, b: 12, a: 255 },
                Rect { x: 0, y: 0, width: 0, height: 0 }
            ),
            DisplayCommand::SolidColor(
                Color { r: 1, g: 2, b: 3, a: 255 },
                Rect { x: 0, y: 0, width: px(800), height: px(3) }
            ),
        ]
    );
}

#[test]
fn nothing_is_painted_without_a_colour() {
    let document = parse_html("<a>text<b></b></a>").unwrap();
    let style = parse_css("a{display:block;color:#ffffff;background-color:none}").unwrap();
    let styled = build_style_tree(&document, &style);
    let root = build_layout_tree(&styled, viewport()).unwrap();
    assert_eq!(build_display_list(&root).unwrap(), vec![]);
}

#[test]
fn a_border_box_that_does_not_fit_is_refused() {
    let document = parse_html("<a></a>").unwrap();
    let style = parse_css(
        "a{display:block;background-color:#000000;height:9223372036854775px;padding-top:1px}",
    )
    .unwrap();
    let styled = build_style_tree(&document, &style);
    let root = build_layout_tree(&styled, viewport()).unwrap();
    assert_eq!(build_display_list(&root).err(), Some(LayoutError::OutOfRange));
}
