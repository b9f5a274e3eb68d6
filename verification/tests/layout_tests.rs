use boxrs::box_tree::{build_layout_tree, BoxType, LayoutBox};
use boxrs::css::px;
use boxrs::flow::{layout_tree, solve_block_width};
use boxrs::layout::{layout_tree as layout_tree_by_its_module, Dimensions, EdgeSizes, LayoutError, Rect};
use boxrs::style::style_tree;
use boxrs::{parse_css, parse_html};

fn viewport() -> Dimensions {
    let mut viewport: Dimensions = Default::default();
    viewport.content.width = px(800);
    viewport.content.height = px(600);
    viewport
}

fn kind(b: &LayoutBox) -> &'static str {
    match b.box_type {
        BoxType::BlockNode(_) => "block",
        BoxType::InlineNode(_) => "inline",
        BoxType::InlineBlockNode(_) => "inline-block",
        BoxType::AnonymousBlock => "anonymous",
    }
}

fn kinds(b: &LayoutBox) -> Vec<&'static str> {
    b.children.iter().map(kind).collect()
}

#[test]
fn test_layout() {
    let document = parse_html(
        r#"
            <html>
                <body class="bar">
                    <h1>Hi!</h1>
                    <p>Bye!</p>
                </body>
            </html>
        "#,
    )
    .unwrap();

    let style = parse_css(
        r#"
            html, body, h1, p {
                display: block;
            }

            html {
                height: 600px;
            }

            body.foo, p {
                margin: auto;
                width: 24px;
            }
        "#,
    )
    .unwrap();

    let style = style_tree(&document, &style);

    let viewport = viewport();

    let actual = layout_tree(&style, viewport).unwrap();

    let body = &actual.children[0];
    let h1 = &body.children[0];
    let p = &body.children[1];

    assert_eq!(actual.dimensions, viewport);
    assert_eq!(body.dimensions.content.width, px(800));
    assert_eq!(h1.dimensions.content.width, px(800));
    assert_eq!(p.dimensions.content.width, px(24));
}

#[test]
fn test_layout_inline() {
    let document = parse_html(
        "
            <a>
                <b>
                    <c>Hello</c>
                    <c>world!</c>
                </b>
                <b>
                    <c>Bye</c>
                    <c>all!</c>
                </b>
            </a>
        ",
    )
    .unwrap();

    let style = parse_css(
        "
            a, b {
                display: block;
            }

            a {
                height: 600px;
            }

            b {
                background-color: #ff0000;
                margin: 24px;
                width: 100px;
                height: 100px;
            }

            c {
                display: inline;
                background-color: blue;
                margin: 24px;
                width: 32px;
                height: 24px;
            }
        ",
    )
    .unwrap();

    let applied_styles = style_tree(&document, &style);

    let viewport = viewport();

    let actual = layout_tree(&applied_styles, viewport).unwrap();

    assert_eq!(actual.dimensions, viewport);

    let b0 = &actual.children[0];
    let c0 = &b0.children[0].children[0];
    let c1 = &b0.children[0].children[1];

    assert_eq!(actual.dimensions, viewport);
    assert_eq!(
        b0.dimensions,
        Dimensions {
            content: Rect { x: px(24), y: px(24), width: px(100), height: px(100) },
            padding: EdgeSizes { left: 0, right: 0, top: 0, bottom: 0 },
            border: EdgeSizes { left: 0, right: 0, top: 0, bottom: 0 },
            margin: EdgeSizes { left: px(24), right: px(676), top: px(24), bottom: px(24) },
        }
    );

    if let BoxType::InlineNode(_) = c0.box_type {
    } else {
        panic!();
    }

    if let BoxType::InlineNode(_) = c1.box_type {
    } else {
        panic!();
    }
}

fn solve(
    width: Option<i64>,
    margin_left: Option<i64>,
    margin_right: Option<i64>,
    edges: [i64; 4],
    cw: i64,
) -> (i64, i64, i64) {
    let d = solve_block_width(
        width,
        margin_left,
        margin_right,
        edges[0],
        edges[1],
        edges[2],
        edges[3],
        cw,
        Dimensions::default(),
    )
    .unwrap();
    assert_eq!(d.border.left, edges[0]);
    assert_eq!(d.border.right, edges[1]);
    assert_eq!(d.padding.left, edges[2]);
    assert_eq!(d.padding.right, edges[3]);
    assert_eq!(
        d.margin.left + d.border.left + d.padding.left + d.content.width
            + d.padding.right + d.border.right + d.margin.right
            + if width.is_some() && margin_left.is_none() && margin_right.is_none()
                && (cw - edges.iter().sum::<i64>() - width.unwrap()) % 2 == 1 { 1 } else { 0 },
        cw
    );
    (d.margin.left, d.content.width, d.margin.right)
}

#[test]
fn auto_margins_centre_a_given_width() {
    // width: 100px, margin: auto, in 800px.
    assert_eq!(
        solve(Some(px(100)), None, None, [0; 4], px(800)),
        (px(350), px(100), px(350))
    );
    assert_eq!(solve(Some(100), None, None, [1, 2, 3, 4], 210), (50, 100, 50));
    // An odd remainder leaves one unit over.
    assert_eq!(solve(Some(100), None, None, [0; 4], 201), (50, 100, 50));
}

#[test]
fn the_width_equation_case_by_case() {
    // Nothing auto: margin-right gives way.
    assert_eq!(solve(Some(100), Some(10), Some(20), [1, 2, 3, 4], 500), (10, 100, 380));
    assert_eq!(solve(Some(100), Some(10), Some(20), [0; 4], 50), (10, 100, -60));
    // One auto margin takes up the underflow.
    assert_eq!(solve(Some(100), Some(10), None, [0; 4], 500), (10, 100, 390));
    assert_eq!(solve(Some(100), None, Some(10), [0; 4], 500), (390, 100, 10));
    // A given width that does not fit: auto margins become zero.
    assert_eq!(solve(Some(600), None, None, [0; 4], 500), (0, 600, -100));
    assert_eq!(solve(Some(600), None, Some(10), [0; 4], 500), (0, 600, -100));
    assert_eq!(solve(Some(600), Some(10), None, [0; 4], 500), (10, 600, -110));
    // Auto width takes up the underflow; auto margins become zero.
    assert_eq!(solve(None, None, None, [1, 2, 3, 4], 500), (0, 490, 0));
    assert_eq!(solve(None, Some(10), None, [0; 4], 500), (10, 490, 0));
    assert_eq!(solve(None, Some(10), Some(20), [0; 4], 500), (10, 470, 20));
    // Auto width cannot be negative: margin-right gives way.
    assert_eq!(solve(None, Some(300), Some(300), [0; 4], 500), (300, 0, 200));
    assert_eq!(solve(None, None, Some(600), [0; 4], 500), (0, 0, 500));
    // A negative margin widens an auto width.
    assert_eq!(solve(None, Some(-50), Some(0), [0; 4], 500), (-50, 550, 0));
}

#[test]
fn the_width_equation_reports_what_does_not_fit() {
    let d = Dimensions::default();
    assert_eq!(
        solve_block_width(Some(0), Some(i64::MIN), Some(0), 0, 0, 0, 0, i64::MAX, d),
        Err(LayoutError::OutOfRange)
    );
    assert_eq!(
        solve_block_width(None, Some(-1), Some(0), 0, 0, 0, 0, i64::MAX, d),
        Err(LayoutError::OutOfRange)
    );
    assert!(solve_block_width(None, Some(0), Some(0), 0, 0, 0, 0, i64::MAX, d).is_ok());
    assert!(solve_block_width(Some(i64::MAX), None, None, 0, 0, 0, 0, i64::MIN, d).is_err());
}

#[test]
fn a_centred_block_through_the_whole_pipeline() {
    let document = parse_html("<div></div>").unwrap();
    let style = parse_css("div{display:block;width:100px;margin:auto;}").unwrap();
    let styled = style_tree(&document, &style);
    let root = layout_tree(&styled, viewport()).unwrap();
    assert_eq!(root.dimensions.margin.left, px(350));
    assert_eq!(root.dimensions.margin.right, px(350));
    assert_eq!(root.dimensions.content.width, px(100));
    assert_eq!(root.dimensions.content.x, px(350));
    // Vertically an auto margin is zero.
    assert_eq!(root.dimensions.margin.top, 0);
    assert_eq!(root.dimensions.margin.bottom, 0);
    assert_eq!(root.dimensions.content.y, 0);
    assert_eq!(root.dimensions.content.height, 0);
}

#[test]
fn blocks_stack_below_each_other() {
    let document = parse_html("<div><div></div><div></div></div>").unwrap();
    let style = parse_css("div{display:block;width:50px;height:50px;}").unwrap();
    let styled = style_tree(&document, &style);
    let root = layout_tree(&styled, viewport()).unwrap();
    assert_eq!(root.children.len(), 2);
    assert_eq!(root.children[0].dimensions.content.y, 0);
    assert_eq!(root.children[1].dimensions.content.y, px(50));
}

#[test]
fn vertical_margins_add_up_and_do_not_collapse() {
    let document = parse_html("<a><b></b><b></b><b></b></a>").unwrap();
    let style = parse_css(
        "a{display:block;padding:5px;border-width:1px}
         b{display:block;height:10px;margin:3px;padding-top:2px;border-bottom-width:4px}",
    )
    .unwrap();
    let styled = style_tree(&document, &style);
    let mut cb = viewport();
    cb.content.x = px(7);
    cb.content.y = px(11);
    let root = layout_tree(&styled, cb).unwrap();
    let d = &root.dimensions;
    assert_eq!(d.content.x, px(7 + 6));
    assert_eq!(d.content.y, px(11 + 6));
    assert_eq!(d.content.width, px(800 - 12));
    // Each child's margin box is 3 + 2 + 10 + 4 + 3 high.
    assert_eq!(d.content.height, px(3 * 22));
    for (i, child) in root.children.iter().enumerate() {
        let c = &child.dimensions;
        assert_eq!(c.margin_box().height, px(22));
        assert_eq!(c.content.y, d.content.y + px(22) * i as i64 + px(3) + px(2));
        assert_eq!(c.content.x, d.content.x + px(3));
        assert_eq!(c.content.width, d.content.width - px(6));
        assert_eq!(c.content.height, px(10));
        assert_eq!(c.border.bottom, px(4));
        assert_eq!(c.border.top, 0);
    }
}

#[test]
fn the_containing_height_is_taken_as_zero() {
    let document = parse_html("<a></a>").unwrap();
    let style = parse_css("a{display:block}").unwrap();
    let styled = style_tree(&document, &style);
    let mut cb = viewport();
    cb.content.height = px(600);
    cb.content.y = px(10);
    let root = layout_tree(&styled, cb).unwrap();
    assert_eq!(root.dimensions.content.y, px(10));
    // Laid out directly, a box lies below what its container holds.
    let fresh = build_layout_tree(&styled);
    assert_eq!(fresh.dimensions, Dimensions::default());
    let placed = fresh.layout(&cb).unwrap();
    assert_eq!(placed.dimensions.content.y, px(610));
}

#[test]
fn inline_runs_share_one_anonymous_box() {
    let document = parse_html("<div><span>a</span><span>b</span><p>c</p></div>").unwrap();
    let style = parse_css("div,p{display:block} span{display:inline}").unwrap();
    let styled = style_tree(&document, &style);
    let root = build_layout_tree(&styled);
    assert_eq!(kinds(&root), vec!["anonymous", "block"]);
    assert_eq!(kinds(&root.children[0]), vec!["inline", "inline"]);
    // The text inside each span is an inline box of its own, under an inline parent.
    assert_eq!(kinds(&root.children[0].children[0]), vec!["inline"]);
    assert_eq!(kinds(&root.children[1]), vec!["anonymous"]);
}

#[test]
fn anonymous_boxes_do_not_merge_across_a_block() {
    let document = parse_html(
        "<div><i>1</i><b></b><i>2</i><i>3</i><u></u><b></b><b></b><i>4</i><s></s><i>5</i></div>",
    )
    .unwrap();
    let style = parse_css("div,b{display:block} u{display:inline-block} s{display:none}").unwrap();
    let styled = style_tree(&document, &style);
    let root = build_layout_tree(&styled);
    assert_eq!(
        kinds(&root),
        vec!["anonymous", "block", "anonymous", "block", "block", "anonymous"]
    );
    assert_eq!(kinds(&root.children[0]), vec!["inline"]);
    assert_eq!(kinds(&root.children[2]), vec!["inline", "inline", "inline-block"]);
    // The omitted element does not end the run.
    assert_eq!(kinds(&root.children[5]), vec!["inline", "inline"]);
}

#[test]
fn no_anonymous_box_under_an_inline_parent() {
    let document = parse_html("<i><i>1</i><b></b><u></u></i>").unwrap();
    let style = parse_css("b{display:block} u{display:inline-block}").unwrap();
    let styled = style_tree(&document, &style);
    let root = build_layout_tree(&styled);
    assert_eq!(kind(&root), "inline");
    assert_eq!(kinds(&root), vec!["inline", "block", "inline-block"]);
    let style = parse_css("i{display:inline-block} b{display:block}").unwrap();
    let styled = style_tree(&document, &style);
    let root = build_layout_tree(&styled);
    assert_eq!(kind(&root), "inline-block");
    assert_eq!(kinds(&root), vec!["inline-block", "block", "inline"]);
}

#[test]
fn omitted_subtrees_generate_nothing() {
    let document = parse_html("<a><b><c></c></b><d></d></a>").unwrap();
    let style = parse_css("a,c,d{display:block} b{display:none}").unwrap();
    let styled = style_tree(&document, &style);
    let root = build_layout_tree(&styled);
    assert_eq!(kinds(&root), vec!["block"]);
    assert_eq!(root.children[0].children.len(), 0);
}

#[test]
fn an_omitted_root_cannot_be_laid_out() {
    let document = parse_html("<a><b></b></a>").unwrap();
    let style = parse_css("a{display:none} b{display:block}").unwrap();
    let styled = style_tree(&document, &style);
    assert_eq!(layout_tree(&styled, viewport()).err(), Some(LayoutError::RootOmitted));
    assert_eq!(
        boxrs::build_layout_tree(&styled, viewport()).err(),
        Some(LayoutError::RootOmitted)
    );
}

#[test]
fn a_layout_that_does_not_fit_is_refused() {
    let document = parse_html("<a><b></b><b></b></a>").unwrap();
    let style =
        parse_css("a,b{display:block} b{height:9000000000000000px;margin-left:1px}").unwrap();
    let styled = style_tree(&document, &style);
    assert_eq!(layout_tree(&styled, viewport()).err(), Some(LayoutError::OutOfRange));
    // With a width that leaves no room for the margin to be added.
    let mut cb = viewport();
    cb.content.x = i64::MAX;
    assert_eq!(layout_tree(&styled, cb).err(), Some(LayoutError::OutOfRange));
    let style = parse_css("a,b{display:block} b{height:4000000000000000px}").unwrap();
    let styled = style_tree(&document, &style);
    assert!(layout_tree(&styled, viewport()).is_ok());
}

#[test]
fn anonymous_boxes_take_no_part_in_layout() {
    let document = parse_html("<a><i>x</i><b></b></a>").unwrap();
    let style = parse_css("a,b{display:block} i{width:10px;height:10px;margin:2px} b{height:5px}")
        .unwrap();
    let styled = style_tree(&document, &style);
    let mut cb = viewport();
    cb.content.x = px(3);
    cb.content.y = px(4);
    let root = layout_tree(&styled, cb).unwrap();
    let anonymous = &root.children[0];
    assert_eq!(kind(anonymous), "anonymous");
    assert_eq!(anonymous.dimensions, Dimensions::default());
    assert_eq!(anonymous.children[0].dimensions, Dimensions::default());
    assert_eq!(anonymous.children[0].children[0].dimensions, Dimensions::default());
    // The block behind it lies where it would lie without it.
    assert_eq!(root.children[1].dimensions.content.y, px(4));
    assert_eq!(root.dimensions.content.height, px(5));
}

#[test]
fn inline_boxes_line_up_to_the_right() {
    let document = parse_html("<i><i></i><u><b></b><b></b></u><i></i></i>").unwrap();
    let style = parse_css(
        "i{width:10px;height:7px;margin:2px;padding:1px;border-width:3px}
         u{display:inline-block;width:20px;margin-left:4px;padding-top:5px}
         b{display:block;height:6px}",
    )
    .unwrap();
    let styled = style_tree(&document, &style);
    let mut cb = viewport();
    cb.content.x = px(100);
    cb.content.y = px(50);
    let root = layout_tree(&styled, cb).unwrap();
    let d = &root.dimensions;
    // An inline box lies behind the container's width, with its top edges above it.
    assert_eq!(d.content.x, px(100 + 800));
    assert_eq!(d.content.y, px(50 + 2 + 3 + 1));
    assert_eq!(d.margin, EdgeSizes { left: 0, right: 0, top: px(2), bottom: px(2) });
    assert_eq!(d.padding, EdgeSizes { left: 0, right: 0, top: px(1), bottom: px(1) });
    assert_eq!(d.border, EdgeSizes { left: 0, right: 0, top: px(3), bottom: px(3) });
    assert_eq!(d.content.height, px(7));
    let first = &root.children[0].dimensions;
    let second = &root.children[1].dimensions;
    let third = &root.children[2].dimensions;
    assert_eq!(first.content.x, d.content.x + px(10));
    assert_eq!(first.content.width, px(10));
    assert_eq!(first.margin_box().width, px(10));
    // An inline-block has its declared width and no horizontal edges either.
    assert_eq!(second.margin.left, 0);
    assert_eq!(second.margin.right, 0);
    assert_eq!(second.content.width, px(20));
    assert_eq!(second.content.x, d.content.x + px(20));
    assert_eq!(second.content.y, d.content.y + px(5));
    assert_eq!(second.margin_box().width, px(20));
    // Its children stack, and make its height.
    assert_eq!(second.content.height, px(12));
    let blocks = &root.children[1].children;
    assert_eq!(blocks[0].dimensions.content.y, second.content.y);
    assert_eq!(blocks[1].dimensions.content.y, second.content.y + px(6));
    assert_eq!(blocks[1].dimensions.content.width, px(20));
    assert_eq!(third.content.x, d.content.x + px(40));
    // The parent has grown by the margin boxes of its children.
    assert_eq!(d.content.width, px(10 + 10 + 20 + 10));
}

#[test]
fn an_inline_box_without_a_width_starts_empty() {
    let document = parse_html("<a><u></u></a>").unwrap();
    let style = parse_css("a{display:inline-block;height:3px} u{display:inline-block}").unwrap();
    let styled = style_tree(&document, &style);
    let root = layout_tree(&styled, viewport()).unwrap();
    assert_eq!(root.dimensions.content.width, 0);
    assert_eq!(root.dimensions.content.x, px(800));
    assert_eq!(root.dimensions.content.height, px(3));
    assert_eq!(root.children[0].dimensions.content.width, 0);
    assert_eq!(root.children[0].dimensions.content.x, px(800));
}

#[test]
fn boxes_around_the_content() {
    let d = Dimensions {
        content: Rect { x: 10, y: 20, width: 30, height: 40 },
        padding: EdgeSizes { left: 1, right: 2, top: 3, bottom: 4 },
        border: EdgeSizes { left: 5, right: 6, top: 7, bottom: 8 },
        margin: EdgeSizes { left: 9, right: 10, top: 11, bottom: -12 },
    };
    assert_eq!(d.padding_box(), Rect { x: 9, y: 17, width: 33, height: 47 });
    assert_eq!(d.border_box(), Rect { x: 4, y: 10, width: 44, height: 62 });
    assert_eq!(d.margin_box(), Rect { x: -5, y: -1, width: 63, height: 61 });
    assert_eq!(d.checked_border_box(), Some(d.border_box()));
    assert_eq!(d.content.expanded_by(d.padding), d.padding_box());
    assert_eq!(d.content.checked_expanded_by(d.padding), Some(d.padding_box()));
    let wide = Rect { x: 0, y: 0, width: i64::MAX, height: 0 };
    assert_eq!(wide.checked_expanded_by(d.padding), None);
    assert_eq!(Dimensions::zero(), Dimensions::default());
}

#[test]
fn the_pipeline_function_is_layout_tree() {
    let document = parse_html("<a></a>").unwrap();
    let style = parse_css("a{display:block;height:3px}").unwrap();
    let styled = style_tree(&document, &style);
    let by_module = layout_tree_by_its_module(&styled, viewport()).unwrap();
    let by_crate = boxrs::build_layout_tree(&styled, viewport()).unwrap();
    assert_eq!(by_module.dimensions, by_crate.dimensions);
    assert_eq!(by_crate.dimensions.content.height, px(3));
}
