//! A small layout engine: style resolution, box-tree construction, box-model
//! geometry and display-list generation, verified with Verus.

use vstd::prelude::*;

pub mod box_tree;
pub mod css;
pub mod css_grammar;
pub mod css_syntax;
pub mod css_text;
pub mod dom;
pub mod flow;
pub mod html;
pub mod layout;
pub mod painting;
pub mod style;
pub mod style_text;
pub mod text;

verus! {

/// The document `h` as one node, or `None` where it is malformed.
pub fn parse_html(h: &str) -> (r: Option<dom::Node>)
    ensures
        match r {
            Some(n) => html::document(h@) == Some(n@),
            None => html::document(h@) is None,
        },
{
    html::Parser::parse(h.to_owned())
}

/// The sheet that `c` holds, or `None` where it is malformed.
pub fn parse_css(c: &str) -> (r: Option<css::Sheet>)
    ensures
        match r {
            Some(sheet) => css_grammar::sheet_of(c@) == Some(sheet@),
            None => css_grammar::sheet_of(c@) is None,
        },
{
    css_grammar::rules(c)
}

/// The styled tree of the document `h` under the sheet `c`.
pub fn build_style_tree<'a>(h: &'a dom::Node, c: &css::Sheet) -> (s: style::StyledNode<'a>)
    ensures
        style::styles(s, h, *c),
{
    style::style_tree(h, c)
}

/// The box tree of the styled tree `s`, laid out in the containing block
/// `d` with its content height taken as zero.
pub fn build_layout_tree<'a>(s: &'a style::StyledNode<'a>, d: layout::Dimensions) -> (r: Result<
    box_tree::LayoutBox<'a>,
    layout::LayoutError,
>)
    ensures
        ({
            let cb = flow::with_height(d@, 0);
            let omitted = style::display_of(s.specified_values@) == style::Display::Omitted;
            match r {
                Ok(b) => !omitted && flow::placeable(box_tree::box_tree(s), cb) && b@ == flow::placed(
                    box_tree::box_tree(s),
                    cb,
                ),
                Err(layout::LayoutError::RootOmitted) => omitted,
                Err(layout::LayoutError::OutOfRange) => !omitted && !flow::placeable(
                    box_tree::box_tree(s),
                    cb,
                ),
            }
        }),
{
    flow::layout_tree(s, d)
}

/// The display list of the laid-out box tree `l`.
pub fn build_display_list(l: &box_tree::LayoutBox) -> (r: Result<
    painting::DisplayList,
    layout::LayoutError,
>)
    ensures
        match r {
            Ok(list) => painting::paintable(painting::painted(l@)) && painting::paints(list@)
                == painting::painted(l@),
            Err(e) => e == layout::LayoutError::OutOfRange && !painting::paintable(
                painting::painted(l@),
            ),
        },
{
    painting::build_display_list(l)
}

} // verus!
