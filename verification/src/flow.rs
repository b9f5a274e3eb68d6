//! Laying out a box tree: widths and positions on the way down, heights on
//! the way up.

use vstd::prelude::*;
use crate::box_tree::{
    BoxType, Frame, LayoutBox, box_tree, build_layout_tree, frames, lemma_frames, lemma_frames_push,
    well_formed,
};
use crate::css::{Unit, Value};
use crate::layout::{
    Area, Dimensions, EdgeSizes, Edges, Geometry, Horizontal, LayoutError, Rect, declared,
    declared_size, declared_total, lemma_auto_width_balance, lemma_width_balance,
    lemma_width_odd_remainder, narrow, used_horizontal,
};
use crate::style::{Display, StyledNode, display_of, lookup_of};

verus! {

/// The length zero, the default of margins, borders and padding.
pub open spec fn zero_length() -> Value {
    Value::Length(0, Unit::Px)
}

/// The length of the edge `name`, taken from `fallback` where `name` is
/// not declared, zero where neither is or the value is no length.
pub open spec fn edge(props: Map<Seq<char>, Value>, name: Seq<char>, fallback: Seq<char>) -> int {
    lookup_of(props, name, fallback, zero_length()).px_units()
}

/// The length declared for `name`, if a length is declared for it.
pub open spec fn explicit(props: Map<Seq<char>, Value>, name: Seq<char>) -> Option<int> {
    if props.contains_key(name) {
        match props[name] {
            Value::Length(n, Unit::Px) => Some(n as int),
            _ => None,
        }
    } else {
        None
    }
}

/// The declared width: `None` for `auto`, which is also the default.
pub open spec fn declared_width(props: Map<Seq<char>, Value>) -> Option<int> {
    if props.contains_key("width"@) {
        declared(props["width"@])
    } else {
        None
    }
}

/// The used horizontal extents of a block-level box with declarations
/// `props` in a containing block of content width `cw`.
pub open spec fn block_horizontal(props: Map<Seq<char>, Value>, cw: int) -> Horizontal {
    used_horizontal(
        declared_width(props),
        declared(lookup_of(props, "margin-left"@, "margin"@, zero_length())),
        declared(lookup_of(props, "margin-right"@, "margin"@, zero_length())),
        edge(props, "border-left-width"@, "border-width"@),
        edge(props, "border-right-width"@, "border-width"@),
        edge(props, "padding-left"@, "padding"@),
        edge(props, "padding-right"@, "padding"@),
        cw,
    )
}

/// `g` with the content width and the left and right edges of `h`.
pub open spec fn with_horizontal(g: Geometry, h: Horizontal) -> Geometry {
    Geometry {
        content: Area { width: h.width, ..g.content },
        padding: Edges { left: h.padding_left, right: h.padding_right, ..g.padding },
        border: Edges { left: h.border_left, right: h.border_right, ..g.border },
        margin: Edges { left: h.margin_left, right: h.margin_right, ..g.margin },
    }
}

/// `g` with the top and bottom edges that `props` declare; an `auto`
/// margin counts as zero.
pub open spec fn with_vertical_edges(g: Geometry, props: Map<Seq<char>, Value>) -> Geometry {
    Geometry {
        content: g.content,
        padding: Edges {
            top: edge(props, "padding-top"@, "padding"@),
            bottom: edge(props, "padding-bottom"@, "padding"@),
            ..g.padding
        },
        border: Edges {
            top: edge(props, "border-top-width"@, "border-width"@),
            bottom: edge(props, "border-bottom-width"@, "border-width"@),
            ..g.border
        },
        margin: Edges {
            top: edge(props, "margin-top"@, "margin"@),
            bottom: edge(props, "margin-bottom"@, "margin"@),
            ..g.margin
        },
    }
}

/// `g` with its vertical edges and the position of a block in `cb`: at
/// the left of the container's content area, below what the container
/// holds so far.
pub open spec fn with_block_position(g: Geometry, props: Map<Seq<char>, Value>, cb: Geometry) -> Geometry {
    let e = with_vertical_edges(g, props);
    Geometry {
        content: Area {
            x: cb.content.x + e.margin.left + e.border.left + e.padding.left,
            y: cb.content.height + cb.content.y + e.margin.top + e.border.top + e.padding.top,
            ..e.content
        },
        ..e
    }
}

/// `g` with its vertical edges and the position of an inline-level box in
/// `cb`: at the top of the container's content area, to the right of what
/// the container holds so far.
pub open spec fn with_inline_position(g: Geometry, props: Map<Seq<char>, Value>, cb: Geometry) -> Geometry {
    let e = with_vertical_edges(g, props);
    Geometry {
        content: Area {
            x: cb.content.width + cb.content.x + e.margin.left + e.border.left + e.padding.left,
            y: cb.content.y + e.margin.top + e.border.top + e.padding.top,
            ..e.content
        },
        ..e
    }
}

/// `g` with the content width `w`.
pub open spec fn with_width(g: Geometry, w: int) -> Geometry {
    Geometry { content: Area { width: w, ..g.content }, ..g }
}

/// `g` with the content height `h`.
pub open spec fn with_height(g: Geometry, h: int) -> Geometry {
    Geometry { content: Area { height: h, ..g.content }, ..g }
}

/// The declarations of the styled node behind a box; none for an
/// anonymous block.
pub open spec fn props_of(t: BoxType) -> Map<Seq<char>, Value> {
    match t {
        BoxType::BlockNode(s) => s.specified_values@,
        BoxType::InlineNode(s) => s.specified_values@,
        BoxType::InlineBlockNode(s) => s.specified_values@,
        BoxType::AnonymousBlock => Map::empty(),
    }
}

/// The geometry of a box of kind `t` in the containing block `cb` before
/// its children are laid out: width and position are settled, the content
/// height is zero.
///
/// A block solves the width equation and lies below what its container
/// holds. An inline or inline-block box has its declared width, or none,
/// and no horizontal edges, and lies to the right of what its container
/// holds.
pub open spec fn start_of(t: BoxType, cb: Geometry) -> Geometry {
    let props = props_of(t);
    match t {
        BoxType::BlockNode(_) => with_block_position(
            with_horizontal(Geometry::zero(), block_horizontal(props, cb.content.width)),
            props,
            cb,
        ),
        BoxType::AnonymousBlock => Geometry::zero(),
        _ => with_inline_position(
            with_width(
                Geometry::zero(),
                match explicit(props, "width"@) {
                    Some(w) => w,
                    None => 0,
                },
            ),
            props,
            cb,
        ),
    }
}

/// The heights of the margin boxes of `boxes` added up.
pub open spec fn stacked_height(boxes: Seq<Frame>) -> int
    decreases boxes.len(),
{
    if boxes.len() == 0 {
        0
    } else {
        stacked_height(boxes.drop_last()) + boxes.last().geometry.margin_box().height
    }
}

/// The widths of the margin boxes of `boxes` added up.
pub open spec fn lined_width(boxes: Seq<Frame>) -> int
    decreases boxes.len(),
{
    if boxes.len() == 0 {
        0
    } else {
        lined_width(boxes.drop_last()) + boxes.last().geometry.margin_box().width
    }
}

/// The geometry of a box of kind `t` that started as `start`, once it
/// holds the laid-out children `held`: an inline box has grown wider by
/// their margin boxes, any other box higher.
pub open spec fn holding(t: BoxType, start: Geometry, held: Seq<Frame>) -> Geometry {
    if t is InlineNode {
        with_width(start, start.content.width + lined_width(held))
    } else {
        with_height(start, start.content.height + stacked_height(held))
    }
}

/// The final geometry of a box of kind `t`: what it is when it holds all
/// its children, but for a declared height, which replaces the content
/// height.
pub open spec fn finished(t: BoxType, start: Geometry, held: Seq<Frame>) -> Geometry {
    let full = holding(t, start, held);
    match explicit(props_of(t), "height"@) {
        Some(h) => with_height(full, h),
        None => full,
    }
}

/// The box `f` laid out in the containing block `cb`.
///
/// An anonymous block is left as it is, with everything below it. Any
/// other box gets its width and position from `cb`; its children are laid
/// out in turn, each in the box's own geometry as it is with the children
/// before it; then its height is settled.
pub open spec fn placed<'a>(f: Frame<'a>, cb: Geometry) -> Frame<'a>
    decreases f, f.children.len() + 1,
{
    if f.box_type is AnonymousBlock {
        f
    } else {
        let start = start_of(f.box_type, cb);
        let held = placed_children(f, start, f.children.len());
        Frame { box_type: f.box_type, geometry: finished(f.box_type, start, held), children: held }
    }
}

/// The first `n` children of `f` laid out, where `f` starts as `start`.
pub open spec fn placed_children<'a>(f: Frame<'a>, start: Geometry, n: nat) -> Seq<Frame<'a>>
    decreases f, n,
{
    if n == 0 || n > f.children.len() {
        Seq::empty()
    } else {
        let before = placed_children(f, start, (n - 1) as nat);
        before.push(placed(f.children[n - 1], holding(f.box_type, start, before)))
    }
}

/// The containing block in which child `k` of `f` is laid out; for `k`
/// the number of children, the geometry of `f` with all of them.
pub open spec fn containing_at(f: Frame, start: Geometry, k: nat) -> Geometry {
    holding(f.box_type, start, placed_children(f, start, k))
}

/// Whether the layout of `f` in `cb` is representable: every extent of
/// every box, and of every containing block that a child is laid out in,
/// fits in `i64`.
pub open spec fn placeable(f: Frame, cb: Geometry) -> bool
    decreases f, 1nat,
{
    f.box_type is AnonymousBlock || (start_of(f.box_type, cb).fits() && flows(
        f,
        start_of(f.box_type, cb),
    ))
}

/// Whether the children of `f`, which starts as `start`, can be laid out:
/// the geometry of `f` with any number of them is representable, and so
/// is the layout of each in it.
pub open spec fn flows(f: Frame, start: Geometry) -> bool
    decreases f, 0nat,
{
    &&& forall|k: nat| k <= f.children.len() ==> (#[trigger] containing_at(f, start, k)).fits()
    &&& forall|k: nat|
        k < f.children.len() ==> placeable(f.children[k as int], #[trigger] containing_at(f, start, k))
}

/// Declared sizes as integers.
pub open spec fn ints(o: Option<i64>) -> Option<int> {
    match o {
        Some(n) => Some(n as int),
        None => None,
    }
}

/// Half of an amount that is not negative, rounded down.
fn half(v: i128) -> (r: i128)
    requires
        v >= 0,
    ensures
        r == v / 2,
{
    v / 2
}

/// Solves the width equation of a block-level box: `d` with the used
/// content width and left and right edges, from the declared sizes (`None`
/// for `auto`) and the content width `cw` of the containing block.
pub fn solve_block_width(
    width: Option<i64>,
    margin_left: Option<i64>,
    margin_right: Option<i64>,
    border_left: i64,
    border_right: i64,
    padding_left: i64,
    padding_right: i64,
    cw: i64,
    d: Dimensions,
) -> (r: Result<Dimensions, LayoutError>)
    ensures
        ({
            let h = used_horizontal(
                ints(width),
                ints(margin_left),
                ints(margin_right),
                border_left as int,
                border_right as int,
                padding_left as int,
                padding_right as int,
                cw as int,
            );
            match r {
                Ok(g) => h.fits() && g@ == with_horizontal(d@, h),
                Err(e) => e == LayoutError::OutOfRange && !h.fits(),
            }
        }),
{
    let w0: i128 = match width {
        Some(w) => w as i128,
        None => 0,
    };
    let l0: i128 = match margin_left {
        Some(l) => l as i128,
        None => 0,
    };
    let r0: i128 = match margin_right {
        Some(r) => r as i128,
        None => 0,
    };
    let total: i128 = l0 + r0 + border_left as i128 + border_right as i128 + padding_left as i128
        + padding_right as i128 + w0;

    // A given width that is wider than the container: auto margins count as zero.
    let squeezed = width.is_some() && total > cw as i128;
    let left_auto = margin_left.is_none() && !squeezed;
    let right_auto = margin_right.is_none() && !squeezed;

    let underflow: i128 = cw as i128 - total;
    let mut w: i128 = w0;
    let mut l: i128 = l0;
    let mut r: i128 = r0;
    if width.is_none() {
        // An auto width takes up the underflow; it cannot be negative.
        if underflow >= 0 {
            w = underflow;
        } else {
            w = 0;
            r = r0 + underflow;
        }
    } else if left_auto && right_auto {
        l = half(underflow);
        r = l;
    } else if left_auto {
        l = underflow;
    } else if right_auto {
        r = underflow;
    } else {
        // Over-constrained: the right margin gives way.
        r = r0 + underflow;
    }
    proof {
        let h = used_horizontal(
            ints(width),
            ints(margin_left),
            ints(margin_right),
            border_left as int,
            border_right as int,
            padding_left as int,
            padding_right as int,
            cw as int,
        );
        assert(h.width == w && h.margin_left == l && h.margin_right == r);
    }
    let width = narrow(w)?;
    let left = narrow(l)?;
    let right = narrow(r)?;
    Ok(
        Dimensions {
            content: Rect { x: d.content.x, y: d.content.y, width, height: d.content.height },
            padding: EdgeSizes {
                left: padding_left,
                right: padding_right,
                top: d.padding.top,
                bottom: d.padding.bottom,
            },
            border: EdgeSizes {
                left: border_left,
                right: border_right,
                top: d.border.top,
                bottom: d.border.bottom,
            },
            margin: EdgeSizes { left, right, top: d.margin.top, bottom: d.margin.bottom },
        },
    )
}

/// The height of the margin box of `d`.
fn margin_box_height(d: &Dimensions) -> (h: i128)
    ensures
        h == d@.margin_box().height,
{
    d.content.height as i128 + d.padding.top as i128 + d.padding.bottom as i128
        + d.border.top as i128 + d.border.bottom as i128 + d.margin.top as i128
        + d.margin.bottom as i128
}

/// The width of the margin box of `d`.
fn margin_box_width(d: &Dimensions) -> (w: i128)
    ensures
        w == d@.margin_box().width,
{
    d.content.width as i128 + d.padding.left as i128 + d.padding.right as i128
        + d.border.left as i128 + d.border.right as i128 + d.margin.left as i128
        + d.margin.right as i128
}

/// `stacked_height` and `lined_width` of a sequence with one more box.
pub proof fn lemma_extent_push(boxes: Seq<Frame>, b: Frame)
    ensures
        stacked_height(boxes.push(b)) == stacked_height(boxes) + b.geometry.margin_box().height,
        lined_width(boxes.push(b)) == lined_width(boxes) + b.geometry.margin_box().width,
{
    assert(boxes.push(b).drop_last() =~= boxes);
}

impl<'a> LayoutBox<'a> {
    /// The box's declarations.
    pub open spec fn props(&self) -> Map<Seq<char>, Value> {
        props_of(self.box_type)
    }

    /// Width of a block-level box: `d` with the used content width and
    /// left and right edges.
    fn calculate_block_width(&self, containing_block: &Dimensions, d: Dimensions) -> (r: Result<
        Dimensions,
        LayoutError,
    >)
        requires
            !(self.box_type is AnonymousBlock),
        ensures
            ({
                let h = block_horizontal(self.props(), containing_block@.content.width);
                match r {
                    Ok(g) => h.fits() && g@ == with_horizontal(d@, h),
                    Err(e) => e == LayoutError::OutOfRange && !h.fits(),
                }
            }),
    {
        let style = self.get_style_node();

        // `width` has initial value `auto`.
        let width = match style.value("width") {
            Some(v) => declared_size(&v),
            None => None,
        };

        // margin, border, and padding have initial value 0.
        let zero = Value::Length(0, Unit::Px);

        let margin_left = declared_size(&style.lookup("margin-left", "margin", &zero));
        let margin_right = declared_size(&style.lookup("margin-right", "margin", &zero));

        let border_left = style.lookup("border-left-width", "border-width", &zero).to_px();
        let border_right = style.lookup("border-right-width", "border-width", &zero).to_px();

        let padding_left = style.lookup("padding-left", "padding", &zero).to_px();
        let padding_right = style.lookup("padding-right", "padding", &zero).to_px();

        solve_block_width(
            width,
            margin_left,
            margin_right,
            border_left,
            border_right,
            padding_left,
            padding_right,
            containing_block.content.width,
            d,
        )
    }

    /// Width of an inline box: a declared width, else the one it has.
    fn calculate_inline_width(&self, d: Dimensions) -> (g: Dimensions)
        requires
            !(self.box_type is AnonymousBlock),
        ensures
            g@ == with_width(
                d@,
                match explicit(self.props(), "width"@) {
                    Some(w) => w,
                    None => d@.content.width,
                },
            ),
    {
        let mut g = d;
        match self.get_style_node().value("width") {
            Some(Value::Length(w, Unit::Px)) => {
                g.content.width = w;
            },
            _ => {},
        }
        g
    }

    /// `d` with the top and bottom edges that the box declares.
    fn vertical_edges(&self, d: Dimensions) -> (g: Dimensions)
        requires
            !(self.box_type is AnonymousBlock),
        ensures
            g@ == with_vertical_edges(d@, self.props()),
    {
        let style = self.get_style_node();
        let mut g = d;

        // margin, border, and padding have initial value 0.
        let zero = Value::Length(0, Unit::Px);

        // If margin-top or margin-bottom is `auto`, the used value is zero.
        g.margin.top = style.lookup("margin-top", "margin", &zero).to_px();
        g.margin.bottom = style.lookup("margin-bottom", "margin", &zero).to_px();

        g.border.top = style.lookup("border-top-width", "border-width", &zero).to_px();
        g.border.bottom = style.lookup("border-bottom-width", "border-width", &zero).to_px();

        g.padding.top = style.lookup("padding-top", "padding", &zero).to_px();
        g.padding.bottom = style.lookup("padding-bottom", "padding", &zero).to_px();
        g
    }

    /// Position of an inline-level box: to the right of what the
    /// container holds so far.
    fn calculate_inline_position(&self, containing_block: &Dimensions, d: Dimensions) -> (r: Result<
        Dimensions,
        LayoutError,
    >)
        requires
            !(self.box_type is AnonymousBlock),
        ensures
            ({
                let p = with_inline_position(d@, self.props(), containing_block@);
                match r {
                    Ok(g) => g@ == p,
                    Err(e) => e == LayoutError::OutOfRange && !p.fits(),
                }
            }),
    {
        let mut g = self.vertical_edges(d);
        let x = narrow(
            containing_block.content.width as i128 + containing_block.content.x as i128
                + g.margin.left as i128 + g.border.left as i128 + g.padding.left as i128,
        )?;
        let y = narrow(
            containing_block.content.y as i128 + g.margin.top as i128 + g.border.top as i128
                + g.padding.top as i128,
        )?;
        g.content.x = x;
        g.content.y = y;
        Ok(g)
    }

    /// Position of a block: below what the container holds so far.
    fn calculate_block_position(&self, containing_block: &Dimensions, d: Dimensions) -> (r: Result<
        Dimensions,
        LayoutError,
    >)
        requires
            !(self.box_type is AnonymousBlock),
        ensures
            ({
                let p = with_block_position(d@, self.props(), containing_block@);
                match r {
                    Ok(g) => g@ == p,
                    Err(e) => e == LayoutError::OutOfRange && !p.fits(),
                }
            }),
    {
        let mut g = self.vertical_edges(d);
        let x = narrow(
            containing_block.content.x as i128 + g.margin.left as i128 + g.border.left as i128
                + g.padding.left as i128,
        )?;

        // Below all the previous boxes in the container.
        let y = narrow(
            containing_block.content.height as i128 + containing_block.content.y as i128
                + g.margin.top as i128 + g.border.top as i128 + g.padding.top as i128,
        )?;
        g.content.x = x;
        g.content.y = y;
        Ok(g)
    }

    /// Height of a box: a declared height, else the one it has.
    fn calculate_height(&self, d: Dimensions) -> (g: Dimensions)
        requires
            !(self.box_type is AnonymousBlock),
        ensures
            g@ == (match explicit(self.props(), "height"@) {
                Some(h) => with_height(d@, h),
                None => d@,
            }),
    {
        let mut g = d;
        match self.get_style_node().value("height") {
            Some(Value::Length(h, Unit::Px)) => {
                g.content.height = h;
            },
            _ => {},
        }
        g
    }
}

impl<'a> LayoutBox<'a> {
    /// Lays out the box and its descendants in `containing_block`: a
    /// copy of the box tree with its geometry, or `OutOfRange` where an
    /// extent of the layout does not fit in `i64`.
    pub fn layout(&self, containing_block: &Dimensions) -> (r: Result<LayoutBox<'a>, LayoutError>)
        ensures
            match r {
                Ok(b) => placeable(self@, containing_block@) && b@ == placed(
                    self@,
                    containing_block@,
                ),
                Err(e) => e == LayoutError::OutOfRange && !placeable(self@, containing_block@),
            },
        decreases self, 2nat,
    {
        match self.box_type {
            BoxType::BlockNode(_) => self.layout_block(containing_block),
            BoxType::InlineBlockNode(_) => self.layout_inline_block(containing_block),
            BoxType::InlineNode(_) => self.layout_inline(containing_block),
            // An anonymous block takes no part: neither it nor what it holds is touched.
            BoxType::AnonymousBlock => Ok(self.duplicate()),
        }
    }

    /// Lays out a block: width, position, children, height.
    fn layout_block(&self, containing_block: &Dimensions) -> (r: Result<LayoutBox<'a>, LayoutError>)
        requires
            self.box_type is BlockNode,
        ensures
            match r {
                Ok(b) => placeable(self@, containing_block@) && b@ == placed(
                    self@,
                    containing_block@,
                ),
                Err(e) => e == LayoutError::OutOfRange && !placeable(self@, containing_block@),
            },
        decreases self, 1nat,
    {
        let d = match self.calculate_block_width(containing_block, Dimensions::zero()) {
            Ok(d) => d,
            Err(e) => {
                return Err(e);
            },
        };
        let d = match self.calculate_block_position(containing_block, d) {
            Ok(d) => d,
            Err(e) => {
                return Err(e);
            },
        };
        match self.layout_block_children(d) {
            Ok((children, d)) => {
                let d = self.calculate_height(d);
                Ok(LayoutBox { dimensions: d, box_type: self.box_type, children })
            },
            Err(e) => Err(e),
        }
    }

    /// Lays out an inline-block: the width and position of an inline box, the
    /// children and height of a block.
    fn layout_inline_block(&self, containing_block: &Dimensions) -> (r: Result<
        LayoutBox<'a>,
        LayoutError,
    >)
        requires
            self.box_type is InlineBlockNode,
        ensures
            match r {
                Ok(b) => placeable(self@, containing_block@) && b@ == placed(
                    self@,
                    containing_block@,
                ),
                Err(e) => e == LayoutError::OutOfRange && !placeable(self@, containing_block@),
            },
        decreases self, 1nat,
    {
        let d = self.calculate_inline_width(Dimensions::zero());
        let d = match self.calculate_inline_position(containing_block, d) {
            Ok(d) => d,
            Err(e) => {
                return Err(e);
            },
        };
        match self.layout_block_children(d) {
            Ok((children, d)) => {
                let d = self.calculate_height(d);
                Ok(LayoutBox { dimensions: d, box_type: self.box_type, children })
            },
            Err(e) => Err(e),
        }
    }

    /// Lays out an inline box: width, position, children side by side, height.
    fn layout_inline(&self, containing_block: &Dimensions) -> (r: Result<LayoutBox<'a>, LayoutError>)
        requires
            self.box_type is InlineNode,
        ensures
            match r {
                Ok(b) => placeable(self@, containing_block@) && b@ == placed(
                    self@,
                    containing_block@,
                ),
                Err(e) => e == LayoutError::OutOfRange && !placeable(self@, containing_block@),
            },
        decreases self, 1nat,
    {
        let d = self.calculate_inline_width(Dimensions::zero());
        let d = match self.calculate_inline_position(containing_block, d) {
            Ok(d) => d,
            Err(e) => {
                return Err(e);
            },
        };
        match self.layout_inline_children(d) {
            Ok((children, d)) => {
                let d = self.calculate_height(d);
                Ok(LayoutBox { dimensions: d, box_type: self.box_type, children })
            },
            Err(e) => Err(e),
        }
    }

    /// Lays out the children one below the other in the box's content
    /// area: the children, and `d` with the content height grown by their
    /// margin boxes.
    fn layout_block_children(&self, d: Dimensions) -> (r: Result<
        (Vec<LayoutBox<'a>>, Dimensions),
        LayoutError,
    >)
        requires
            !(self.box_type is InlineNode),
        ensures
            match r {
                Ok((held, full)) => {
                    &&& flows(self@, d@)
                    &&& frames(held@) == placed_children(self@, d@, self@.children.len())
                    &&& full@ == containing_at(self@, d@, self@.children.len())
                },
                Err(e) => e == LayoutError::OutOfRange && !flows(self@, d@),
            },
        decreases self, 0nat,
    {
        let n = self.children.len();
        let ghost f = self@;
        let ghost start = d@;
        proof {
            lemma_frames(self.children@);
        }
        let mut held: Vec<LayoutBox<'a>> = Vec::new();
        let mut cur = d;
        let mut i: usize = 0;
        while i < n
            invariant
                i <= n,
                n == self.children.len(),
                f == self@,
                start == d@,
                f.children.len() == n,
                forall|j: int| 0 <= j < n ==> #[trigger] f.children[j] == self.children@[j]@,
                !(f.box_type is InlineNode),
                frames(held@) == placed_children(f, start, i as nat),
                cur@ == containing_at(f, start, i as nat),
                forall|k: nat| k <= i ==> (#[trigger] containing_at(f, start, k)).fits(),
                forall|k: nat|
                    k < i ==> placeable(f.children[k as int], #[trigger] containing_at(f, start, k)),
            decreases n - i,
        {
            let child = match self.children[i].layout(&cur) {
                Ok(child) => child,
                Err(e) => {
                    proof {
                        assert(!placeable(f.children[i as int], containing_at(f, start, i as nat)));
                    }
                    return Err(e);
                },
            };
            let ghost before = frames(held@);
            proof {
                lemma_frames_push(held@, child);
                lemma_extent_push(before, child@);
                assert(placed_children(f, start, (i + 1) as nat) == before.push(child@));
            }
            // Each child goes below the previous one.
            let height = match narrow(cur.content.height as i128 + margin_box_height(&child.dimensions)) {
                Ok(h) => h,
                Err(e) => {
                    proof {
                        assert(!containing_at(f, start, (i + 1) as nat).fits());
                    }
                    return Err(e);
                },
            };
            held.push(child);
            cur.content.height = height;
            i += 1;
        }
        Ok((held, cur))
    }

    /// Lays out the children one beside the other: the children, and `d`
    /// with the content width grown by their margin boxes.
    fn layout_inline_children(&self, d: Dimensions) -> (r: Result<
        (Vec<LayoutBox<'a>>, Dimensions),
        LayoutError,
    >)
        requires
            self.box_type is InlineNode,
        ensures
            match r {
                Ok((held, full)) => {
                    &&& flows(self@, d@)
                    &&& frames(held@) == placed_children(self@, d@, self@.children.len())
                    &&& full@ == containing_at(self@, d@, self@.children.len())
                },
                Err(e) => e == LayoutError::OutOfRange && !flows(self@, d@),
            },
        decreases self, 0nat,
    {
        let n = self.children.len();
        let ghost f = self@;
        let ghost start = d@;
        proof {
            lemma_frames(self.children@);
        }
        let mut held: Vec<LayoutBox<'a>> = Vec::new();
        let mut cur = d;
        let mut i: usize = 0;
        while i < n
            invariant
                i <= n,
                n == self.children.len(),
                f == self@,
                start == d@,
                f.children.len() == n,
                forall|j: int| 0 <= j < n ==> #[trigger] f.children[j] == self.children@[j]@,
                f.box_type is InlineNode,
                frames(held@) == placed_children(f, start, i as nat),
                cur@ == containing_at(f, start, i as nat),
                forall|k: nat| k <= i ==> (#[trigger] containing_at(f, start, k)).fits(),
                forall|k: nat|
                    k < i ==> placeable(f.children[k as int], #[trigger] containing_at(f, start, k)),
            decreases n - i,
        {
            let child = match self.children[i].layout(&cur) {
                Ok(child) => child,
                Err(e) => {
                    proof {
                        assert(!placeable(f.children[i as int], containing_at(f, start, i as nat)));
                    }
                    return Err(e);
                },
            };
            let ghost before = frames(held@);
            proof {
                lemma_frames_push(held@, child);
                lemma_extent_push(before, child@);
                assert(placed_children(f, start, (i + 1) as nat) == before.push(child@));
            }
            // Each child goes next to the previous one.
            let width = match narrow(cur.content.width as i128 + margin_box_width(&child.dimensions)) {
                Ok(w) => w,
                Err(e) => {
                    proof {
                        assert(!containing_at(f, start, (i + 1) as nat).fits());
                    }
                    return Err(e);
                },
            };
            held.push(child);
            cur.content.width = width;
            i += 1;
        }
        Ok((held, cur))
    }
}

/// Resets the content height of `containing_block` to zero, builds the
/// box tree of `node` and lays it out.
pub fn layout_tree<'a>(node: &'a StyledNode<'a>, containing_block: Dimensions) -> (r: Result<
    LayoutBox<'a>,
    LayoutError,
>)
    ensures
        ({
            let cb = with_height(containing_block@, 0);
            let omitted = display_of(node.specified_values@) == Display::Omitted;
            match r {
                Ok(b) => !omitted && placeable(box_tree(node), cb) && b@ == placed(box_tree(node), cb),
                Err(LayoutError::RootOmitted) => omitted,
                Err(LayoutError::OutOfRange) => !omitted && !placeable(box_tree(node), cb),
            }
        }),
{
    // The layout algorithm expects the container height to start at 0.
    let mut containing_block = containing_block;
    containing_block.content.height = 0;

    match node.display() {
        Display::Omitted => Err(LayoutError::RootOmitted),
        _ => {
            let root_box = build_layout_tree(node);
            root_box.layout(&containing_block)
        },
    }
}

/// The laid-out children of a box come one by one: the first `i` of the
/// first `n` are the first `i`, and each is its box laid out in the
/// geometry that the box has with the children before it.
pub proof fn lemma_placed_children<'a>(f: Frame<'a>, start: Geometry, n: nat, i: nat)
    requires
        i <= n <= f.children.len(),
    ensures
        placed_children(f, start, n).len() == n,
        placed_children(f, start, n).take(i as int) == placed_children(f, start, i),
        i < n ==> placed_children(f, start, n)[i as int] == placed(
            f.children[i as int],
            containing_at(f, start, i),
        ),
    decreases n,
{
    if n > 0 {
        lemma_placed_children(f, start, (n - 1) as nat, if i < n { i } else { (n - 1) as nat });
        let before = placed_children(f, start, (n - 1) as nat);
        let all = placed_children(f, start, n);
        assert(all == before.push(placed(f.children[n - 1], holding(f.box_type, start, before))));
        if i < n {
            assert(all.take(i as int) =~= before.take(i as int));
        } else {
            assert(all.take(i as int) =~= all);
        }
    } else {
        assert(placed_children(f, start, n).take(i as int) =~= placed_children(f, start, i));
    }
}

/// Blocks stack: a block among the children of a block or inline-block
/// lies below the content top of its parent by the heights of the margin
/// boxes of the children before it, and by its own top margin, border and
/// padding. Margins of neighbours are added, never collapsed.
pub proof fn lemma_vertical_stacking<'a>(f: Frame<'a>, cb: Geometry, i: int)
    requires
        f.box_type is BlockNode || f.box_type is InlineBlockNode,
        0 <= i < f.children.len(),
        f.children[i].box_type is BlockNode,
    ensures
        ({
            let p = placed(f, cb);
            let c = p.children[i];
            &&& p.children.len() == f.children.len()
            &&& c.geometry.content.y == p.geometry.content.y + stacked_height(p.children.take(i))
                + c.geometry.margin.top + c.geometry.border.top + c.geometry.padding.top
        }),
{
    let start = start_of(f.box_type, cb);
    lemma_placed_children(f, start, f.children.len(), i as nat);
}

/// Layout keeps the shape of the tree: a laid-out box has the kind of
/// its box and as many children, each laid out from the child in its place.
pub proof fn lemma_placed_shape<'a>(f: Frame<'a>, cb: Geometry)
    ensures
        placed(f, cb).box_type == f.box_type,
        placed(f, cb).children.len() == f.children.len(),
        forall|i: int|
            0 <= i < f.children.len() ==> (#[trigger] placed(f, cb).children[i]).box_type
                == f.children[i].box_type,
{
    if !(f.box_type is AnonymousBlock) {
        let start = start_of(f.box_type, cb);
        assert forall|i: int| 0 <= i < f.children.len() implies (#[trigger] placed(
            f,
            cb,
        ).children[i]).box_type == f.children[i].box_type by {
            lemma_placed_children(f, start, f.children.len(), i as nat);
        }
        lemma_placed_children(f, start, f.children.len(), 0);
    }
}

/// A block fills its container: where its width is given, the margin box
/// of the laid-out block is as wide as the content area of the containing
/// block, except that two `auto` margins leave one unit over where they
/// have an odd remainder to share. The box lies within the container by
/// its left margin, border and padding.
pub proof fn lemma_block_fills_container<'a>(f: Frame<'a>, cb: Geometry)
    requires
        f.box_type is BlockNode,
        declared_width(props_of(f.box_type)) is Some,
    ensures
        ({
            let props = props_of(f.box_type);
            let g = placed(f, cb).geometry;
            let left = declared(lookup_of(props, "margin-left"@, "margin"@, zero_length()));
            let right = declared(lookup_of(props, "margin-right"@, "margin"@, zero_length()));
            &&& g.content.x == cb.content.x + g.margin.left + g.border.left + g.padding.left
            &&& g.margin_box().width == cb.content.width || (left is None && right is None
                && g.margin.left == g.margin.right && g.margin_box().width == cb.content.width - 1)
        }),
{
    let props = props_of(f.box_type);
    let width = declared_width(props)->0;
    let left = declared(lookup_of(props, "margin-left"@, "margin"@, zero_length()));
    let right = declared(lookup_of(props, "margin-right"@, "margin"@, zero_length()));
    let bl = edge(props, "border-left-width"@, "border-width"@);
    let br = edge(props, "border-right-width"@, "border-width"@);
    let pl = edge(props, "padding-left"@, "padding"@);
    let pr = edge(props, "padding-right"@, "padding"@);
    let cw = cb.content.width;
    let total = declared_total(Some(width), left, right, bl, br, pl, pr);
    if left is None && right is None && total <= cw && (cw - total) % 2 == 1 {
        lemma_width_odd_remainder(width, bl, br, pl, pr, cw);
    } else {
        lemma_width_balance(width, left, right, bl, br, pl, pr, cw);
    }
}

/// A block with an `auto` width fills its container exactly, and its
/// width is not negative.
pub proof fn lemma_auto_block_fills_container<'a>(f: Frame<'a>, cb: Geometry)
    requires
        f.box_type is BlockNode,
        declared_width(props_of(f.box_type)) is None,
    ensures
        placed(f, cb).geometry.margin_box().width == cb.content.width,
        placed(f, cb).geometry.content.width >= 0,
{
    let props = props_of(f.box_type);
    lemma_auto_width_balance(
        declared(lookup_of(props, "margin-left"@, "margin"@, zero_length())),
        declared(lookup_of(props, "margin-right"@, "margin"@, zero_length())),
        edge(props, "border-left-width"@, "border-width"@),
        edge(props, "border-right-width"@, "border-width"@),
        edge(props, "padding-left"@, "padding"@),
        edge(props, "padding-right"@, "padding"@),
        cb.content.width,
    );
}

/// A declared height is the content height of the laid-out box, whatever
/// the box holds; without one, a block or inline-block is as high as the
/// margin boxes of its children together.
pub proof fn lemma_height<'a>(f: Frame<'a>, cb: Geometry)
    requires
        !(f.box_type is AnonymousBlock),
    ensures
        ({
            let p = placed(f, cb);
            match explicit(props_of(f.box_type), "height"@) {
                Some(h) => p.geometry.content.height == h,
                None => p.geometry.content.height == (if f.box_type is InlineNode {
                    0
                } else {
                    stacked_height(p.children)
                }),
            }
        }),
{
}

/// Layout keeps a box tree well formed.
pub proof fn lemma_placed_well_formed<'a>(f: Frame<'a>, cb: Geometry)
    requires
        well_formed(f),
    ensures
        well_formed(placed(f, cb)),
    decreases f,
{
    if !(f.box_type is AnonymousBlock) {
        let p = placed(f, cb);
        let start = start_of(f.box_type, cb);
        lemma_placed_shape(f, cb);
        assert forall|i: int| 0 <= i < p.children.len() implies well_formed(#[trigger] p.children[i])
            && (f.children[i].box_type is AnonymousBlock ==> p.children[i] == f.children[i]) by {
            lemma_placed_children(f, start, f.children.len(), i as nat);
            lemma_placed_well_formed(f.children[i], containing_at(f, start, i as nat));
        }
        if f.box_type is BlockNode {
            assert forall|i: int, j: int|
                0 <= i < p.children.len() && p.children[i].box_type.is_anonymous() && 0 <= j
                    < p.children[i].children.len() implies {
                let t = (#[trigger] p.children[i].children[j]).box_type;
                t is InlineNode || t is InlineBlockNode
            } by {
                assert(p.children[i] == f.children[i]);
            }
            assert forall|i: int|
                0 <= i < p.children.len() && (#[trigger] p.children[i]).box_type.is_anonymous() implies p.children[i].children.len()
                >= 1 by {
                assert(p.children[i] == f.children[i]);
            }
            assert forall|i: int| 0 <= i && i + 1 < p.children.len() implies !((
            #[trigger] p.children[i]).box_type.is_anonymous()
                && p.children[i + 1].box_type.is_anonymous()) by {
                assert(p.children[i].box_type == f.children[i].box_type);
                assert(p.children[i + 1].box_type == f.children[i + 1].box_type);
            }
            assert forall|i: int| 0 <= i < p.children.len() implies (#[trigger] p.children[i]).box_type.is_block()
                || p.children[i].box_type.is_anonymous() by {
                assert(p.children[i].box_type == f.children[i].box_type);
            }
        }
    }
}

} // verus!
