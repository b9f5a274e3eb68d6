//! The box tree and its geometry.
//!
//! Geometry is exact: every extent is an integer count of length units, the
//! specification computes in unbounded integers, and the executable code
//! reports `LayoutError::OutOfRange` where an extent does not fit in `i64`.

use vstd::prelude::*;
use crate::css::{Unit, Value};

pub use crate::box_tree::{BoxType, LayoutBox};
pub use crate::flow::layout_tree;

verus! {

/// A rectangle in length units.
#[derive(Clone, Copy, Default, Debug, PartialEq, Eq, Structural)]
pub struct Rect {
    pub x: i64,
    pub y: i64,
    pub width: i64,
    pub height: i64,
}

/// The four edge sizes of padding, border or margin.
#[derive(Clone, Copy, Default, Debug, PartialEq, Eq, Structural)]
pub struct EdgeSizes {
    pub left: i64,
    pub right: i64,
    pub top: i64,
    pub bottom: i64,
}

/// The box model of one box: its content area and the edges around it.
#[derive(Clone, Copy, Default, Debug, PartialEq, Eq, Structural)]
pub struct Dimensions {
    pub content: Rect,
    pub padding: EdgeSizes,
    pub border: EdgeSizes,
    pub margin: EdgeSizes,
}

/// A rectangle over the integers.
pub struct Area {
    pub x: int,
    pub y: int,
    pub width: int,
    pub height: int,
}

/// Edge sizes over the integers.
pub struct Edges {
    pub left: int,
    pub right: int,
    pub top: int,
    pub bottom: int,
}

/// A box model over the integers.
pub struct Geometry {
    pub content: Area,
    pub padding: Edges,
    pub border: Edges,
    pub margin: Edges,
}

/// Why no layout could be produced.
#[derive(Clone, Copy, Debug, PartialEq, Eq, Structural)]
pub enum LayoutError {
    /// The root's display kind is `none`: there is no box to lay out.
    RootOmitted,
    /// An extent of the exact layout does not fit in `i64`.
    OutOfRange,
}

/// Whether `v` fits in `i64`.
pub open spec fn in_range(v: int) -> bool {
    i64::MIN <= v <= i64::MAX
}

impl Area {
    /// The rectangle grown by `edge` on each side.
    pub open spec fn expanded_by(self, edge: Edges) -> Area {
        Area {
            x: self.x - edge.left,
            y: self.y - edge.top,
            width: self.width + edge.left + edge.right,
            height: self.height + edge.top + edge.bottom,
        }
    }

    /// Whether all four extents fit in `i64`.
    pub open spec fn fits(self) -> bool {
        in_range(self.x) && in_range(self.y) && in_range(self.width) && in_range(self.height)
    }
}

impl Edges {
    /// Whether all four sizes fit in `i64`.
    pub open spec fn fits(self) -> bool {
        in_range(self.left) && in_range(self.right) && in_range(self.top) && in_range(self.bottom)
    }

    /// Edges of size zero.
    pub open spec fn zero() -> Edges {
        Edges { left: 0, right: 0, top: 0, bottom: 0 }
    }
}

impl Geometry {
    /// The content area with its padding.
    pub open spec fn padding_box(self) -> Area {
        self.content.expanded_by(self.padding)
    }

    /// The content area with padding and border.
    pub open spec fn border_box(self) -> Area {
        self.padding_box().expanded_by(self.border)
    }

    /// The content area with padding, border and margin.
    pub open spec fn margin_box(self) -> Area {
        self.border_box().expanded_by(self.margin)
    }

    /// Whether every extent fits in `i64`.
    pub open spec fn fits(self) -> bool {
        self.content.fits() && self.padding.fits() && self.border.fits() && self.margin.fits()
    }

    /// The box model with every extent zero.
    pub open spec fn zero() -> Geometry {
        Geometry {
            content: Area { x: 0, y: 0, width: 0, height: 0 },
            padding: Edges::zero(),
            border: Edges::zero(),
            margin: Edges::zero(),
        }
    }
}

impl View for Rect {
    type V = Area;

    open spec fn view(&self) -> Area {
        Area { x: self.x as int, y: self.y as int, width: self.width as int, height: self.height as int }
    }
}

impl View for EdgeSizes {
    type V = Edges;

    open spec fn view(&self) -> Edges {
        Edges {
            left: self.left as int,
            right: self.right as int,
            top: self.top as int,
            bottom: self.bottom as int,
        }
    }
}

impl View for Dimensions {
    type V = Geometry;

    open spec fn view(&self) -> Geometry {
        Geometry {
            content: self.content@,
            padding: self.padding@,
            border: self.border@,
            margin: self.margin@,
        }
    }
}

/// The `i64` that holds `v`, or `OutOfRange`.
pub(crate) fn narrow(v: i128) -> (r: Result<i64, LayoutError>)
    ensures
        match r {
            Ok(n) => n == v,
            Err(e) => e == LayoutError::OutOfRange && !in_range(v as int),
        },
{
    if v < i64::MIN as i128 || v > i64::MAX as i128 {
        Err(LayoutError::OutOfRange)
    } else {
        Ok(v as i64)
    }
}

impl Rect {
    /// The rectangle grown by `edge` on each side.
    pub fn expanded_by(self, edge: EdgeSizes) -> (r: Rect)
        requires
            self@.expanded_by(edge@).fits(),
        ensures
            r@ == self@.expanded_by(edge@),
    {
        Rect {
            x: self.x - edge.left,
            y: self.y - edge.top,
            width: (self.width as i128 + edge.left as i128 + edge.right as i128) as i64,
            height: (self.height as i128 + edge.top as i128 + edge.bottom as i128) as i64,
        }
    }

    /// The rectangle grown by `edge` on each side, or `None` where an
    /// extent of it does not fit in `i64`.
    pub fn checked_expanded_by(self, edge: EdgeSizes) -> (r: Option<Rect>)
        ensures
            match r {
                Some(a) => a@ == self@.expanded_by(edge@),
                None => !self@.expanded_by(edge@).fits(),
            },
    {
        let x = narrow(self.x as i128 - edge.left as i128);
        let y = narrow(self.y as i128 - edge.top as i128);
        let width = narrow(self.width as i128 + edge.left as i128 + edge.right as i128);
        let height = narrow(self.height as i128 + edge.top as i128 + edge.bottom as i128);
        match (x, y, width, height) {
            (Ok(x), Ok(y), Ok(width), Ok(height)) => Some(Rect { x, y, width, height }),
            _ => None,
        }
    }
}

impl Dimensions {
    /// The box model with every extent zero.
    pub fn zero() -> (d: Dimensions)
        ensures
            d@ == Geometry::zero(),
    {
        let e = EdgeSizes { left: 0, right: 0, top: 0, bottom: 0 };
        Dimensions { content: Rect { x: 0, y: 0, width: 0, height: 0 }, padding: e, border: e, margin: e }
    }

    /// The area covered by the content area plus its padding.
    pub fn padding_box(self) -> (r: Rect)
        requires
            self@.padding_box().fits(),
        ensures
            r@ == self@.padding_box(),
    {
        self.content.expanded_by(self.padding)
    }

    /// The area covered by the content area plus padding and borders.
    pub fn border_box(self) -> (r: Rect)
        requires
            self@.border_box().fits(),
        ensures
            r@ == self@.border_box(),
    {
        let p = &self.padding;
        let b = &self.border;
        Rect {
            x: (self.content.x as i128 - p.left as i128 - b.left as i128) as i64,
            y: (self.content.y as i128 - p.top as i128 - b.top as i128) as i64,
            width: (self.content.width as i128 + p.left as i128 + p.right as i128 + b.left as i128
                + b.right as i128) as i64,
            height: (self.content.height as i128 + p.top as i128 + p.bottom as i128 + b.top as i128
                + b.bottom as i128) as i64,
        }
    }

    /// The area covered by the content area plus padding, borders and margin.
    pub fn margin_box(self) -> (r: Rect)
        requires
            self@.margin_box().fits(),
        ensures
            r@ == self@.margin_box(),
    {
        let p = &self.padding;
        let b = &self.border;
        let m = &self.margin;
        Rect {
            x: (self.content.x as i128 - p.left as i128 - b.left as i128 - m.left as i128) as i64,
            y: (self.content.y as i128 - p.top as i128 - b.top as i128 - m.top as i128) as i64,
            width: (self.content.width as i128 + p.left as i128 + p.right as i128 + b.left as i128
                + b.right as i128 + m.left as i128 + m.right as i128) as i64,
            height: (self.content.height as i128 + p.top as i128 + p.bottom as i128 + b.top as i128
                + b.bottom as i128 + m.top as i128 + m.bottom as i128) as i64,
        }
    }

    /// The border box, or `None` where an extent of it does not fit in
    /// `i64`.
    pub fn checked_border_box(self) -> (r: Option<Rect>)
        ensures
            match r {
                Some(a) => a@ == self@.border_box(),
                None => !self@.border_box().fits(),
            },
    {
        let p = &self.padding;
        let b = &self.border;
        let x = narrow(self.content.x as i128 - p.left as i128 - b.left as i128);
        let y = narrow(self.content.y as i128 - p.top as i128 - b.top as i128);
        let width = narrow(
            self.content.width as i128 + p.left as i128 + p.right as i128 + b.left as i128
                + b.right as i128,
        );
        let height = narrow(
            self.content.height as i128 + p.top as i128 + p.bottom as i128 + b.top as i128
                + b.bottom as i128,
        );
        match (x, y, width, height) {
            (Ok(x), Ok(y), Ok(width), Ok(height)) => Some(Rect { x, y, width, height }),
            _ => None,
        }
    }
}

/// A declared horizontal size: `None` for `auto`, else its length in units.
pub open spec fn declared(v: Value) -> Option<int> {
    if v.is_auto() {
        None
    } else {
        Some(v.px_units())
    }
}

/// The length to count for a declared size: zero for `auto`.
pub open spec fn or_zero(v: Option<int>) -> int {
    match v {
        Some(n) => n,
        None => 0,
    }
}

/// The seven horizontal extents of a block-level box.
pub struct Horizontal {
    pub margin_left: int,
    pub border_left: int,
    pub padding_left: int,
    pub width: int,
    pub padding_right: int,
    pub border_right: int,
    pub margin_right: int,
}

impl Horizontal {
    /// The sum of the seven extents.
    pub open spec fn total(self) -> int {
        self.margin_left + self.border_left + self.padding_left + self.width + self.padding_right
            + self.border_right + self.margin_right
    }

    /// Whether all seven extents fit in `i64`.
    pub open spec fn fits(self) -> bool {
        &&& in_range(self.margin_left)
        &&& in_range(self.border_left)
        &&& in_range(self.padding_left)
        &&& in_range(self.width)
        &&& in_range(self.padding_right)
        &&& in_range(self.border_right)
        &&& in_range(self.margin_right)
    }
}

/// The declared extents added up, `auto` counting as zero.
pub open spec fn declared_total(
    width: Option<int>,
    margin_left: Option<int>,
    margin_right: Option<int>,
    border_left: int,
    border_right: int,
    padding_left: int,
    padding_right: int,
) -> int {
    or_zero(margin_left) + or_zero(margin_right) + border_left + border_right + padding_left
        + padding_right + or_zero(width)
}

/// The used horizontal extents of a block-level box in a containing block
/// of content width `cw`.
///
/// With `underflow` the containing width less the declared total:
/// a given width that overflows the container turns `auto` margins into
/// zero; then, with nothing `auto`, `margin-right` takes up the underflow;
/// one `auto` margin becomes the underflow; two `auto` margins each become
/// half of it; and an `auto` width becomes the underflow where that is not
/// negative, else zero with `margin-right` taking up the underflow, `auto`
/// margins counting as zero.
pub open spec fn used_horizontal(
    width: Option<int>,
    margin_left: Option<int>,
    margin_right: Option<int>,
    border_left: int,
    border_right: int,
    padding_left: int,
    padding_right: int,
    cw: int,
) -> Horizontal {
    let total = declared_total(
        width,
        margin_left,
        margin_right,
        border_left,
        border_right,
        padding_left,
        padding_right,
    );
    let underflow = cw - total;
    let squeezed = width is Some && total > cw;
    let ml = if squeezed { Some(or_zero(margin_left)) } else { margin_left };
    let mr = if squeezed { Some(or_zero(margin_right)) } else { margin_right };
    let (w, l, r) = match (width, ml, mr) {
        (Some(w), Some(l), Some(r)) => (w, l, r + underflow),
        (Some(w), Some(l), None) => (w, l, underflow),
        (Some(w), None, Some(r)) => (w, underflow, r),
        (Some(w), None, None) => (w, underflow / 2, underflow / 2),
        (None, _, _) => if underflow >= 0 {
            (underflow, or_zero(ml), or_zero(mr))
        } else {
            (0, or_zero(ml), or_zero(mr) + underflow)
        },
    };
    Horizontal {
        margin_left: l,
        border_left,
        padding_left,
        width: w,
        padding_right,
        border_right,
        margin_right: r,
    }
}

/// With a given width the seven used extents add up to the containing
/// width, whether an `auto` margin or `margin-right` takes up the
/// difference. The one exception is an odd remainder shared by two `auto`
/// margins: the halves leave one unit over.
pub proof fn lemma_width_balance(
    width: int,
    margin_left: Option<int>,
    margin_right: Option<int>,
    border_left: int,
    border_right: int,
    padding_left: int,
    padding_right: int,
    cw: int,
)
    requires
        !(margin_left is None && margin_right is None && declared_total(
            Some(width),
            margin_left,
            margin_right,
            border_left,
            border_right,
            padding_left,
            padding_right,
        ) <= cw && (cw - declared_total(
            Some(width),
            margin_left,
            margin_right,
            border_left,
            border_right,
            padding_left,
            padding_right,
        )) % 2 == 1),
    ensures
        used_horizontal(
            Some(width),
            margin_left,
            margin_right,
            border_left,
            border_right,
            padding_left,
            padding_right,
            cw,
        ).total() == cw,
{
}

/// Two `auto` margins that share an odd remainder leave one unit over:
/// the seven used extents add up to one less than the containing width.
pub proof fn lemma_width_odd_remainder(
    width: int,
    border_left: int,
    border_right: int,
    padding_left: int,
    padding_right: int,
    cw: int,
)
    requires
        declared_total(
            Some(width),
            None,
            None,
            border_left,
            border_right,
            padding_left,
            padding_right,
        ) <= cw,
        (cw - declared_total(
            Some(width),
            None,
            None,
            border_left,
            border_right,
            padding_left,
            padding_right,
        )) % 2 == 1,
    ensures
        used_horizontal(
            Some(width),
            None,
            None,
            border_left,
            border_right,
            padding_left,
            padding_right,
            cw,
        ).total() == cw - 1,
{
}

/// An `auto` width always balances: the seven used extents add up to the
/// containing width.
pub proof fn lemma_auto_width_balance(
    margin_left: Option<int>,
    margin_right: Option<int>,
    border_left: int,
    border_right: int,
    padding_left: int,
    padding_right: int,
    cw: int,
)
    ensures
        used_horizontal(
            None,
            margin_left,
            margin_right,
            border_left,
            border_right,
            padding_left,
            padding_right,
            cw,
        ).total() == cw,
        used_horizontal(
            None,
            margin_left,
            margin_right,
            border_left,
            border_right,
            padding_left,
            padding_right,
            cw,
        ).width >= 0,
{
}

/// Two `auto` margins around a given width that fits are equal: each is
/// half of what the container leaves over.
pub proof fn lemma_auto_margins_symmetric(
    width: int,
    border_left: int,
    border_right: int,
    padding_left: int,
    padding_right: int,
    cw: int,
)
    requires
        declared_total(
            Some(width),
            None,
            None,
            border_left,
            border_right,
            padding_left,
            padding_right,
        ) <= cw,
    ensures
        ({
            let h = used_horizontal(
                Some(width),
                None,
                None,
                border_left,
                border_right,
                padding_left,
                padding_right,
                cw,
            );
            let fixed = width + border_left + border_right + padding_left + padding_right;
            &&& h.margin_left == h.margin_right
            &&& h.margin_left == (cw - fixed) / 2
            &&& h.width == width
        }),
{
}

/// A declared size as the solver takes it: `None` for the keyword `auto`,
/// else the length that the value stands for.
pub fn declared_size(v: &Value) -> (r: Option<i64>)
    ensures
        match r {
            Some(n) => declared(*v) == Some(n as int),
            None => declared(*v) is None,
        },
{
    match v {
        Value::Keyword(s) => {
            if crate::text::str_eq(s.as_str(), "auto") {
                None
            } else {
                Some(0)
            }
        },
        Value::Length(n, Unit::Px) => Some(*n),
        Value::ColorValue(_) => Some(0),
    }
}

} // verus!
