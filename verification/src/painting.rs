//! The display list: what to paint, in painting order.

use vstd::prelude::*;
use crate::box_tree::{BoxType, Frame, LayoutBox, lemma_frames};
use crate::css::{Color, Value};
use crate::flow::props_of;
use crate::layout::{Area, LayoutError, Rect};

verus! {

/// One painting operation.
#[derive(Clone, Copy, Debug, PartialEq, Eq, Structural)]
pub enum DisplayCommand {
    /// Fill the rectangle with the colour.
    SolidColor(Color, Rect),
}

/// Painting operations in the order in which they are carried out: a
/// later one paints over an earlier one.
pub type DisplayList = Vec<DisplayCommand>;

/// The mathematical model of a painting operation.
pub enum Paint {
    SolidColor(Color, Area),
}

impl View for DisplayCommand {
    type V = Paint;

    open spec fn view(&self) -> Paint {
        match self {
            DisplayCommand::SolidColor(c, r) => Paint::SolidColor(*c, r@),
        }
    }
}

/// The models of a display list.
pub open spec fn paints(list: Seq<DisplayCommand>) -> Seq<Paint> {
    Seq::new(list.len(), |i: int| list[i]@)
}

/// The background colour that `props` declare: the value of
/// `background-color`, else of `background`, where that is a colour.
pub open spec fn background_of(props: Map<Seq<char>, Value>) -> Option<Color> {
    if props.contains_key("background-color"@) {
        match props["background-color"@] {
            Value::ColorValue(c) => Some(c),
            _ => None,
        }
    } else if props.contains_key("background"@) {
        match props["background"@] {
            Value::ColorValue(c) => Some(c),
            _ => None,
        }
    } else {
        None
    }
}

/// What the box itself paints: its border box in its background colour,
/// where it has one. An anonymous block has none.
pub open spec fn own_paint(f: Frame) -> Seq<Paint> {
    match background_of(props_of(f.box_type)) {
        Some(c) => seq![Paint::SolidColor(c, f.geometry.border_box())],
        None => Seq::empty(),
    }
}

/// What `boxes[..n]` and the boxes below them paint, in document order.
pub open spec fn painted_upto(boxes: Seq<Frame>, n: nat) -> Seq<Paint>
    decreases boxes, n,
{
    if n == 0 || n > boxes.len() {
        Seq::empty()
    } else {
        painted_upto(boxes, (n - 1) as nat) + painted(boxes[n - 1])
    }
}

/// What a box and the boxes below it paint: the box first, then its
/// children in order, each with what is below it.
pub open spec fn painted(f: Frame) -> Seq<Paint>
    decreases f,
{
    own_paint(f) + painted_upto(f.children, f.children.len())
}

/// Whether every painting operation of `list` has a rectangle that fits
/// in `i64`.
pub open spec fn paintable(list: Seq<Paint>) -> bool {
    forall|i: int| 0 <= i < list.len() ==> (#[trigger] list[i])->SolidColor_1.fits()
}

/// The background colour of a box.
fn get_color(layout_box: &LayoutBox) -> (r: Option<Color>)
    ensures
        r == background_of(props_of(layout_box.box_type)),
{
    match layout_box.box_type {
        BoxType::AnonymousBlock => None,
        _ => {
            let style = layout_box.get_style_node();
            match style.specified_values.get("background-color") {
                Some(Value::ColorValue(c)) => Some(*c),
                Some(_) => None,
                None => match style.specified_values.get("background") {
                    Some(Value::ColorValue(c)) => Some(*c),
                    _ => None,
                },
            }
        },
    }
}

/// Appends what `layout_box` and the boxes below it paint to `list`.
fn render_layout_box(list: &mut Vec<DisplayCommand>, layout_box: &LayoutBox) -> (r: Result<
    (),
    LayoutError,
>)
    ensures
        match r {
            Ok(()) => paintable(painted(layout_box@)) && paints(final(list)@) == paints(old(list)@)
                + painted(layout_box@),
            Err(e) => e == LayoutError::OutOfRange && !paintable(painted(layout_box@)),
        },
    decreases layout_box,
{
    let ghost start = paints(list@);
    let ghost f = layout_box@;
    match get_color(layout_box) {
        Some(color) => {
            match layout_box.dimensions.checked_border_box() {
                Some(rect) => {
                    list.push(DisplayCommand::SolidColor(color, rect));
                },
                None => {
                    proof {
                        assert(painted(f)[0] == own_paint(f)[0]);
                    }
                    return Err(LayoutError::OutOfRange);
                },
            }
        },
        None => {},
    }
    proof {
        lemma_frames(layout_box.children@);
        assert(paints(list@) =~= start + own_paint(f));
    }
    let n = layout_box.children.len();
    let mut i: usize = 0;
    while i < n
        invariant
            i <= n,
            n == layout_box.children.len(),
            f == layout_box@,
            f.children.len() == n,
            forall|j: int| 0 <= j < n ==> #[trigger] f.children[j] == layout_box.children@[j]@,
            paints(list@) == start + own_paint(f) + painted_upto(f.children, i as nat),
            paintable(own_paint(f) + painted_upto(f.children, i as nat)),
        decreases n - i,
    {
        let ghost before = paints(list@);
        let ghost done = own_paint(f) + painted_upto(f.children, i as nat);
        proof {
            lemma_painted_upto(f.children, n as nat, (i + 1) as nat);
        }
        match render_layout_box(list, &layout_box.children[i]) {
            Ok(()) => {},
            Err(e) => {
                proof {
                    let part = painted(f.children[i as int]);
                    let k = choose|k: int| 0 <= k < part.len() && !(#[trigger] part[k])->SolidColor_1.fits();
                    let all = painted(f);
                    let upto = painted_upto(f.children, i as nat);
                    let next = painted_upto(f.children, (i + 1) as nat);
                    let whole = painted_upto(f.children, n as nat);
                    assert(next == upto + part);
                    assert(whole.take(next.len() as int) == next);
                    assert(whole[upto.len() + k] == whole.take(next.len() as int)[upto.len() + k]);
                    assert(next[upto.len() + k] == part[k]);
                    assert(all == own_paint(f) + whole);
                    assert(all[own_paint(f).len() + upto.len() + k] == part[k]);
                }
                return Err(e);
            },
        }
        proof {
            let part = painted(f.children[i as int]);
            let next = own_paint(f) + painted_upto(f.children, (i + 1) as nat);
            assert(next =~= done + part);
            assert(paints(list@) =~= start + next);
            assert forall|k: int| 0 <= k < next.len() implies (#[trigger] next[k])->SolidColor_1.fits() by {
                if k < done.len() {
                    assert(next[k] == done[k]);
                } else {
                    assert(next[k] == part[k - done.len()]);
                }
            }
        }
        i += 1;
    }
    Ok(())
}

/// What the first `i` of `boxes[..n]` paint is the start of what all of
/// them paint.
pub proof fn lemma_painted_upto(boxes: Seq<Frame>, n: nat, i: nat)
    requires
        i <= n <= boxes.len(),
    ensures
        painted_upto(boxes, i).len() <= painted_upto(boxes, n).len(),
        painted_upto(boxes, n).take(painted_upto(boxes, i).len() as int) == painted_upto(boxes, i),
    decreases n,
{
    if i < n {
        lemma_painted_upto(boxes, (n - 1) as nat, i);
        let shorter = painted_upto(boxes, (n - 1) as nat);
        let all = painted_upto(boxes, n);
        assert(all == shorter + painted(boxes[n - 1]));
        assert(all.take(painted_upto(boxes, i).len() as int) =~= shorter.take(
            painted_upto(boxes, i).len() as int,
        ));
    } else {
        assert(painted_upto(boxes, n).take(painted_upto(boxes, n).len() as int) =~= painted_upto(
            boxes,
            n,
        ));
    }
}

/// The display list of a laid-out box tree: every box that declares a
/// background colour paints its border box in it, a box before the boxes
/// below it, and children in document order. `OutOfRange` where a border
/// box to paint does not fit in `i64`.
pub fn build_display_list(layout_root: &LayoutBox) -> (r: Result<DisplayList, LayoutError>)
    ensures
        match r {
            Ok(list) => paintable(painted(layout_root@)) && paints(list@) == painted(layout_root@),
            Err(e) => e == LayoutError::OutOfRange && !paintable(painted(layout_root@)),
        },
{
    let mut list: Vec<DisplayCommand> = Vec::new();
    match render_layout_box(&mut list, layout_root) {
        Ok(()) => {
            proof {
                assert(paints(list@) =~= painted(layout_root@));
            }
            Ok(list)
        },
        Err(e) => Err(e),
    }
}

} // verus!
