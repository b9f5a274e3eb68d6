//! The tree of boxes that a styled tree generates, before any geometry.

use vstd::prelude::*;
use crate::layout::{Dimensions, Geometry};
use crate::style::{Display, StyledNode, display_of};

verus! {

/// The kind of a box and, but for anonymous boxes, the styled node that
/// generated it.
#[derive(Clone, Copy, Debug)]
pub enum BoxType<'a> {
    BlockNode(&'a StyledNode<'a>),
    InlineNode(&'a StyledNode<'a>),
    InlineBlockNode(&'a StyledNode<'a>),
    AnonymousBlock,
}

/// A box with its geometry and its child boxes.
#[derive(Debug)]
pub struct LayoutBox<'a> {
    pub dimensions: Dimensions,
    pub box_type: BoxType<'a>,
    pub children: Vec<LayoutBox<'a>>,
}

/// The mathematical model of a box: its kind, its geometry over the
/// integers, and the models of its children.
pub struct Frame<'a> {
    pub box_type: BoxType<'a>,
    pub geometry: Geometry,
    pub children: Seq<Frame<'a>>,
}

impl<'a> View for LayoutBox<'a> {
    type V = Frame<'a>;

    open spec fn view(&self) -> Frame<'a>
        decreases self,
    {
        Frame {
            box_type: self.box_type,
            geometry: self.dimensions@,
            children: frames(self.children@),
        }
    }
}

/// The models of a sequence of boxes.
pub open spec fn frames<'a>(boxes: Seq<LayoutBox<'a>>) -> Seq<Frame<'a>>
    decreases boxes,
{
    if boxes.len() == 0 {
        Seq::empty()
    } else {
        frames(boxes.drop_last()).push(boxes.last()@)
    }
}

/// `frames` maps the boxes one by one.
pub proof fn lemma_frames<'a>(boxes: Seq<LayoutBox<'a>>)
    ensures
        frames(boxes).len() == boxes.len(),
        forall|i: int| 0 <= i < boxes.len() ==> #[trigger] frames(boxes)[i] == boxes[i]@,
    decreases boxes.len(),
{
    if boxes.len() > 0 {
        lemma_frames(boxes.drop_last());
        assert(frames(boxes) == frames(boxes.drop_last()).push(boxes.last()@));
        assert forall|i: int| 0 <= i < boxes.len() implies #[trigger] frames(boxes)[i] == boxes[i]@ by {
            if i < boxes.len() - 1 {
                assert(boxes.drop_last()[i] == boxes[i]);
                assert(frames(boxes.drop_last())[i] == boxes.drop_last()[i]@);
            }
        }
    }
}

impl<'a> LayoutBox<'a> {
    /// A copy of the box and everything below it.
    pub fn duplicate(&self) -> (r: LayoutBox<'a>)
        ensures
            r@ == self@,
        decreases self,
    {
        let mut children: Vec<LayoutBox<'a>> = Vec::new();
        let mut i: usize = 0;
        while i < self.children.len()
            invariant
                i <= self.children.len(),
                children@.len() == i,
                forall|j: int| 0 <= j < i ==> children@[j]@ == self.children@[j]@,
            decreases self.children.len() - i,
        {
            children.push(self.children[i].duplicate());
            i += 1;
        }
        let r = LayoutBox { dimensions: self.dimensions, box_type: self.box_type, children };
        proof {
            lemma_frames(r.children@);
            lemma_frames(self.children@);
            assert(r@.children =~= self@.children);
        }
        r
    }
}

impl<'a> BoxType<'a> {
    /// Whether the box is an anonymous block.
    pub open spec fn is_anonymous(self) -> bool {
        self is AnonymousBlock
    }

    /// Whether the box was generated by an element of display kind `block`.
    pub open spec fn is_block(self) -> bool {
        self is BlockNode
    }
}

/// The kind of box that a styled node generates by its display kind.
pub open spec fn box_type_of<'a>(s: &'a StyledNode<'a>) -> BoxType<'a> {
    match display_of(s.specified_values@) {
        Display::Block => BoxType::BlockNode(s),
        Display::InlineBlock => BoxType::InlineBlockNode(s),
        _ => BoxType::InlineNode(s),
    }
}

/// An anonymous block around `children`.
pub open spec fn anonymous<'a>(children: Seq<Frame<'a>>) -> Frame<'a> {
    Frame { box_type: BoxType::AnonymousBlock, geometry: Geometry::zero(), children }
}

/// `boxes` with the inline-level box `child` added.
///
/// Under a block the child goes into the anonymous block that ends
/// `boxes`, or into a new one where `boxes` does not end in one. Under any
/// other box it is added as it is.
pub open spec fn with_inline<'a>(under_block: bool, boxes: Seq<Frame<'a>>, child: Frame<'a>) -> Seq<
    Frame<'a>,
> {
    if !under_block {
        boxes.push(child)
    } else if boxes.len() > 0 && boxes.last().box_type.is_anonymous() {
        boxes.drop_last().push(
            Frame {
                box_type: boxes.last().box_type,
                geometry: boxes.last().geometry,
                children: boxes.last().children.push(child),
            },
        )
    } else {
        boxes.push(anonymous(seq![child]))
    }
}

/// The box that `s` generates, with the boxes of its subtree and all
/// geometry zero. `s` must not have display kind `none`.
pub open spec fn box_tree<'a>(s: &'a StyledNode<'a>) -> Frame<'a>
    decreases s, s.children.len() + 1,
{
    Frame {
        box_type: box_type_of(s),
        geometry: Geometry::zero(),
        children: child_boxes(s, s.children.len() as nat),
    }
}

/// The boxes that the first `n` children of `s` generate under the box of
/// `s`: nothing for a child of display kind `none`, the child's own box for
/// a block, and the child's box in an inline container for the others.
pub open spec fn child_boxes<'a>(s: &'a StyledNode<'a>, n: nat) -> Seq<Frame<'a>>
    decreases s, n,
{
    if n == 0 || n > s.children.len() {
        Seq::empty()
    } else {
        let before = child_boxes(s, (n - 1) as nat);
        let child = &s.children[n - 1];
        match display_of(child.specified_values@) {
            Display::Omitted => before,
            Display::Block => before.push(box_tree(child)),
            _ => with_inline(box_type_of(s).is_block(), before, box_tree(child)),
        }
    }
}

/// `frames` of a sequence with one more box.
pub proof fn lemma_frames_push<'a>(boxes: Seq<LayoutBox<'a>>, b: LayoutBox<'a>)
    ensures
        frames(boxes.push(b)) == frames(boxes).push(b@),
{
    assert(boxes.push(b).drop_last() =~= boxes);
}

impl<'a> LayoutBox<'a> {
    /// A box of the given kind without children, all geometry zero.
    pub fn new(box_type: BoxType<'a>) -> (b: LayoutBox<'a>)
        ensures
            b@ == (Frame { box_type, geometry: Geometry::zero(), children: Seq::empty() }),
    {
        let b = LayoutBox { box_type, dimensions: Dimensions::zero(), children: Vec::new() };
        assert(b@.children =~= Seq::empty());
        b
    }

    /// The styled node that generated the box.
    pub fn get_style_node(&self) -> (s: &'a StyledNode<'a>)
        requires
            !self.box_type.is_anonymous(),
        ensures
            self.box_type == BoxType::BlockNode(s) || self.box_type == BoxType::InlineNode(s)
                || self.box_type == BoxType::InlineBlockNode(s),
    {
        match self.box_type {
            BoxType::BlockNode(node) => node,
            BoxType::InlineNode(node) => node,
            BoxType::InlineBlockNode(node) => node,
            BoxType::AnonymousBlock => vstd::pervasive::unreached(),
        }
    }
}

/// Adds the inline-level box `child` to `boxes`, the children of a box
/// that is a block or not as `under_block` says.
fn add_inline<'a>(under_block: bool, boxes: &mut Vec<LayoutBox<'a>>, child: LayoutBox<'a>)
    ensures
        frames(final(boxes)@) == with_inline(under_block, frames(old(boxes)@), child@),
{
    proof {
        lemma_frames(boxes@);
    }
    let ghost before = boxes@;
    if !under_block {
        boxes.push(child);
        proof {
            lemma_frames_push(before, child);
        }
        return ;
    }
    let n = boxes.len();
    let reuse = n > 0 && match boxes[n - 1].box_type {
        BoxType::AnonymousBlock => true,
        _ => false,
    };
    if reuse {
        let mut last = boxes.pop().unwrap();
        let ghost last_before = last;
        last.children.push(child);
        proof {
            lemma_frames_push(last_before.children@, child);
            lemma_frames_push(before.drop_last(), last);
            lemma_frames(before.drop_last());
            assert(frames(before.drop_last()) =~= frames(before).drop_last());
        }
        boxes.push(last);
    } else {
        let mut wrapper = LayoutBox::new(BoxType::AnonymousBlock);
        let ghost empty = wrapper;
        wrapper.children.push(child);
        proof {
            lemma_frames_push(empty.children@, child);
            lemma_frames_push(before, wrapper);
            assert(frames(empty.children@).push(child@) =~= seq![child@]);
        }
        boxes.push(wrapper);
    }
}

/// Builds the box tree of `style_node`, all geometry zero.
pub fn build_layout_tree<'a>(style_node: &'a StyledNode<'a>) -> (root: LayoutBox<'a>)
    requires
        display_of(style_node.specified_values@) != Display::Omitted,
    ensures
        root@ == box_tree(style_node),
    decreases style_node,
{
    let box_type = match style_node.display() {
        Display::Block => BoxType::BlockNode(style_node),
        Display::InlineBlock => BoxType::InlineBlockNode(style_node),
        _ => BoxType::InlineNode(style_node),
    };
    let under_block = match box_type {
        BoxType::BlockNode(_) => true,
        _ => false,
    };
    let mut children: Vec<LayoutBox<'a>> = Vec::new();
    let mut i: usize = 0;
    while i < style_node.children.len()
        invariant
            i <= style_node.children.len(),
            box_type == box_type_of(style_node),
            under_block == box_type.is_block(),
            frames(children@) == child_boxes(style_node, i as nat),
        decreases style_node.children.len() - i,
    {
        let child = &style_node.children[i];
        let ghost before = children@;
        match child.display() {
            Display::Omitted => {},
            Display::Block => {
                let b = build_layout_tree(child);
                children.push(b);
                proof {
                    lemma_frames_push(before, b);
                }
            },
            _ => {
                let b = build_layout_tree(child);
                add_inline(under_block, &mut children, b);
            },
        }
        i += 1;
    }
    LayoutBox { box_type, dimensions: Dimensions::zero(), children }
}

/// `boxes` with every anonymous block replaced by its children.
pub open spec fn flatten<'a>(boxes: Seq<Frame<'a>>) -> Seq<Frame<'a>>
    decreases boxes.len(),
{
    if boxes.len() == 0 {
        Seq::empty()
    } else if boxes.last().box_type.is_anonymous() {
        flatten(boxes.drop_last()) + boxes.last().children
    } else {
        flatten(boxes.drop_last()).push(boxes.last())
    }
}

/// The boxes of those of the first `n` children of `s` that generate one,
/// in document order.
pub open spec fn generated_boxes<'a>(s: &'a StyledNode<'a>, n: nat) -> Seq<Frame<'a>>
    decreases n,
{
    if n == 0 || n > s.children.len() {
        Seq::empty()
    } else if display_of(s.children[n - 1].specified_values@) == Display::Omitted {
        generated_boxes(s, (n - 1) as nat)
    } else {
        generated_boxes(s, (n - 1) as nat).push(box_tree(&s.children[n - 1]))
    }
}

/// Whether `boxes` are the children of a block as they should be: each is
/// a block or an anonymous block, an anonymous block holds at least one
/// box and only inline-level ones, and no two anonymous blocks are
/// neighbours.
pub open spec fn grouped<'a>(boxes: Seq<Frame<'a>>) -> bool {
    &&& forall|i: int|
        0 <= i < boxes.len() ==> (#[trigger] boxes[i]).box_type.is_block()
            || boxes[i].box_type.is_anonymous()
    &&& forall|i: int|
        0 <= i < boxes.len() && (#[trigger] boxes[i]).box_type.is_anonymous()
            ==> boxes[i].children.len() >= 1
    &&& forall|i: int, j: int|
        0 <= i < boxes.len() && boxes[i].box_type.is_anonymous() && 0 <= j
            < boxes[i].children.len() ==> {
            let t = (#[trigger] boxes[i].children[j]).box_type;
            t is InlineNode || t is InlineBlockNode
        }
    &&& forall|i: int|
        0 <= i && i + 1 < boxes.len() ==> !((#[trigger] boxes[i]).box_type.is_anonymous()
            && boxes[i + 1].box_type.is_anonymous())
}

/// Under a block, each maximal run of inline-level children shares one
/// anonymous block: the child boxes are blocks and anonymous blocks, no two
/// anonymous blocks are neighbours, each anonymous block holds inline-level
/// boxes only and at least one, and with the anonymous blocks opened the
/// boxes are those of the children, one each and in document order.
pub proof fn lemma_anonymous_runs<'a>(s: &'a StyledNode<'a>, n: nat)
    requires
        box_type_of(s).is_block(),
        n <= s.children.len(),
    ensures
        grouped(child_boxes(s, n)),
        flatten(child_boxes(s, n)) == generated_boxes(s, n),
    decreases n,
{
    if n > 0 {
        lemma_anonymous_runs(s, (n - 1) as nat);
        let before = child_boxes(s, (n - 1) as nat);
        let child = &s.children[n - 1];
        let b = box_tree(child);
        let after = child_boxes(s, n);
        match display_of(child.specified_values@) {
            Display::Omitted => {},
            Display::Block => {
                assert(after == before.push(b));
                assert(after.drop_last() =~= before);
            },
            _ => {
                assert(b.box_type is InlineNode || b.box_type is InlineBlockNode);
                if before.len() > 0 && before.last().box_type.is_anonymous() {
                    let last = Frame {
                        box_type: before.last().box_type,
                        geometry: before.last().geometry,
                        children: before.last().children.push(b),
                    };
                    assert(after == before.drop_last().push(last));
                    assert(after.drop_last() =~= before.drop_last());
                    assert(flatten(after) =~= flatten(before).push(b));
                    assert forall|i: int, j: int|
                        0 <= i < after.len() && after[i].box_type.is_anonymous() && 0 <= j
                            < after[i].children.len() implies {
                        let t = (#[trigger] after[i].children[j]).box_type;
                        t is InlineNode || t is InlineBlockNode
                    } by {
                        if i < after.len() - 1 {
                            assert(after[i] == before[i]);
                        } else if j < before.last().children.len() {
                            assert(after[i].children[j] == before[i].children[j]);
                        }
                    }
                    assert forall|i: int| 0 <= i && i + 1 < after.len() implies !((
                    #[trigger] after[i]).box_type.is_anonymous()
                        && after[i + 1].box_type.is_anonymous()) by {
                        assert(after[i] == before[i]);
                    }
                } else {
                    assert(after == before.push(anonymous(seq![b])));
                    assert(after.drop_last() =~= before);
                    assert(flatten(after) =~= flatten(before).push(b));
                    assert forall|i: int| 0 <= i && i + 1 < after.len() implies !((
                    #[trigger] after[i]).box_type.is_anonymous()
                        && after[i + 1].box_type.is_anonymous()) by {
                        if i + 1 < before.len() {
                            assert(after[i] == before[i]);
                        }
                    }
                }
            },
        }
    }
}

/// Under any box but a block, no anonymous block is made: every child
/// that generates a box is a child box itself.
pub proof fn lemma_no_anonymous_under_inline<'a>(s: &'a StyledNode<'a>, n: nat)
    requires
        !box_type_of(s).is_block(),
        n <= s.children.len(),
    ensures
        child_boxes(s, n) == generated_boxes(s, n),
    decreases n,
{
    if n > 0 {
        lemma_no_anonymous_under_inline(s, (n - 1) as nat);
    }
}

/// Whether the box tree `f` is grouped as it should be throughout: the
/// children of a block are blocks and anonymous blocks, no two anonymous
/// blocks being neighbours; an anonymous block holds inline-level boxes
/// only, and at least one; no other box holds an anonymous block.
pub open spec fn well_formed(f: Frame) -> bool
    decreases f,
{
    &&& match f.box_type {
        BoxType::BlockNode(_) => grouped(f.children),
        BoxType::AnonymousBlock => f.children.len() >= 1 && forall|i: int|
            0 <= i < f.children.len() ==> {
                let t = (#[trigger] f.children[i]).box_type;
                t is InlineNode || t is InlineBlockNode
            },
        _ => forall|i: int|
            0 <= i < f.children.len() ==> !(#[trigger] f.children[i]).box_type.is_anonymous(),
    }
    &&& forall|i: int| 0 <= i < f.children.len() ==> well_formed(#[trigger] f.children[i])
}

/// The box tree of a styled node is well formed.
pub proof fn lemma_box_tree_well_formed<'a>(s: &'a StyledNode<'a>)
    ensures
        well_formed(box_tree(s)),
    decreases s, s.children.len() + 1,
{
    let n = s.children.len() as nat;
    lemma_child_boxes_well_formed(s, n);
    if box_type_of(s).is_block() {
        lemma_anonymous_runs(s, n);
    }
}

/// The boxes of the children of a styled node are well formed, and there
/// is no anonymous block among them unless the node is a block.
pub proof fn lemma_child_boxes_well_formed<'a>(s: &'a StyledNode<'a>, n: nat)
    requires
        n <= s.children.len(),
    ensures
        forall|i: int|
            0 <= i < child_boxes(s, n).len() ==> well_formed(#[trigger] child_boxes(s, n)[i]),
        !box_type_of(s).is_block() ==> forall|i: int|
            0 <= i < child_boxes(s, n).len() ==> !(#[trigger] child_boxes(
                s,
                n,
            )[i]).box_type.is_anonymous(),
    decreases s, n,
{
    if n > 0 {
        lemma_child_boxes_well_formed(s, (n - 1) as nat);
        let before = child_boxes(s, (n - 1) as nat);
        let child = &s.children[n - 1];
        let b = box_tree(child);
        let after = child_boxes(s, n);
        if display_of(child.specified_values@) != Display::Omitted {
            lemma_box_tree_well_formed(child);
            if box_type_of(s).is_block() {
                lemma_anonymous_runs(s, (n - 1) as nat);
                lemma_anonymous_runs(s, n);
            }
            assert forall|i: int| 0 <= i < after.len() implies well_formed(#[trigger] after[i]) by {
                if i < after.len() - 1 {
                    assert(after[i] == before[i]);
                } else if after[i].box_type.is_anonymous() {
                    let a = after[i];
                    assert forall|j: int| 0 <= j < a.children.len() implies well_formed(
                        #[trigger] a.children[j],
                    ) by {
                        if j < a.children.len() - 1 {
                            assert(a.children[j] == before.last().children[j]);
                            assert(well_formed(before.last()));
                        } else {
                            assert(a.children[j] == b);
                        }
                    }
                } else {
                    assert(after[i] == b);
                }
            }
        }
    }
}

} // verus!
