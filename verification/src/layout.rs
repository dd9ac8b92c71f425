//! The layout-box tree: block, inline and anonymous-block boxes built from a
//! styled tree, with inline content under a block container always wrapped
//! in an anonymous block.

use vstd::prelude::*;

use crate::dom::{NodeType, NodeTypeV};
use crate::css::ValueV;
use crate::style::{
    Display, PropertyMap, StyledNode, StyledNodeV, display_of, lemma_styled_nodes_view,
    styled_nodes_view, styled_view,
};

verus! {

broadcast use vstd::std_specs::vec::group_vec_axioms;

/// The styled data a box keeps of its node: what the node is, and its
/// resolved property map.
#[derive(Debug)]
pub struct StyledData {
    pub node: NodeType,
    pub specified_values: PropertyMap,
}

/// The mathematical form of a `StyledData`.
#[verifier::ext_equal]
pub ghost struct StyledDataV {
    pub node: NodeTypeV,
    pub specified_values: Map<Seq<char>, ValueV>,
}

impl View for StyledData {
    type V = StyledDataV;

    open spec fn view(&self) -> StyledDataV {
        StyledDataV { node: self.node@, specified_values: self.specified_values@ }
    }
}

/// The styled data of a styled node.
pub open spec fn styled_data_of(sn: StyledNodeV) -> StyledDataV {
    StyledDataV { node: sn.node, specified_values: sn.specified_values }
}

/// What a box is: a block-level node, an inline node, or an anonymous block
/// synthesized to hold inline content.
#[derive(Debug)]
pub enum BoxType {
    BlockNode(StyledData),
    InlineNode(StyledData),
    AnonymousBlock,
}

/// The mathematical form of a `BoxType`.
#[verifier::ext_equal]
pub ghost enum BoxTypeV {
    BlockNode(StyledDataV),
    InlineNode(StyledDataV),
    AnonymousBlock,
}

impl View for BoxType {
    type V = BoxTypeV;

    open spec fn view(&self) -> BoxTypeV {
        match self {
            BoxType::BlockNode(d) => BoxTypeV::BlockNode(d@),
            BoxType::InlineNode(d) => BoxTypeV::InlineNode(d@),
            BoxType::AnonymousBlock => BoxTypeV::AnonymousBlock,
        }
    }
}

/// A layout box: its kind and its child boxes. Geometry is left to a later
/// pass; nothing here carries dimensions.
#[derive(Debug)]
pub struct LayoutBox {
    pub box_type: BoxType,
    pub children: Vec<LayoutBox>,
}

/// The mathematical form of a `LayoutBox`.
#[verifier::ext_equal]
pub ghost struct LayoutBoxV {
    pub box_type: BoxTypeV,
    pub children: Seq<LayoutBoxV>,
}

/// The views of a sequence of boxes.
pub open spec fn boxes_view(s: Seq<LayoutBox>) -> Seq<LayoutBoxV>
    decreases s,
{
    if s.len() == 0 {
        Seq::empty()
    } else {
        boxes_view(s.drop_last()).push(box_view(s.last()))
    }
}

/// The view of one box.
pub open spec fn box_view(b: LayoutBox) -> LayoutBoxV
    decreases b,
{
    LayoutBoxV { box_type: b.box_type@, children: boxes_view(b.children@) }
}

impl View for LayoutBox {
    type V = LayoutBoxV;

    open spec fn view(&self) -> LayoutBoxV {
        box_view(*self)
    }
}

/// `boxes_view` is the view, box by box.
pub proof fn lemma_boxes_view(s: Seq<LayoutBox>)
    ensures
        boxes_view(s).len() == s.len(),
        forall|i: int| 0 <= i < s.len() ==> boxes_view(s)[i] == box_view(#[trigger] s[i]),
    decreases s,
{
    if s.len() > 0 {
        lemma_boxes_view(s.drop_last());
        assert(forall|i: int| 0 <= i < s.len() - 1 ==> s.drop_last()[i] == #[trigger] s[i]);
    }
}

impl LayoutBox {
    /// A box of the given kind with no children yet.
    pub fn new(box_type: BoxType) -> (r: LayoutBox)
        ensures
            r@ == (LayoutBoxV { box_type: box_type@, children: Seq::empty() }),
    {
        let r = LayoutBox { box_type, children: Vec::new() };
        proof {
            assert(boxes_view(r.children@) =~= Seq::<LayoutBoxV>::empty());
        }
        r
    }
}

/// Routes an inline box into a block container's children: into the trailing
/// anonymous block if one is already there, else into a fresh one.
pub open spec fn add_inline(boxes: Seq<LayoutBoxV>, b: LayoutBoxV) -> Seq<LayoutBoxV> {
    if boxes.len() > 0 && boxes.last().box_type is AnonymousBlock {
        boxes.drop_last().push(
            LayoutBoxV {
                box_type: BoxTypeV::AnonymousBlock,
                children: boxes.last().children.push(b),
            },
        )
    } else {
        boxes.push(LayoutBoxV { box_type: BoxTypeV::AnonymousBlock, children: seq![b] })
    }
}

/// The box a styled node with visible display builds: a block or inline box
/// carrying the node's styled data, its children grouped below it.
pub open spec fn build_box_spec(sn: StyledNodeV) -> LayoutBoxV
    decreases sn,
{
    match display_of(sn.specified_values) {
        Display::Block => LayoutBoxV {
            box_type: BoxTypeV::BlockNode(styled_data_of(sn)),
            children: block_children_spec(sn.children),
        },
        _ => LayoutBoxV {
            box_type: BoxTypeV::InlineNode(styled_data_of(sn)),
            children: inline_children_spec(sn.children),
        },
    }
}

/// The child boxes of a block container: block children side by side,
/// inline children wrapped into anonymous blocks, `display: none` children
/// leaving nothing.
pub open spec fn block_children_spec(cs: Seq<StyledNodeV>) -> Seq<LayoutBoxV>
    decreases cs,
{
    if cs.len() == 0 {
        Seq::empty()
    } else {
        let prev = block_children_spec(cs.drop_last());
        let c = cs.last();
        match display_of(c.specified_values) {
            Display::Block => prev.push(build_box_spec(c)),
            Display::Nothing => prev,
            Display::Inline => add_inline(prev, build_box_spec(c)),
        }
    }
}

/// The child boxes of an inline or anonymous container: inline content
/// flows in directly, without further wrapping.
pub open spec fn inline_children_spec(cs: Seq<StyledNodeV>) -> Seq<LayoutBoxV>
    decreases cs,
{
    if cs.len() == 0 {
        Seq::empty()
    } else {
        let prev = inline_children_spec(cs.drop_last());
        let c = cs.last();
        match display_of(c.specified_values) {
            Display::Nothing => prev,
            _ => prev.push(build_box_spec(c)),
        }
    }
}

/// Appends an inline box to a block container's children as `add_inline`
/// says.
fn push_inline(kids: &mut Vec<LayoutBox>, b: LayoutBox)
    ensures
        boxes_view(final(kids)@) == add_inline(boxes_view(old(kids)@), b@),
{
    proof {
        lemma_boxes_view(old(kids)@);
    }
    let n = kids.len();
    let reuse = if n > 0 {
        matches!(&kids[n - 1].box_type, BoxType::AnonymousBlock)
    } else {
        false
    };
    if reuse {
        let ghost before = kids@;
        let mut anon = match kids.pop() {
            Option::Some(a) => a,
            Option::None => {
                proof {
                    assert(false);
                }
                LayoutBox { box_type: BoxType::AnonymousBlock, children: Vec::new() }
            },
        };
        let ghost anon_before = anon;
        anon.children.push(b);
        proof {
            assert(boxes_view(anon.children@).len() == anon.children@.len()) by {
                lemma_boxes_view(anon.children@);
            }
            assert(anon.children@.drop_last() =~= anon_before.children@);
            assert(boxes_view(anon.children@) =~= boxes_view(anon_before.children@).push(b@));
        }
        let ghost popped = kids@;
        kids.push(anon);
        proof {
            assert(kids@.drop_last() =~= popped);
            assert(popped =~= before.drop_last());
            assert(boxes_view(kids@) =~= boxes_view(before.drop_last()).push(anon@));
            lemma_boxes_view(before.drop_last());
            assert(forall|i: int|
                0 <= i < before.len() - 1 ==> before.drop_last()[i] == #[trigger] before[i]);
            assert(boxes_view(before.drop_last()) =~= boxes_view(before).drop_last());
            assert(box_view(before.last()) == boxes_view(before).last());
            assert(anon@ =~= (LayoutBoxV {
                box_type: BoxTypeV::AnonymousBlock,
                children: boxes_view(before).last().children.push(b@),
            }));
            assert(boxes_view(kids@) =~= add_inline(boxes_view(before), b@));
        }
    } else {
        let mut anon = LayoutBox { box_type: BoxType::AnonymousBlock, children: Vec::new() };
        anon.children.push(b);
        let ghost before = kids@;
        kids.push(anon);
        proof {
            assert(kids@.drop_last() =~= before);
            assert(boxes_view(kids@) =~= boxes_view(before).push(box_view(kids@.last())));
            let av = box_view(kids@.last());
            let inner = kids@.last().children@;
            assert(inner.len() == 1);
            assert(inner.last() == b);
            assert(inner.drop_last() =~= Seq::<LayoutBox>::empty());
            assert(boxes_view(inner.drop_last()) =~= Seq::<LayoutBoxV>::empty());
            assert(boxes_view(inner) =~= boxes_view(inner.drop_last()).push(box_view(inner.last())));
            assert(av.children =~= seq![b@]);
            if boxes_view(before).len() > 0 {
                assert(boxes_view(before).last() == box_view(before.last()));
            }
            assert(boxes_view(kids@) =~= add_inline(boxes_view(before), b@));
        }
    }
}

/// The box tree of a styled node whose display is not `none`.
fn build_box(style_node: &StyledNode) -> (r: LayoutBox)
    requires
        display_of(style_node@.specified_values) != Display::Nothing,
    ensures
        r@ == build_box_spec(style_node@),
    decreases *style_node,
{
    let d = style_node.display();
    let own = StyledData {
        node: style_node.node.duplicate(),
        specified_values: style_node.specified_values.duplicate(),
    };
    let is_block = matches!(d, Display::Block);
    let mut kids: Vec<LayoutBox> = Vec::new();
    let ghost cs = style_node@.children;
    proof {
        lemma_styled_nodes_view(style_node.children@);
        assert(cs.take(0) =~= Seq::<StyledNodeV>::empty());
        assert(boxes_view(kids@) =~= Seq::<LayoutBoxV>::empty());
    }
    let mut i: usize = 0;
    while i < style_node.children.len()
        invariant
            i <= style_node.children@.len(),
            cs == style_node@.children,
            cs.len() == style_node.children@.len(),
            forall|k: int|
                0 <= k < cs.len() ==> cs[k] == styled_view(#[trigger] style_node.children@[k]),
            is_block == (display_of(style_node@.specified_values) is Block),
            boxes_view(kids@) == (if is_block {
                block_children_spec(cs.take(i as int))
            } else {
                inline_children_spec(cs.take(i as int))
            }),
        decreases style_node.children@.len() - i,
    {
        let child = &style_node.children[i];
        proof {
            assert(cs[i as int] == child@);
            assert(cs.take(i + 1).drop_last() =~= cs.take(i as int));
            assert(cs.take(i + 1).last() == cs[i as int]);
        }
        match child.display() {
            Display::Block => {
                let cb = build_box(child);
                let ghost before = kids@;
                kids.push(cb);
                proof {
                    assert(kids@.drop_last() =~= before);
                    assert(boxes_view(kids@) =~= boxes_view(before).push(box_view(kids@.last())));
                }
            },
            Display::Inline => {
                let cb = build_box(child);
                if is_block {
                    push_inline(&mut kids, cb);
                } else {
                    let ghost before = kids@;
                    kids.push(cb);
                    proof {
                        assert(kids@.drop_last() =~= before);
                        assert(boxes_view(kids@) =~= boxes_view(before).push(
                            box_view(kids@.last()),
                        ));
                    }
                }
            },
            Display::Nothing => {},
        }
        i = i + 1;
    }
    proof {
        assert(cs.take(cs.len() as int) =~= cs);
    }
    let box_type = if is_block {
        BoxType::BlockNode(own)
    } else {
        BoxType::InlineNode(own)
    };
    let r = LayoutBox { box_type, children: kids };
    proof {
        assert(r@ =~= build_box_spec(style_node@));
    }
    r
}

/// Why a box tree cannot be built.
#[derive(Clone, Copy, PartialEq, Eq, Structural, Debug)]
pub enum LayoutError {
    /// The root's display resolves to `none`: nothing would be rendered.
    RootDisplayNone,
}

/// Builds the layout-box tree of a styled tree, computing no geometry yet.
/// A root whose display resolves to `none` is a configuration error; a
/// `display: none` descendant simply contributes nothing.
pub fn build_layout_tree(style_node: &StyledNode) -> (r: Result<LayoutBox, LayoutError>)
    ensures
        match r {
            Result::Ok(b) => display_of(style_node@.specified_values) != Display::Nothing && b@
                == build_box_spec(style_node@),
            Result::Err(e) => display_of(style_node@.specified_values) == Display::Nothing && e
                == LayoutError::RootDisplayNone,
        },
{
    match style_node.display() {
        Display::Nothing => Result::Err(LayoutError::RootDisplayNone),
        _ => Result::Ok(build_box(style_node)),
    }
}

// ---------------------------------------------------------------------------
// Laws of the box tree
// ---------------------------------------------------------------------------

/// A block container's children are block or anonymous-block boxes; a bare
/// inline box never stands directly under one.
pub proof fn lemma_no_inline_under_block(cs: Seq<StyledNodeV>)
    ensures
        forall|k: int|
            0 <= k < block_children_spec(cs).len() ==> !((#[trigger] block_children_spec(
                cs,
            )[k]).box_type is InlineNode),
    decreases cs,
{
    if cs.len() > 0 {
        lemma_no_inline_under_block(cs.drop_last());
        let prev = block_children_spec(cs.drop_last());
        let c = cs.last();
        match display_of(c.specified_values) {
            Display::Block => {
                assert(build_box_spec(c).box_type is BlockNode);
            },
            Display::Nothing => {},
            Display::Inline => {
                assert forall|k: int|
                    0 <= k < add_inline(prev, build_box_spec(c)).len() implies !((
                #[trigger] add_inline(prev, build_box_spec(c))[k]).box_type is InlineNode) by {
                    if prev.len() > 0 && prev.last().box_type is AnonymousBlock {
                        if k < prev.len() - 1 {
                            assert(add_inline(prev, build_box_spec(c))[k] == prev[k]);
                        }
                    } else {
                        if k < prev.len() {
                            assert(add_inline(prev, build_box_spec(c))[k] == prev[k]);
                        }
                    }
                }
            },
        }
    }
}

/// A `display: none` child contributes nothing: the child boxes of a block
/// container are the same with it and without it.
pub proof fn lemma_none_child_invisible(cs1: Seq<StyledNodeV>, c: StyledNodeV, cs2: Seq<StyledNodeV>)
    requires
        display_of(c.specified_values) == Display::Nothing,
    ensures
        block_children_spec(cs1 + seq![c] + cs2) == block_children_spec(cs1 + cs2),
        inline_children_spec(cs1 + seq![c] + cs2) == inline_children_spec(cs1 + cs2),
    decreases cs2.len(),
{
    if cs2.len() == 0 {
        assert((cs1 + seq![c] + cs2).last() == c);
        assert((cs1 + seq![c] + cs2).drop_last() =~= cs1);
        assert(cs1 + cs2 =~= cs1);
    } else {
        lemma_none_child_invisible(cs1, c, cs2.drop_last());
        let s = cs1 + seq![c] + cs2;
        let t = cs1 + cs2;
        assert(s.last() == cs2.last());
        assert(t.last() == cs2.last());
        assert(s.drop_last() =~= cs1 + seq![c] + cs2.drop_last());
        assert(t.drop_last() =~= cs1 + cs2.drop_last());
    }
}


/// A well-formed box tree: no block box anywhere in it has a bare inline
/// child; inline content under a block container is always wrapped.
pub open spec fn box_wf(b: LayoutBoxV) -> bool
    decreases b,
{
    &&& (b.box_type is BlockNode ==> forall|k: int|
        0 <= k < b.children.len() ==> !((#[trigger] b.children[k]).box_type is InlineNode))
    &&& (forall|k: int| 0 <= k < b.children.len() ==> box_wf(#[trigger] b.children[k]))
}

/// Every box tree the builder produces is well-formed.
pub proof fn lemma_build_box_wf(sn: StyledNodeV)
    ensures
        box_wf(build_box_spec(sn)),
    decreases sn, 1int,
{
    lemma_children_wf(sn.children);
    let b = build_box_spec(sn);
    match display_of(sn.specified_values) {
        Display::Block => {
            lemma_no_inline_under_block(sn.children);
            assert(b.children == block_children_spec(sn.children));
            assert(box_wf(b));
        },
        _ => {
            assert(b.children == inline_children_spec(sn.children));
            assert(!(b.box_type is BlockNode));
            assert(box_wf(b));
        },
    }
}

/// Every box in the children built for a container is well-formed.
pub proof fn lemma_children_wf(cs: Seq<StyledNodeV>)
    ensures
        forall|k: int|
            0 <= k < block_children_spec(cs).len() ==> box_wf(
                #[trigger] block_children_spec(cs)[k],
            ),
        forall|k: int|
            0 <= k < inline_children_spec(cs).len() ==> box_wf(
                #[trigger] inline_children_spec(cs)[k],
            ),
    decreases cs, 0int,
{
    if cs.len() > 0 {
        lemma_children_wf(cs.drop_last());
        let c = cs.last();
        let prev_b = block_children_spec(cs.drop_last());
        let prev_i = inline_children_spec(cs.drop_last());
        match display_of(c.specified_values) {
            Display::Nothing => {},
            Display::Block => {
                lemma_build_box_wf(c);
            },
            Display::Inline => {
                lemma_build_box_wf(c);
                let b = build_box_spec(c);
                assert forall|k: int|
                    0 <= k < add_inline(prev_b, b).len() implies box_wf(
                    #[trigger] add_inline(prev_b, b)[k],
                ) by {
                    if prev_b.len() > 0 && prev_b.last().box_type is AnonymousBlock {
                        if k < prev_b.len() - 1 {
                            assert(add_inline(prev_b, b)[k] == prev_b[k]);
                        } else {
                            assert(box_wf(prev_b.last()));
                            let anon = add_inline(prev_b, b).last();
                            assert(anon.children =~= prev_b.last().children.push(b));
                            assert forall|j: int|
                                0 <= j < anon.children.len() implies box_wf(
                                #[trigger] anon.children[j],
                            ) by {
                                if j < anon.children.len() - 1 {
                                    assert(anon.children[j] == prev_b.last().children[j]);
                                }
                            }
                        }
                    } else {
                        if k < prev_b.len() {
                            assert(add_inline(prev_b, b)[k] == prev_b[k]);
                        } else {
                            let anon = add_inline(prev_b, b).last();
                            assert(anon.children =~= seq![b]);
                        }
                    }
                }
            },
        }
    }
}

} // verus!
