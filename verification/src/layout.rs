use vstd::prelude::*;

use crate::style::{lemma_styled_views, spec_display, styled_view, styled_views, SStyled, StyledNode};

verus! {

/// A box of the layout tree. The geometry of the boxes is computed apart
/// from the tree.
pub struct LayoutBox<'a> {
    pub box_type: BoxType<'a>,
    pub children: Vec<LayoutBox<'a>>,
}

pub enum BoxType<'a> {
    BlockNode(&'a StyledNode<'a>),
    InlineNode(&'a StyledNode<'a>),
    AnonymousBlock,
}

/// How a node is displayed: `display: none` is `Hidden`.
#[derive(Debug)]
pub enum Display {
    Inline,
    Block,
    Hidden,
}

// ---------------------------------------------------------------------------
// The model
// ---------------------------------------------------------------------------

pub enum SBoxType {
    BlockNode(SStyled),
    InlineNode(SStyled),
    AnonymousBlock,
}

pub struct SBox {
    pub box_type: SBoxType,
    pub children: Seq<SBox>,
}

pub open spec fn box_type_view(t: BoxType) -> SBoxType {
    match t {
        BoxType::BlockNode(n) => SBoxType::BlockNode(styled_view(*n)),
        BoxType::InlineNode(n) => SBoxType::InlineNode(styled_view(*n)),
        BoxType::AnonymousBlock => SBoxType::AnonymousBlock,
    }
}

pub open spec fn box_view(b: LayoutBox) -> SBox
    decreases b,
{
    SBox { box_type: box_type_view(b.box_type), children: boxes_view(b.children@) }
}

pub open spec fn boxes_view(s: Seq<LayoutBox>) -> Seq<SBox>
    decreases s,
{
    if s.len() == 0 {
        Seq::empty()
    } else {
        boxes_view(s.subrange(0, s.len() - 1)).push(box_view(s[s.len() - 1]))
    }
}

impl<'a> View for LayoutBox<'a> {
    type V = SBox;

    open spec fn view(&self) -> SBox {
        box_view(*self)
    }
}

pub proof fn lemma_boxes_view_push(s: Seq<LayoutBox>, b: LayoutBox)
    ensures
        boxes_view(s.push(b)) == boxes_view(s).push(box_view(b)),
{
    assert(s.push(b).subrange(0, s.len() as int) =~= s);
}

pub proof fn lemma_boxes_view_len(s: Seq<LayoutBox>)
    ensures
        boxes_view(s).len() == s.len(),
    decreases s.len(),
{
    if s.len() > 0 {
        lemma_boxes_view_len(s.subrange(0, s.len() - 1));
    }
}

pub proof fn lemma_boxes_view_update_last(s: Seq<LayoutBox>, b: LayoutBox)
    requires
        s.len() > 0,
    ensures
        boxes_view(s.update(s.len() - 1, b)) == boxes_view(s).update(
            boxes_view(s).len() - 1,
            box_view(b),
        ),
        boxes_view(s).last() == box_view(s.last()),
{
    lemma_boxes_view_len(s);
    let d = s.subrange(0, s.len() - 1);
    assert(s.update(s.len() - 1, b).subrange(0, s.len() - 1) =~= d);
    assert(boxes_view(s).update(boxes_view(s).len() - 1, box_view(b)) =~= boxes_view(d).push(
        box_view(b),
    ));
}

/// The layout box of a styled node that is displayed: a block box or an
/// inline box, with the boxes of its children.
pub open spec fn spec_layout(n: SStyled) -> SBox
    decreases n,
{
    let block = spec_display(n.values) == Display::Block;
    SBox {
        box_type: if block {
            SBoxType::BlockNode(n)
        } else {
            SBoxType::InlineNode(n)
        },
        children: spec_layout_children(block, n.children),
    }
}

/// The child boxes of a box for the styled children `cs`: a child displayed
/// as a block gets a box of its own; under a block box, a run of inline
/// children shares one anonymous block; a child displayed as `none` gets
/// nothing.
pub open spec fn spec_layout_children(block: bool, cs: Seq<SStyled>) -> Seq<SBox>
    decreases cs,
{
    if cs.len() == 0 {
        Seq::empty()
    } else {
        let pre = spec_layout_children(block, cs.subrange(0, cs.len() - 1));
        let c = cs[cs.len() - 1];
        match spec_display(c.values) {
            Display::Block => pre.push(spec_layout(c)),
            Display::Inline => if !block {
                pre.push(spec_layout(c))
            } else if pre.len() > 0 && pre.last().box_type is AnonymousBlock {
                pre.update(
                    pre.len() - 1,
                    SBox {
                        box_type: SBoxType::AnonymousBlock,
                        children: pre.last().children.push(spec_layout(c)),
                    },
                )
            } else {
                pre.push(SBox { box_type: SBoxType::AnonymousBlock, children: seq![spec_layout(c)] })
            },
            Display::Hidden => pre,
        }
    }
}

// ---------------------------------------------------------------------------
// The shape of the layout tree
// ---------------------------------------------------------------------------

pub open spec fn is_shown() -> spec_fn(SStyled) -> bool {
    |c: SStyled| spec_display(c.values) != Display::Hidden
}

/// The children that get a box: those not displayed as `none`.
pub open spec fn shown(cs: Seq<SStyled>) -> Seq<SStyled> {
    cs.filter(is_shown())
}

pub open spec fn layouts(cs: Seq<SStyled>) -> Seq<SBox> {
    cs.map_values(|c: SStyled| spec_layout(c))
}

/// The boxes `bs` with each anonymous block replaced by its children.
pub open spec fn flatten(bs: Seq<SBox>) -> Seq<SBox>
    decreases bs.len(),
{
    if bs.len() == 0 {
        Seq::empty()
    } else {
        let pre = flatten(bs.drop_last());
        if bs.last().box_type is AnonymousBlock {
            pre + bs.last().children
        } else {
            pre.push(bs.last())
        }
    }
}

/// The children of a block box: block boxes and anonymous blocks, where an
/// anonymous block holds one or more inline boxes and never follows
/// another.
pub open spec fn block_children_ok(bs: Seq<SBox>) -> bool {
    &&& forall|i: int|
        0 <= i < bs.len() && (#[trigger] bs[i]).box_type is AnonymousBlock ==> bs[i].children.len()
            > 0 && forall|j: int|
            0 <= j < bs[i].children.len() ==> (#[trigger] bs[i].children[j]).box_type is InlineNode
    &&& forall|i: int|
        0 <= i < bs.len() && !((#[trigger] bs[i]).box_type is AnonymousBlock) ==> bs[i].box_type is BlockNode
    &&& forall|i: int|
        0 < i < bs.len() && (#[trigger] bs[i]).box_type is AnonymousBlock ==> !(bs[i
            - 1].box_type is AnonymousBlock)
}

proof fn lemma_filter_push_shown(cs: Seq<SStyled>, c: SStyled)
    ensures
        shown(cs.push(c)) == if is_shown()(c) {
            shown(cs).push(c)
        } else {
            shown(cs)
        },
{
    reveal(Seq::filter);
    assert(cs.push(c).drop_last() =~= cs);
}

/// Under an inline box, each child that is displayed gets its box, in
/// order, and no anonymous block is made.
pub proof fn lemma_inline_children(cs: Seq<SStyled>)
    ensures
        spec_layout_children(false, cs) == layouts(shown(cs)),
    decreases cs.len(),
{
    if cs.len() == 0 {
        reveal(Seq::filter);
        assert(layouts(shown(cs)) =~= Seq::<SBox>::empty());
    } else {
        let d = cs.subrange(0, cs.len() - 1);
        let c = cs[cs.len() - 1];
        lemma_inline_children(d);
        assert(d.push(c) =~= cs);
        lemma_filter_push_shown(d, c);
        assert(layouts(shown(d).push(c)) =~= layouts(shown(d)).push(spec_layout(c)));
    }
}

/// Under a block box, each child that is displayed gets its box, in order,
/// runs of inline children sharing an anonymous block; and the child boxes
/// are as `block_children_ok` says.
pub proof fn lemma_block_children(cs: Seq<SStyled>)
    ensures
        flatten(spec_layout_children(true, cs)) == layouts(shown(cs)),
        block_children_ok(spec_layout_children(true, cs)),
    decreases cs.len(),
{
    let bs = spec_layout_children(true, cs);
    if cs.len() == 0 {
        reveal(Seq::filter);
        assert(layouts(shown(cs)) =~= Seq::<SBox>::empty());
    } else {
        let d = cs.subrange(0, cs.len() - 1);
        let c = cs[cs.len() - 1];
        let pre = spec_layout_children(true, d);
        lemma_block_children(d);
        assert(d.push(c) =~= cs);
        lemma_filter_push_shown(d, c);
        let lc = spec_layout(c);
        assert(layouts(shown(d).push(c)) =~= layouts(shown(d)).push(lc));
        match spec_display(c.values) {
            Display::Block => {
                assert(bs == pre.push(lc));
                assert(bs.drop_last() =~= pre);
                assert forall|i: int| 0 <= i < bs.len() - 1 implies bs[i] == pre[i] by {}
            },
            Display::Inline => {
                if pre.len() > 0 && pre.last().box_type is AnonymousBlock {
                    let nl = SBox {
                        box_type: SBoxType::AnonymousBlock,
                        children: pre.last().children.push(lc),
                    };
                    assert(bs == pre.update(pre.len() - 1, nl));
                    assert(bs.drop_last() =~= pre.drop_last());
                    assert(pre.drop_last().push(pre.last()) =~= pre);
                    assert(flatten(pre) == flatten(pre.drop_last()) + pre.last().children);
                    assert(flatten(bs) =~= flatten(pre).push(lc));
                    assert forall|i: int| 0 <= i < bs.len() - 1 implies bs[i] == pre[i] by {}
                    assert forall|j: int| 0 <= j < nl.children.len() implies (
                    #[trigger] nl.children[j]).box_type is InlineNode by {
                        if j < nl.children.len() - 1 {
                            assert(pre[pre.len() - 1].children[j] == nl.children[j]);
                        }
                    }
                } else {
                    let nl = SBox { box_type: SBoxType::AnonymousBlock, children: seq![lc] };
                    assert(bs == pre.push(nl));
                    assert(bs.drop_last() =~= pre);
                    assert(flatten(bs) =~= flatten(pre).push(lc));
                    assert forall|i: int| 0 <= i < bs.len() - 1 implies bs[i] == pre[i] by {}
                }
            },
            Display::Hidden => {},
        }
    }
}

// ---------------------------------------------------------------------------
// Exec
// ---------------------------------------------------------------------------

impl<'a> LayoutBox<'a> {
    pub fn new(box_type: BoxType<'a>) -> (b: LayoutBox<'a>)
        ensures
            b.box_type == box_type,
            b.children@ == Seq::<LayoutBox<'a>>::empty(),
    {
        LayoutBox { box_type, children: Vec::new() }
    }

    /// Adds `child` to the box that takes this box's inline content: the box
    /// itself, unless it is a block box; then its last child, where that is
    /// an anonymous block, or else a new anonymous block at its end.
    pub fn push_inline_child(&mut self, child: LayoutBox<'a>)
        ensures
            final(self).box_type == old(self).box_type,
            ({
                let kids = old(self).children@;
                match old(self).box_type {
                    BoxType::BlockNode(_) => if kids.len() > 0 && kids.last().box_type is AnonymousBlock {
                        &&& final(self).children@.len() == kids.len()
                        &&& final(self).children@.drop_last() == kids.drop_last()
                        &&& final(self).children@.last().box_type is AnonymousBlock
                        &&& final(self).children@.last().children@ == kids.last().children@.push(child)
                    } else {
                        &&& final(self).children@.len() == kids.len() + 1
                        &&& final(self).children@.drop_last() == kids
                        &&& final(self).children@.last().box_type is AnonymousBlock
                        &&& final(self).children@.last().children@ == seq![child]
                    },
                    _ => final(self).children@ == kids.push(child),
                }
            }),
    {
        match &self.box_type {
            BoxType::InlineNode(_) | BoxType::AnonymousBlock => {
                self.children.push(child);
            },
            BoxType::BlockNode(_) => {
                let n = self.children.len();
                let reuse = n > 0 && match self.children[n - 1].box_type {
                    BoxType::AnonymousBlock => true,
                    _ => false,
                };
                if reuse {
                    let mut last = self.children.pop().unwrap();
                    last.children.push(child);
                    self.children.push(last);
                } else {
                    let mut anonymous = LayoutBox::new(BoxType::AnonymousBlock);
                    anonymous.children.push(child);
                    self.children.push(anonymous);
                }
            },
        }
    }
}

pub fn build_layout_tree<'a>(style_node: &'a StyledNode<'a>) -> (r: LayoutBox<'a>)
    requires
        spec_display(style_node.specified_values@) != Display::Hidden,
    ensures
        r@ == spec_layout(style_node@),
    decreases style_node,
{
    let block = match style_node.display() {
        Display::Block => true,
        _ => false,
    };
    let mut root = if block {
        LayoutBox::new(BoxType::BlockNode(style_node))
    } else {
        LayoutBox::new(BoxType::InlineNode(style_node))
    };
    let ghost cs = styled_views(style_node.children@);
    proof {
        lemma_styled_views(style_node.children@);
        assert(cs.take(0) =~= Seq::<SStyled>::empty());
        assert(boxes_view(root.children@) =~= Seq::<SBox>::empty());
    }
    let mut i: usize = 0;
    while i < style_node.children.len()
        invariant
            i <= style_node.children@.len(),
            cs == styled_views(style_node.children@),
            cs.len() == style_node.children@.len(),
            forall|k: int| 0 <= k < cs.len() ==> #[trigger] cs[k] == styled_view(style_node.children@[k]),
            block == (spec_display(style_node.specified_values@) == Display::Block),
            root.box_type == (if block {
                BoxType::BlockNode(style_node)
            } else {
                BoxType::InlineNode(style_node)
            }),
            boxes_view(root.children@) == spec_layout_children(block, cs.take(i as int)),
        decreases style_node.children@.len() - i,
    {
        let child = &style_node.children[i];
        let ghost pre = root.children@;
        proof {
            assert(cs.take(i + 1).subrange(0, i as int) =~= cs.take(i as int));
            assert(cs.take(i + 1)[i as int] == styled_view(*child));
        }
        match child.display() {
            Display::Block => {
                let b = build_layout_tree(child);
                root.children.push(b);
                proof {
                    lemma_boxes_view_push(pre, b);
                }
            },
            Display::Inline => {
                let b = build_layout_tree(child);
                root.push_inline_child(b);
                proof {
                    lemma_inline_step(block, pre, root.children@, b);
                }
            },
            Display::Hidden => {},
        }
        i = i + 1;
    }
    proof {
        assert(cs.take(i as int) =~= cs);
        assert(style_node@.children == cs);
    }
    root
}

proof fn lemma_inline_step(block: bool, pre: Seq<LayoutBox>, post: Seq<LayoutBox>, b: LayoutBox)
    requires
        !block ==> post == pre.push(b),
        block ==> if pre.len() > 0 && pre.last().box_type is AnonymousBlock {
            &&& post.len() == pre.len()
            &&& post.drop_last() == pre.drop_last()
            &&& post.last().box_type is AnonymousBlock
            &&& post.last().children@ == pre.last().children@.push(b)
        } else {
            &&& post.len() == pre.len() + 1
            &&& post.drop_last() == pre
            &&& post.last().box_type is AnonymousBlock
            &&& post.last().children@ == seq![b]
        },
    ensures
        boxes_view(post) == {
            let pv = boxes_view(pre);
            if !block {
                pv.push(box_view(b))
            } else if pv.len() > 0 && pv.last().box_type is AnonymousBlock {
                pv.update(
                    pv.len() - 1,
                    SBox {
                        box_type: SBoxType::AnonymousBlock,
                        children: pv.last().children.push(box_view(b)),
                    },
                )
            } else {
                pv.push(SBox { box_type: SBoxType::AnonymousBlock, children: seq![box_view(b)] })
            }
        },
{
    lemma_boxes_view_len(pre);
    if !block {
        lemma_boxes_view_push(pre, b);
    } else if pre.len() > 0 && pre.last().box_type is AnonymousBlock {
        lemma_boxes_view_update_last(pre, post.last());
        assert forall|k: int| 0 <= k < post.len() - 1 implies post[k] == pre[k] by {
            assert(post.drop_last()[k] == post[k]);
            assert(pre.drop_last()[k] == pre[k]);
        }
        assert(post =~= pre.update(pre.len() - 1, post.last()));
        lemma_boxes_view_push(pre.last().children@, b);
        assert(box_view(post.last()) == SBox {
            box_type: SBoxType::AnonymousBlock,
            children: boxes_view(pre.last().children@).push(box_view(b)),
        });
    } else {
        if pre.len() > 0 {
            lemma_boxes_view_update_last(pre, pre.last());
        }
        assert(post =~= pre.push(post.last()));
        lemma_boxes_view_push(pre, post.last());
        lemma_boxes_view_push(Seq::empty(), b);
        assert(seq![b] =~= Seq::<LayoutBox>::empty().push(b));
        assert(boxes_view(Seq::<LayoutBox>::empty()) =~= Seq::<SBox>::empty());
        assert(box_view(post.last()).children =~= seq![box_view(b)]);
    }
}

} // verus!
