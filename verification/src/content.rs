//! The capability that every building block of a tree has.
//!
//! Trees are built from the leaves up. Every building block is a [`Content`]:
//! it knows the stored form of the tree below it and can be wrapped in a
//! frame.

use crate::element::{is_forest, is_fresh, Element, ElementKind, Entry, NodeType};
use crate::frame::{Frame, FrameWrapper};
use crate::shape::{admits, joined, lemma_tree_over_forest};
use vstd::prelude::*;

verus! {

/// The stored form of an element of `kind` over the forest `under`.
pub open spec fn tree_over(kind: ElementKind, under: Seq<Entry>) -> Seq<Entry> {
    seq![Entry::fresh(kind, (1 + under.len()) as usize)] + under
}

/// Puts the entries of `child` at the end of `out`.
pub(crate) fn push_tree(out: &mut Vec<Entry>, child: &Element)
    ensures
        final(out)@ == old(out)@ + child@,
{
    let n = child.len();
    let mut m: usize = 0;
    while m < n
        invariant
            n == child@.len(),
            m <= n,
            out@ == old(out)@ + child@.take(m as int),
        decreases n - m,
    {
        out.push(child.entry(m));
        proof {
            assert(child@.take(m as int + 1) == child@.take(m as int).push(child@[m as int]));
        }
        m += 1;
    }
    proof {
        assert(child@.take(n as int) == child@);
    }
}

/// The stored forms of the trees of `content`, in order.
pub open spec fn parts_of(content: Seq<Element>) -> Seq<Seq<Entry>> {
    content.map_values(|e: Element| e@)
}

/// Puts the entries of every tree of `content`, in order, at the end of `out`.
pub(crate) fn push_forest(out: &mut Vec<Entry>, content: &Vec<Element>)
    ensures
        final(out)@ == old(out)@ + joined(parts_of(content@)),
{
    let n = content.len();
    let ghost parts = parts_of(content@);
    let mut k: usize = 0;
    while k < n
        invariant
            n == content@.len(),
            parts == parts_of(content@),
            k <= n,
            out@ == old(out)@ + joined(parts.take(k as int)),
        decreases n - k,
    {
        push_tree(out, &content[k]);
        proof {
            let next = parts.take(k as int + 1);
            assert(next.drop_last() == parts.take(k as int));
            assert(next.last() == content@[k as int]@);
        }
        k += 1;
    }
    proof {
        assert(parts.take(n as int) == parts);
    }
}

/// An empty store with room for the head of a tree, which [`seal`] fills in.
pub(crate) fn open_tree(kind: ElementKind) -> (out: Vec<Entry>)
    ensures
        out@ == seq![Entry::fresh(kind, 1)],
{
    let mut out: Vec<Entry> = Vec::new();
    out.push(Entry { kind, span: 1, parent: None, node: None });
    out
}

/// Closes a store that [`open_tree`] began: the head gets the span of all
/// that was put under it.
pub(crate) fn seal(out: Vec<Entry>) -> (element: Element)
    requires
        out@.len() >= 1,
        out@[0].parent is None,
        out@[0].node is None,
        is_forest_fresh(out@.skip(1)),
        admits(out@[0].kind, out@.skip(1)),
    ensures
        element@ == tree_over(out@[0].kind, out@.skip(1)),
        element.wf(),
{
    let ghost under = out@.skip(1);
    let mut out = out;
    let total = out.len();
    let kind = out[0].kind;
    out.set(0, Entry { kind, span: total, parent: None, node: None });
    proof {
        assert(out@ == tree_over(kind, under));
        lemma_tree_over_forest(Entry::fresh(kind, total), under);
        assert forall|i: int| 0 <= i < out@.len() implies (#[trigger] out@[i]).parent is None
            && out@[i].node is None by {
            if i > 0 {
                assert(out@[i] == under[i - 1]);
            }
        }
    }
    Element::from_entries(out)
}

/// A forest in which nothing has been wired or submitted.
pub open spec fn is_forest_fresh(s: Seq<Entry>) -> bool {
    is_forest(s) && is_fresh(s)
}

/// A building block of a layout tree.
pub trait Content: Sized {
    /// The trees below this block are whole.
    spec fn wf(&self) -> bool;

    /// What this block is.
    spec fn kind(&self) -> ElementKind;

    /// The stored form of what stands below this block.
    spec fn under(&self) -> Seq<Entry>;

    /// The identity of this block towards the solver: whether it is drawn,
    /// and the solver node that it holds by itself. Only a sized box can be
    /// submitted by itself; every other block gets its node once it is
    /// rooted.
    spec fn identity(&self) -> NodeType;

    /// The identity of this block towards the solver.
    fn content_type(&self) -> (identity: NodeType)
        ensures
            identity == self.identity(),
            identity is RenderNode <==> self.kind().renderable(),
    ;

    /// The stored form of the tree that this block heads.
    fn into_element(self) -> (element: Element)
        requires
            self.wf(),
        ensures
            element.wf(),
            element@ == tree_over(self.kind(), self.under()),
    ;

    /// This block inside a frame that constrains nothing.
    fn default_frame(self) -> (wrapper: FrameWrapper)
        requires
            self.wf(),
        ensures
            wrapper.content.wf(),
            wrapper.frame == Frame::unconstrained(),
            wrapper.content@ == tree_over(self.kind(), self.under()),
    {
        FrameWrapper::new(self.into_element())
    }

    /// This block inside a frame of the given width and height, each of them
    /// optional.
    fn frame(self, width: Option<u16>, height: Option<u16>) -> (wrapper: FrameWrapper)
        requires
            self.wf(),
        ensures
            wrapper.content.wf(),
            wrapper.frame == (Frame { width, height, ..Frame::unconstrained() }),
            wrapper.content@ == tree_over(self.kind(), self.under()),
    {
        FrameWrapper::new(self.into_element()).option(width, height)
    }

    /// This block inside a frame of exactly the given width and height.
    fn absolute_frame(self, width: u16, height: u16) -> (wrapper: FrameWrapper)
        requires
            self.wf(),
        ensures
            wrapper.content.wf(),
            wrapper.frame == (Frame {
                width: Some(width),
                height: Some(height),
                ..Frame::unconstrained()
            }),
            wrapper.content@ == tree_over(self.kind(), self.under()),
    {
        FrameWrapper::new(self.into_element()).absolute(width, height)
    }
}

} // verus!
