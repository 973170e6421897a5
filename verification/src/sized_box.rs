//! The fixed-size leaf.

use crate::content::{open_tree, seal, Content};
use crate::element::{Element, ElementKind, Entry, NodeType};
use crate::solver::{Solver, SolverNode};
use stretch::node::Node;
use stretch::Error;
use vstd::prelude::*;

verus! {

/// A leaf of a fixed size. It arranges nothing and is not drawn; stacks use
/// it as the filler between spaced children.
#[derive(Clone, Copy, Debug, PartialEq, Eq)]
pub struct SizedBox {
    pub width: u16,
    pub height: u16,
    /// The solver node of the last successful submission of this box by
    /// itself.
    pub node: Option<Node>,
}

impl SizedBox {
    pub fn new(width: u16, height: u16) -> (sized_box: SizedBox)
        ensures
            sized_box == (SizedBox { width, height, node: None }),
    {
        SizedBox { width, height, node: None }
    }

    /// What a sized box of this size is, as an element.
    pub open spec fn spec_kind(self) -> ElementKind {
        ElementKind::SizedBox { width: self.width, height: self.height }
    }

    /// `node` is a node of this size without children.
    pub open spec fn is_node(self, nodes: Map<Node, SolverNode>, node: Node) -> bool {
        nodes.contains_key(node) && nodes[node] == (SolverNode {
            style: self.spec_kind().style(),
            children: Seq::empty(),
            measured: false,
        })
    }

    /// Submits this box by itself and records the node. It always succeeds:
    /// the solver gains one node of this size, without children, and nothing
    /// else in it changes.
    pub fn layout_node(&mut self, engine: &mut Solver) -> (submitted: Result<Node, Error>)
        requires
            old(engine).wf(),
            old(engine).issued() < 0xFFFF_FFFF,
        ensures
            final(engine).wf(),
            final(engine).issued() == old(engine).issued() + 1,
            submitted matches Ok(node) && !old(engine).nodes().contains_key(node)
                && final(engine).nodes() == old(engine).nodes().insert(
                node,
                SolverNode {
                    style: old(self).spec_kind().style(),
                    children: Seq::empty(),
                    measured: false,
                },
            ) && *final(self) == (SizedBox { node: Some(node), ..*old(self) }),
    {
        let style = ElementKind::SizedBox { width: self.width, height: self.height }.node_style();
        let children: Vec<Node> = Vec::new();
        let submitted = engine.new_node(&style, children);
        if let Ok(node) = submitted {
            self.node = Some(node);
        }
        submitted
    }
}

impl Content for SizedBox {
    open spec fn wf(&self) -> bool {
        true
    }

    open spec fn kind(&self) -> ElementKind {
        self.spec_kind()
    }

    open spec fn under(&self) -> Seq<Entry> {
        Seq::empty()
    }

    open spec fn identity(&self) -> NodeType {
        NodeType::LayoutNode { n: self.node }
    }

    fn content_type(&self) -> (identity: NodeType) {
        NodeType::LayoutNode { n: self.node }
    }

    fn into_element(self) -> (element: Element) {
        let out = open_tree(ElementKind::SizedBox { width: self.width, height: self.height });
        proof {
            assert(out@.skip(1) =~= Seq::<Entry>::empty());
        }
        seal(out)
    }
}

} // verus!
