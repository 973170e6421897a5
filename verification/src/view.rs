//! The drawn element.

use crate::content::{open_tree, push_tree, seal, Content};
use crate::element::{Color, Element, ElementKind, Entry, NodeType};
use vstd::prelude::*;
use vstd::view::View as _;

verus! {

/// A drawn element. It fills the space it is given and may hold one child.
pub struct View {
    pub background_color: Color,
    pub child: Option<Element>,
}

impl Default for View {
    fn default() -> (view: View)
        ensures
            view.background_color == Color::Write,
            view.child is None,
    {
        View { background_color: Color::Write, child: None }
    }
}

impl Content for View {
    open spec fn wf(&self) -> bool {
        self.child matches Some(child) ==> child.wf()
    }

    open spec fn kind(&self) -> ElementKind {
        ElementKind::View { background_color: self.background_color }
    }

    open spec fn under(&self) -> Seq<Entry> {
        match self.child {
            Some(child) => child@,
            None => Seq::empty(),
        }
    }

    open spec fn identity(&self) -> NodeType {
        NodeType::RenderNode { n: None }
    }

    fn content_type(&self) -> (identity: NodeType) {
        NodeType::RenderNode { n: None }
    }

    fn into_element(self) -> (element: Element) {
        let mut out = open_tree(ElementKind::View { background_color: self.background_color });
        if let Some(child) = &self.child {
            push_tree(&mut out, child);
        }
        proof {
            assert(out@.skip(1) =~= self.under());
        }
        seal(out)
    }
}

} // verus!
