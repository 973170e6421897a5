//! The vertical stack.

use crate::alignment::{CrossAlignment, MainAlignment};
use crate::content::{open_tree, parts_of, push_forest, seal, Content};
use crate::element::{is_fresh, is_tree, Element, ElementKind, Entry, NodeType};
use crate::shape::{joined, lemma_joined_forest, lemma_joined_fresh};
use crate::style::FlexDirection;
use vstd::prelude::*;

verus! {

/// A container that places its children from top to bottom. With a distributive
/// alignment the solver spaces the children; otherwise `spacing`, where
/// given, is the gap between each two of them. Both at once break the
/// spacing rule.
pub struct VStack {
    pub alignment: MainAlignment,
    pub cross: CrossAlignment,
    pub spacing: Option<u16>,
    pub content: Vec<Element>,
}

impl VStack {
    pub fn new(
        alignment: MainAlignment,
        cross: CrossAlignment,
        spacing: Option<u16>,
        content: Vec<Element>,
    ) -> (stack: VStack)
        ensures
            stack.alignment == alignment,
            stack.cross == cross,
            stack.spacing == spacing,
            stack.content == content,
    {
        VStack { alignment, cross, spacing, content }
    }
}

impl Content for VStack {
    open spec fn wf(&self) -> bool {
        forall|k: int| 0 <= k < self.content@.len() ==> (#[trigger] self.content@[k]).wf()
    }

    open spec fn kind(&self) -> ElementKind {
        ElementKind::Stack {
            direction: FlexDirection::Column,
            alignment: self.alignment,
            cross: self.cross,
            spacing: self.spacing,
        }
    }

    open spec fn under(&self) -> Seq<Entry> {
        joined(parts_of(self.content@))
    }

    open spec fn identity(&self) -> NodeType {
        NodeType::LayoutNode { n: None }
    }

    fn content_type(&self) -> (identity: NodeType) {
        NodeType::LayoutNode { n: None }
    }

    fn into_element(self) -> (element: Element) {
        let mut out = open_tree(
            ElementKind::Stack {
                direction: FlexDirection::Column,
                alignment: self.alignment,
                cross: self.cross,
                spacing: self.spacing,
            },
        );
        push_forest(&mut out, &self.content);
        proof {
            let parts = parts_of(self.content@);
            assert forall|k: int| 0 <= k < parts.len() implies is_tree(#[trigger] parts[k])
                && is_fresh(parts[k]) by {
                assert(self.content@[k].wf());
            }
            lemma_joined_forest(parts);
            lemma_joined_fresh(parts);
            assert(out@.skip(1) =~= self.under());
        }
        seal(out)
    }
}

} // verus!
