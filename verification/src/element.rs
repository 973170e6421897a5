//! The elements of a layout tree and the form in which a tree is stored.
//!
//! A tree is stored as the sequence of its elements in pre-order. Each entry
//! records its `span`, the number of elements in its subtree, itself
//! included: the subtree of the entry at `i` is the run of entries from `i`
//! up to `i + span`, and its first child, if it has one, is at `i + 1`.

use crate::alignment::{CrossAlignment, MainAlignment};
use crate::frame::Frame;
use crate::style::{Dimension, FlexDirection, NodeStyle, Size};
use stretch::node::Node;
use vstd::prelude::*;

verus! {

/// The paint of a view. Layout never reads it.
#[derive(Clone, Copy, Debug, PartialEq, Eq)]
pub enum Color {
    Red,
    Blue,
    Green,
    Write,
    Black,
    RGB(u32, u32, u32),
    /// Red, green, blue and opacity, the opacity from 0 to 255.
    RGBA(u32, u32, u32, u8),
}

/// The identity of an element towards the solver: whether the element only
/// arranges others or is itself drawn, and the solver node it was last
/// submitted as, if it ever was.
#[derive(Clone, Copy, Debug, PartialEq, Eq)]
pub enum NodeType {
    LayoutNode { n: Option<Node> },
    RenderNode { n: Option<Node> },
}

impl NodeType {
    /// The solver node, whichever the variant.
    pub open spec fn spec_node(&self) -> Option<Node> {
        match self {
            NodeType::LayoutNode { n } => *n,
            NodeType::RenderNode { n } => *n,
        }
    }

    /// The solver node, whichever the variant.
    #[verifier::when_used_as_spec(spec_node)]
    pub fn node(&self) -> (n: Option<Node>)
        ensures
            n == self.spec_node(),
    {
        match self {
            NodeType::LayoutNode { n } => *n,
            NodeType::RenderNode { n } => *n,
        }
    }
}

/// What an element is, apart from its place in the tree.
#[derive(Clone, Copy, Debug, PartialEq, Eq)]
pub enum ElementKind {
    /// A leaf of a fixed size.
    SizedBox { width: u16, height: u16 },
    /// A drawn element that fills the space it is given; it has at most one
    /// child.
    View { background_color: Color },
    /// A wrapper that constrains the size of its one child.
    Frame { frame: Frame },
    /// A container that places its children along `direction`.
    Stack {
        direction: FlexDirection,
        alignment: MainAlignment,
        cross: CrossAlignment,
        spacing: Option<u16>,
    },
}

impl ElementKind {
    /// Whether an element of this kind yields a rectangle.
    pub open spec fn renderable(self) -> bool {
        self is View
    }

    /// The rule that a stack whose alignment is distributive declares no
    /// spacing of its own. It holds of every other kind.
    pub open spec fn spacing_allowed(self) -> bool {
        match self {
            ElementKind::Stack { alignment, spacing, .. } => alignment.distributive() ==> spacing
                is None,
            _ => true,
        }
    }

    /// What the solver is told about the node of an element of this kind.
    pub fn node_style(&self) -> (style: NodeStyle)
        ensures
            style == self.style(),
    {
        let plain = NodeStyle::default();
        match self {
            ElementKind::SizedBox { width, height } => NodeStyle {
                size: Size {
                    width: Dimension::Points(*width),
                    height: Dimension::Points(*height),
                },
                ..plain
            },
            ElementKind::View { .. } => NodeStyle { flex_grow: 1, ..plain },
            ElementKind::Frame { frame } => NodeStyle {
                size: frame.size(),
                min_size: frame.min_size(),
                max_size: frame.max_size(),
                ..plain
            },
            ElementKind::Stack { direction, alignment, cross, .. } => NodeStyle {
                flex_direction: *direction,
                justify_content: alignment.convert_to_justify_content(),
                align_content: cross.convert_to_align_content(),
                ..plain
            },
        }
    }

    /// What the solver is told about the node of an element of this kind: a
    /// sized box has its exact size, a view grows to fill the space it is
    /// given, a frame carries its three sizes, and a stack its direction and
    /// the two alignments in the solver's terms.
    pub open spec fn style(self) -> NodeStyle {
        match self {
            ElementKind::SizedBox { width, height } => NodeStyle {
                size: Size { width: Dimension::Points(width), height: Dimension::Points(height) },
                ..NodeStyle::plain()
            },
            ElementKind::View { .. } => NodeStyle { flex_grow: 1, ..NodeStyle::plain() },
            ElementKind::Frame { frame } => frame.style(),
            ElementKind::Stack { direction, alignment, cross, .. } => NodeStyle {
                flex_direction: direction,
                justify_content: alignment.justify_content(),
                align_content: cross.align_content(),
                ..NodeStyle::plain()
            },
        }
    }
}

/// One element of a stored tree.
#[derive(Clone, Copy, Debug, PartialEq, Eq)]
pub struct Entry {
    pub kind: ElementKind,
    /// The number of elements in this element's subtree, itself included.
    pub span: usize,
    /// The index of the parent, once the tree has been wired.
    pub parent: Option<usize>,
    /// The solver node of the last successful submission.
    pub node: Option<Node>,
}

impl Entry {
    /// The entry of an element that has been neither wired nor submitted.
    pub open spec fn fresh(kind: ElementKind, span: usize) -> Entry {
        Entry { kind, span, parent: None, node: None }
    }

    pub open spec fn node_type(self) -> NodeType {
        if self.kind.renderable() {
            NodeType::RenderNode { n: self.node }
        } else {
            NodeType::LayoutNode { n: self.node }
        }
    }
}

/// Every subtree lies within the sequence, and within every subtree that
/// holds its first element.
pub open spec fn nested(s: Seq<Entry>) -> bool {
    &&& forall|i: int| 0 <= i < s.len() ==> 1 <= (#[trigger] s[i]).span && i + s[i].span <= s.len()
    &&& forall|i: int, j: int|
        0 <= i < j < s.len() && j < i + (#[trigger] s[i]).span ==> j + (#[trigger] s[j]).span <= i
            + s[i].span
}

/// The number of children that the kind of the element at `i` admits: a sized
/// box has none, a view at most one, a frame exactly one.
pub open spec fn arity_ok(s: Seq<Entry>, i: int) -> bool {
    match s[i].kind {
        ElementKind::SizedBox { .. } => s[i].span == 1,
        ElementKind::View { .. } => s[i].span == 1 || (i + 1 < s.len() && s[i].span == 1 + s[i
            + 1].span),
        ElementKind::Frame { .. } => i + 1 < s.len() && s[i].span == 1 + s[i + 1].span,
        ElementKind::Stack { .. } => true,
    }
}

/// A sequence of whole trees, one after the other.
pub open spec fn is_forest(s: Seq<Entry>) -> bool {
    &&& nested(s)
    &&& forall|i: int| 0 <= i < s.len() ==> #[trigger] arity_ok(s, i)
}

/// One whole tree: a forest whose first element spans all of it.
pub open spec fn is_tree(s: Seq<Entry>) -> bool {
    &&& is_forest(s)
    &&& s.len() >= 1
    &&& s[0].span == s.len()
}

/// No element has been wired or submitted.
pub open spec fn is_fresh(s: Seq<Entry>) -> bool {
    forall|i: int| 0 <= i < s.len() ==> (#[trigger] s[i]).parent is None && s[i].node is None
}

/// Every stack from `from` up to `upto` obeys the spacing rule.
pub open spec fn spacing_within(s: Seq<Entry>, from: int, upto: int) -> bool {
    forall|i: int| from <= i < upto ==> (#[trigger] s[i]).kind.spacing_allowed()
}

/// Every stack of the sequence obeys the spacing rule.
pub open spec fn spacing_ok(s: Seq<Entry>) -> bool {
    spacing_within(s, 0, s.len() as int)
}

/// The children of the element whose subtree ends at `end`, from the child at
/// `j` on: `j`, then the element after the subtree of `j`, and so on.
pub open spec fn children_from(s: Seq<Entry>, j: int, end: int) -> Seq<int>
    decreases end - j,
{
    if 0 <= j < end && j < s.len() && 1 <= s[j].span <= end - j {
        seq![j] + children_from(s, j + s[j].span, end)
    } else {
        Seq::empty()
    }
}

/// The children of the element at `i`, in declared order.
pub open spec fn children_of(s: Seq<Entry>, i: int) -> Seq<int> {
    children_from(s, i + 1, i + s[i].span)
}

/// The nearest element at or before `i` whose subtree holds `j`, or -1.
pub open spec fn enclosing(s: Seq<Entry>, j: int, i: int) -> int
    decreases i + 1,
{
    if i < 0 || i >= s.len() {
        -1
    } else if j < i + s[i].span {
        i
    } else {
        enclosing(s, j, i - 1)
    }
}

/// The index of the parent of the element at `j`: the nearest earlier element
/// whose subtree holds it, or -1 for an element that has none.
pub open spec fn parent_index(s: Seq<Entry>, j: int) -> int {
    enclosing(s, j, j - 1)
}

impl Entry {
    /// The back-reference of this entry says that its parent is at `p`, or,
    /// with `p` negative, that it has none.
    pub open spec fn records_parent(self, p: int) -> bool {
        match self.parent {
            Some(q) => q == p,
            None => p < 0,
        }
    }
}

/// Every element records its parent.
pub open spec fn is_wired(s: Seq<Entry>) -> bool {
    forall|j: int| 0 <= j < s.len() ==> (#[trigger] s[j]).records_parent(parent_index(s, j))
}

/// The same tree, whatever the solver nodes: kinds, spans and parents agree.
pub open spec fn same_shape(a: Seq<Entry>, b: Seq<Entry>) -> bool {
    &&& a.len() == b.len()
    &&& forall|i: int|
        0 <= i < a.len() ==> (#[trigger] a[i]).kind == b[i].kind && a[i].span == b[i].span
            && a[i].parent == b[i].parent
}

/// The same elements in the same arrangement: kinds and spans agree.
pub open spec fn same_spans_and_kinds(a: Seq<Entry>, b: Seq<Entry>) -> bool {
    &&& a.len() == b.len()
    &&& forall|i: int|
        0 <= i < a.len() ==> (#[trigger] a[i]).kind == b[i].kind && a[i].span == b[i].span
}

/// A tree in stored form, ready to be wrapped or rooted.
pub struct Element {
    pub(crate) entries: Vec<Entry>,
}

impl View for Element {
    type V = Seq<Entry>;

    closed spec fn view(&self) -> Seq<Entry> {
        self.entries@
    }
}

impl Element {
    /// One whole tree that has been neither wired nor submitted.
    pub open spec fn wf(&self) -> bool {
        is_tree(self@) && is_fresh(self@)
    }

    pub(crate) fn from_entries(entries: Vec<Entry>) -> (element: Element)
        ensures
            element@ == entries@,
    {
        Element { entries }
    }

    pub(crate) fn into_entries(self) -> (entries: Vec<Entry>)
        ensures
            entries@ == self@,
    {
        self.entries
    }

    /// The number of elements in the tree.
    pub fn len(&self) -> (n: usize)
        ensures
            n == self@.len(),
    {
        self.entries.len()
    }

    /// The entry of the element at `i` in pre-order.
    pub fn entry(&self, i: usize) -> (e: Entry)
        requires
            i < self@.len(),
        ensures
            e == self@[i as int],
    {
        self.entries[i]
    }
}

} // verus!
