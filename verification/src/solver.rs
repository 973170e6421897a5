//! The flex-box solver, as the library sees it.
//!
//! The solver is the `stretch` crate. The first part of this file is not
//! proved: each item there states what the library takes on trust about
//! `stretch`, in terms of a few names for what a solver instance holds. The
//! second part is [`Solver`], the instance that the library owns: it alone
//! reaches the instance, so it knows every node in it and counts every
//! handle taken.

use crate::style::{AlignContent, Dimension, FlexDirection, JustifyContent, Size, NodeStyle};
use stretch::node::{Node, Stretch};
use stretch::Error;
use vstd::prelude::*;

verus! {

/// `stretch::node::Stretch`: one solver instance, a forest of styled nodes.
#[verifier::external_type_specification]
#[verifier::external_body]
pub struct ExStretch(Stretch);

/// `stretch::node::Node`: the solver's handle for one of its nodes.
#[verifier::external_type_specification]
#[verifier::external_body]
pub struct ExNode(Node);

/// `stretch::Error`: why the solver refused a call.
#[verifier::external_type_specification]
#[verifier::external_body]
pub struct ExError(Error);

/// `stretch::style::Style`: the solver's own style record. The library only
/// builds one from a [`NodeStyle`] on the way into `Stretch::new_node`.
#[verifier::external_type_specification]
#[verifier::external_body]
pub struct ExStyle(stretch::style::Style);

/// What a solver instance holds for one node: the style it was created with,
/// its children in order, and whether it measures itself by a function of
/// the caller's.
pub struct SolverNode {
    pub style: NodeStyle,
    pub children: Seq<Node>,
    pub measured: bool,
}

/// The box of one node: its position relative to its parent's box, and its
/// size, in whole points.
#[derive(Clone, Copy, Debug, PartialEq, Eq)]
pub struct NodeBox {
    pub x: i32,
    pub y: i32,
    pub width: i32,
    pub height: i32,
}

/// The space that a tree is laid out in. `None` leaves that axis to the
/// content.
#[derive(Clone, Copy, Debug, PartialEq, Eq)]
pub struct Viewport {
    pub width: Option<u16>,
    pub height: Option<u16>,
}

/// The nodes of a solver instance: for each live handle, what
/// `Stretch::style` and `Stretch::children` report for it, and whether the
/// node was given a measure function.
pub uninterp spec fn solver_nodes(engine: Stretch) -> Map<Node, SolverNode>;

/// The boxes of a solver instance: for each live handle, what
/// `Stretch::layout` reports for it, in whole points.
pub uninterp spec fn solver_boxes(engine: Stretch) -> Map<Node, NodeBox>;

/// The number of handles that a solver instance has numbered so far. Every
/// call that makes a node numbers one, whether or not it succeeds.
pub uninterp spec fn solver_issued(engine: Stretch) -> nat;

/// The boxes that `Stretch::compute_layout` leaves in an instance without
/// measure functions when it lays out the tree under `root` in `viewport`.
pub uninterp spec fn solver_answer(engine: Stretch, root: Node, viewport: Viewport) -> Map<
    Node,
    NodeBox,
>;

/// No node of `nodes` measures itself by a function of the caller's.
pub open spec fn unmeasured(nodes: Map<Node, SolverNode>) -> bool {
    forall|n: Node| #[trigger] nodes.contains_key(n) ==> !nodes[n].measured
}

/// Under `rank`, every node stands above each of its children, and the
/// children are nodes themselves.
pub open spec fn ranked(nodes: Map<Node, SolverNode>, rank: Map<Node, nat>) -> bool {
    forall|n: Node, i: int|
        #![trigger nodes[n].children[i]]
        nodes.contains_key(n) && 0 <= i < nodes[n].children.len() ==> nodes.contains_key(
            nodes[n].children[i],
        ) && rank[nodes[n].children[i]] < rank[n]
}

/// No node of `nodes` is its own descendant: the nodes can be ranked.
pub open spec fn acyclic(nodes: Map<Node, SolverNode>) -> bool {
    exists|rank: Map<Node, nat>| ranked(nodes, rank)
}

/// `Stretch::new`: an instance without nodes that has numbered no handle.
///
/// The solver also numbers its instances, in a counter that the whole
/// process shares. Nothing here can speak of that counter: it moves with
/// every instance that any part of the process makes or drops.
#[verifier::external_body]
fn stretch_new() -> (engine: Stretch)
    ensures
        forall|n: Node| !solver_nodes(engine).contains_key(n),
        solver_issued(engine) == 0,
{
    Stretch::new()
}

/// `base` with the three sizes of `style`, length by length: `Undefined`,
/// `Auto` and `Points` become the solver's variants of the same names.
#[verifier::external_body]
fn with_sizes(base: stretch::style::Style, style: &NodeStyle) -> stretch::style::Style {
    let dim = |d: Dimension| match d {
        Dimension::Undefined => stretch::style::Dimension::Undefined,
        Dimension::Auto => stretch::style::Dimension::Auto,
        Dimension::Points(p) => stretch::style::Dimension::Points(p.into()),
    };
    let size = |s: Size| stretch::geometry::Size { width: dim(s.width), height: dim(s.height) };
    stretch::style::Style {
        size: size(style.size),
        min_size: size(style.min_size),
        max_size: size(style.max_size),
        ..base
    }
}

/// `base` with the solver's justification of the same name as `justify`.
#[verifier::external_body]
fn with_justify(base: stretch::style::Style, justify: JustifyContent) -> stretch::style::Style {
    let justify_content = match justify {
        JustifyContent::FlexStart => stretch::style::JustifyContent::FlexStart,
        JustifyContent::FlexEnd => stretch::style::JustifyContent::FlexEnd,
        JustifyContent::Center => stretch::style::JustifyContent::Center,
        JustifyContent::SpaceBetween => stretch::style::JustifyContent::SpaceBetween,
        JustifyContent::SpaceAround => stretch::style::JustifyContent::SpaceAround,
        JustifyContent::SpaceEvenly => stretch::style::JustifyContent::SpaceEvenly,
    };
    stretch::style::Style { justify_content, ..base }
}

/// `base` with the solver's line alignment of the same name as `align`.
#[verifier::external_body]
fn with_align(base: stretch::style::Style, align: AlignContent) -> stretch::style::Style {
    let align_content = match align {
        AlignContent::FlexStart => stretch::style::AlignContent::FlexStart,
        AlignContent::FlexEnd => stretch::style::AlignContent::FlexEnd,
        AlignContent::Center => stretch::style::AlignContent::Center,
        AlignContent::Stretch => stretch::style::AlignContent::Stretch,
        AlignContent::SpaceBetween => stretch::style::AlignContent::SpaceBetween,
        AlignContent::SpaceAround => stretch::style::AlignContent::SpaceAround,
    };
    stretch::style::Style { align_content, ..base }
}

/// `Stretch::new_node`, with `style` converted field by field and every other
/// field of the solver's style at its default. The call numbers one handle,
/// in a 32-bit counter, before it looks at the children. It succeeds exactly
/// when every child is a live node of this instance. It then returns a handle
/// that was not live before and records the style and the children under it,
/// without a measure function; no other node changes, and none at all when
/// it fails.
#[verifier::external_body]
fn stretch_new_node(engine: &mut Stretch, style: &NodeStyle, children: Vec<Node>) -> (created:
    Result<Node, Error>)
    requires
        solver_issued(*old(engine)) < 0xFFFF_FFFF,
    ensures
        solver_issued(*final(engine)) <= solver_issued(*old(engine)) + 1,
        created is Ok <==> forall|i: int|
            0 <= i < children@.len() ==> solver_nodes(*old(engine)).contains_key(
                #[trigger] children@[i],
            ),
        created matches Ok(node) ==> {
            &&& !solver_nodes(*old(engine)).contains_key(node)
            &&& solver_nodes(*final(engine)) == solver_nodes(*old(engine)).insert(
                node,
                SolverNode { style: *style, children: children@, measured: false },
            )
        },
        created is Err ==> solver_nodes(*final(engine)) == solver_nodes(*old(engine)),
{
    let base = stretch::style::Style {
        flex_direction: match style.flex_direction {
            FlexDirection::Row => stretch::style::FlexDirection::Row,
            FlexDirection::Column => stretch::style::FlexDirection::Column,
        },
        flex_grow: style.flex_grow.into(),
        ..Default::default()
    };
    let sized = with_sizes(base, style);
    let converted = with_align(with_justify(sized, style.justify_content), style.align_content);
    engine.new_node(converted, children)
}

/// `Stretch::compute_layout` on an instance without measure functions in
/// which no node is its own descendant, so that the solver's descent ends:
/// lays out the tree under `root` in `viewport`. It succeeds exactly when
/// `root` is a live node of this instance. It makes no node, and changes no node's
/// style or children. When it succeeds, the boxes are the solver's answer
/// for this instance, this root and this viewport, and the box of `root` is
/// at the origin.
#[verifier::external_body]
fn stretch_compute_layout(engine: &mut Stretch, root: Node, viewport: Viewport) -> (solved:
    Result<(), Error>)
    requires
        unmeasured(solver_nodes(*old(engine))),
        acyclic(solver_nodes(*old(engine))),
    ensures
        solved is Ok <==> solver_nodes(*old(engine)).contains_key(root),
        solver_nodes(*final(engine)) == solver_nodes(*old(engine)),
        solver_issued(*final(engine)) == solver_issued(*old(engine)),
        solved is Ok ==> {
            &&& solver_boxes(*final(engine)) == solver_answer(*old(engine), root, viewport)
            &&& solver_boxes(*final(engine))[root].x == 0
            &&& solver_boxes(*final(engine))[root].y == 0
        },
{
    let number = |points: Option<u16>| match points {
        Some(p) => stretch::number::Number::Defined(p.into()),
        None => stretch::number::Number::Undefined,
    };
    let size = stretch::geometry::Size {
        width: number(viewport.width),
        height: number(viewport.height),
    };
    engine.compute_layout(root, size)
}

/// `Stretch::layout`: the box of `node`, each number cut to a whole point. It
/// succeeds exactly when `node` is a live node of this instance.
#[verifier::external_body]
fn stretch_layout(engine: &Stretch, node: Node) -> (found: Result<NodeBox, Error>)
    ensures
        found is Ok <==> solver_nodes(*engine).contains_key(node),
        found matches Ok(b) ==> b == solver_boxes(*engine)[node],
{
    engine.layout(node).map(
        |l| NodeBox {
            x: l.location.x as i32,
            y: l.location.y as i32,
            width: l.size.width as i32,
            height: l.size.height as i32,
        },
    )
}

/// The solver instance of the library. Nothing but the library makes nodes in
/// it, so no node of it has a measure function, every node was made after
/// its children, and the library knows how many handles the instance has
/// numbered.
pub struct Solver {
    engine: Stretch,
    issued: u32,
    /// For each node, the count at which it was made.
    made_at: Ghost<Map<Node, nat>>,
}

impl Solver {
    /// The nodes of the instance: for each live handle, its style and its
    /// children.
    pub closed spec fn nodes(&self) -> Map<Node, SolverNode> {
        solver_nodes(self.engine)
    }

    /// The boxes of the instance: for each live handle, the box that the
    /// last layout gave it.
    pub closed spec fn boxes(&self) -> Map<Node, NodeBox> {
        solver_boxes(self.engine)
    }

    /// The boxes that the instance has after it lays out the tree under
    /// `root` in `viewport`.
    pub closed spec fn answer(&self, root: Node, viewport: Viewport) -> Map<Node, NodeBox> {
        solver_answer(self.engine, root, viewport)
    }

    /// The number of handles accounted for so far: one for every node that
    /// the instance was asked to make.
    pub closed spec fn issued(&self) -> nat {
        self.issued as nat
    }

    /// The count covers every handle that the instance has numbered, no node
    /// has a measure function, and every node was made after its children.
    pub closed spec fn wf(&self) -> bool {
        &&& solver_issued(self.engine) <= self.issued
        &&& unmeasured(solver_nodes(self.engine))
        &&& ranked(solver_nodes(self.engine), self.made_at@)
        &&& forall|n: Node| #[trigger]
            solver_nodes(self.engine).contains_key(n) ==> self.made_at@[n] < self.issued
    }

    /// A new instance: no node, no handle numbered.
    pub fn new() -> (solver: Solver)
        ensures
            solver.wf(),
            solver.issued() == 0,
            forall|n: Node| !solver.nodes().contains_key(n),
    {
        Solver { engine: stretch_new(), issued: 0, made_at: Ghost(Map::empty()) }
    }

    /// The number of nodes that the instance can still be asked to make.
    pub fn room(&self) -> (room: u32)
        ensures
            room == 0xFFFF_FFFF - self.issued(),
    {
        u32::MAX - self.issued
    }

    /// The instance itself, to read from.
    pub fn engine(&self) -> (engine: &Stretch)
        ensures
            solver_nodes(*engine) == self.nodes(),
            solver_boxes(*engine) == self.boxes(),
    {
        &self.engine
    }

    /// Makes a node with `style` and `children`. It succeeds exactly when
    /// every child is a live node of the instance. The node is new then, and
    /// nothing else in the instance changes; a refused call changes no node.
    /// Either way one more handle is accounted for.
    pub fn new_node(&mut self, style: &NodeStyle, children: Vec<Node>) -> (created: Result<
        Node,
        Error,
    >)
        requires
            old(self).wf(),
            old(self).issued() < 0xFFFF_FFFF,
        ensures
            final(self).wf(),
            final(self).issued() == old(self).issued() + 1,
            created is Ok <==> forall|i: int|
                0 <= i < children@.len() ==> old(self).nodes().contains_key(
                    #[trigger] children@[i],
                ),
            created matches Ok(node) ==> {
                &&& !old(self).nodes().contains_key(node)
                &&& final(self).nodes() == old(self).nodes().insert(
                    node,
                    SolverNode { style: *style, children: children@, measured: false },
                )
            },
            created is Err ==> final(self).nodes() == old(self).nodes(),
    {
        let ghost before = solver_nodes(self.engine);
        let ghost at = self.issued as nat;
        let ghost list = children@;
        self.issued = self.issued + 1;
        let created = stretch_new_node(&mut self.engine, style, children);
        if let Ok(node) = created {
            self.made_at = Ghost(self.made_at@.insert(node, at));
            proof {
                let nodes = solver_nodes(self.engine);
                let rank = self.made_at@;
                assert forall|n: Node, i: int|
                    #![trigger nodes[n].children[i]]
                    nodes.contains_key(n) && 0 <= i < nodes[n].children.len()
                    implies nodes.contains_key(nodes[n].children[i])
                    && rank[nodes[n].children[i]] < rank[n] by {
                    if n == node {
                        assert(before.contains_key(list[i]));
                    } else {
                        assert(before.contains_key(before[n].children[i]));
                    }
                }
            }
        }
        created
    }

    /// Lays out the tree under `root` in `viewport`. It succeeds exactly when
    /// `root` is a live node of the instance, and then leaves the solver's
    /// answer for this root and this viewport as the boxes, the box of
    /// `root` at the origin. No node changes, and none is made.
    pub fn compute_layout(&mut self, root: Node, viewport: Viewport) -> (solved: Result<
        (),
        Error,
    >)
        requires
            old(self).wf(),
        ensures
            final(self).wf(),
            final(self).issued() == old(self).issued(),
            final(self).nodes() == old(self).nodes(),
            solved is Ok <==> old(self).nodes().contains_key(root),
            solved is Ok ==> {
                &&& final(self).boxes() == old(self).answer(root, viewport)
                &&& final(self).boxes()[root].x == 0
                &&& final(self).boxes()[root].y == 0
            },
    {
        proof {
            assert(ranked(solver_nodes(self.engine), self.made_at@));
        }
        stretch_compute_layout(&mut self.engine, root, viewport)
    }

    /// The box of `node`. It succeeds exactly when `node` is a live node of
    /// the instance.
    pub fn layout(&self, node: Node) -> (found: Result<NodeBox, Error>)
        ensures
            found is Ok <==> self.nodes().contains_key(node),
            found matches Ok(b) ==> b == self.boxes()[node],
    {
        stretch_layout(&self.engine, node)
    }
}

} // verus!
