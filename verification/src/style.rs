//! The style descriptor that the library hands to the solver for each node.
//!
//! Lengths are whole points. An absent length is `Undefined` or `Auto`, never
//! zero.

use vstd::prelude::*;

verus! {

/// One length of a style: exactly so many points, or left to the solver.
#[derive(Clone, Copy, Debug, PartialEq, Eq)]
pub enum Dimension {
    /// No constraint was given.
    Undefined,
    /// The solver's default for a node that declares no size.
    Auto,
    /// Exactly this many points.
    Points(u16),
}

/// A width and a height.
#[derive(Clone, Copy, Debug, PartialEq, Eq)]
pub struct Size {
    pub width: Dimension,
    pub height: Dimension,
}

/// The axis along which a container places its children.
#[derive(Clone, Copy, Debug, PartialEq, Eq)]
pub enum FlexDirection {
    Row,
    Column,
}

/// How a container distributes its children along its main axis.
#[derive(Clone, Copy, Debug, PartialEq, Eq)]
pub enum JustifyContent {
    FlexStart,
    FlexEnd,
    Center,
    SpaceBetween,
    SpaceAround,
    SpaceEvenly,
}

/// How a container distributes its lines along its cross axis.
#[derive(Clone, Copy, Debug, PartialEq, Eq)]
pub enum AlignContent {
    FlexStart,
    FlexEnd,
    Center,
    Stretch,
    SpaceBetween,
    SpaceAround,
}

/// What the solver is told about one node.
#[derive(Clone, Copy, Debug, PartialEq, Eq)]
pub struct NodeStyle {
    pub flex_direction: FlexDirection,
    pub justify_content: JustifyContent,
    pub align_content: AlignContent,
    pub flex_grow: u8,
    pub size: Size,
    pub min_size: Size,
    pub max_size: Size,
}

impl Size {
    /// Both lengths left to the solver.
    pub open spec fn auto() -> Size {
        Size { width: Dimension::Auto, height: Dimension::Auto }
    }
}

impl NodeStyle {
    /// The style of a node that declares nothing: a row that starts at the
    /// leading edge, stretches its lines, does not grow and has no size
    /// constraint.
    pub open spec fn plain() -> NodeStyle {
        NodeStyle {
            flex_direction: FlexDirection::Row,
            justify_content: JustifyContent::FlexStart,
            align_content: AlignContent::Stretch,
            flex_grow: 0,
            size: Size::auto(),
            min_size: Size::auto(),
            max_size: Size::auto(),
        }
    }
}

impl Default for NodeStyle {
    fn default() -> (style: NodeStyle)
        ensures
            style == NodeStyle::plain(),
    {
        let auto = Size { width: Dimension::Auto, height: Dimension::Auto };
        NodeStyle {
            flex_direction: FlexDirection::Row,
            justify_content: JustifyContent::FlexStart,
            align_content: AlignContent::Stretch,
            flex_grow: 0,
            size: auto,
            min_size: auto,
            max_size: auto,
        }
    }
}

} // verus!
