//! Frame constraints, the six optional lengths that a frame imposes on what
//! it wraps, and the wrapper that carries them.

use crate::content::{open_tree, push_tree, seal, Content};
use crate::element::{Element, ElementKind, Entry, NodeType};
use crate::style::{Dimension, NodeStyle, Size};
use vstd::prelude::*;

verus! {

/// Six lengths, each either unconstrained or exactly so many points.
#[derive(Clone, Copy, Debug, PartialEq, Eq)]
pub struct Frame {
    pub width: Option<u16>,
    pub min_width: Option<u16>,
    pub max_width: Option<u16>,
    pub height: Option<u16>,
    pub min_height: Option<u16>,
    pub max_height: Option<u16>,
}

/// The solver's length for an optional number of points: an absent one is
/// undefined, never zero.
pub open spec fn dimension_of(value: Option<u16>) -> Dimension {
    match value {
        Some(points) => Dimension::Points(points),
        None => Dimension::Undefined,
    }
}

pub fn convert_options(value: Option<u16>) -> (dimension: Dimension)
    ensures
        dimension == dimension_of(value),
{
    if let Some(v) = value {
        Dimension::Points(v)
    } else {
        Dimension::Undefined
    }
}

impl Frame {
    /// The frame that constrains nothing.
    pub open spec fn unconstrained() -> Frame {
        Frame {
            width: None,
            min_width: None,
            max_width: None,
            height: None,
            min_height: None,
            max_height: None,
        }
    }

    pub open spec fn spec_size(&self) -> Size {
        Size { width: dimension_of(self.width), height: dimension_of(self.height) }
    }

    pub open spec fn spec_min_size(&self) -> Size {
        Size { width: dimension_of(self.min_width), height: dimension_of(self.min_height) }
    }

    pub open spec fn spec_max_size(&self) -> Size {
        Size { width: dimension_of(self.max_width), height: dimension_of(self.max_height) }
    }

    /// What the solver is told about a node that carries this frame: the
    /// three sizes, and nothing else.
    pub open spec fn style(self) -> NodeStyle {
        NodeStyle {
            size: self.spec_size(),
            min_size: self.spec_min_size(),
            max_size: self.spec_max_size(),
            ..NodeStyle::plain()
        }
    }

    pub fn width(self, value: Option<u16>) -> (frame: Frame)
        ensures
            frame == (Frame { width: value, ..self }),
    {
        Frame { width: value, ..self }
    }

    pub fn min_width(self, value: Option<u16>) -> (frame: Frame)
        ensures
            frame == (Frame { min_width: value, ..self }),
    {
        Frame { min_width: value, ..self }
    }

    pub fn max_width(self, value: Option<u16>) -> (frame: Frame)
        ensures
            frame == (Frame { max_width: value, ..self }),
    {
        Frame { max_width: value, ..self }
    }

    pub fn height(self, value: Option<u16>) -> (frame: Frame)
        ensures
            frame == (Frame { height: value, ..self }),
    {
        Frame { height: value, ..self }
    }

    pub fn min_height(self, value: Option<u16>) -> (frame: Frame)
        ensures
            frame == (Frame { min_height: value, ..self }),
    {
        Frame { min_height: value, ..self }
    }

    pub fn max_height(self, value: Option<u16>) -> (frame: Frame)
        ensures
            frame == (Frame { max_height: value, ..self }),
    {
        Frame { max_height: value, ..self }
    }

    #[verifier::when_used_as_spec(spec_size)]
    pub fn size(&self) -> (size: Size)
        ensures
            size == self.spec_size(),
    {
        let width = convert_options(self.width);
        let height = convert_options(self.height);
        Size { width, height }
    }

    #[verifier::when_used_as_spec(spec_min_size)]
    pub fn min_size(&self) -> (size: Size)
        ensures
            size == self.spec_min_size(),
    {
        let width = convert_options(self.min_width);
        let height = convert_options(self.min_height);
        Size { width, height }
    }

    #[verifier::when_used_as_spec(spec_max_size)]
    pub fn max_size(&self) -> (size: Size)
        ensures
            size == self.spec_max_size(),
    {
        let width = convert_options(self.max_width);
        let height = convert_options(self.max_height);
        Size { width, height }
    }
}

impl Default for Frame {
    fn default() -> (frame: Frame)
        ensures
            frame == Frame::unconstrained(),
    {
        Frame {
            width: None,
            min_width: None,
            max_width: None,
            height: None,
            min_height: None,
            max_height: None,
        }
    }
}

/// A frame around one element: it constrains the size of what it wraps and
/// is not drawn itself.
pub struct FrameWrapper {
    pub frame: Frame,
    pub content: Element,
}

impl FrameWrapper {
    pub fn new(content: Element) -> (wrapper: FrameWrapper)
        ensures
            wrapper.frame == Frame::unconstrained(),
            wrapper.content == content,
    {
        FrameWrapper { frame: Frame::default(), content }
    }

    /// The same wrapper with exactly this width.
    pub fn width(self, width: u16) -> (wrapper: FrameWrapper)
        ensures
            wrapper.frame == (Frame { width: Some(width), ..self.frame }),
            wrapper.content == self.content,
    {
        let mut wrapper = self;
        wrapper.frame.width = Some(width);
        wrapper
    }

    /// The same wrapper with exactly this height.
    pub fn height(self, height: u16) -> (wrapper: FrameWrapper)
        ensures
            wrapper.frame == (Frame { height: Some(height), ..self.frame }),
            wrapper.content == self.content,
    {
        let mut wrapper = self;
        wrapper.frame.height = Some(height);
        wrapper
    }

    /// The same wrapper with exactly this width and height and no other
    /// constraint.
    pub fn absolute(self, width: u16, height: u16) -> (wrapper: FrameWrapper)
        ensures
            wrapper.frame == (Frame {
                width: Some(width),
                height: Some(height),
                ..Frame::unconstrained()
            }),
            wrapper.content == self.content,
    {
        let mut wrapper = self;
        wrapper.frame = Frame::default().width(Some(width)).height(Some(height));
        wrapper
    }

    /// The same wrapper with this width and height, each of them optional,
    /// and no other constraint.
    pub fn option(self, width: Option<u16>, height: Option<u16>) -> (wrapper: FrameWrapper)
        ensures
            wrapper.frame == (Frame { width, height, ..Frame::unconstrained() }),
            wrapper.content == self.content,
    {
        let mut wrapper = self;
        wrapper.frame = Frame::default().width(width).height(height);
        wrapper
    }
}

impl Content for FrameWrapper {
    open spec fn wf(&self) -> bool {
        self.content.wf()
    }

    open spec fn kind(&self) -> ElementKind {
        ElementKind::Frame { frame: self.frame }
    }

    open spec fn under(&self) -> Seq<Entry> {
        self.content@
    }

    open spec fn identity(&self) -> NodeType {
        NodeType::LayoutNode { n: None }
    }

    fn content_type(&self) -> (identity: NodeType) {
        NodeType::LayoutNode { n: None }
    }

    fn into_element(self) -> (element: Element) {
        let mut out = open_tree(ElementKind::Frame { frame: self.frame });
        push_tree(&mut out, &self.content);
        proof {
            assert(out@.skip(1) =~= self.content@);
        }
        seal(out)
    }
}

} // verus!
