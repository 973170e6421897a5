//! The alignment policies of a stack, and what the solver is told for each.

use crate::style::{AlignContent, JustifyContent};
use vstd::prelude::*;

verus! {

/// Where a stack puts its children along its own axis.
#[derive(Clone, Copy, Debug, PartialEq, Eq)]
pub enum MainAlignment {
    Leading,
    Center,
    Trailing,
    Between,
    Around,
    Evenly,
}

/// Where a stack puts its children across its axis.
#[derive(Clone, Copy, Debug, PartialEq, Eq)]
pub enum CrossAlignment {
    Leading,
    Center,
    Trailing,
    Stretch,
    Between,
    Around,
}

impl MainAlignment {
    /// The alignments under which the solver computes the gaps between
    /// children itself.
    pub open spec fn distributive(self) -> bool {
        self is Between || self is Around || self is Evenly
    }

    /// The solver's justification for this alignment.
    pub open spec fn justify_content(self) -> JustifyContent {
        match self {
            MainAlignment::Leading => JustifyContent::FlexStart,
            MainAlignment::Center => JustifyContent::Center,
            MainAlignment::Trailing => JustifyContent::FlexEnd,
            MainAlignment::Between => JustifyContent::SpaceBetween,
            MainAlignment::Around => JustifyContent::SpaceAround,
            MainAlignment::Evenly => JustifyContent::SpaceEvenly,
        }
    }

    /// Whether the solver distributes the space between children.
    pub fn is_special_space(&self) -> (special: bool)
        ensures
            special == self.distributive(),
    {
        match self {
            MainAlignment::Leading | MainAlignment::Center | MainAlignment::Trailing => false,
            MainAlignment::Between | MainAlignment::Around | MainAlignment::Evenly => true,
        }
    }

    pub fn convert_to_justify_content(&self) -> (justify: JustifyContent)
        ensures
            justify == self.justify_content(),
    {
        match self {
            MainAlignment::Leading => JustifyContent::FlexStart,
            MainAlignment::Center => JustifyContent::Center,
            MainAlignment::Trailing => JustifyContent::FlexEnd,
            MainAlignment::Between => JustifyContent::SpaceBetween,
            MainAlignment::Around => JustifyContent::SpaceAround,
            MainAlignment::Evenly => JustifyContent::SpaceEvenly,
        }
    }
}

impl CrossAlignment {
    /// The solver's line alignment for this alignment.
    pub open spec fn align_content(self) -> AlignContent {
        match self {
            CrossAlignment::Leading => AlignContent::FlexStart,
            CrossAlignment::Center => AlignContent::Center,
            CrossAlignment::Trailing => AlignContent::FlexEnd,
            CrossAlignment::Stretch => AlignContent::Stretch,
            CrossAlignment::Between => AlignContent::SpaceBetween,
            CrossAlignment::Around => AlignContent::SpaceAround,
        }
    }

    pub fn convert_to_align_content(&self) -> (align: AlignContent)
        ensures
            align == self.align_content(),
    {
        match self {
            CrossAlignment::Leading => AlignContent::FlexStart,
            CrossAlignment::Center => AlignContent::Center,
            CrossAlignment::Trailing => AlignContent::FlexEnd,
            CrossAlignment::Stretch => AlignContent::Stretch,
            CrossAlignment::Between => AlignContent::SpaceBetween,
            CrossAlignment::Around => AlignContent::SpaceAround,
        }
    }
}

} // verus!
