//! A declarative layout-tree compiler.
//!
//! A caller describes a user interface as a tree of stacks, frames, fixed-size
//! boxes and views. [`root::RootView`] numbers the tree, hands it to a flex-box
//! solver node by node, and turns the solver's parent-relative boxes into one
//! absolute rectangle per view. The solver is a [`solver::Solver`], which the
//! caller makes and lends to every pass.

pub mod alignment;
pub mod style;
pub mod frame;
pub mod element;
pub mod shape;
pub mod content;
pub mod sized_box;
pub mod view;
pub mod v_stack;
pub mod h_stack;
pub mod solver;
pub mod root;
pub mod submit;
pub mod resolve;
pub mod laws;
