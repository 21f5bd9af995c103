//! Verified core of a tree-structured tiling/canvas Wayland compositor.
//!
//! The window tree, its invariants and every decision the compositor makes on
//! plain values live here; the Wayland plumbing, rendering and floating-point
//! geometry live in the application crate.
pub mod state;
pub mod tree;
pub mod tree_wf;
pub mod ancestry;
pub mod nav;
pub mod input;
pub mod layout;
pub mod widths;
pub mod views;
pub mod names;
