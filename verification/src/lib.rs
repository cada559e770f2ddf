//! An immediate-mode layout engine. A tree of elements, built with
//! `open_element` and `close_element`, is solved in one go and comes out as
//! a flat list of render commands with absolute boxes.
//!
//! The solver works on whole numbers: every length it computes is counted
//! in `SUBPIXELS` parts of a pixel.
//!
//! - `color`, `config`, `bitmap`, `element`: the values that describe an
//!   element.
//! - `tree`: the tree of elements and how it is built.
//! - `distribute`, `place`, `wrap`: what the solver does for the children
//!   of one element: share the free space, place them, and break text.
//! - `solver`: the same for a whole tree.
//! - `render`: the render commands and `end_layout`.
//! - `laws`: what holds of every layout.
//! - `vectors`: the values as `glam` vectors.

pub mod bitmap;
pub mod color;
pub mod config;
pub mod distribute;
pub mod element;
pub mod laws;
pub mod place;
pub mod render;
pub mod solver;
pub mod tree;
pub mod vectors;
pub mod wrap;
