//! TerMa: the decision logic of a terminal manga/comic viewer.
//!
//! The library holds what the viewer decides: how pages pair into spreads,
//! how file names sort and which files count as pages, which page a saved
//! reading position points at, how input events map to navigation, and how
//! the renderer picks a display method. Reading the disk, talking to the
//! terminal and decoding images stay with the caller.

pub mod display;
pub mod text;
pub mod outside;
pub mod names;
pub mod image;
pub mod resume;
pub mod terminal;
pub mod renderer;
pub mod viewer;
pub mod chafa_render;
