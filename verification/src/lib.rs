//! Substitution tilings: a rule set that replaces each tile by smaller tiles,
//! the engine that applies it generation by generation, the outline of the
//! result as one path, and the state of an editor for the rules.
//!
//! The geometry is `kurbo`'s and the screen coordinates are `egui`'s. Both
//! are called through the small trusted functions of `geometry` and `screen`;
//! everything else in the crate is verified against their contracts.

pub mod drag;
pub mod editor;
pub mod expansion;
pub mod geometry;
pub mod outline;
pub mod screen;
pub mod selection;
pub mod snap;
pub mod tiling;

pub use crate::editor::{Frame, Interaction, Tool, WindowState};
pub use crate::selection::Selection;
pub use crate::tiling::{Tile, TilePlacement, TilingRule, TilingStep};
