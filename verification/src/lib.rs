//! A modal text editor core: rows of text, a cursor, the Normal / Insert /
//! Command modes, the viewport that follows the cursor, and the tables of
//! the plugins that scripts define.

pub mod editor;
pub mod laws;
pub mod plugin;
pub mod render;
pub mod text;
