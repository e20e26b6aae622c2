//! The core of an editor's structural features.
//!
//! - `tree`, `parsed`, `layer`, `syntax`, `injection`: the parse trees of a
//!   document, one per language layer, and the store that holds them.
//! - `tree_cursor`: a cursor that walks the trees of all layers as one tree.
//! - `selection`, `text`, `object`: selections of characters, their
//!   translation to bytes, and the operations that grow, shrink and move a
//!   selection along the syntax.
//! - `laws`: what holds of the navigation and of the operations in general.
//! - `copilot_picker`: stepping through the completions that were offered.
//! - `explorer`: the state and the key bindings of the file explorer.

pub mod copilot_picker;
pub mod explorer;
pub mod injection;
pub mod laws;
pub mod layer;
pub mod object;
pub mod parsed;
pub mod selection;
pub mod syntax;
pub mod text;
pub mod tree;
pub mod tree_cursor;
