//! Text-editor logic for a markdown note editor: markdown parsing into
//! per-line render data, the cursor/click column mappings of the
//! sigil-concealing renderer, block-opener shape detection, markdown-aware
//! edit decisions, indentation, find-and-replace with its find bar, and the
//! embedded neovim's state decoding and key decisions.
use vstd::prelude::*;

pub mod text;
pub mod markdown;
pub mod editor;
pub mod indent;
pub mod markdown_edits;
pub mod nvim;
pub mod find_replace;
pub mod find_bar;

verus! {
} // verus!
