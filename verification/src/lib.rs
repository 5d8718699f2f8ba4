//! Renders the result of diffing two Typst documents as a Typst document in
//! which added text is underlined and deleted text struck through.
use vstd::prelude::*;

pub mod backslash_laws;
pub mod escape;
pub mod escape_laws;
pub mod label;
pub mod model;
pub mod output_laws;
pub mod render;
pub mod render_laws;
pub mod spans_laws;
pub mod stray_laws;
pub mod text;

pub use model::{Block, BlockKind, DiffResult, DiffSpan, SpanTag};

verus! {

} // verus!
