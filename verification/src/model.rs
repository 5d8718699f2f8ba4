//! The diff results that the renderer turns into Typst source.
use vstd::prelude::*;

verus! {

/// A top-level block of a Typst document, with the source text it renders from.
#[derive(Debug, Clone)]
pub enum Block {
    /// A paragraph, kept as its source text.
    Paragraph { source_text: String },
    /// A heading of the given depth (`=` count) and its body text.
    Heading { depth: usize, body_text: String },
    /// A bullet list item (`- ...`).
    ListItem { body_text: String },
    /// A numbered list item: `+ ...` when `number` is `None`, `n. ...` otherwise.
    EnumItem { number: Option<usize>, body_text: String },
    /// A term list item (`/ term: description`).
    TermItem { term: String, description: String },
    /// A raw (code) block, kept verbatim.
    RawBlock { content: String },
    /// An equation, kept verbatim; `block` tells a display equation from an inline one.
    Equation { content: String, block: bool },
    /// A code-mode expression such as `#import` or `#show`, kept verbatim.
    FuncCall { content: String },
    /// A paragraph break.
    Parbreak,
}

/// The kind of a block whose text changed, without its text.
#[derive(Debug, Clone)]
pub enum BlockKind {
    Paragraph,
    Heading { depth: usize },
    ListItem,
    EnumItem { number: Option<usize> },
    TermItem,
    Atomic,
    Parbreak,
}

/// How a span of a modified block relates the old text to the new one.
#[derive(Debug, Clone, Copy, PartialEq, Eq, Structural)]
pub enum SpanTag {
    Equal,
    Deleted,
    Inserted,
}

/// A piece of a modified block's text with its diff tag.
#[derive(Debug, Clone)]
pub struct DiffSpan {
    pub tag: SpanTag,
    pub text: String,
}

/// The outcome of diffing one block of the old document against the new one.
#[derive(Debug, Clone)]
pub enum DiffResult {
    Unchanged(Block),
    Added(Block),
    Deleted(Block),
    Modified { kind: BlockKind, spans: Vec<DiffSpan> },
}

} // verus!
