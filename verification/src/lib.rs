//! A small markup language: a parser from text to a document model, and two
//! compilers of that model, one to LaTeX and one to plain text.
//!
//! A text is a run of blocks with a blank line between them. A block that
//! starts with `#` is a heading, a block that starts with a list token is a
//! list, which nests by tabs, and any other block is a paragraph. Within a
//! paragraph or a list item, `*` opens and closes a bold span.

pub mod chars;
pub mod compiler;
pub mod format;
pub mod indent;
pub mod list;
pub mod numeral;
pub mod parse;
pub mod roundtrip;
pub mod token;

pub use crate::compiler::{CompileError, Compiler, IntoLatex, IntoPrintable};
pub use crate::parse::{parse, Document, ParseError, SyntaxError};
