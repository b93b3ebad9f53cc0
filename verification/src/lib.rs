//! Reflows HTML-flavoured markup: line breaks inside paragraphs are collapsed,
//! while blank lines, indentation, verbatim regions and block-level Markdown
//! constructs stay as they are.
//!
//! Everything works on bytes. Tag, quote and comment delimiters are ASCII, and
//! so is every byte the text reflow tests for, so UTF-8 text passes through
//! with its multi-byte characters untouched.

pub mod boundary;
pub mod bytes;
pub mod chunk;
pub mod comment;
pub mod content;
pub mod driver;
pub mod idempotence;
pub mod line;
pub mod markdown;
pub mod mode;
pub mod names;
pub mod plain;
pub mod standalone;
pub mod tag;
pub mod verbatim;
