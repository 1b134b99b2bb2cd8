//! Resolves chapter references written as `{{#path_for <name>}}` or
//! `{{#path_for <name>#<anchor>}}` inside the chapters of a book into
//! site-relative links.
//!
//! The work is done in two steps. First a lookup table from lowercased
//! chapter name to the chapter's file path is built from the book. Then the
//! text of every chapter is rewritten: each placeholder is replaced by the
//! site path, the path of the chapter it names and the anchor, if it gives
//! one, while everything around the placeholders is kept as it is.

pub mod book;
pub mod error;
pub mod index;
pub mod laws;
pub mod link;
pub mod processor;
pub mod resolve;
pub mod scan;
pub mod text;

pub use crate::book::{Book, BookItem, Chapter, Config};
pub use crate::error::ProcessorError;
pub use crate::index::NameIndex;
pub use crate::link::FileLink;
pub use crate::processor::{PathProcessor, PathProcessorOptions};
pub use crate::scan::Capture;
