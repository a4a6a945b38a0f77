//! An in-memory inverted index: a mapping from normalised word tokens to the
//! set of documents that contain them.
//!
//! A document is indexed by cutting its lines into contiguous ranges, one per
//! worker, collecting each range's tokens on its own, and merging every
//! range's partial result into the shared index.
pub mod error;
pub mod index;
pub mod partition;
pub mod text;

pub use error::IndexError;
pub use index::{index_document_for_thread, InvertedIndex};
pub use partition::line_ranges;
pub use text::{document_lines, normalize};
