//! Streaming, delimiter-based byte splitter.
//!
//! Given an input byte sequence and a non-empty multi-byte separator, the
//! splitter lazily produces the byte runs between separator occurrences.
//! Each run is labeled `Prefix` (before the first separator), `FullMatch`
//! (strictly between two separators) or `Suffix` (after the last separator,
//! or the whole input when the separator never occurs).  No input byte is
//! ever duplicated, dropped or reordered: eliding the consumed separator
//! occurrences, the runs reconstruct the input exactly.

pub mod model;
pub mod splitter;

pub use splitter::ByteStreamSplitter;
pub use splitter::SplitError;
pub use splitter::SplitType;
