//! Retrieval and post-processing of a hierarchical discussion: a root post
//! plus nested reply threads, fetched page by page from a JSON-over-HTTP API.
//!
//! The library decodes raw paginated JSON into a tree of comment nodes,
//! recognizes pagination stubs, merges concurrently fetched continuations
//! back into the tree, and filters and sorts the completed forest.  The
//! unverified binary around it performs the network and file I/O.

pub mod cli;
pub mod decode;
pub mod element;
pub mod filter;
pub mod jsonio;
pub mod merge;
pub mod output_writer;
pub mod sort;
pub mod strutil;
pub mod timefmt;

pub use element::Element;
