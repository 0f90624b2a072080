//! Directory analysis with size attribution.
//!
//! The crate records, for the files below a root directory, their size and
//! identity subject to depth, count and size limits, and turns the flat list
//! of records into a size tree in the bundler "metafile" shape.
//!
//! The crate itself performs no file-system access. A traversal is a state
//! machine: it names the next file-system request, the caller performs it and
//! hands the reply back. All decisions (limits, ignore patterns, cycle and
//! duplicate detection, aggregation) are taken here.
//!
//! - [`config`]: the limits and filters of an analysis.
//! - [`fs`]: the plain values that stand for the file system, and the
//!   requests and replies of a traversal.
//! - [`link_handler`], [`walker`], [`processor`], [`collector`]: the guard
//!   against cycles and duplicates, the listing of directories, the
//!   classification of paths, and the aggregation of what is found.
//! - [`traversal`]: the state machine, its two strategies, and what holds of
//!   every traversal.
//! - [`analyzer`]: records, results, and an analysis from start to end.
//! - [`output`]: the size tree, the metafile and the text report.
//! - [`text`], [`bag`]: operations on text, and lists as collections without
//!   order.

pub mod analyzer;
pub mod bag;
pub mod collector;
pub mod config;
pub mod error;
pub mod fs;
pub mod link_handler;
pub mod output;
pub mod processor;
pub mod text;
pub mod traversal;
pub mod walker;

pub use analyzer::{AnalysisResult, FileAnalyzer, FileEntry};
pub use config::{AnalyzerConfig, TraversalStrategy};
pub use error::AnalyzerError;
pub use output::OutputFormat;
