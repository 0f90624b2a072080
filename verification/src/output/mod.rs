//! Output formats.

use vstd::prelude::*;
use crate::analyzer::AnalysisResult;
use crate::error::AnalyzerError;

pub mod laws;
pub mod metafile;
pub mod text;
pub mod tree;

pub use metafile::MetafileFormatter;
pub use text::TextFormatter;

verus! {

/// A way to turn a result into text.
pub trait OutputFormatter {
    fn format(&self, result: &AnalysisResult) -> Result<String, AnalyzerError>;
}

/// The formats in which a result can be written.
#[derive(Debug, Clone, Copy, PartialEq, Eq)]
pub enum OutputFormat {
    Text,
    Json,
    Metafile,
}

} // verus!
