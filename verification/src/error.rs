//! The errors of an analysis.

use vstd::prelude::*;
use crate::text::appended;

verus! {

/// `serde_json::Error`, as the encoder returns it. Proofs see nothing inside.
#[verifier::external_type_specification]
#[verifier::external_body]
pub struct ExJsonError(serde_json::Error);

/// What can go wrong. Only an invalid configuration stops an analysis;
/// failures of single file-system requests become warnings in its result.
#[derive(Debug)]
pub enum AnalyzerError {
    /// A file-system request failed; the text is the system's message.
    Io(String),
    InvalidConfig(String),
    PathError(String),
    ThreadPool(String),
    Serialization(serde_json::Error),
}

/// The text of `serde_json::Error` as its `Display` impl writes it. Nothing
/// is claimed of the text.
#[verifier::external_body]
fn json_error_text(error: &serde_json::Error) -> (text: String) {
    error.to_string()
}

impl AnalyzerError {
    /// The words in front of the detail in an error's message.
    pub open spec fn prefix(&self) -> Seq<char> {
        match self {
            AnalyzerError::Io(_) => "IO error: "@,
            AnalyzerError::InvalidConfig(_) => "Invalid configuration: "@,
            AnalyzerError::PathError(_) => "Path error: "@,
            AnalyzerError::ThreadPool(_) => "Thread pool error: "@,
            AnalyzerError::Serialization(_) => "Serialization error: "@,
        }
    }

    /// The detail that an error carries as text, if it carries one.
    pub open spec fn detail(&self) -> Option<Seq<char>> {
        match self {
            AnalyzerError::Io(m) => Some(m@),
            AnalyzerError::InvalidConfig(m) => Some(m@),
            AnalyzerError::PathError(m) => Some(m@),
            AnalyzerError::ThreadPool(m) => Some(m@),
            AnalyzerError::Serialization(_) => None,
        }
    }

    /// The message of the error: the prefix of its kind, then the detail. For
    /// a serialization error the detail is the encoder's own text.
    pub fn message(&self) -> (text: String)
        ensures
            text@.len() >= self.prefix().len(),
            text@.take(self.prefix().len() as int) == self.prefix(),
            self.detail() matches Some(d) ==> text@ == self.prefix() + d,
    {
        let text = match self {
            AnalyzerError::Io(m) => appended("IO error: ", m.as_str()),
            AnalyzerError::InvalidConfig(m) => appended("Invalid configuration: ", m.as_str()),
            AnalyzerError::PathError(m) => appended("Path error: ", m.as_str()),
            AnalyzerError::ThreadPool(m) => appended("Thread pool error: ", m.as_str()),
            AnalyzerError::Serialization(e) => {
                let detail = json_error_text(e);
                appended("Serialization error: ", detail.as_str())
            },
        };
        assert(text@.take(self.prefix().len() as int) =~= self.prefix());
        text
    }
}

impl From<serde_json::Error> for AnalyzerError {
    fn from(error: serde_json::Error) -> (e: AnalyzerError) {
        AnalyzerError::Serialization(error)
    }
}

impl vstd::std_specs::convert::FromSpecImpl<serde_json::Error> for AnalyzerError {
    open spec fn obeys_from_spec() -> bool {
        true
    }

    open spec fn from_spec(error: serde_json::Error) -> AnalyzerError {
        AnalyzerError::Serialization(error)
    }
}

} // verus!
