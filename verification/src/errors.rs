//! The error taxonomy of the transform.
//!
//! Every fatal condition aborts a whole transform call with one of these
//! values; callers receive either a fully assembled document or an error,
//! never a partial one.

use vstd::prelude::*;

verus! {

/// An error raised while transforming a document.
///
/// Name and parameter payloads are carried as raw bytes, exactly as they
/// stood in the source document.
#[derive(Clone, Debug, PartialEq, Eq)]
pub enum ExecutionError {
    /// Malformed markup; always fatal.
    XMLError,
    /// An instruction tag (first payload) lacks a required parameter
    /// (second payload); fatal.
    MissingRequiredParameter(Vec<u8>, Vec<u8>),
    /// A remove-block end tag (payload: its name) with no open matching
    /// start; fatal.
    UnexpectedClosingTag(Vec<u8>),
    /// A transport-level failure reported by the fetch collaborator;
    /// fatal unless the instruction downgrades it with the
    /// continue-on-error policy. The library never makes one itself.
    TransportError,
    /// The same attribute name (payload) repeated on one tag; fatal.
    DuplicateTagAttribute(Vec<u8>),
    /// Catch-all for unclassified collaborator failures, e.g. a non-2xx
    /// status reported generically.
    Unknown,
}

/// The mathematical model of an [`ExecutionError`]: the same taxonomy with
/// byte payloads abstracted to sequences.
pub enum SpecError {
    Xml,
    MissingParam(Seq<u8>, Seq<u8>),
    UnexpectedClosing(Seq<u8>),
    Transport,
    DuplicateAttr(Seq<u8>),
    Unknown,
}

impl View for ExecutionError {
    type V = SpecError;

    open spec fn view(&self) -> SpecError {
        match self {
            ExecutionError::XMLError => SpecError::Xml,
            ExecutionError::MissingRequiredParameter(tag, param) => {
                SpecError::MissingParam(tag@, param@)
            },
            ExecutionError::UnexpectedClosingTag(name) => SpecError::UnexpectedClosing(name@),
            ExecutionError::TransportError => SpecError::Transport,
            ExecutionError::DuplicateTagAttribute(name) => SpecError::DuplicateAttr(name@),
            ExecutionError::Unknown => SpecError::Unknown,
        }
    }
}

} // verus!
