//! Edge Side Inclusion (ESI) processing.
//!
//! A markup post-processor: it scans an HTML-like document for a small set of
//! instruction tags in the `esi:` namespace and rewrites the document by
//! executing them. Two instructions are supported: fetching a fragment from
//! elsewhere and splicing it in, and stripping a block of markup.
//!
//! The pipeline: document bytes are tokenized into markup events
//! ([`scan`]), the events are filtered into an ordered entry list
//! ([`entries`]), every fragment-inclusion instruction is resolved
//! through an injected [`fetch::ExecutionContext`] ([`fetch`]), and the
//! entry list is re-serialized with resolved content spliced in at
//! instruction positions ([`output`]).

pub mod attrs;
pub mod entries;
pub mod errors;
pub mod fetch;
pub mod output;
pub mod scan;

pub use entries::Tag;
pub use entries::TagEntry;
pub use entries::parse_tag_entries;
pub use errors::ExecutionError;
pub use errors::SpecError;
pub use fetch::ExecutionContext;
pub use fetch::Request;
pub use fetch::Response;
pub use fetch::execute_tag_entries;
pub use fetch::send_request;
pub use output::transform_esi_string;
