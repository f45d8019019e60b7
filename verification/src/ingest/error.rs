//! Errors of the ingestion service.
use vstd::prelude::*;

use crate::broker::error::io_error_text;
use crate::text::joined;

verus! {

#[derive(Debug)]
pub enum IngestError {
    BindFailed(String),
    Io(std::io::Error),
    ParseFailed(String),
    BufferFull,
    Shutdown,
}

/// The result type of the ingestion service.
pub type IngestResult<T> = Result<T, IngestError>;

/// How an error reads, except for the text of an I/O error, which comes from the system.
pub open spec fn ingest_error_text(e: IngestError) -> Seq<char> {
    match e {
        IngestError::BindFailed(m) => "Bind failed: "@ + m@,
        IngestError::Io(_) => "I/O error: "@,
        IngestError::ParseFailed(m) => "Parse failed: "@ + m@,
        IngestError::BufferFull => "Ingest buffer full"@,
        IngestError::Shutdown => "Server shutdown"@,
    }
}

impl IngestError {
    /// The message of the error: `ingest_error_text`, followed for an I/O error by the
    /// system's description of it.
    pub fn message(&self) -> (r: String)
        ensures
            self is Io ==> r@.len() >= 11 && r@.subrange(0, 11) == ingest_error_text(*self),
            !(self is Io) ==> r@ == ingest_error_text(*self),
    {
        match self {
            IngestError::BindFailed(m) => joined("Bind failed: ", m.as_str()),
            IngestError::Io(e) => {
                let t = io_error_text(e);
                let r = joined("I/O error: ", t.as_str());
                proof {
                    reveal_strlit("I/O error: ");
                }
                assert(r@.subrange(0, 11) =~= "I/O error: "@);
                r
            },
            IngestError::ParseFailed(m) => joined("Parse failed: ", m.as_str()),
            IngestError::BufferFull => "Ingest buffer full".to_owned(),
            IngestError::Shutdown => "Server shutdown".to_owned(),
        }
    }
}

} // verus!
