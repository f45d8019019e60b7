//! Errors of the log broker.
use vstd::prelude::*;

use crate::text::{decimal, joined, u64_text};

verus! {

#[verifier::external_type_specification]
#[verifier::external_body]
pub struct ExIoError(std::io::Error);

/// Every failure the broker reports.
#[derive(Debug)]
pub enum BrokerError {
    Io(std::io::Error),
    InvalidFrame(String),
    CorruptData(String),
    TopicNotFound(u32),
    OffsetOutOfRange { requested: u64, earliest: u64, latest: u64 },
    ConnectionClosed,
    BufferFull,
    InvalidArgument(String),
    AlreadyExists(String),
    NotFound(String),
}

/// The result type of broker operations.
pub type BrokerResult<T> = Result<T, BrokerError>;

/// A broker error that carries a message.
pub fn invalid_frame(msg: &str) -> (e: BrokerError)
    ensures
        e matches BrokerError::InvalidFrame(m) && m@ == msg@,
{
    BrokerError::InvalidFrame(String::from_str(msg))
}

/// The text `Display` shows for an I/O error.
#[verifier::external_body]
pub(crate) fn io_error_text(e: &std::io::Error) -> (r: String) {
    e.to_string()
}

/// How an error reads, except for the text of an I/O error, which comes from the system.
pub open spec fn error_text(e: BrokerError) -> Seq<char> {
    match e {
        BrokerError::Io(_) => "I/O error: "@,
        BrokerError::InvalidFrame(m) => "Invalid frame: "@ + m@,
        BrokerError::CorruptData(m) => "Corrupt data: "@ + m@,
        BrokerError::TopicNotFound(id) => "Topic not found: id="@ + decimal(id as nat),
        BrokerError::OffsetOutOfRange { requested, earliest, latest } => "Offset out of range: requested="@
            + decimal(requested as nat) + ", earliest="@ + decimal(earliest as nat) + ", latest="@
            + decimal(latest as nat),
        BrokerError::ConnectionClosed => "Connection closed"@,
        BrokerError::BufferFull => "Ring buffer full"@,
        BrokerError::InvalidArgument(m) => "Invalid argument: "@ + m@,
        BrokerError::AlreadyExists(m) => "Already exists: "@ + m@,
        BrokerError::NotFound(m) => "Not found: "@ + m@,
    }
}

impl BrokerError {
    /// The message of the error: `error_text`, followed for an I/O error by the system's
    /// description of it.
    pub fn message(&self) -> (r: String)
        ensures
            self is Io ==> r@.len() >= 11 && r@.subrange(0, 11) == error_text(*self),
            !(self is Io) ==> r@ == error_text(*self),
    {
        match self {
            BrokerError::Io(e) => {
                let t = io_error_text(e);
                let r = joined("I/O error: ", t.as_str());
                proof {
                    reveal_strlit("I/O error: ");
                }
                assert(r@.subrange(0, 11) =~= "I/O error: "@);
                r
            },
            BrokerError::InvalidFrame(m) => joined("Invalid frame: ", m.as_str()),
            BrokerError::CorruptData(m) => joined("Corrupt data: ", m.as_str()),
            BrokerError::TopicNotFound(id) => {
                let t = u64_text(*id as u64);
                joined("Topic not found: id=", t.as_str())
            },
            BrokerError::OffsetOutOfRange { requested, earliest, latest } => {
                let mut r = joined("Offset out of range: requested=", u64_text(*requested).as_str());
                r.append(", earliest=");
                let e = u64_text(*earliest);
                r.append(e.as_str());
                r.append(", latest=");
                let l = u64_text(*latest);
                r.append(l.as_str());
                r
            },
            BrokerError::ConnectionClosed => "Connection closed".to_owned(),
            BrokerError::BufferFull => "Ring buffer full".to_owned(),
            BrokerError::InvalidArgument(m) => joined("Invalid argument: ", m.as_str()),
            BrokerError::AlreadyExists(m) => joined("Already exists: ", m.as_str()),
            BrokerError::NotFound(m) => joined("Not found: ", m.as_str()),
        }
    }
}

} // verus!
