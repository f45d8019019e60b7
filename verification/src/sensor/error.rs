//! Errors of the sensor-frame queue.
use vstd::prelude::*;

use crate::text::{decimal, joined, u64_text};

verus! {

#[derive(Debug)]
pub enum FusionBufferError {
    BufferFull,
    SlotContention(u64),
    OverwriteDetected { dropped: u64, total: u64 },
    AffinityFailed(String),
}

/// The result type of the queue.
pub type FusionResult<T> = Result<T, FusionBufferError>;

/// How an error reads.
pub open spec fn fusion_error_text(e: FusionBufferError) -> Seq<char> {
    match e {
        FusionBufferError::BufferFull => "Ring buffer full — all slots occupied by unread data"@,
        FusionBufferError::SlotContention(seq) => "CAS contention on slot claim at sequence "@
            + decimal(seq as nat),
        FusionBufferError::OverwriteDetected { dropped, total } => "Overwrite: "@ + decimal(
            dropped as nat,
        ) + "/"@ + decimal(total as nat) + " frames dropped"@,
        FusionBufferError::AffinityFailed(m) => "CPU affinity failed: "@ + m@,
    }
}

impl FusionBufferError {
    /// The message of the error.
    pub fn message(&self) -> (r: String)
        ensures
            r@ == fusion_error_text(*self),
    {
        match self {
            FusionBufferError::BufferFull => "Ring buffer full — all slots occupied by unread data".to_owned(),
            FusionBufferError::SlotContention(seq) => {
                let t = u64_text(*seq);
                joined("CAS contention on slot claim at sequence ", t.as_str())
            },
            FusionBufferError::OverwriteDetected { dropped, total } => {
                let mut r = joined("Overwrite: ", u64_text(*dropped).as_str());
                r.append("/");
                let t = u64_text(*total);
                r.append(t.as_str());
                r.append(" frames dropped");
                r
            },
            FusionBufferError::AffinityFailed(m) => joined("CPU affinity failed: ", m.as_str()),
        }
    }
}

} // verus!
