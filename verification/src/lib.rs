//! Verified building blocks of a small infrastructure suite: a log broker (wire format,
//! offset index, segment records, cursors), a limit order book, a log-structured key-value
//! store, a Raft replica, a SQL front end, gossip membership and telemetry texts, a sensor
//! frame queue and an ingestion pipeline, with the byte and text encodings they share.
pub mod broker;
pub mod ingest;
pub mod keyed;
pub mod lob;
pub mod lsm;
pub mod platform;
pub mod raft;
pub mod sensor;
pub mod sql;
pub mod text;
pub mod wire;

use vstd::prelude::*;

verus! {

/// `n` is a power of two (1, 2, 4, ...).
pub open spec fn is_pow2(n: nat) -> bool
    decreases n,
{
    if n == 1 {
        true
    } else if n < 1 || n % 2 == 1 {
        false
    } else {
        is_pow2(n / 2)
    }
}

} // verus!
