//! A Raft replica: its key-value state machine, its messages, and the decisions it takes
//! on each message and timer.
pub mod node;
pub mod rpc;
pub mod store;
pub mod router;
pub mod timer;
