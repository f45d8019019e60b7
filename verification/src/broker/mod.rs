pub mod buffer;
pub mod cli;
pub mod client;
pub mod cursor;
pub mod error;
pub mod protocol;
pub mod request;
pub mod segment;
pub mod topic;
pub mod index;
