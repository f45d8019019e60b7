//! Byte ingestion: a bounded buffer that collects incoming data and hands it on in blocks.
pub mod error;
pub mod pipeline;
