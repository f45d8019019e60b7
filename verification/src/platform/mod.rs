//! Node services: membership gossip and the HTTP telemetry endpoint.
pub mod swim;
pub mod http;
pub mod telemetry;
