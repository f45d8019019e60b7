//! A sensor-frame queue: sensor kinds, the slot cells, and the sequence-numbered ring.
pub mod buffer;
pub mod error;
pub mod sensor;
pub mod slot;
