pub mod book;
pub mod conserve;
pub mod ring;
pub mod stats;
pub mod level;
pub mod pool;
pub mod types;
pub mod workload;
