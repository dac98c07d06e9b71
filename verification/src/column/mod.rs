//! Column codecs as they appear in the structural payload.
pub mod cells;
pub mod presence;
pub mod intchunks;
pub mod packchunks;
pub mod rlechunk;
pub mod chunk;
pub mod roundtrip;
pub mod payload;
pub mod planner;
pub mod stats;
pub mod types;

pub use types::{ColumnCodec, ColumnPlan, EncodedColumn};
