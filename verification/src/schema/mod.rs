//! Column schemas and type inference.
pub mod flatten;
pub mod infer;
pub mod types;

pub use types::{ColumnSchema, ColumnType, Schema};
