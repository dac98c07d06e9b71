//! Flattening of nested JSON objects to dotted paths.
pub use crate::formats::json::flatten_json;
