//! Entropy coding of whole sections with zstd.
pub mod zstd;
