//! NextZip-S: a structural archive format for machine-generated text data.
//!
//! The verified library holds the column codecs, the binary payload and
//! container formats, format detection, the log, JSON lines and delimited
//! table models, and packing and unpacking end to end.
pub mod archive;
pub mod bench;
pub mod checksum;
pub mod codecs;
pub mod detect;
pub mod entropy;
pub mod error;
pub mod wire;
pub mod column;
pub mod formats;
pub mod header;
pub mod pipeline;
pub mod report;
pub mod schema;
pub mod text;

pub use archive::{inspect_archive_report, ArchiveInspection, PackOptions, SizeBreakdown};
pub use detect::detect_format;
pub use header::InputFormat;
