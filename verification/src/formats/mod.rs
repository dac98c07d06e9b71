//! Source formats and the in-memory table they parse into.
pub mod csv;
pub mod fields;
pub mod json;
pub mod json_write;
pub mod jsonl;
pub mod logs;
pub mod logs_laws;
pub mod logs_text;
pub mod order;
pub mod table;
pub mod tsv;
