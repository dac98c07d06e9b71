//! Codec identifiers and per-column plans.
use vstd::prelude::*;
use crate::schema::ColumnType;

verus! {

#[derive(Debug, Clone, Copy, PartialEq, Eq, Structural)]
pub enum ColumnCodec {
    Raw,
    Dictionary,
    Delta,
    DeltaOfDelta,
    Rle,
    BitPack,
    FrameOfReference,
}

#[derive(Debug, Clone)]
pub struct ColumnPlan {
    pub name: String,
    pub column_type: ColumnType,
    pub codec: ColumnCodec,
    pub original_len: u64,
    pub encoded_len_estimate: u64,
}

#[derive(Debug, Clone)]
pub struct EncodedColumn {
    pub name: String,
    pub codec: ColumnCodec,
    pub data: Vec<u8>,
}

} // verus!
