//! The codec a column gets.
use vstd::prelude::*;
use crate::column::ColumnCodec;
use crate::column::cells::cells_view;
use crate::column::chunk::{admissible, choose_best_codec, spec_choose_codec};
use crate::formats::table::Cell;

verus! {

/// The codec for a column's values: the one `choose_best_codec` picks.
pub fn choose_codec(values: &[Option<Cell>]) -> (c: ColumnCodec)
    ensures
        c == spec_choose_codec(cells_view(values@)),
        admissible(cells_view(values@), c),
{
    choose_best_codec(values)
}

} // verus!
