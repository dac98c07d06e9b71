//! TSV: delimited text with tabs.
use vstd::prelude::*;
use crate::error::ArchiveError;
use crate::formats::csv::{csv_records, delimited_table, float_fields_view, ends_with_lf, parse_delimited};
use crate::formats::table::{StoredTable, spec_line_ending};
use crate::header::InputFormat;

verus! {

/// Parses TSV text; `floats` gives the float that a field's text stands for
/// where it is not an integer.
pub fn parse(input: &[u8], floats: &[(String, u64)]) -> (r: Result<StoredTable, ArchiveError>)
    ensures
        match csv_records(input@, 9) {
            None => r == Err::<StoredTable, ArchiveError>(ArchiveError::Csv),
            Some((h, recs)) => r matches Ok(t) && t@ == delimited_table(
                h, recs, float_fields_view(floats@), InputFormat::Tsv, 9, spec_line_ending(input@), ends_with_lf(input@),
            ),
        },
{
    parse_delimited(input, 9, InputFormat::Tsv, floats)
}

} // verus!
