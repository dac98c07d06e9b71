//! The logical type of a column, inferred from its values.
use vstd::prelude::*;
use crate::formats::table::{Cell, CellV};
use crate::column::cells::cells_view;
use crate::column::presence::count_present;
use crate::schema::types::ColumnType;

verus! {

/// Every present value satisfies `p`.
pub open spec fn all_present(v: Seq<Option<CellV>>, p: spec_fn(CellV) -> bool) -> bool {
    forall|i: int| 0 <= i < v.len() ==> (#[trigger] v[i] matches Some(c) ==> p(c))
}

/// The type of a column: `Null` with no present value; `Bool`, `Integer` when
/// every present value is one; `Float` when every present value is a number;
/// otherwise `Enum` when the distinct texts of the present values are at most
/// a fifth of the rows, and `String` when they are more (or there are no rows).
pub open spec fn spec_infer_type(v: Seq<Option<CellV>>, row_count: nat, unique: nat) -> ColumnType {
    if count_present(v) == 0 {
        ColumnType::Null
    } else if all_present(v, |c: CellV| c is Bool) {
        ColumnType::Bool
    } else if all_present(v, |c: CellV| c is Integer) {
        ColumnType::Integer
    } else if all_present(v, |c: CellV| c is Integer || c is Float) {
        ColumnType::Float
    } else if row_count > 0 && unique * 5 <= row_count {
        ColumnType::Enum
    } else {
        ColumnType::String
    }
}

proof fn lemma_count_present_take(v: Seq<Option<CellV>>, i: int)
    requires
        0 <= i < v.len(),
    ensures
        count_present(v.take(i + 1)) == count_present(v.take(i)) + (if v[i] is Some { 1nat } else { 0nat }),
{
    assert(v.take(i + 1).drop_last() =~= v.take(i));
}

/// Infers the type of a column of `row_count` rows whose present values have
/// `unique` distinct texts.
pub fn infer_type(values: &[Option<Cell>], row_count: usize, unique: usize) -> (t: ColumnType)
    ensures
        t == spec_infer_type(cells_view(values@), row_count as nat, unique as nat),
{
    let ghost v = cells_view(values@);
    let mut present: usize = 0;
    let mut bools = true;
    let mut ints = true;
    let mut nums = true;
    let mut i: usize = 0;
    while i < values.len()
        invariant
            0 <= i <= values.len(),
            v == cells_view(values@),
            present <= i,
            present == count_present(v.take(i as int)),
            bools == all_present(v.take(i as int), |c: CellV| c is Bool),
            ints == all_present(v.take(i as int), |c: CellV| c is Integer),
            nums == all_present(v.take(i as int), |c: CellV| c is Integer || c is Float),
        decreases values.len() - i,
    {
        proof {
            lemma_count_present_take(v, i as int);
        }
        assert(v[i as int] == values@[i as int].deep_view());
        match &values[i] {
            None => {},
            Some(c) => {
                present = present + 1;
                match c {
                    Cell::Bool(_) => {
                        ints = false;
                        nums = false;
                    },
                    Cell::Integer(_) => {
                        bools = false;
                    },
                    Cell::Float(_) => {
                        bools = false;
                        ints = false;
                    },
                    _ => {
                        bools = false;
                        ints = false;
                        nums = false;
                    },
                }
            },
        }
        proof {
            let a = v.take(i as int);
            let b = v.take(i + 1);
            assert forall|k: int| 0 <= k < a.len() implies #[trigger] b[k] == a[k] by {}
            assert(b[i as int] == v[i as int]);
        }
        i = i + 1;
    }
    assert(v.take(values.len() as int) =~= v);
    if present == 0 {
        ColumnType::Null
    } else if bools {
        ColumnType::Bool
    } else if ints {
        ColumnType::Integer
    } else if nums {
        ColumnType::Float
    } else if row_count > 0 && (unique as u128) * 5 <= row_count as u128 {
        ColumnType::Enum
    } else {
        ColumnType::String
    }
}

} // verus!
