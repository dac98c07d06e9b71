//! Per-column statistics that the plans are made from.
use vstd::prelude::*;
use crate::column::cells::cells_view;
use crate::formats::logs::{contains_name, names_view};
use crate::formats::table::{Cell, CellV, floats_view, stable_string, stable_text};

verus! {

/// The distinct texts of the present values, in the order they first occur.
pub open spec fn distinct_texts(v: Seq<Option<CellV>>, ft: Seq<(u64, Seq<char>)>) -> Seq<Seq<char>>
    decreases v.len(),
{
    if v.len() == 0 {
        Seq::empty()
    } else {
        let d = distinct_texts(v.drop_last(), ft);
        match v.last() {
            Some(c) => if d.contains(stable_text(c, ft)) {
                d
            } else {
                d.push(stable_text(c, ft))
            },
            None => d,
        }
    }
}

/// The number of distinct texts among the present values of a column; floats
/// take the text given for their bit pattern.
pub fn unique_count(values: &[Option<Cell>], floats: &[(u64, String)]) -> (n: usize)
    ensures
        n == distinct_texts(cells_view(values@), floats_view(floats@)).len(),
{
    let ghost v = cells_view(values@);
    let ghost ft = floats_view(floats@);
    let mut seen: Vec<String> = Vec::new();
    let mut i: usize = 0;
    assert(v.take(0) =~= Seq::<Option<CellV>>::empty());
    assert(names_view(seen@) =~= distinct_texts(v.take(0), ft));
    while i < values.len()
        invariant
            0 <= i <= values@.len(),
            v == cells_view(values@),
            ft == floats_view(floats@),
            names_view(seen@) == distinct_texts(v.take(i as int), ft),
            seen@.len() <= i,
        decreases values@.len() - i,
    {
        assert(v.take(i + 1).drop_last() =~= v.take(i as int));
        assert(v.take(i + 1).last() == values@[i as int].deep_view());
        match &values[i] {
            Some(c) => {
                let t = stable_string(c, floats);
                if !contains_name(&seen, &t) {
                    let ghost before = seen@;
                    seen.push(t);
                    assert(names_view(seen@) =~= names_view(before).push(t@));
                }
            },
            None => {},
        }
        i = i + 1;
    }
    assert(v.take(values@.len() as int) =~= v);
    seen.len()
}

} // verus!
