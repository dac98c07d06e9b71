//! First-order delta coding of signed integers.
use vstd::prelude::*;

verus! {

/// Every difference between neighbours fits in an `i64`.
pub open spec fn deltas_fit(v: Seq<i64>) -> bool {
    forall|i: int| 1 <= i < v.len() ==> i64::MIN <= #[trigger] v[i] - v[i - 1] <= i64::MAX
}

/// The first value, followed by the difference of each value from its predecessor.
pub open spec fn spec_delta_encode(v: Seq<i64>) -> Seq<i64> {
    Seq::new(v.len(), |i: int| if i == 0 { v[0] } else { (v[i] - v[i - 1]) as i64 })
}

/// The sum of the first `n` entries.
pub open spec fn prefix_sum(e: Seq<i64>, n: int) -> int
    decreases n,
{
    if n <= 0 {
        0
    } else {
        prefix_sum(e, n - 1) + e[n - 1]
    }
}

/// Every running total fits in an `i64`.
pub open spec fn prefix_sums_fit(e: Seq<i64>) -> bool {
    forall|i: int| 0 < i <= e.len() ==> i64::MIN <= #[trigger] prefix_sum(e, i) <= i64::MAX
}

/// The running totals of the entries.
pub open spec fn spec_delta_decode(e: Seq<i64>) -> Seq<i64> {
    Seq::new(e.len(), |i: int| prefix_sum(e, i + 1) as i64)
}

pub fn encode(values: &[i64]) -> (out: Vec<i64>)
    requires
        deltas_fit(values@),
    ensures
        out@ == spec_delta_encode(values@),
{
    let mut out: Vec<i64> = Vec::new();
    if values.len() == 0 {
        assert(out@ =~= spec_delta_encode(values@));
        return out;
    }
    out.push(values[0]);
    let mut i: usize = 1;
    while i < values.len()
        invariant
            1 <= i <= values.len(),
            deltas_fit(values@),
            out@.len() == i,
            forall|j: int| 0 <= j < i ==> out@[j] == spec_delta_encode(values@)[j],
        decreases values.len() - i,
    {
        assert(i64::MIN <= values@[i as int] - values@[i - 1] <= i64::MAX);
        out.push(values[i] - values[i - 1]);
        i = i + 1;
    }
    assert(out@ =~= spec_delta_encode(values@));
    out
}

pub fn decode(encoded: &[i64]) -> (out: Vec<i64>)
    requires
        prefix_sums_fit(encoded@),
    ensures
        out@ == spec_delta_decode(encoded@),
{
    let mut out: Vec<i64> = Vec::new();
    if encoded.len() == 0 {
        assert(out@ =~= spec_delta_decode(encoded@));
        return out;
    }
    let mut cur: i64 = encoded[0];
    assert(prefix_sum(encoded@, 0) == 0);
    assert(prefix_sum(encoded@, 1) == encoded@[0]);
    out.push(cur);
    let mut i: usize = 1;
    while i < encoded.len()
        invariant
            1 <= i <= encoded.len(),
            prefix_sums_fit(encoded@),
            cur == prefix_sum(encoded@, i as int),
            out@.len() == i,
            forall|j: int| 0 <= j < i ==> out@[j] == spec_delta_decode(encoded@)[j],
        decreases encoded.len() - i,
    {
        assert(prefix_sum(encoded@, i + 1) == cur + encoded@[i as int]);
        assert(i64::MIN <= prefix_sum(encoded@, i + 1) <= i64::MAX);
        cur = cur + encoded[i];
        out.push(cur);
        i = i + 1;
    }
    assert(out@ =~= spec_delta_decode(encoded@));
    out
}

proof fn lemma_prefix_sum_of_deltas(v: Seq<i64>, n: int)
    requires
        deltas_fit(v),
        1 <= n <= v.len(),
    ensures
        prefix_sum(spec_delta_encode(v), n) == v[n - 1],
    decreases n,
{
    let e = spec_delta_encode(v);
    assert(prefix_sum(e, n) == prefix_sum(e, n - 1) + e[n - 1]);
    if n > 1 {
        lemma_prefix_sum_of_deltas(v, n - 1);
        assert(e[n - 1] == v[n - 1] - v[n - 2]);
    } else {
        assert(prefix_sum(e, 0) == 0);
    }
}

/// The running totals of a delta encoding fit, and they give the values back.
pub proof fn lemma_delta_roundtrip(v: Seq<i64>)
    requires
        deltas_fit(v),
    ensures
        prefix_sums_fit(spec_delta_encode(v)),
        spec_delta_decode(spec_delta_encode(v)) == v,
{
    assert forall|i: int| 0 < i <= spec_delta_encode(v).len() implies i64::MIN
        <= #[trigger] prefix_sum(spec_delta_encode(v), i) <= i64::MAX by {
        lemma_prefix_sum_of_deltas(v, i);
    }
    assert forall|i: int| 0 <= i < v.len() implies spec_delta_decode(spec_delta_encode(v))[i]
        == v[i] by {
        lemma_prefix_sum_of_deltas(v, i + 1);
    }
    assert(spec_delta_decode(spec_delta_encode(v)) =~= v);
}

} // verus!
