//! Frame-of-reference coding: a base (the minimum) and unsigned offsets.
use vstd::prelude::*;

verus! {

/// The smallest value of a non-empty sequence.
pub open spec fn seq_min(v: Seq<i64>) -> i64
    decreases v.len(),
{
    if v.len() <= 1 {
        v[0]
    } else if v.last() < seq_min(v.drop_last()) {
        v.last()
    } else {
        seq_min(v.drop_last())
    }
}

/// Every value lies at most `i64::MAX` above the minimum.
pub open spec fn offsets_fit(v: Seq<i64>) -> bool {
    v.len() > 0 ==> forall|i: int| 0 <= i < v.len() ==> #[trigger] v[i] - seq_min(v) <= i64::MAX
}

/// The offsets of the values from `base`.
pub open spec fn spec_offsets(v: Seq<i64>, base: i64) -> Seq<u64> {
    Seq::new(v.len(), |i: int| (v[i] - base) as u64)
}

/// Adding each offset, read as a two's-complement `i64`, to `base` fits in an `i64`.
pub open spec fn decoded_fit(base: i64, offsets: Seq<u64>) -> bool {
    forall|i: int| 0 <= i < offsets.len() ==> i64::MIN <= base + (#[trigger] offsets[i] as i64) <= i64::MAX
}

pub open spec fn spec_for_decode(base: i64, offsets: Seq<u64>) -> Seq<i64> {
    Seq::new(offsets.len(), |i: int| (base + (offsets[i] as i64)) as i64)
}

/// The minimum is at most every value and is one of them.
pub proof fn lemma_seq_min(v: Seq<i64>)
    requires
        v.len() > 0,
    ensures
        forall|i: int| 0 <= i < v.len() ==> seq_min(v) <= #[trigger] v[i],
        exists|i: int| 0 <= i < v.len() && seq_min(v) == #[trigger] v[i],
    decreases v.len(),
{
    if v.len() > 1 {
        lemma_seq_min(v.drop_last());
        let w = choose|i: int| 0 <= i < v.drop_last().len() && seq_min(v.drop_last()) == #[trigger] v.drop_last()[i];
        assert(v[w] == v.drop_last()[w]);
        assert forall|i: int| 0 <= i < v.len() implies seq_min(v) <= #[trigger] v[i] by {
            if i < v.len() - 1 {
                assert(v[i] == v.drop_last()[i]);
            }
        }
    } else {
        assert(seq_min(v) == v[0]);
    }
}

pub fn encode(values: &[i64]) -> (out: Option<(i64, Vec<u64>)>)
    requires
        offsets_fit(values@),
    ensures
        values@.len() == 0 <==> out is None,
        out matches Some((base, offsets)) ==> base == seq_min(values@) && offsets@ == spec_offsets(
            values@,
            base,
        ),
{
    if values.len() == 0 {
        return None;
    }
    let mut base: i64 = values[0];
    let mut i: usize = 1;
    assert(values@.take(1).drop_last() =~= Seq::<i64>::empty());
    assert(values@.take(1) =~= seq![values@[0]]);
    while i < values.len()
        invariant
            1 <= i <= values.len(),
            base == seq_min(values@.take(i as int)),
        decreases values.len() - i,
    {
        assert(values@.take(i + 1).drop_last() =~= values@.take(i as int));
        if values[i] < base {
            base = values[i];
        }
        i = i + 1;
    }
    assert(values@.take(values.len() as int) =~= values@);
    proof {
        lemma_seq_min(values@);
    }
    let mut offsets: Vec<u64> = Vec::new();
    let mut k: usize = 0;
    while k < values.len()
        invariant
            0 <= k <= values.len(),
            base == seq_min(values@),
            offsets_fit(values@),
            forall|i: int| 0 <= i < values.len() ==> base <= #[trigger] values@[i],
            offsets@.len() == k,
            forall|j: int| 0 <= j < k ==> offsets@[j] == spec_offsets(values@, base)[j],
        decreases values.len() - k,
    {
        assert(values@[k as int] - seq_min(values@) <= i64::MAX);
        assert(base <= values@[k as int]);
        offsets.push((values[k] - base) as u64);
        k = k + 1;
    }
    assert(offsets@ =~= spec_offsets(values@, base));
    Some((base, offsets))
}

pub fn decode(base: i64, offsets: &[u64]) -> (out: Vec<i64>)
    requires
        decoded_fit(base, offsets@),
    ensures
        out@ == spec_for_decode(base, offsets@),
{
    let mut out: Vec<i64> = Vec::new();
    let mut k: usize = 0;
    while k < offsets.len()
        invariant
            0 <= k <= offsets.len(),
            decoded_fit(base, offsets@),
            out@.len() == k,
            forall|j: int| 0 <= j < k ==> out@[j] == spec_for_decode(base, offsets@)[j],
        decreases offsets.len() - k,
    {
        assert(i64::MIN <= base + (offsets@[k as int] as i64) <= i64::MAX);
        out.push(base + offsets[k] as i64);
        k = k + 1;
    }
    assert(out@ =~= spec_for_decode(base, offsets@));
    out
}

/// Decoding the base and offsets of a non-empty sequence gives the values back.
pub proof fn lemma_for_roundtrip(v: Seq<i64>)
    requires
        offsets_fit(v),
        v.len() > 0,
    ensures
        decoded_fit(seq_min(v), spec_offsets(v, seq_min(v))),
        spec_for_decode(seq_min(v), spec_offsets(v, seq_min(v))) == v,
{
    lemma_seq_min(v);
    let base = seq_min(v);
    assert forall|i: int| 0 <= i < v.len() implies (#[trigger] spec_offsets(v, base)[i]) as i64
        == v[i] - base by {
        assert(0 <= v[i] - base <= i64::MAX);
    }
    assert(spec_for_decode(base, spec_offsets(v, base)) =~= v);
}

} // verus!
