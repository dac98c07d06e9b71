//! Second-order delta (delta-of-delta) coding of signed integers.
use vstd::prelude::*;
use crate::codecs::delta::{
    deltas_fit, prefix_sums_fit, spec_delta_decode, spec_delta_encode, lemma_delta_roundtrip,
};

verus! {

/// The delta coding applied twice.
pub open spec fn spec_delta2_encode(v: Seq<i64>) -> Seq<i64> {
    spec_delta_encode(spec_delta_encode(v))
}

/// The delta decoding applied twice.
pub open spec fn spec_delta2_decode(e: Seq<i64>) -> Seq<i64> {
    spec_delta_decode(spec_delta_decode(e))
}

pub fn encode(values: &[i64]) -> (out: Vec<i64>)
    requires
        deltas_fit(values@),
        deltas_fit(spec_delta_encode(values@)),
    ensures
        out@ == spec_delta2_encode(values@),
{
    let delta = crate::codecs::delta::encode(values);
    crate::codecs::delta::encode(&delta)
}

pub fn decode(encoded: &[i64]) -> (out: Vec<i64>)
    requires
        prefix_sums_fit(encoded@),
        prefix_sums_fit(spec_delta_decode(encoded@)),
    ensures
        out@ == spec_delta2_decode(encoded@),
{
    let delta = crate::codecs::delta::decode(encoded);
    crate::codecs::delta::decode(&delta)
}

/// Decoding a delta-of-delta encoding gives the values back.
pub proof fn lemma_delta2_roundtrip(v: Seq<i64>)
    requires
        deltas_fit(v),
        deltas_fit(spec_delta_encode(v)),
    ensures
        prefix_sums_fit(spec_delta2_encode(v)),
        prefix_sums_fit(spec_delta_decode(spec_delta2_encode(v))),
        spec_delta2_decode(spec_delta2_encode(v)) == v,
{
    lemma_delta_roundtrip(spec_delta_encode(v));
    lemma_delta_roundtrip(v);
}

} // verus!
