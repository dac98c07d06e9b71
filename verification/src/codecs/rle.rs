//! Run-length coding: each maximal run of equal values becomes a value and a count.
use vstd::prelude::*;
use vstd::std_specs::cmp::PartialEqSpec;

verus! {

/// The number of values that the first `k` runs stand for.
pub open spec fn run_offset<T>(runs: Seq<(T, u64)>, k: int) -> nat
    decreases k,
{
    if k <= 0 {
        0
    } else {
        run_offset(runs, k - 1) + runs[k - 1].1 as nat
    }
}

/// The values that the runs stand for, each run value repeated `count` times.
pub open spec fn rle_expand<T>(runs: Seq<(T, u64)>) -> Seq<T>
    decreases runs.len(),
{
    if runs.len() == 0 {
        Seq::empty()
    } else {
        rle_expand(runs.drop_last()) + Seq::new(runs.last().1 as nat, |_j: int| runs.last().0)
    }
}

/// `runs` is the run-length coding of `values`: every run is non-empty and
/// starts with a clone of the value found there; when `==` on `T` follows its
/// specification, the run value equals every later value of its run and
/// differs from the first value of the next run.
pub open spec fn is_rle_encoding<T: PartialEq + Clone>(values: Seq<T>, runs: Seq<(T, u64)>) -> bool {
    &&& run_offset(runs, runs.len() as int) == values.len()
    &&& forall|k: int| 0 <= k < runs.len() ==> (#[trigger] runs[k]).1 >= 1
    &&& forall|k: int|
        0 <= k < runs.len() ==> cloned::<T>(values[run_offset(runs, k) as int], #[trigger] runs[k].0)
    &&& forall|k: int, j: int| #![trigger runs[k], values[j]]
        0 <= k < runs.len() && run_offset(runs, k) < j < run_offset(runs, k + 1)
            && T::obeys_eq_spec() ==> runs[k].0.eq_spec(&values[j])
    &&& forall|k: int|
        0 <= k < runs.len() - 1 && T::obeys_eq_spec() ==> !(#[trigger] runs[k]).0.eq_spec(
            &values[run_offset(runs, k + 1) as int],
        )
}

proof fn lemma_run_offset_monotone<T>(runs: Seq<(T, u64)>, a: int, b: int)
    requires
        0 <= a <= b <= runs.len(),
    ensures
        run_offset(runs, a) <= run_offset(runs, b),
    decreases b - a,
{
    if a < b {
        lemma_run_offset_monotone(runs, a, b - 1);
    }
}

proof fn lemma_run_offset_prefix<T>(runs: Seq<(T, u64)>, m: int, k: int)
    requires
        0 <= k <= m <= runs.len(),
    ensures
        run_offset(runs.take(m), k) == run_offset(runs, k),
    decreases k,
{
    if k > 0 {
        lemma_run_offset_prefix(runs, m, k - 1);
    }
}

/// The expansion has `run_offset(runs, len)` values, and position `j` of run
/// `k` holds the value of run `k`.
pub proof fn lemma_rle_expand<T>(runs: Seq<(T, u64)>)
    ensures
        rle_expand(runs).len() == run_offset(runs, runs.len() as int),
        forall|k: int, j: int| #![trigger runs[k], rle_expand(runs)[j]]
            0 <= k < runs.len() && run_offset(runs, k) <= j < run_offset(runs, k + 1)
                ==> rle_expand(runs)[j] == runs[k].0,
    decreases runs.len(),
{
    if runs.len() > 0 {
        let init = runs.drop_last();
        lemma_rle_expand(init);
        let n = runs.len() - 1;
        assert forall|k: int| 0 <= k <= n implies run_offset(init, k) == run_offset(runs, k) by {
            lemma_run_offset_prefix(runs, n, k);
            assert(runs.take(n) =~= init);
        }
        assert forall|k: int, j: int| #![trigger runs[k], rle_expand(runs)[j]]
            0 <= k < runs.len() && run_offset(runs, k) <= j < run_offset(runs, k + 1) implies rle_expand(
            runs,
        )[j] == runs[k].0 by {
            if k < n {
                lemma_run_offset_monotone(runs, k + 1, n);
                assert(init[k] == runs[k]);
            }
        }
    }
}

/// The run that holds position `j` of the expansion.
proof fn lemma_find_run<T>(runs: Seq<(T, u64)>, j: int) -> (k: int)
    requires
        0 <= j < run_offset(runs, runs.len() as int),
    ensures
        0 <= k < runs.len(),
        run_offset(runs, k) <= j < run_offset(runs, k + 1),
    decreases runs.len(),
{
    let n = runs.len() - 1;
    if j >= run_offset(runs, n) {
        n
    } else {
        assert forall|m: int| 0 <= m <= n implies run_offset(runs.take(n), m) == run_offset(runs, m) by {
            lemma_run_offset_prefix(runs, n, m);
        }
        let k = lemma_find_run(runs.take(n), j);
        k
    }
}

pub fn encode<T: Clone + PartialEq>(values: &[T]) -> (out: Vec<(T, u64)>)
    ensures
        is_rle_encoding(values@, out@),
{
    let mut out: Vec<(T, u64)> = Vec::new();
    let mut i: usize = 0;
    while i < values.len()
        invariant
            0 <= i <= values.len(),
            run_offset(out@, out@.len() as int) == i,
            forall|k: int| 0 <= k < out@.len() ==> (#[trigger] out@[k]).1 >= 1,
            forall|k: int|
                0 <= k < out@.len() ==> cloned::<T>(values@[run_offset(out@, k) as int], #[trigger] out@[k].0),
            forall|k: int, j: int| #![trigger out@[k], values@[j]]
                0 <= k < out@.len() && run_offset(out@, k) < j < run_offset(out@, k + 1)
                    && T::obeys_eq_spec() ==> out@[k].0.eq_spec(&values@[j]),
            forall|k: int|
                0 <= k < out@.len() - 1 && T::obeys_eq_spec() ==> !(#[trigger] out@[k]).0.eq_spec(
                    &values@[run_offset(out@, k + 1) as int],
                ),
        decreases values.len() - i,
    {
        let n = out.len();
        let ghost old_out = out@;
        if n > 0 && out[n - 1].0 == values[i] {
            proof {
                lemma_run_offset_monotone(old_out, n - 1, n as int);
                assert(run_offset(old_out, n as int) == run_offset(old_out, n - 1) + old_out[n - 1].1);
            }
            let last = out.pop().unwrap();
            assert(out@ =~= old_out.take(n - 1));
            out.push((last.0, last.1 + 1));
            proof {
                assert forall|k: int| 0 <= k <= n - 1 implies run_offset(out@, k) == run_offset(old_out, k) by {
                    lemma_run_offset_prefix(out@, n - 1, k);
                    lemma_run_offset_prefix(old_out, n - 1, k);
                    assert(out@.take(n - 1) =~= old_out.take(n - 1));
                }
                assert(run_offset(out@, n as int) == i + 1);
                assert forall|k: int, j: int| #![trigger out@[k], values@[j]]
                    0 <= k < out@.len() && run_offset(out@, k) < j < run_offset(out@, k + 1)
                        && T::obeys_eq_spec() implies out@[k].0.eq_spec(&values@[j]) by {
                    if k < n - 1 {
                        assert(out@[k] == old_out[k]);
                        assert(run_offset(out@, k + 1) == run_offset(old_out, k + 1));
                    } else if j < i {
                        assert(run_offset(out@, k) == run_offset(old_out, k));
                    }
                }
                assert forall|k: int| 0 <= k < out@.len() - 1 && T::obeys_eq_spec() implies !(
                #[trigger] out@[k]).0.eq_spec(&values@[run_offset(out@, k + 1) as int]) by {
                    assert(out@[k] == old_out[k]);
                    assert(run_offset(out@, k + 1) == run_offset(old_out, k + 1));
                }
                assert forall|k: int| 0 <= k < out@.len() implies cloned::<T>(
                    values@[run_offset(out@, k) as int],
                    #[trigger] out@[k].0,
                ) by {
                    assert(run_offset(out@, k) == run_offset(old_out, k));
                }
            }
        } else {
            proof {
                if n > 0 {
                    lemma_run_offset_monotone(old_out, n - 1, n as int);
                }
            }
            out.push((values[i].clone(), 1));
            proof {
                assert forall|k: int| 0 <= k <= n implies run_offset(out@, k) == run_offset(old_out, k) by {
                    lemma_run_offset_prefix(out@, n as int, k);
                    assert(out@.take(n as int) =~= old_out);
                }
                assert(run_offset(out@, n + 1) == i + 1);
                assert forall|k: int, j: int| #![trigger out@[k], values@[j]]
                    0 <= k < out@.len() && run_offset(out@, k) < j < run_offset(out@, k + 1)
                        && T::obeys_eq_spec() implies out@[k].0.eq_spec(&values@[j]) by {
                    if k < n {
                        assert(out@[k] == old_out[k]);
                        assert(run_offset(out@, k + 1) == run_offset(old_out, k + 1));
                    }
                }
                assert forall|k: int| 0 <= k < out@.len() - 1 && T::obeys_eq_spec() implies !(
                #[trigger] out@[k]).0.eq_spec(&values@[run_offset(out@, k + 1) as int]) by {
                    assert(out@[k] == old_out[k]);
                    assert(run_offset(out@, k + 1) == run_offset(old_out, k + 1));
                }
                assert forall|k: int| 0 <= k < out@.len() implies cloned::<T>(
                    values@[run_offset(out@, k) as int],
                    #[trigger] out@[k].0,
                ) by {
                    assert(run_offset(out@, k) == run_offset(old_out, k));
                }
            }
        }
        i = i + 1;
    }
    out
}

pub fn decode<T: Clone>(encoded: &[(T, u64)]) -> (out: Vec<T>)
    requires
        run_offset(encoded@, encoded@.len() as int) <= usize::MAX,
    ensures
        out@.len() == rle_expand(encoded@).len(),
        forall|i: int| 0 <= i < out@.len() ==> cloned::<T>(rle_expand(encoded@)[i], #[trigger] out@[i]),
{
    proof {
        lemma_rle_expand(encoded@);
    }
    let mut out: Vec<T> = Vec::new();
    let mut k: usize = 0;
    while k < encoded.len()
        invariant
            0 <= k <= encoded.len(),
            run_offset(encoded@, encoded@.len() as int) <= usize::MAX,
            rle_expand(encoded@).len() == run_offset(encoded@, encoded@.len() as int),
            forall|r: int, j: int| #![trigger encoded@[r], rle_expand(encoded@)[j]]
                0 <= r < encoded@.len() && run_offset(encoded@, r) <= j < run_offset(encoded@, r + 1)
                    ==> rle_expand(encoded@)[j] == encoded@[r].0,
            out@.len() == run_offset(encoded@, k as int),
            forall|i: int| 0 <= i < out@.len() ==> cloned::<T>(rle_expand(encoded@)[i], #[trigger] out@[i]),
        decreases encoded.len() - k,
    {
        proof {
            lemma_run_offset_monotone(encoded@, k + 1, encoded@.len() as int);
        }
        let count = encoded[k].1 as usize;
        let mut c: usize = 0;
        while c < count
            invariant
                0 <= c <= count,
                k < encoded@.len(),
                count == encoded@[k as int].1,
                run_offset(encoded@, k + 1) <= usize::MAX,
                run_offset(encoded@, k + 1) == run_offset(encoded@, k as int) + count,
                rle_expand(encoded@).len() == run_offset(encoded@, encoded@.len() as int),
                forall|r: int, j: int| #![trigger encoded@[r], rle_expand(encoded@)[j]]
                    0 <= r < encoded@.len() && run_offset(encoded@, r) <= j < run_offset(encoded@, r + 1)
                        ==> rle_expand(encoded@)[j] == encoded@[r].0,
                out@.len() == run_offset(encoded@, k as int) + c,
                forall|i: int| 0 <= i < out@.len() ==> cloned::<T>(rle_expand(encoded@)[i], #[trigger] out@[i]),
            decreases count - c,
        {
            let ghost j = out@.len() as int;
            let v = encoded[k].0.clone();
            assert(rle_expand(encoded@)[j] == encoded@[k as int].0);
            out.push(v);
            c = c + 1;
        }
        k = k + 1;
    }
    out
}

/// When `==` on `T` is equality and a clone equals its original, expanding the
/// run-length coding of `values` gives `values` back.
pub proof fn lemma_rle_roundtrip<T: PartialEq + Clone>(values: Seq<T>, runs: Seq<(T, u64)>)
    requires
        is_rle_encoding(values, runs),
        T::obeys_eq_spec(),
        forall|a: T, b: T| #[trigger] a.eq_spec(&b) <==> a == b,
        forall|a: T, b: T| #[trigger] cloned::<T>(a, b) ==> a == b,
    ensures
        rle_expand(runs) == values,
{
    lemma_rle_expand(runs);
    assert forall|j: int| 0 <= j < values.len() implies rle_expand(runs)[j] == values[j] by {
        let k = lemma_find_run(runs, j);
        if j == run_offset(runs, k) {
            assert(cloned::<T>(values[j], runs[k].0));
        } else {
            assert(runs[k].0.eq_spec(&values[j]));
        }
    }
    assert(rle_expand(runs) =~= values);
}

} // verus!
