//! Dictionary coding of strings: a table of distinct strings and one index per value.
use vstd::prelude::*;

verus! {

/// The distinct strings of `s`, each at the place where it first occurs.
pub open spec fn first_occurrences(s: Seq<Seq<char>>) -> Seq<Seq<char>>
    decreases s.len(),
{
    if s.len() == 0 {
        Seq::empty()
    } else {
        let d = first_occurrences(s.drop_last());
        if d.contains(s.last()) {
            d
        } else {
            d.push(s.last())
        }
    }
}

/// The place of `x` in a table that holds it once.
pub open spec fn position_of(d: Seq<Seq<char>>, x: Seq<char>) -> int {
    choose|k: int| 0 <= k < d.len() && d[k] == x
}

pub open spec fn no_duplicates(d: Seq<Seq<char>>) -> bool {
    forall|a: int, b: int| 0 <= a < d.len() && 0 <= b < d.len() && a != b ==> d[a] != d[b]
}

/// The views of a slice of strings.
pub open spec fn strings_view(v: Seq<String>) -> Seq<Seq<char>> {
    v.map_values(|s: String| s@)
}

/// The index of each value in the table of first occurrences.
pub open spec fn spec_dict_indexes(s: Seq<Seq<char>>) -> Seq<u32> {
    Seq::new(s.len(), |i: int| position_of(first_occurrences(s), s[i]) as u32)
}

/// The position of each value in the table of first occurrences.
pub open spec fn spec_dict_positions(s: Seq<Seq<char>>) -> Seq<u64> {
    Seq::new(s.len(), |i: int| position_of(first_occurrences(s), s[i]) as u64)
}

/// Each position lies inside the table, which is no longer than the values.
pub proof fn lemma_dict_positions(s: Seq<Seq<char>>)
    ensures
        forall|i: int| 0 <= i < s.len() ==> 0 <= position_of(first_occurrences(s), #[trigger] s[i])
            < first_occurrences(s).len() && first_occurrences(s)[position_of(first_occurrences(s), s[i])] == s[i],
        first_occurrences(s).len() <= s.len(),
{
    lemma_first_occurrences(s);
    let d = first_occurrences(s);
    assert forall|i: int| 0 <= i < s.len() implies 0 <= position_of(d, #[trigger] s[i]) < d.len()
        && d[position_of(d, s[i])] == s[i] by {
        assert(s.contains(s[i]));
        assert(d.contains(s[i]));
    }
}

/// The strings that the indexes select from the table.
pub open spec fn spec_dict_decode(dict: Seq<Seq<char>>, indexes: Seq<u32>) -> Seq<Seq<char>> {
    Seq::new(indexes.len(), |i: int| dict[indexes[i] as int])
}

pub proof fn lemma_first_occurrences(s: Seq<Seq<char>>)
    ensures
        no_duplicates(first_occurrences(s)),
        forall|x: Seq<char>| first_occurrences(s).contains(x) <==> s.contains(x),
        first_occurrences(s).len() <= s.len(),
    decreases s.len(),
{
    if s.len() > 0 {
        lemma_first_occurrences(s.drop_last());
        let d = first_occurrences(s.drop_last());
        assert forall|x: Seq<char>| first_occurrences(s).contains(x) <==> s.contains(x) by {
            if s.contains(x) && !d.contains(x) {
                let k = choose|k: int| 0 <= k < s.len() && s[k] == x;
                if k < s.len() - 1 {
                    assert(s.drop_last()[k] == x);
                    assert(s.drop_last().contains(x));
                }
                assert(x == s.last());
                assert(first_occurrences(s).last() == x);
            }
            if first_occurrences(s).contains(x) && !d.contains(x) {
                let j = choose|j: int| 0 <= j < first_occurrences(s).len() && first_occurrences(s)[j] == x;
                if j < d.len() {
                    assert(first_occurrences(s)[j] == d[j]);
                    assert(d.contains(x));
                }
                assert(x == s.last());
            }
            if d.contains(x) {
                assert(s.drop_last().contains(x));
                let k = choose|k: int| 0 <= k < s.drop_last().len() && s.drop_last()[k] == x;
                assert(s[k] == x);
                let j = choose|j: int| 0 <= j < d.len() && d[j] == x;
                assert(first_occurrences(s)[j] == x);
            }
        }
    }
}

/// The table of a prefix is a prefix of the table of the whole.
proof fn lemma_first_occurrences_prefix(s: Seq<Seq<char>>, i: int)
    requires
        0 <= i <= s.len(),
    ensures
        first_occurrences(s.take(i)).len() <= first_occurrences(s).len(),
        first_occurrences(s).take(first_occurrences(s.take(i)).len() as int) == first_occurrences(
            s.take(i),
        ),
    decreases s.len() - i,
{
    if i < s.len() {
        lemma_first_occurrences_prefix(s, i + 1);
        assert(s.take(i + 1).drop_last() =~= s.take(i));
    } else {
        assert(s.take(i) =~= s);
    }
}

proof fn lemma_position_unique(d: Seq<Seq<char>>, x: Seq<char>, k: int)
    requires
        no_duplicates(d),
        0 <= k < d.len(),
        d[k] == x,
    ensures
        position_of(d, x) == k,
{
}

fn find(dict: &Vec<String>, value: &String) -> (r: Option<usize>)
    ensures
        r matches Some(k) ==> k < dict.len() && dict@[k as int]@ == value@,
        r is None ==> !strings_view(dict@).contains(value@),
{
    let mut k: usize = 0;
    while k < dict.len()
        invariant
            0 <= k <= dict.len(),
            forall|j: int| 0 <= j < k ==> dict@[j]@ != value@,
        decreases dict.len() - k,
    {
        if dict[k] == *value {
            return Some(k);
        }
        k = k + 1;
    }
    assert forall|j: int| 0 <= j < dict.len() implies strings_view(dict@)[j] != value@ by {}
    None
}

/// The table of first occurrences and the position of each value in it.
pub fn encode_wide(values: &[String]) -> (out: (Vec<String>, Vec<u64>))
    ensures
        strings_view(out.0@) == first_occurrences(strings_view(values@)),
        out.1@ == spec_dict_positions(strings_view(values@)),
{
    let ghost s = strings_view(values@);
    let mut dict: Vec<String> = Vec::new();
    let mut indexes: Vec<u64> = Vec::new();
    let mut i: usize = 0;
    assert(s.take(0) =~= Seq::<Seq<char>>::empty());
    assert(strings_view(dict@) =~= first_occurrences(s.take(0)));
    while i < values.len()
        invariant
            0 <= i <= values.len(),
            s == strings_view(values@),
            strings_view(dict@) == first_occurrences(s.take(i as int)),
            indexes@.len() == i,
            forall|j: int|
                0 <= j < i ==> #[trigger] indexes@[j] == position_of(
                    first_occurrences(s.take(i as int)),
                    s[j],
                ) as u64 && indexes@[j] < dict@.len() && strings_view(dict@)[indexes@[j] as int] == s[j],
        decreases values.len() - i,
    {
        let ghost before = first_occurrences(s.take(i as int));
        proof {
            lemma_first_occurrences(s.take(i as int));
            lemma_first_occurrences(s.take(i + 1));
            assert(s.take(i + 1).drop_last() =~= s.take(i as int));
            assert(s.take(i + 1).last() == s[i as int]);
        }
        let ghost old_idx = indexes@;
        assert forall|j: int| 0 <= j < i implies (#[trigger] old_idx[j]) < before.len() && before[old_idx[j] as int] == s[j] by {}
        let found = find(&dict, &values[i]);
        let idx: u64;
        match found {
            Some(k) => {
                assert(strings_view(dict@)[k as int] == s[i as int]);
                assert(before.contains(s[i as int]));
                assert(first_occurrences(s.take(i + 1)) == before);
                idx = k as u64;
                proof {
                    lemma_position_unique(before, s[i as int], k as int);
                }
            },
            None => {
                assert(!before.contains(s[i as int]));
                assert(first_occurrences(s.take(i + 1)) == before.push(s[i as int]));
                proof {
                    lemma_first_occurrences(s.take(i as int));
                    assert(before.len() <= i);
                }
                idx = dict.len() as u64;
                dict.push(values[i].clone());
                assert(strings_view(dict@) =~= before.push(s[i as int]));
                proof {
                    lemma_position_unique(strings_view(dict@), s[i as int], before.len() as int);
                }
            },
        }
        indexes.push(idx);
        proof {
            let after = first_occurrences(s.take(i + 1));
            assert(after.take(before.len() as int) =~= before);
            assert forall|j: int| 0 <= j < i + 1 implies #[trigger] indexes@[j] == position_of(
                after,
                s[j],
            ) as u64 && indexes@[j] < dict@.len() && strings_view(dict@)[indexes@[j] as int] == s[j] by {
                if j < i {
                    let p = indexes@[j] as int;
                    assert(before[p] == s[j]);
                    assert(after[p] == before[p]);
                    lemma_position_unique(after, s[j], p);
                }
            }
        }
        i = i + 1;
    }
    assert(s.take(values.len() as int) =~= s);
    assert(indexes@ =~= spec_dict_positions(s));
    (dict, indexes)
}

/// The table of distinct values in order of first occurrence, and each
/// value's position in it as a `u32` (cut to its low 32 bits where the table
/// outgrows a `u32`).
pub fn encode(values: &[String]) -> (out: (Vec<String>, Vec<u32>))
    ensures
        strings_view(out.0@) == first_occurrences(strings_view(values@)),
        out.1@ == spec_dict_indexes(strings_view(values@)),
{
    let (dict, wide) = encode_wide(values);
    proof {
        lemma_first_occurrences(strings_view(values@));
    }
    let mut indexes: Vec<u32> = Vec::new();
    let mut i: usize = 0;
    while i < wide.len()
        invariant
            0 <= i <= wide.len(),
            wide@ == spec_dict_positions(strings_view(values@)),
            indexes@ == spec_dict_indexes(strings_view(values@)).take(i as int),
        decreases wide.len() - i,
    {
        proof {
            lemma_dict_positions(strings_view(values@));
        }
        indexes.push(wide[i] as u32);
        i = i + 1;
        assert(indexes@ =~= spec_dict_indexes(strings_view(values@)).take(i as int));
    }
    assert(indexes@ =~= spec_dict_indexes(strings_view(values@)));
    (dict, indexes)
}

pub fn decode(dict: &[String], indexes: &[u32]) -> (out: Vec<String>)
    requires
        forall|i: int| 0 <= i < indexes@.len() ==> (#[trigger] indexes@[i]) < dict@.len(),
    ensures
        strings_view(out@) == spec_dict_decode(strings_view(dict@), indexes@),
{
    let mut out: Vec<String> = Vec::new();
    let mut i: usize = 0;
    while i < indexes.len()
        invariant
            0 <= i <= indexes.len(),
            forall|j: int| 0 <= j < indexes@.len() ==> (#[trigger] indexes@[j]) < dict@.len(),
            out@.len() == i,
            forall|j: int| 0 <= j < i ==> #[trigger] out@[j]@ == dict@[indexes@[j] as int]@,
        decreases indexes.len() - i,
    {
        out.push(dict[indexes[i] as usize].clone());
        i = i + 1;
    }
    assert(strings_view(out@) =~= spec_dict_decode(strings_view(dict@), indexes@));
    out
}

/// Looking every index up in the table gives the strings back, wherever the
/// distinct values are few enough for a `u32` index.
pub proof fn lemma_dict_roundtrip(s: Seq<Seq<char>>)
    requires
        first_occurrences(s).len() <= u32::MAX + 1,
    ensures
        forall|i: int|
            0 <= i < s.len() ==> (#[trigger] spec_dict_indexes(s)[i]) < first_occurrences(s).len(),
        spec_dict_decode(first_occurrences(s), spec_dict_indexes(s)) == s,
{
    lemma_first_occurrences(s);
    let d = first_occurrences(s);
    assert forall|i: int| 0 <= i < s.len() implies (#[trigger] spec_dict_indexes(s)[i]) < d.len()
        && d[spec_dict_indexes(s)[i] as int] == s[i] by {
        assert(s.contains(s[i]));
        assert(d.contains(s[i]));
        let w = choose|k: int| 0 <= k < d.len() && d[k] == s[i];
        lemma_position_unique(d, s[i], w);
    }
    assert(spec_dict_decode(d, spec_dict_indexes(s)) =~= s);
}

} // verus!
