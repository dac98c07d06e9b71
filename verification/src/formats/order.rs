//! The order of `String` on column names, and the names it puts in order.
use vstd::prelude::*;
use crate::formats::logs::{lex_less, field_name, field_order, count_before};
use crate::text::lemma_decimal_injective;
use crate::formats::table::{count_less, insert_name, insert_keys, row_names};
use crate::formats::table::CellV;

verus! {

/// Each name comes strictly before every later one.
pub open spec fn strictly_sorted(s: Seq<Seq<char>>) -> bool {
    forall|i: int, j: int| 0 <= i < j < s.len() ==> lex_less(#[trigger] s[i], #[trigger] s[j])
}

/// No name comes before itself.
pub proof fn lemma_lex_irreflexive(a: Seq<char>)
    ensures
        !lex_less(a, a),
    decreases a.len(),
{
    if a.len() > 0 {
        lemma_lex_irreflexive(a.drop_first());
    }
}

/// The order of names is transitive.
pub proof fn lemma_lex_transitive(a: Seq<char>, b: Seq<char>, c: Seq<char>)
    requires
        lex_less(a, b),
        lex_less(b, c),
    ensures
        lex_less(a, c),
    decreases a.len(),
{
    if a.len() > 0 && b.len() > 0 && c.len() > 0 && a[0] == b[0] && b[0] == c[0] {
        lemma_lex_transitive(a.drop_first(), b.drop_first(), c.drop_first());
    }
}

/// Of two different names, one comes before the other.
pub proof fn lemma_lex_total(a: Seq<char>, b: Seq<char>)
    requires
        a != b,
    ensures
        lex_less(a, b) || lex_less(b, a),
    decreases a.len(),
{
    if a.len() > 0 && b.len() > 0 && a[0] == b[0] {
        assert(a.drop_first() != b.drop_first()) by {
            if a.drop_first() == b.drop_first() {
                assert(a =~= seq![a[0]] + a.drop_first());
                assert(b =~= seq![b[0]] + b.drop_first());
            }
        }
        lemma_lex_total(a.drop_first(), b.drop_first());
    } else if a.len() == 0 && b.len() == 0 {
        assert(a =~= b);
    }
}

/// In sorted names, those before `x` come first: `count_less` of them.
proof fn lemma_count_less_prefix(s: Seq<Seq<char>>, x: Seq<char>)
    requires
        strictly_sorted(s),
    ensures
        count_less(s, x) <= s.len(),
        forall|i: int| 0 <= i < count_less(s, x) ==> lex_less(#[trigger] s[i], x),
        forall|i: int| count_less(s, x) <= i < s.len() ==> !lex_less(#[trigger] s[i], x),
    decreases s.len(),
{
    if s.len() > 0 {
        let d = s.drop_last();
        assert(strictly_sorted(d)) by {
            assert forall|i: int, j: int| 0 <= i < j < d.len() implies lex_less(#[trigger] d[i], #[trigger] d[j]) by {
                assert(d[i] == s[i] && d[j] == s[j]);
            }
        }
        lemma_count_less_prefix(d, x);
        if lex_less(s.last(), x) {
            assert forall|i: int| 0 <= i < s.len() implies lex_less(#[trigger] s[i], x) by {
                if i < s.len() - 1 {
                    assert(lex_less(s[i], s[s.len() - 1]));
                    lemma_lex_transitive(s[i], s[s.len() - 1], x);
                }
            }
            assert(count_less(d, x) == d.len()) by {
                if count_less(d, x) < d.len() {
                    let i = count_less(d, x) as int;
                    assert(d[i] == s[i]);
                    assert(lex_less(s[i], x));
                }
            }
        } else {
            assert forall|i: int| count_less(s, x) <= i < s.len() implies !lex_less(#[trigger] s[i], x) by {
                if i < s.len() - 1 {
                    assert(d[i] == s[i]);
                }
            }
            assert forall|i: int| 0 <= i < count_less(s, x) implies lex_less(#[trigger] s[i], x) by {
                assert(d[i] == s[i]);
            }
        }
    }
}

/// Putting a name in keeps the names strictly sorted, and the names held are
/// those before and the new one.
pub proof fn lemma_insert_name(s: Seq<Seq<char>>, x: Seq<char>)
    requires
        strictly_sorted(s),
    ensures
        strictly_sorted(insert_name(s, x)),
        forall|y: Seq<char>| #[trigger] insert_name(s, x).contains(y) <==> (s.contains(y) || y == x),
{
    if !s.contains(x) {
        lemma_count_less_prefix(s, x);
        let p = count_less(s, x) as int;
        let t = s.insert(p, x);
        assert forall|i: int| p <= i < s.len() implies lex_less(x, #[trigger] s[i]) by {
            assert(s[i] != x);
            lemma_lex_total(s[i], x);
        }
        assert forall|i: int, j: int| 0 <= i < j < t.len() implies lex_less(#[trigger] t[i], #[trigger] t[j]) by {
            if j < p {
                assert(t[i] == s[i] && t[j] == s[j]);
            } else if j == p {
                assert(t[i] == s[i]);
            } else if i < p {
                assert(t[i] == s[i] && t[j] == s[j - 1]);
                lemma_lex_transitive(s[i], x, s[j - 1]);
            } else if i == p {
                assert(t[j] == s[j - 1]);
            } else {
                assert(t[i] == s[i - 1] && t[j] == s[j - 1]);
            }
        }
        assert forall|y: Seq<char>| t.contains(y) <==> (s.contains(y) || y == x) by {
            if t.contains(y) {
                let i = choose|i: int| 0 <= i < t.len() && t[i] == y;
                if i < p {
                    assert(s[i] == y);
                } else if i > p {
                    assert(s[i - 1] == y);
                }
            }
            if s.contains(y) {
                let i = choose|i: int| 0 <= i < s.len() && s[i] == y;
                if i < p {
                    assert(t[i] == y);
                } else {
                    assert(t[i + 1] == y);
                }
            }
            if y == x {
                assert(t[p] == y);
            }
        }
    }
}

proof fn lemma_insert_keys(s: Seq<Seq<char>>, row: Seq<(Seq<char>, CellV)>)
    requires
        strictly_sorted(s),
    ensures
        strictly_sorted(insert_keys(s, row)),
        forall|y: Seq<char>| #[trigger] insert_keys(s, row).contains(y) <==> (s.contains(y)
            || exists|k: int| 0 <= k < row.len() && (#[trigger] row[k]).0 == y),
    decreases row.len(),
{
    if row.len() > 0 {
        let d = row.drop_last();
        lemma_insert_keys(s, d);
        lemma_insert_name(insert_keys(s, d), row.last().0);
        let x = row.last().0;
        assert forall|y: Seq<char>| insert_keys(s, row).contains(y) <==> (s.contains(y)
            || exists|k: int| 0 <= k < row.len() && (#[trigger] row[k]).0 == y) by {
            let in_d = exists|k: int| 0 <= k < d.len() && (#[trigger] d[k]).0 == y;
            assert(insert_keys(s, d).contains(y) == (s.contains(y) || in_d));
            assert(insert_name(insert_keys(s, d), x).contains(y) == (insert_keys(s, d).contains(y) || y == x));
            assert(insert_keys(s, row) == insert_name(insert_keys(s, d), x));
            assert(insert_keys(s, row).contains(y) == (s.contains(y) || in_d || y == x));
            if in_d {
                let k = choose|k: int| 0 <= k < d.len() && (#[trigger] d[k]).0 == y;
                assert(row[k] == d[k]);
            }
            if y == x {
                assert(row[row.len() - 1].0 == y);
            }
            if exists|k: int| 0 <= k < row.len() && (#[trigger] row[k]).0 == y {
                let k = choose|k: int| 0 <= k < row.len() && (#[trigger] row[k]).0 == y;
                if k < row.len() - 1 {
                    assert(d[k] == row[k]);
                    assert(in_d);
                }
            }
        }
    }
}

/// The column names of a table built from keyed rows are the rows' keys,
/// each once, in increasing `String` order.
pub proof fn lemma_row_names(rows: Seq<Seq<(Seq<char>, CellV)>>)
    ensures
        strictly_sorted(row_names(rows)),
        forall|y: Seq<char>| #[trigger] row_names(rows).contains(y) <==> exists|r: int, k: int|
            0 <= r < rows.len() && 0 <= k < rows[r].len() && (#[trigger] rows[r][k]).0 == y,
    decreases rows.len(),
{
    if rows.len() > 0 {
        let d = rows.drop_last();
        lemma_row_names(d);
        lemma_insert_keys(row_names(d), rows.last());
        let last = rows.last();
        assert forall|y: Seq<char>| row_names(rows).contains(y) <==> exists|r: int, k: int|
            0 <= r < rows.len() && 0 <= k < rows[r].len() && (#[trigger] rows[r][k]).0 == y by {
            let in_d = row_names(d).contains(y);
            let in_last = exists|k: int| 0 <= k < last.len() && (#[trigger] last[k]).0 == y;
            assert(row_names(rows).contains(y) == (in_d || in_last));
            if exists|r: int, k: int| 0 <= r < rows.len() && 0 <= k < rows[r].len() && (#[trigger] rows[r][k]).0 == y {
                let (r, k) = choose|r: int, k: int| 0 <= r < rows.len() && 0 <= k < rows[r].len() && (#[trigger] rows[r][k]).0 == y;
                if r < rows.len() - 1 {
                    assert(d[r][k] == rows[r][k]);
                    assert(in_d);
                } else {
                    assert(last[k] == rows[r][k]);
                    assert(in_last);
                }
            }
            if in_d {
                let (r, k) = choose|r: int, k: int| 0 <= r < d.len() && 0 <= k < d[r].len() && (#[trigger] d[r][k]).0 == y;
                assert(rows[r][k] == d[r][k]);
            }
            if in_last {
                let k = choose|k: int| 0 <= k < last.len() && (#[trigger] last[k]).0 == y;
                assert(rows[rows.len() - 1][k] == last[k]);
            }
        }
    }
}

/// The column names of word positions.
pub open spec fn field_names(s: Seq<nat>) -> Seq<Seq<char>> {
    Seq::new(s.len(), |j: int| field_name(s[j]))
}

proof fn lemma_count_before(s: Seq<nat>, k: nat)
    ensures
        count_before(s, k) == count_less(field_names(s), field_name(k)),
    decreases s.len(),
{
    if s.len() > 0 {
        lemma_count_before(s.drop_last(), k);
        assert(field_names(s.drop_last()) =~= field_names(s).drop_last());
    }
}

proof fn lemma_field_name_injective(a: nat, b: nat)
    requires
        field_name(a) == field_name(b),
    ensures
        a == b,
{
    assert(field_name(a).drop_first() =~= crate::text::spec_decimal(a));
    assert(field_name(b).drop_first() =~= crate::text::spec_decimal(b));
    lemma_decimal_injective(a, b);
}

/// The word positions of `m` words are each put in once, and their column
/// names come in increasing `String` order.
pub proof fn lemma_field_order(m: nat)
    ensures
        field_order(m).len() == m,
        forall|i: int| 0 <= i < m ==> #[trigger] field_order(m)[i] < m,
        forall|i: int, j: int| 0 <= i < j < m ==> field_order(m)[i] != field_order(m)[j],
        strictly_sorted(field_names(field_order(m))),
    decreases m,
{
    if m > 0 {
        let k = (m - 1) as nat;
        let s = field_order(k);
        lemma_field_order(k);
        let ns = field_names(s);
        let x = field_name(k);
        lemma_count_before(s, k);
        lemma_count_less_prefix(ns, x);
        assert(!ns.contains(x)) by {
            if ns.contains(x) {
                let i = choose|i: int| 0 <= i < ns.len() && ns[i] == x;
                lemma_field_name_injective(s[i], k);
            }
        }
        lemma_insert_name(ns, x);
        let p = count_before(s, k) as int;
        let t = s.insert(p, k);
        assert(field_order(m) == t);
        assert(field_names(t) =~= ns.insert(p, x));
        assert forall|i: int| 0 <= i < m implies #[trigger] t[i] < m by {
            if i < p {
                assert(t[i] == s[i]);
            } else if i > p {
                assert(t[i] == s[i - 1]);
            }
        }
        assert forall|i: int, j: int| 0 <= i < j < m implies t[i] != t[j] by {
            if j < p {
                assert(t[i] == s[i] && t[j] == s[j]);
            } else if j == p {
                assert(t[i] == s[i]);
            } else if i < p {
                assert(t[i] == s[i] && t[j] == s[j - 1]);
            } else if i == p {
                assert(t[j] == s[j - 1]);
            } else {
                assert(t[i] == s[i - 1] && t[j] == s[j - 1]);
            }
        }
    }
}

} // verus!
