//! What reading a log text and writing its table back gives.
use vstd::prelude::*;
use crate::detect::lines_from;
use crate::formats::fields::{find_char, lemma_find_char, spec_parse_i64, spec_key_value, words};
use crate::formats::jsonl::{endings_are, joined_rows, newline_chars, lemma_lines_rejoin};
use crate::formats::logs::{TemplateLineV, spec_template_line, all_template, template_lines, template_names, add_keys, join_keys, last_value, template_cell, template_table, spec_parse_logs, timestamp_name, level_name, order_name, max_words, field_name, field_order, word_cell, plain_table, lex_less};
use crate::formats::order::{lemma_field_order, field_names, lemma_lex_irreflexive};
use crate::formats::logs_text::{cell_at, first_named, comma_split, nonempty_names, join_commas, field_part, fields_text, row_keys, template_row, template_text, line_end, is_template_table, spec_reconstruct_logs, opt_text, plain_row, plain_text};
use crate::formats::table::{ColumnV, LineEnding, stable_text, ends_with_newline};
use crate::text::spec_i64_text;

verus! {

/// The keys of fields.
pub open spec fn keys_of(f: Seq<(Seq<char>, Seq<char>)>) -> Seq<Seq<char>> {
    Seq::new(f.len(), |i: int| f[i].0)
}

/// ` key=value` for each field, in order.
pub open spec fn key_value_texts(f: Seq<(Seq<char>, Seq<char>)>) -> Seq<char>
    decreases f.len(),
{
    if f.len() == 0 {
        Seq::empty()
    } else {
        seq![' '] + f[0].0 + seq!['='] + f[0].1 + key_value_texts(f.drop_first())
    }
}

/// The text of a template line with single spaces: timestamp, level, then
/// ` key=value` per field.
pub open spec fn template_line_text(v: TemplateLineV) -> Seq<char> {
    v.timestamp + seq![' '] + v.level + key_value_texts(v.fields)
}

/// A value that is written back as it was read: text, or an integer in the
/// form Rust writes it.
pub open spec fn canonical_value(s: Seq<char>) -> bool {
    spec_parse_i64(s) matches Some(x) ==> spec_i64_text(x) == s
}

/// A template line that its table row writes back unchanged: single spaces,
/// distinct keys that are not column names of their own and hold no comma,
/// and values in canonical form.
pub open spec fn canonical_template_line(line: Seq<char>) -> bool {
    spec_template_line(line) matches Some(v) && {
        &&& line == template_line_text(v)
        &&& forall|i: int, j: int| 0 <= i < j < v.fields.len() ==> v.fields[i].0 != v.fields[j].0
        &&& forall|i: int| 0 <= i < v.fields.len() ==> {
            let k = #[trigger] v.fields[i].0;
            &&& k != timestamp_name()
            &&& k != level_name()
            &&& k != order_name()
            &&& !k.contains(',')
            &&& canonical_value(v.fields[i].1)
        }
    }
}

proof fn lemma_add_keys(n: Seq<Seq<char>>, f: Seq<(Seq<char>, Seq<char>)>)
    ensures
        add_keys(n, f).len() >= n.len(),
        forall|i: int| 0 <= i < n.len() ==> add_keys(n, f)[i] == n[i],
        forall|x: Seq<char>| n.contains(x) ==> add_keys(n, f).contains(x),
        forall|i: int| 0 <= i < f.len() ==> add_keys(n, f).contains(#[trigger] f[i].0),
    decreases f.len(),
{
    if f.len() > 0 {
        lemma_add_keys(n, f.drop_last());
        let m = add_keys(n, f.drop_last());
        assert forall|i: int| 0 <= i < f.len() implies add_keys(n, f).contains(#[trigger] f[i].0) by {
            if i < f.len() - 1 {
                assert(f.drop_last()[i] == f[i]);
                assert(m.contains(f[i].0));
                if !m.contains(f.last().0) {
                    let k = choose|k: int| 0 <= k < m.len() && m[k] == f[i].0;
                    assert(m.push(f.last().0)[k] == f[i].0);
                }
            } else {
                if !m.contains(f.last().0) {
                    assert(m.push(f.last().0)[m.len() as int] == f.last().0);
                }
            }
        }
        assert forall|x: Seq<char>| n.contains(x) implies add_keys(n, f).contains(x) by {
            assert(m.contains(x));
            if !m.contains(f.last().0) {
                let k = choose|k: int| 0 <= k < m.len() && m[k] == x;
                assert(m.push(f.last().0)[k] == x);
            }
        }
    }
}

proof fn lemma_template_names(p: Seq<TemplateLineV>)
    ensures
        template_names(p).len() >= 3,
        template_names(p)[0] == timestamp_name(),
        template_names(p)[1] == level_name(),
        template_names(p)[2] == order_name(),
        forall|r: int, i: int| 0 <= r < p.len() && 0 <= i < p[r].fields.len() ==> template_names(p).contains(#[trigger] p[r].fields[i].0),
    decreases p.len(),
{
    if p.len() > 0 {
        lemma_template_names(p.drop_last());
        let base = template_names(p.drop_last());
        lemma_add_keys(base, p.last().fields);
        assert forall|r: int, i: int| 0 <= r < p.len() && 0 <= i < p[r].fields.len() implies template_names(p).contains(#[trigger] p[r].fields[i].0) by {
            if r < p.len() - 1 {
                assert(p.drop_last()[r] == p[r]);
                assert(base.contains(p[r].fields[i].0));
            } else {
                assert(p.last() == p[r]);
            }
        }
    }
}

proof fn lemma_first_named_found(cols: Seq<ColumnV>, name: Seq<char>, i: int, j: int)
    requires
        0 <= i <= j < cols.len(),
        cols[j].name == name,
    ensures
        first_named(cols, name, i) matches Some(k) && 0 <= k < cols.len() && cols[k].name == name,
    decreases cols.len() - i,
{
    if cols[i].name != name {
        lemma_first_named_found(cols, name, i + 1, j);
    }
}

proof fn lemma_find_char_shift(s: Seq<char>, c: char, i: int, k: int)
    requires
        0 <= i <= s.len(),
        0 <= k,
        i + k <= s.len(),
    ensures
        find_char(s, c, i + k) - i == find_char(s.skip(i), c, k),
    decreases s.len() - i - k,
{
    if i + k < s.len() {
        assert(s.skip(i)[k] == s[i + k]);
        if s[i + k] != c {
            lemma_find_char_shift(s, c, i, k + 1);
        }
    }
}

proof fn lemma_split_shift(s: Seq<char>, i: int)
    requires
        0 <= i <= s.len(),
    ensures
        comma_split(s, i) == comma_split(s.skip(i), 0),
    decreases s.len() + 1 - i,
{
    let t = s.skip(i);
    let p = find_char(s, ',', i);
    lemma_find_char(s, ',', i);
    lemma_find_char_shift(s, ',', i, 0);
    assert(find_char(t, ',', 0) == p - i);
    if p >= s.len() {
        assert(t.subrange(0, t.len() as int) =~= s.subrange(i, s.len() as int));
    } else {
        assert(t.subrange(0, p - i) =~= s.subrange(i, p));
        lemma_split_shift(s, p + 1);
        lemma_split_shift(t, p - i + 1);
        assert(t.skip(p - i + 1) =~= s.skip(p + 1));
    }
}

proof fn lemma_join_front(ks: Seq<Seq<char>>)
    requires
        ks.len() >= 2,
    ensures
        join_commas(ks) == ks[0] + seq![','] + join_commas(ks.drop_first()),
    decreases ks.len(),
{
    assert(join_commas(ks) == join_commas(ks.drop_last()) + seq![','] + ks.last());
    if ks.len() == 2 {
        assert(ks.drop_last() =~= seq![ks[0]]);
        assert(ks.drop_first() =~= seq![ks[1]]);
        assert(join_commas(ks.drop_last()) == ks[0]);
        assert(join_commas(ks.drop_first()) == ks[1]);
        assert(ks.last() == ks[1]);
    } else {
        lemma_join_front(ks.drop_last());
        assert(ks.drop_last().drop_first() =~= ks.drop_first().drop_last());
        assert(ks.drop_last()[0] == ks[0]);
        assert(ks.drop_first().last() == ks.last());
        let a = ks[0];
        let c = join_commas(ks.drop_first().drop_last());
        assert(join_commas(ks.drop_first()) == c + seq![','] + ks.last());
        assert(join_commas(ks) == (a + seq![','] + c) + seq![','] + ks.last());
        assert((a + seq![','] + c) + seq![','] + ks.last() =~= a + seq![','] + (c + seq![','] + ks.last()));
    }
}

proof fn lemma_split_join(ks: Seq<Seq<char>>)
    requires
        ks.len() >= 1,
        forall|i: int| 0 <= i < ks.len() ==> !(#[trigger] ks[i]).contains(','),
    ensures
        comma_split(join_commas(ks), 0) == ks,
    decreases ks.len(),
{
    let s = join_commas(ks);
    lemma_find_char(s, ',', 0);
    if ks.len() == 1 {
        assert(s == ks[0]);
        if find_char(s, ',', 0) < s.len() {
            assert(s[find_char(s, ',', 0)] == ',');
        }
        assert(s.subrange(0, s.len() as int) =~= s);
        assert(comma_split(s, 0) =~= ks);
    } else {
        lemma_join_front(ks);
        let rest = ks.drop_first();
        assert forall|i: int| 0 <= i < rest.len() implies !(#[trigger] rest[i]).contains(',') by {
            assert(rest[i] == ks[i + 1]);
        }
        lemma_split_join(rest);
        let l0 = ks[0].len() as int;
        assert(s[l0] == ',');
        let p = find_char(s, ',', 0);
        assert(p == l0) by {
            if p < l0 {
                assert(s[p] == ks[0][p]);
            }
        }
        assert(s.subrange(0, l0) =~= ks[0]);
        lemma_split_shift(s, l0 + 1);
        assert(s.skip(l0 + 1) =~= join_commas(rest));
        assert(comma_split(s, 0) =~= seq![ks[0]] + rest);
    }
}

proof fn lemma_join_keys(f: Seq<(Seq<char>, Seq<char>)>)
    ensures
        join_keys(f) == join_commas(keys_of(f)),
    decreases f.len(),
{
    if f.len() > 0 {
        lemma_join_keys(f.drop_last());
        assert(keys_of(f.drop_last()) =~= keys_of(f).drop_last());
    }
}

proof fn lemma_nonempty_all(ks: Seq<Seq<char>>)
    requires
        forall|i: int| 0 <= i < ks.len() ==> (#[trigger] ks[i]).len() > 0,
    ensures
        nonempty_names(ks) == ks,
    decreases ks.len(),
{
    if ks.len() > 0 {
        assert forall|i: int| 0 <= i < ks.drop_first().len() implies (#[trigger] ks.drop_first()[i]).len() > 0 by {
            assert(ks.drop_first()[i] == ks[i + 1]);
        }
        lemma_nonempty_all(ks.drop_first());
        assert(seq![ks[0]] + ks.drop_first() =~= ks);
    }
}

proof fn lemma_fields_text(cols: Seq<ColumnV>, f: Seq<(Seq<char>, Seq<char>)>, r: int, ft: Seq<(u64, Seq<char>)>)
    requires
        forall|i: int| 0 <= i < f.len() ==> field_part(cols, (#[trigger] f[i]).0, r, ft)
            == seq![' '] + f[i].0 + seq!['='] + f[i].1,
    ensures
        fields_text(cols, keys_of(f), r, ft) == key_value_texts(f),
    decreases f.len(),
{
    if f.len() > 0 {
        let g = f.drop_first();
        assert forall|i: int| 0 <= i < g.len() implies field_part(cols, (#[trigger] g[i]).0, r, ft)
            == seq![' '] + g[i].0 + seq!['='] + g[i].1 by {
            assert(g[i] == f[i + 1]);
        }
        lemma_fields_text(cols, g, r, ft);
        assert(keys_of(f).drop_first() =~= keys_of(g));
        assert(keys_of(f)[0] == f[0].0);
        assert(f[0] == f[0]);
    }
}

/// A canonical value's cell is written back as the value.
proof fn lemma_canonical_value(s: Seq<char>, ft: Seq<(u64, Seq<char>)>)
    requires
        canonical_value(s),
    ensures
        stable_text(crate::formats::fields::spec_log_cell(s), ft) == s,
{
}

/// The last field with a key is the only one when keys are distinct.
proof fn lemma_last_value(f: Seq<(Seq<char>, Seq<char>)>, i: int)
    requires
        0 <= i < f.len(),
        forall|a: int, b: int| 0 <= a < b < f.len() ==> f[a].0 != f[b].0,
    ensures
        last_value(f, f[i].0) == Some(f[i].1),
    decreases f.len(),
{
    if i < f.len() - 1 {
        assert(f.last().0 != f[i].0);
        assert(f.drop_last()[i] == f[i]);
        lemma_last_value(f.drop_last(), i);
    }
}

/// Row `r` of the template table writes back line `r`.
proof fn lemma_template_row(lines: Seq<Seq<char>>, le: LineEnding, tr: bool, ft: Seq<(u64, Seq<char>)>, r: int)
    requires
        all_template(lines),
        forall|k: int| 0 <= k < lines.len() ==> canonical_template_line(#[trigger] lines[k]),
        0 <= r < lines.len(),
        lines.len() <= usize::MAX,
    ensures
        template_row(template_table(lines, le, tr), r, ft) == lines[r],
{
    let tb = template_table(lines, le, tr);
    let p = template_lines(lines);
    let names = template_names(p);
    let cols = tb.columns;
    lemma_template_names(p);
    let v = p[r];
    assert(canonical_template_line(lines[r]));
    assert(v == spec_template_line(lines[r])->0);
    assert(cols[0].name == timestamp_name());
    assert(cols[1].name == level_name());
    assert(cols[2].name == order_name());
    assert(first_named(cols, timestamp_name(), 0) == Some(0int));
    assert(first_named(cols, level_name(), 1) == Some(1int));
    assert(first_named(cols, level_name(), 0) == Some(1int));
    assert(first_named(cols, order_name(), 2) == Some(2int));
    assert(first_named(cols, order_name(), 1) == Some(2int));
    assert(first_named(cols, order_name(), 0) == Some(2int));
    assert(cell_at(cols[0], r) == template_cell(v, timestamp_name()));
    assert(cell_at(cols[1], r) == template_cell(v, level_name()));
    assert(cell_at(cols[2], r) == template_cell(v, order_name()));
    let f = v.fields;
    let ks = keys_of(f);
    lemma_join_keys(f);
    assert forall|i: int| 0 <= i < ks.len() implies !(#[trigger] ks[i]).contains(',') by {
        assert(ks[i] == f[i].0);
    }
    assert(f.len() >= 1);
    lemma_split_join(ks);
    let w = crate::formats::fields::words(lines[r]);
    assert(spec_template_line(lines[r]) is Some);
    assert forall|i: int| 0 <= i < ks.len() implies (#[trigger] ks[i]).len() > 0 by {
        assert(ks[i] == f[i].0);
        assert(2 <= i + 2 < w.len());
        assert(spec_key_value(w[i + 2]) is Some);
        assert(f[i] == spec_key_value(w[i + 2])->0);
        let wi = w[i + 2];
        let pp = find_char(wi, '=', 0);
        assert(spec_key_value(wi) == (if pp >= wi.len() || pp == 0 || pp + 1 >= wi.len() {
            None
        } else {
            Some((wi.take(pp), wi.skip(pp + 1)))
        }));
        assert(spec_key_value(wi) is Some);
        lemma_find_char(wi, '=', 0);
        assert(!(pp >= wi.len() || pp == 0 || pp + 1 >= wi.len()));
        assert(f[i].0 == w[i + 2].take(pp));
    }
    lemma_nonempty_all(ks);
    assert(row_keys(tb, r, ft) == ks);
    assert forall|i: int| 0 <= i < f.len() implies field_part(cols, (#[trigger] f[i]).0, r, ft)
        == seq![' '] + f[i].0 + seq!['='] + f[i].1 by {
        let key = f[i].0;
        assert(names.contains(p[r].fields[i].0));
        let j = choose|j: int| 0 <= j < names.len() && names[j] == key;
        assert(cols[j].name == key);
        lemma_first_named_found(cols, key, 0, j);
        let k = first_named(cols, key, 0)->Some_0;
        assert(cols[k].name == key);
        assert(cell_at(cols[k], r) == template_cell(v, key));
        lemma_last_value(f, i);
        lemma_canonical_value(f[i].1, ft);
    }
    lemma_fields_text(cols, f, r, ft);
    assert(template_row(tb, r, ft) =~= template_line_text(v));
}

/// The first `k` rows of the template table write back the first `k` lines,
/// each with its line ending.
proof fn lemma_template_text(lines: Seq<Seq<char>>, le: LineEnding, tr: bool, ft: Seq<(u64, Seq<char>)>, k: nat)
    requires
        all_template(lines),
        forall|i: int| 0 <= i < lines.len() ==> canonical_template_line(#[trigger] lines[i]),
        k <= lines.len(),
        lines.len() <= usize::MAX,
    ensures
        template_text(template_table(lines, le, tr), k, ft) == joined_rows(lines, le, tr).take(k as int).flatten(),
    decreases k,
{
    let rows = joined_rows(lines, le, tr);
    if k == 0 {
        assert(rows.take(0) =~= Seq::<Seq<char>>::empty());
    } else {
        lemma_template_text(lines, le, tr, ft, (k - 1) as nat);
        lemma_template_row(lines, le, tr, ft, k - 1);
        assert(rows.take(k as int) =~= rows.take(k - 1).push(rows[k - 1]));
        rows.take(k - 1).lemma_flatten_push(rows[k - 1]);
        let tb = template_table(lines, le, tr);
        assert(line_end(tb, k - 1) == (if k - 1 + 1 < lines.len() || tr { newline_chars(le) } else { Seq::<char>::empty() }));
        assert(rows[k - 1] == lines[k - 1] + line_end(tb, k - 1));
    }
}

/// A log text whose lines all follow the template canonically (single
/// spaces, distinct keys that hold no comma and are not the timestamp, level
/// or key-order names, values in the form they are written back in) and
/// whose line endings are all of one kind is written back unchanged from its
/// table, whatever texts are given for floats.
pub proof fn lemma_template_logs_roundtrip(t: Seq<char>, le: LineEnding, ft: Seq<(u64, Seq<char>)>)
    requires
        endings_are(t, le),
        t.len() <= usize::MAX,
        lines_from(t, 0).len() > 0,
        forall|i: int| 0 <= i < lines_from(t, 0).len() ==> canonical_template_line(#[trigger] lines_from(t, 0)[i]),
    ensures
        spec_reconstruct_logs(spec_parse_logs(t, le), ft) == t,
{
    let lines = lines_from(t, 0);
    let tr = ends_with_newline(t);
    lemma_lines_rejoin(t, 0, le);
    assert(all_template(lines));
    let tb = template_table(lines, le, tr);
    lemma_template_names(template_lines(lines));
    assert(is_template_table(tb));
    lemma_template_text(lines, le, tr, ft, lines.len());
    assert(joined_rows(lines, le, tr).take(lines.len() as int) =~= joined_rows(lines, le, tr));
    assert(t.subrange(0, t.len() as int) =~= t);
}

/// Words separated by single spaces.
pub open spec fn spaced(ws: Seq<Seq<char>>) -> Seq<char>
    decreases ws.len(),
{
    if ws.len() == 0 {
        Seq::empty()
    } else if ws.len() == 1 {
        ws[0]
    } else {
        spaced(ws.drop_last()) + seq![' '] + ws.last()
    }
}

/// A line of `m` words separated by single spaces, each in the form it is
/// written back in.
pub open spec fn canonical_word_line(line: Seq<char>, m: nat) -> bool {
    &&& words(line).len() == m
    &&& line == spaced(words(line))
    &&& forall|i: int| 0 <= i < m ==> canonical_value(#[trigger] words(line)[i])
}

proof fn lemma_max_words(lines: Seq<Seq<char>>, m: nat)
    requires
        lines.len() > 0,
        forall|i: int| 0 <= i < lines.len() ==> words(#[trigger] lines[i]).len() == m,
    ensures
        max_words(lines) == m,
    decreases lines.len(),
{
    if lines.len() > 1 {
        let d = lines.drop_last();
        assert forall|i: int| 0 <= i < d.len() implies words(#[trigger] d[i]).len() == m by {
            assert(d[i] == lines[i]);
        }
        lemma_max_words(d, m);
    } else {
        assert(lines.drop_last().len() == 0);
        assert(max_words(lines.drop_last()) == 0);
    }
    assert(words(lines.last()).len() == m) by {
        assert(lines.last() == lines[lines.len() - 1]);
    }
    assert(max_words(lines) == (if words(lines.last()).len() > max_words(lines.drop_last()) {
        words(lines.last()).len()
    } else {
        max_words(lines.drop_last())
    }));
}

/// Below ten, the names of word positions come in the order of the positions.
proof fn lemma_small_names(a: nat, b: nat)
    requires
        a < 10,
        b < 10,
        lex_less(field_name(a), field_name(b)),
    ensures
        a < b,
{
    let da = crate::text::spec_decimal(a);
    let db = crate::text::spec_decimal(b);
    assert(crate::text::spec_decimal_bytes(a) == seq![(48 + a) as u8]);
    assert(crate::text::spec_decimal_bytes(b) == seq![(48 + b) as u8]);
    assert(da.len() == 1 && db.len() == 1);
    assert(field_name(a).drop_first() =~= da);
    assert(field_name(b).drop_first() =~= db);
    assert(field_name(a)[0] == field_name(b)[0]);
    assert(lex_less(da, db));
    if a == b {
        lemma_lex_irreflexive(da);
    } else {
        assert(da[0] != db[0]) by {
            assert(da[0] == ((48 + a) as u8) as char);
            assert(db[0] == ((48 + b) as u8) as char);
        }
        assert(da[0] < db[0]);
        assert(da[0] == ((48 + a) as u8) as char);
        assert(db[0] == ((48 + b) as u8) as char);
    }
}

/// Up to ten word positions keep their order.
proof fn lemma_small_order(m: nat)
    requires
        m <= 10,
    ensures
        field_order(m).len() == m,
        forall|i: int| 0 <= i < m ==> #[trigger] field_order(m)[i] == i,
{
    lemma_field_order(m);
    let o = field_order(m);
    assert forall|i: int, j: int| 0 <= i < j < m implies #[trigger] o[i] < #[trigger] o[j] by {
        assert(field_names(o)[i] == field_name(o[i]));
        assert(field_names(o)[j] == field_name(o[j]));
        lemma_small_names(o[i], o[j]);
    }
    assert forall|i: int| 0 <= i < m implies o[i] >= i by {
        lemma_increasing_from_below(o, m, i);
    }
    assert forall|i: int| 0 <= i < m implies o[i] <= i by {
        lemma_increasing_from_above(o, m, i);
    }
}

proof fn lemma_increasing_from_below(o: Seq<nat>, m: nat, i: int)
    requires
        o.len() == m,
        0 <= i < m,
        forall|a: int, b: int| 0 <= a < b < m ==> #[trigger] o[a] < #[trigger] o[b],
    ensures
        o[i] >= i,
    decreases i,
{
    if i > 0 {
        lemma_increasing_from_below(o, m, i - 1);
        assert(o[i - 1] < o[i]);
    }
}

proof fn lemma_increasing_from_above(o: Seq<nat>, m: nat, i: int)
    requires
        o.len() == m,
        0 <= i < m,
        forall|a: int, b: int| 0 <= a < b < m ==> #[trigger] o[a] < #[trigger] o[b],
        forall|a: int| 0 <= a < m ==> #[trigger] o[a] < m,
    ensures
        o[i] + (m - 1 - i) <= m - 1,
    decreases m - i,
{
    if i < m - 1 {
        lemma_increasing_from_above(o, m, i + 1);
        assert(o[i] < o[i + 1]);
    }
}

/// Row `r` of the table by word position writes back line `r`.
proof fn lemma_plain_row(lines: Seq<Seq<char>>, le: LineEnding, tr: bool, ft: Seq<(u64, Seq<char>)>, m: nat, r: int, k: nat)
    requires
        m <= 10,
        k <= m,
        0 <= r < lines.len(),
        lines.len() <= usize::MAX,
        max_words(lines) == m,
        forall|i: int| 0 <= i < lines.len() ==> canonical_word_line(#[trigger] lines[i], m),
    ensures
        plain_row(plain_table(lines, le, tr).columns.take(k as int), r, ft) == spaced(words(lines[r]).take(k as int)),
    decreases k,
{
    let cols = plain_table(lines, le, tr).columns;
    let ws = words(lines[r]);
    lemma_small_order(m);
    assert(canonical_word_line(lines[r], m));
    if k > 0 {
        lemma_plain_row(lines, le, tr, ft, m, r, (k - 1) as nat);
        let j = k - 1;
        assert(cols.take(k as int).drop_last() =~= cols.take(j));
        assert(ws.take(k as int).drop_last() =~= ws.take(j));
        assert(cols.take(k as int).last() == cols[j]);
        assert(ws.take(k as int).last() == ws[j]);
        assert(field_order(m)[j] == j);
        assert(cell_at(cols[j], r) == word_cell(lines[r], j as nat));
        assert(canonical_value(ws[j]));
        assert(opt_text(cell_at(cols[j], r), ft) == ws[j]);
        if k == 1 {
            assert(cols.take(1)[0] == cols[0]);
            assert(ws.take(1)[0] == ws[0]);
        }
    } else {
        assert(cols.take(0).len() == 0);
        assert(ws.take(0).len() == 0);
    }
}

/// The first `k` rows by word position write back the first `k` lines, each
/// with its line ending.
proof fn lemma_plain_text(lines: Seq<Seq<char>>, le: LineEnding, tr: bool, ft: Seq<(u64, Seq<char>)>, m: nat, k: nat)
    requires
        m <= 10,
        k <= lines.len(),
        lines.len() <= usize::MAX,
        max_words(lines) == m,
        forall|i: int| 0 <= i < lines.len() ==> canonical_word_line(#[trigger] lines[i], m),
    ensures
        plain_text(plain_table(lines, le, tr), k, ft) == joined_rows(lines, le, tr).take(k as int).flatten(),
    decreases k,
{
    let rows = joined_rows(lines, le, tr);
    let tb = plain_table(lines, le, tr);
    if k == 0 {
        assert(rows.take(0) =~= Seq::<Seq<char>>::empty());
    } else {
        lemma_plain_text(lines, le, tr, ft, m, (k - 1) as nat);
        lemma_small_order(m);
        lemma_plain_row(lines, le, tr, ft, m, k - 1, m);
        assert(tb.columns.take(m as int) =~= tb.columns);
        assert(canonical_word_line(lines[k - 1], m));
        assert(words(lines[k - 1]).take(m as int) =~= words(lines[k - 1]));
        assert(rows.take(k as int) =~= rows.take(k - 1).push(rows[k - 1]));
        rows.take(k - 1).lemma_flatten_push(rows[k - 1]);
        assert(line_end(tb, k - 1) == (if k - 1 + 1 < lines.len() || tr { newline_chars(le) } else { Seq::<char>::empty() }));
    }
}

/// A log text whose lines do not all follow the template, but each hold the
/// same number of words (at most ten) separated by single spaces, in the form
/// they are written back in, and whose line endings are all of one kind, is
/// written back unchanged from its table by word position.
pub proof fn lemma_word_logs_roundtrip(t: Seq<char>, le: LineEnding, ft: Seq<(u64, Seq<char>)>, m: nat)
    requires
        endings_are(t, le),
        t.len() <= usize::MAX,
        m <= 10,
        !all_template(lines_from(t, 0)),
        forall|i: int| 0 <= i < lines_from(t, 0).len() ==> canonical_word_line(#[trigger] lines_from(t, 0)[i], m),
    ensures
        spec_reconstruct_logs(spec_parse_logs(t, le), ft) == t,
{
    let lines = lines_from(t, 0);
    let tr = ends_with_newline(t);
    lemma_lines_rejoin(t, 0, le);
    let tb = plain_table(lines, le, tr);
    assert(t.subrange(0, t.len() as int) =~= t);
    if lines.len() == 0 {
        assert(joined_rows(lines, le, tr) =~= Seq::<Seq<char>>::empty());
        assert(tb.row_count == 0);
        assert(!is_template_table(tb));
    } else {
        assert forall|i: int| 0 <= i < lines.len() implies words(#[trigger] lines[i]).len() == m by {
            assert(canonical_word_line(lines[i], m));
        }
        lemma_max_words(lines, m);
        lemma_small_order(m);
        assert(!is_template_table(tb)) by {
            if tb.columns.len() >= 3 {
                assert(tb.columns[0].name == field_name(0));
                assert(field_name(0)[0] == 'f');
                assert(timestamp_name()[0] == 't');
            }
        }
        lemma_plain_text(lines, le, tr, ft, m, lines.len());
        assert(joined_rows(lines, le, tr).take(lines.len() as int) =~= joined_rows(lines, le, tr));
    }
}

} // verus!
