//! ASCII text: strings from ASCII bytes, and decimal numbers.
use vstd::prelude::*;
use vstd::utf8::{encode_utf8, decode_utf8, valid_utf8, is_ascii_chars};

verus! {

broadcast use vstd::utf8::encode_utf8_valid_utf8, vstd::utf8::encode_utf8_decode_utf8;

/// Bytes read as characters one for one.
pub open spec fn ascii_chars(b: Seq<u8>) -> Seq<char> {
    Seq::new(b.len(), |i: int| b[i] as char)
}

/// Every byte is below 128.
pub open spec fn all_ascii(b: Seq<u8>) -> bool {
    forall|i: int| 0 <= i < b.len() ==> #[trigger] b[i] < 128
}

/// The ASCII bytes of the decimal digits of `n`, most significant first.
pub open spec fn spec_decimal_bytes(n: nat) -> Seq<u8>
    decreases n,
{
    if n < 10 {
        seq![(48 + n) as u8]
    } else {
        spec_decimal_bytes(n / 10).push((48 + n % 10) as u8)
    }
}

/// The decimal digits of `n`, most significant first.
pub open spec fn spec_decimal(n: nat) -> Seq<char> {
    ascii_chars(spec_decimal_bytes(n))
}

/// The text of an `i64` as Rust displays it: a minus sign for negative values.
pub open spec fn spec_i64_text(x: i64) -> Seq<char> {
    if x < 0 {
        seq!['-'] + spec_decimal((-x) as nat)
    } else {
        spec_decimal(x as nat)
    }
}

/// The characters of ASCII bytes are ASCII and encode back to the bytes.
pub proof fn lemma_ascii_chars(b: Seq<u8>)
    requires
        all_ascii(b),
    ensures
        is_ascii_chars(ascii_chars(b)),
        encode_utf8(ascii_chars(b)) == b,
        valid_utf8(b),
        decode_utf8(b) == ascii_chars(b),
{
    let c = ascii_chars(b);
    assert forall|i: int| 0 <= i < c.len() implies '\0' <= #[trigger] c[i] <= '\u{7f}' by {
        assert(b[i] < 128);
    }
    vstd::utf8::is_ascii_chars_encode_utf8(c);
    assert forall|i: int| 0 <= i < b.len() implies #[trigger] encode_utf8(c)[i] == b[i] by {
        assert(c[i] as u8 == encode_utf8(c)[i]);
        assert(b[i] < 128);
    }
    assert(encode_utf8(c) =~= b);
}

/// Makes a `String` from bytes when they are UTF-8.
///
/// Trusted: calls `String::from_utf8`, which std documents to succeed exactly
/// on valid UTF-8; the contract says it succeeds exactly when the bytes satisfy
/// vstd's `valid_utf8`, and that the string's characters are their decoding.
#[verifier::external_body]
pub(crate) fn string_from_utf8(bytes: Vec<u8>) -> (r: Option<String>)
    ensures
        r is Some <==> valid_utf8(bytes@),
        r matches Some(s) ==> s@ == decode_utf8(bytes@),
{
    String::from_utf8(bytes).ok()
}

/// `String::push` appends one character.
///
/// Trusted: std documents that `push` appends the given `char` to the end of
/// the string; the contract says the characters become the old ones and `ch`.
pub assume_specification[ std::string::String::push ](string: &mut std::string::String, ch: char)
    ensures
        final(string)@ == old(string)@.push(ch),
;

/// The string of the characters `t[start .. end]`.
pub fn string_of_range(t: &[char], start: usize, end: usize) -> (s: String)
    requires
        start <= end <= t@.len(),
    ensures
        s@ == t@.subrange(start as int, end as int),
{
    let mut s = String::new();
    let mut i = start;
    while i < end
        invariant
            start <= i <= end,
            end <= t@.len(),
            s@ == t@.subrange(start as int, i as int),
        decreases end - i,
    {
        s.push(t[i]);
        assert(s@ =~= t@.subrange(start as int, i + 1));
        i = i + 1;
    }
    s
}

/// The string of ASCII bytes.
pub fn ascii_string(bytes: Vec<u8>) -> (s: String)
    requires
        all_ascii(bytes@),
    ensures
        s@ == ascii_chars(bytes@),
{
    proof {
        lemma_ascii_chars(bytes@);
    }
    match string_from_utf8(bytes) {
        Some(s) => s,
        None => String::new(),
    }
}

/// Decimal digits are ASCII digits.
pub proof fn lemma_decimal_ascii(n: nat)
    ensures
        forall|i: int| 0 <= i < spec_decimal_bytes(n).len() ==> 48 <= #[trigger] spec_decimal_bytes(n)[i] < 58,
        all_ascii(spec_decimal_bytes(n)),
    decreases n,
{
    if n >= 10 {
        lemma_decimal_ascii(n / 10);
    }
}

/// One digit for numbers below ten, more for the others.
pub proof fn lemma_decimal_len(n: nat)
    ensures
        (spec_decimal_bytes(n).len() == 1) == (n < 10),
        spec_decimal_bytes(n).len() >= 1,
    decreases n,
{
    if n >= 10 {
        lemma_decimal_len(n / 10);
    }
}

/// Different numbers have different decimal digits.
pub proof fn lemma_decimal_injective(a: nat, b: nat)
    requires
        spec_decimal(a) == spec_decimal(b),
    ensures
        a == b,
    decreases a,
{
    let da = spec_decimal_bytes(a);
    let db = spec_decimal_bytes(b);
    lemma_decimal_ascii(a);
    lemma_decimal_ascii(b);
    lemma_decimal_len(a);
    lemma_decimal_len(b);
    assert(da.len() == db.len()) by {
        assert(ascii_chars(da).len() == ascii_chars(db).len());
    }
    assert forall|i: int| 0 <= i < da.len() implies da[i] == db[i] by {
        assert(ascii_chars(da)[i] == ascii_chars(db)[i]);
        assert(48 <= da[i] < 58 && 48 <= db[i] < 58);
    }
    if a >= 10 {
        assert(b >= 10);
        assert(da.last() == db.last());
        assert(spec_decimal_bytes(a / 10) =~= da.drop_last());
        assert(spec_decimal_bytes(b / 10) =~= db.drop_last());
        assert(spec_decimal(a / 10) =~= spec_decimal(b / 10));
        lemma_decimal_injective(a / 10, b / 10);
    } else {
        assert(da[0] == db[0]);
    }
}

/// Appends the decimal digits of `n`.
pub fn push_decimal(out: &mut Vec<u8>, n: u64)
    ensures
        final(out)@ == old(out)@ + spec_decimal_bytes(n as nat),
    decreases n,
{
    let ghost before = out@;
    if n >= 10 {
        push_decimal(out, n / 10);
    }
    let d = (n % 10) as u8;
    out.push(48 + d);
    assert(out@ =~= before + spec_decimal_bytes(n as nat));
}

/// The decimal text of `n`.
pub fn u64_to_string(n: u64) -> (s: String)
    ensures
        s@ == spec_decimal(n as nat),
{
    let mut out: Vec<u8> = Vec::new();
    push_decimal(&mut out, n);
    proof {
        lemma_decimal_ascii(n as nat);
    }
    assert(out@ =~= spec_decimal_bytes(n as nat));
    ascii_string(out)
}

/// The text of an `i64` as Rust displays it.
pub fn i64_to_string(x: i64) -> (s: String)
    ensures
        s@ == spec_i64_text(x),
{
    let mut out: Vec<u8> = Vec::new();
    let mag: u64;
    if x < 0 {
        out.push(45);
        mag = if x == i64::MIN { 0x8000_0000_0000_0000u64 } else { (-x) as u64 };
    } else {
        mag = x as u64;
    }
    let ghost head = out@;
    push_decimal(&mut out, mag);
    proof {
        lemma_decimal_ascii(mag as nat);
    }
    assert(all_ascii(out@));
    assert(ascii_chars(out@) =~= spec_i64_text(x)) by {
        if x < 0 {
            assert(ascii_chars(head) =~= seq!['-']);
            assert(ascii_chars(out@) =~= ascii_chars(head) + ascii_chars(spec_decimal_bytes(mag as nat)));
        } else {
            assert(out@ =~= spec_decimal_bytes(mag as nat));
        }
    }
    ascii_string(out)
}

/// `pat` occurs in `line` at `i`.
pub open spec fn occurs_at(line: Seq<char>, pat: Seq<char>, i: int) -> bool {
    0 <= i && i + pat.len() <= line.len() && line.subrange(i, i + pat.len()) == pat
}

/// What stands in `s` stands in `s` followed by anything.
pub proof fn lemma_occurs_extend(s: Seq<char>, t: Seq<char>, i: int, w: Seq<char>)
    requires
        occurs_at(s, w, i),
    ensures
        occurs_at(s + t, w, i),
{
    assert((s + t).subrange(i, i + w.len()) =~= s.subrange(i, i + w.len()));
}

/// Where `l1` ends with `head` and `l2` begins with `tail`, the text
/// `p + l1 + d + l2` holds `head + d + tail` across the three pieces.
pub proof fn lemma_window(p: Seq<char>, l1: Seq<char>, d: Seq<char>, l2: Seq<char>, head: Seq<char>, tail: Seq<char>)
    requires
        head.len() <= l1.len(),
        l1.subrange(l1.len() - head.len(), l1.len() as int) == head,
        tail.len() <= l2.len(),
        l2.subrange(0, tail.len() as int) == tail,
    ensures
        occurs_at(p + l1 + d + l2, head + d + tail, p.len() + l1.len() - head.len()),
{
    let s = p + l1 + d + l2;
    let i = p.len() + l1.len() - head.len();
    let w = head + d + tail;
    assert forall|k: int| 0 <= k < w.len() implies #[trigger] s.subrange(i, i + w.len())[k] == w[k] by {
        if k < head.len() {
            assert(l1.subrange(l1.len() - head.len(), l1.len() as int)[k] == head[k]);
        } else if k < head.len() + d.len() {
        } else {
            assert(l2.subrange(0, tail.len() as int)[k - head.len() - d.len()] == tail[k - head.len() - d.len()]);
        }
    }
    assert(s.subrange(i, i + w.len()) =~= w);
}

} // verus!
