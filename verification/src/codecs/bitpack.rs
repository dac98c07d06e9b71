//! Bit packing: unsigned integers of a fixed bit width, laid end to end from the
//! least significant bit of the first byte.
use vstd::prelude::*;
use vstd::arithmetic::power2::{pow2, lemma_pow2_adds, lemma_pow2_pos, lemma2_to64, lemma_pow2_strictly_increases};
use vstd::arithmetic::div_mod::{lemma_div_denominator, lemma_fundamental_div_mod, lemma_fundamental_div_mod_converse, lemma_multiply_divide_lt, lemma_small_mod, lemma_mod_breakdown};
use vstd::bits::{lemma_u64_shl_is_mul, lemma_u128_shr_is_div};
use vstd::arithmetic::div_mod::lemma_mod_mod;
use vstd::arithmetic::mul::{lemma_mul_inequality, lemma_mul_is_commutative};

verus! {

/// The number whose base-`2^w` digits, least significant first, are `s`.
pub open spec fn positional(s: Seq<nat>, w: nat) -> nat
    decreases s.len(),
{
    if s.len() == 0 {
        0
    } else {
        s[0] + pow2(w) * positional(s.drop_first(), w)
    }
}

pub open spec fn nat_seq_u64(v: Seq<u64>) -> Seq<nat> {
    v.map_values(|x: u64| x as nat)
}

pub open spec fn nat_seq_u8(v: Seq<u8>) -> Seq<nat> {
    v.map_values(|x: u8| x as nat)
}

/// The bit stream of the packed values, read as one number.
pub open spec fn packed_number(values: Seq<u64>, bits: nat) -> nat {
    positional(nat_seq_u64(values), bits)
}

/// The bytes read as one little-endian number.
pub open spec fn bytes_number(bytes: Seq<u8>) -> nat {
    positional(nat_seq_u8(bytes), 8)
}

/// The number of bytes that `n` values of `bits` bits take.
pub open spec fn packed_len(n: nat, bits: nat) -> nat {
    (n * bits + 7) / 8
}

/// Every value is below `2^bits`.
pub open spec fn values_fit(values: Seq<u64>, bits: nat) -> bool {
    forall|i: int| 0 <= i < values.len() ==> (#[trigger] values[i]) < pow2(bits)
}

/// The packed bytes: byte `k` holds bits `8k .. 8k+8` of the stream.
pub open spec fn spec_bitpack_encode(values: Seq<u64>, bits: nat) -> Seq<u8> {
    Seq::new(
        packed_len(values.len(), bits),
        |k: int| ((packed_number(values, bits) / pow2((8 * k) as nat)) % 256) as u8,
    )
}

/// Value `i` is bits `i*bits .. (i+1)*bits` of the little-endian number that the
/// bytes hold (bits past the end read as zero).
pub open spec fn spec_bitpack_decode(bytes: Seq<u8>, bits: nat, count: nat) -> Seq<u64> {
    Seq::new(
        count,
        |i: int| ((bytes_number(bytes) / pow2((i * bits) as nat)) % pow2(bits)) as u64,
    )
}

/// The number of binary digits of `v` (zero for zero).
pub open spec fn bit_width(v: nat) -> nat
    decreases v,
{
    if v == 0 {
        0
    } else {
        1 + bit_width(v / 2)
    }
}

pub proof fn lemma_positional_push(s: Seq<nat>, x: nat, w: nat)
    ensures
        positional(s.push(x), w) == positional(s, w) + x * pow2((s.len() * w) as nat),
    decreases s.len(),
{
    lemma2_to64();
    if s.len() == 0 {
        assert(s.push(x).drop_first() =~= Seq::<nat>::empty());
        assert(positional(s.push(x).drop_first(), w) == 0);
        assert(s.push(x)[0] == x);
        assert(positional(s.push(x), w) == x + pow2(w) * 0);
        assert(s.len() * w == 0);
        assert(x * pow2(0) == x);
    } else {
        let rest = s.drop_first();
        assert(s.push(x).drop_first() =~= rest.push(x));
        lemma_positional_push(rest, x, w);
        let e = ((s.len() - 1) * w) as nat;
        assert(positional(rest.push(x), w) == positional(rest, w) + x * pow2(e));
        lemma_pow2_adds(w, e);
        assert(w + e == s.len() * w) by (nonlinear_arith)
            requires
                e == (s.len() - 1) * w,
                s.len() >= 1,
        ;
        let a = pow2(w) as int;
        let b = pow2(e) as int;
        let pr = positional(rest, w) as int;
        assert(s.push(x)[0] == s[0]);
        assert(positional(s.push(x), w) == s[0] + a * (pr + x * b));
        assert(a * (pr + x * b) == a * pr + x * (a * b)) by (nonlinear_arith);
        assert(positional(s, w) == s[0] + a * pr);
        assert(a * b == pow2((s.len() * w) as nat));
    }
}

pub proof fn lemma_positional_bound(s: Seq<nat>, w: nat)
    requires
        forall|i: int| 0 <= i < s.len() ==> #[trigger] s[i] < pow2(w),
    ensures
        positional(s, w) < pow2((s.len() * w) as nat),
    decreases s.len(),
{
    lemma2_to64();
    if s.len() > 0 {
        let rest = s.drop_first();
        lemma_positional_bound(rest, w);
        let e = ((s.len() - 1) * w) as nat;
        let p = positional(rest, w);
        lemma_pow2_adds(w, e);
        assert(w + e == s.len() * w) by (nonlinear_arith)
            requires
                e == (s.len() - 1) * w,
                s.len() >= 1,
        ;
        lemma_mul_inequality(p as int, pow2(e) - 1, pow2(w) as int);
        lemma_mul_is_commutative(p as int, pow2(w) as int);
        assert((pow2(e) - 1) * pow2(w) == pow2(e) * pow2(w) - pow2(w)) by (nonlinear_arith);
        lemma_mul_is_commutative(pow2(e) as int, pow2(w) as int);
        assert(s[0] < pow2(w));
    }
}

pub proof fn lemma_positional_digit(s: Seq<nat>, w: nat, i: int)
    requires
        forall|j: int| 0 <= j < s.len() ==> #[trigger] s[j] < pow2(w),
        0 <= i,
    ensures
        i < s.len() ==> (positional(s, w) / pow2((i * w) as nat)) % pow2(w) == s[i],
        i >= s.len() ==> positional(s, w) / pow2((i * w) as nat) == 0,
    decreases s.len(),
{
    lemma2_to64();
    lemma_pow2_pos(w);
    if s.len() == 0 {
        lemma_pow2_pos((i * w) as nat);
        assert(positional(s, w) == 0);
    } else {
        let rest = s.drop_first();
        let p = positional(rest, w);
        assert(s[0] < pow2(w));
        lemma_mul_is_commutative(p as int, pow2(w) as int);
        lemma_fundamental_div_mod_converse(positional(s, w) as int, pow2(w) as int, p as int, s[0] as int);
        if i == 0 {
            assert(i * w == 0);
            assert(positional(s, w) / 1 == positional(s, w));
        } else {
            let e = ((i - 1) * w) as nat;
            lemma_pow2_adds(w, e);
            assert(w + e == i * w) by (nonlinear_arith)
                requires
                    e == (i - 1) * w,
                    i >= 1,
            ;
            lemma_pow2_pos(e);
            lemma_div_denominator(positional(s, w) as int, pow2(w) as int, pow2(e) as int);
            lemma_positional_digit(rest, w, i - 1);
            assert forall|j: int| 0 <= j < rest.len() implies #[trigger] rest[j] < pow2(w) by {
                assert(rest[j] == s[j + 1]);
            }
        }
    }
}

pub proof fn lemma_positional_of_digits(n: nat, len: nat, w: nat)
    requires
        n < pow2((len * w) as nat),
        w > 0,
    ensures
        positional(Seq::new(len, |k: int| (n / pow2((k * w) as nat)) % pow2(w)), w) == n,
    decreases len,
{
    lemma2_to64();
    lemma_pow2_pos(w);
    let d = Seq::new(len, |k: int| (n / pow2((k * w) as nat)) % pow2(w));
    if len == 0 {
        assert(n < 1);
    } else {
        let n2 = n / pow2(w);
        let e = ((len - 1) * w) as nat;
        lemma_pow2_adds(w, e);
        assert(w + e == len * w) by (nonlinear_arith)
            requires
                e == (len - 1) * w,
                len >= 1,
        ;
        lemma_multiply_divide_lt(n as int, pow2(w) as int, pow2(e) as int);
        lemma_positional_of_digits(n2, (len - 1) as nat, w);
        let d2 = Seq::new((len - 1) as nat, |k: int| (n2 / pow2((k * w) as nat)) % pow2(w));
        assert forall|k: int| 0 <= k < len - 1 implies #[trigger] d.drop_first()[k] == d2[k] by {
            let ek = (k * w) as nat;
            lemma_pow2_pos(ek);
            lemma_pow2_adds(w, ek);
            assert(w + ek == (k + 1) * w) by (nonlinear_arith)
                requires
                    ek == k * w,
                    k >= 0,
            ;
            lemma_div_denominator(n as int, pow2(w) as int, pow2(ek) as int);
        }
        assert(d.drop_first() =~= d2);
        assert(d[0] == n % pow2(w)) by {
            assert(0 * w == 0);
        }
        lemma_fundamental_div_mod(n as int, pow2(w) as int);
    }
}

pub proof fn lemma_bit_width(v: nat)
    ensures
        v < pow2(bit_width(v)),
        v > 0 ==> pow2((bit_width(v) - 1) as nat) <= v,
    decreases v,
{
    lemma2_to64();
    if v > 0 {
        lemma_bit_width(v / 2);
        lemma_pow2_adds(1, bit_width(v / 2));
        if v / 2 > 0 {
            lemma_pow2_adds(1, (bit_width(v / 2) - 1) as nat);
        }
    }
}

pub proof fn lemma_bit_width_le(v: nat, k: nat)
    requires
        v < pow2(k),
    ensures
        bit_width(v) <= k,
    decreases v,
{
    lemma2_to64();
    if v > 0 {
        if k == 0 {
            assert(false);
        }
        lemma_pow2_adds(1, (k - 1) as nat);
        lemma_bit_width_le(v / 2, (k - 1) as nat);
    }
}

pub fn bits_required(max: u64) -> (b: u8)
    ensures
        b == (if max == 0 { 1 } else { bit_width(max as nat) }),
        1 <= b <= 64,
        max < pow2(b as nat),
{
    proof {
        lemma2_to64();
        vstd::arithmetic::power2::lemma2_to64_rest();
        lemma_bit_width_le(max as nat, 64);
        lemma_bit_width(max as nat);
    }
    let mut m: u64 = max;
    let mut b: u8 = 0;
    while m > 0
        invariant
            b + bit_width(m as nat) == bit_width(max as nat),
            bit_width(max as nat) <= 64,
        decreases m,
    {
        m = m / 2;
        b = b + 1;
    }
    if b == 0 {
        1
    } else {
        b
    }
}

/// `n / 2^a` for a number that grows by `v * 2^p`, where `a <= p`.
proof fn lemma_div_of_sum(n: nat, v: nat, a: nat, p: nat)
    requires
        a <= p,
    ensures
        (n + v * pow2(p)) / pow2(a) == n / pow2(a) + v * pow2((p - a) as nat),
        (n + v * pow2(p)) % pow2(a) == n % pow2(a),
{
    let b = (p - a) as nat;
    lemma_pow2_pos(a);
    lemma_pow2_adds(a, b);
    assert(a + b == p);
    let q = n / pow2(a);
    let r = n % pow2(a);
    lemma_fundamental_div_mod(n as int, pow2(a) as int);
    assert(n + v * pow2(p) == (q + v * pow2(b)) * pow2(a) + r) by (nonlinear_arith)
        requires
            n == pow2(a) * q + r,
            pow2(p) == pow2(a) * pow2(b),
    ;
    lemma_fundamental_div_mod_converse(
        (n + v * pow2(p)) as int,
        pow2(a) as int,
        (q + v * pow2(b)) as int,
        r as int,
    );
}

/// Adding a multiple of 256 leaves the remainder modulo 256 unchanged.
proof fn lemma_mod256_add_multiple(x: nat, q: nat, m: nat, t: nat)
    requires
        x == q + m,
        m == 256 * t,
    ensures
        x % 256 == q % 256,
{
    lemma_fundamental_div_mod(q as int, 256);
    lemma_fundamental_div_mod_converse(x as int, 256, (t + q / 256) as int, (q % 256) as int);
}

proof fn lemma_pow2_times_256(b: nat)
    requires
        b >= 8,
    ensures
        pow2(b) == 256 * pow2((b - 8) as nat),
{
    lemma2_to64();
    lemma_pow2_adds(8, (b - 8) as nat);
}

/// Adding a multiple of `2^p` leaves the bytes below bit `p` unchanged.
proof fn lemma_low_byte_unchanged(n: nat, v: nat, k: nat, p: nat)
    requires
        8 * k + 8 <= p,
    ensures
        ((n + v * pow2(p)) / pow2(8 * k)) % 256 == (n / pow2(8 * k)) % 256,
{
    let b = (p - 8 * k) as nat;
    lemma_div_of_sum(n, v, 8 * k, p);
    lemma_pow2_times_256(b);
    let t = v * pow2((b - 8) as nat);
    assert(v * pow2(b) == 256 * t) by (nonlinear_arith)
        requires
            pow2(b) == 256 * pow2((b - 8) as nat),
            t == v * pow2((b - 8) as nat),
    ;
    lemma_mod256_add_multiple((n + v * pow2(p)) / pow2(8 * k), n / pow2(8 * k), v * pow2(b), t);
}

/// A number below `2^(a+b)` divided by `2^a` is below `2^b`.
proof fn lemma_div_below(n: nat, a: nat, b: nat)
    requires
        n < pow2(a + b),
    ensures
        n / pow2(a) < pow2(b),
{
    lemma_pow2_pos(a);
    lemma_pow2_adds(a, b);
    lemma_multiply_divide_lt(n as int, pow2(a) as int, pow2(b) as int);
}

/// Dividing by `2^e` and then by `2^f` is dividing by `2^(e+f)`.
proof fn lemma_div_div(n: nat, e: nat, f: nat)
    ensures
        (n / pow2(e)) / pow2(f) == n / pow2(e + f),
{
    lemma_pow2_pos(e);
    lemma_pow2_pos(f);
    lemma_pow2_adds(e, f);
    lemma_div_denominator(n as int, pow2(e) as int, pow2(f) as int);
}

proof fn lemma_shl_small(x: u64, used: u8)
    requires
        used < 64,
    ensures
        (1u128 << used) == pow2(used as nat),
        ((x as u128) << used) == (x as u128) * (1u128 << used) || used >= 8,
{
    vstd::bits::lemma_u64_pow2_no_overflow(used as nat);
    lemma_u64_shl_is_mul(1u64, used as u64);
    assert((1u128 << used) == ((1u64 << (used as u64)) as u128)) by (bit_vector)
        requires
            used < 64,
    ;
    assert(used < 8 ==> ((x as u128) << used) == (x as u128) * (1u128 << used)) by (bit_vector);
}

proof fn lemma_or_is_add(buffer: u128, x: u128, used: u8)
    requires
        used < 64,
        x < 0x1_0000_0000_0000_0000,
        buffer < (1u128 << used),
        used < 8 || x < 256,
    ensures
        (buffer | (x << used)) == buffer + x * (1u128 << used),
        buffer + x * (1u128 << used) <= u128::MAX,
{
    assert((buffer | (x << used)) == buffer + x * (1u128 << used) && buffer + x * (1u128 << used)
        <= u128::MAX) by (bit_vector)
        requires
            used < 64,
            x < 0x1_0000_0000_0000_0000,
            buffer < (1u128 << used),
            used < 8 || x < 256,
    ;
}

/// `1 << k` is `2^k`.
proof fn lemma_shl_one(k: u8)
    requires
        k < 128,
    ensures
        (1u128 << k) as nat == pow2(k as nat),
    decreases k,
{
    if k == 0 {
        assert((1u128 << 0u8) == 1) by (bit_vector);
        lemma2_to64();
    } else {
        let j = (k - 1) as u8;
        lemma_shl_one(j);
        assert((1u128 << k) == (1u128 << j) * 2) by (bit_vector)
            requires
                j + 1 == k,
                k < 128,
        ;
        vstd::arithmetic::power2::lemma_pow2_unfold(k as nat);
    }
}

/// A byte shifted left by less than 120 bits is the byte times `2^used`,
/// and added to a smaller buffer it is an or.
proof fn lemma_or_byte(buffer: u128, byte: u8, used: u8)
    requires
        used < 120,
        buffer < (1u128 << used),
    ensures
        (1u128 << used) == pow2(used as nat),
        (buffer | ((byte as u128) << used)) == buffer + (byte as u128) * (1u128 << used),
        buffer + (byte as u128) * (1u128 << used) <= u128::MAX,
{
    lemma_shl_one(used);
    assert((buffer | ((byte as u128) << used)) == buffer + (byte as u128) * (1u128 << used) && buffer
        + (byte as u128) * (1u128 << used) <= u128::MAX) by (bit_vector)
        requires
            used < 120,
            buffer < (1u128 << used),
    ;
}

/// Masking with `2^bits - 1` keeps the value below `2^bits`, for widths past 64.
proof fn lemma_mask_wide(buffer: u128, bits: u8)
    requires
        64 < bits <= 120,
    ensures
        (buffer & (((1u128 << bits) - 1) as u128)) as nat == (buffer as nat) % pow2(bits as nat),
{
    let k = (bits - 64) as u8;
    let m = ((1u128 << bits) - 1) as u128;
    let m2 = ((1u128 << k) - 1) as u128;
    let lo = buffer & 0xFFFF_FFFF_FFFF_FFFFu128;
    let hi = buffer >> 64u128;
    assert(buffer == lo + hi * 0x1_0000_0000_0000_0000u128 && (buffer & m) == lo + (hi & m2)
        * 0x1_0000_0000_0000_0000u128 && lo < 0x1_0000_0000_0000_0000u128 && hi < 0x1_0000_0000_0000_0000u128
        && (hi & m2) < 0x1_0000_0000_0000_0000u128) by (bit_vector)
        requires
            64 < bits <= 120,
            k == bits - 64,
            m == ((1u128 << bits) - 1) as u128,
            m2 == ((1u128 << k) - 1) as u128,
            lo == buffer & 0xFFFF_FFFF_FFFF_FFFFu128,
            hi == buffer >> 64u128,
    ;
    lemma_mask(hi, k);
    lemma2_to64();
    vstd::arithmetic::power2::lemma2_to64_rest();
    assert(pow2(64) == 0x1_0000_0000_0000_0000);
    assert((hi & m2) as nat == (hi as nat) % pow2(k as nat));
    let p64 = pow2(64);
    let pk = pow2(k as nat);
    lemma_pow2_pos(k as nat);
    lemma_pow2_adds(64, k as nat);
    assert(pow2(bits as nat) == p64 * pk);
    lemma_fundamental_div_mod_converse(buffer as int, p64 as int, hi as int, lo as int);
    lemma_mod_breakdown(buffer as int, p64 as int, pk as int);
    lemma_mul_is_commutative(p64 as int, ((buffer as int / p64 as int) % pk as int) as int);
}

pub fn encode(values: &[u64], bits: u8) -> (out: Vec<u8>)
    requires
        bits <= 248,
    ensures
        out@.len() == packed_len(values@.len(), bits as nat),
        bits <= 64 && values_fit(values@, bits as nat) ==> out@ == spec_bitpack_encode(
            values@,
            bits as nat,
        ),
{
    let ghost exact = bits <= 64 && values_fit(values@, bits as nat);
    let ghost w = bits as nat;
    let mut out: Vec<u8> = Vec::new();
    let mut buffer: u128 = 0;
    let mut used: u8 = 0;
    let mut i: usize = 0;
    proof {
        lemma2_to64();
        assert(values@.take(0) =~= Seq::<u64>::empty());
        assert(nat_seq_u64(values@.take(0)) =~= Seq::<nat>::empty());
    }
    while i < values.len()
        invariant
            0 <= i <= values.len(),
            bits <= 248,
            w == bits as nat,
            exact == (bits <= 64 && values_fit(values@, w)),
            used < 8,
            8 * out@.len() + used == i * w,
            exact ==> ({
                let n = packed_number(values@.take(i as int), w);
                &&& buffer == n / pow2((8 * out@.len()) as nat)
                &&& n < pow2((i * w) as nat)
                &&& forall|k: int|
                    0 <= k < out@.len() ==> #[trigger] out@[k] == (n / pow2((8 * k) as nat)) % 256
            }),
        decreases values.len() - i,
    {
        let ghost n0 = packed_number(values@.take(i as int), w);
        let ghost m0 = out@.len();
        let value = values[i];
        proof {
            lemma2_to64();
            if exact {
                lemma_shl_small(value, used);
                assert(n0 < pow2((8 * m0 + used) as nat));
                lemma_div_below(n0, 8 * m0, used as nat);
                lemma_or_is_add(buffer, value as u128, used);
            }
        }
        buffer = buffer | ((value as u128) << used);
        used = used + bits;
        let ghost n1 = packed_number(values@.take(i + 1), w);
        proof {
            assert((i + 1) * w == i * w + w) by (nonlinear_arith);
            if exact {
                assert(values@.take(i + 1) =~= values@.take(i as int).push(value));
                assert(nat_seq_u64(values@.take(i + 1)) =~= nat_seq_u64(values@.take(i as int)).push(
                    value as nat,
                ));
                lemma_positional_push(nat_seq_u64(values@.take(i as int)), value as nat, w);
                assert(nat_seq_u64(values@.take(i as int)).len() == i);
                assert(n1 == n0 + value * pow2((i * w) as nat));
                assert(i * w == 8 * m0 + (used - bits)) by (nonlinear_arith)
                    requires
                        8 * m0 + (used - bits) == i * w,
                ;
                lemma_div_of_sum(n0, value as nat, 8 * m0, (i * w) as nat);
                assert forall|k: int| 0 <= k < m0 implies #[trigger] out@[k] == (n1 / pow2(
                    (8 * k) as nat,
                )) % 256 by {
                    lemma_low_byte_unchanged(n0, value as nat, k as nat, (i * w) as nat);
                }
                assert forall|j: int| 0 <= j < i + 1 implies #[trigger] nat_seq_u64(
                    values@.take(i + 1),
                )[j] < pow2(w) by {
                    assert(values@[j] < pow2(w));
                }
                lemma_positional_bound(nat_seq_u64(values@.take(i + 1)), w);
                assert((i + 1) * w == i * w + w) by (nonlinear_arith);
            }
        }
        while used >= 8
            invariant
                exact ==> ({
                    &&& buffer == n1 / pow2((8 * out@.len()) as nat)
                    &&& n1 < pow2(((i + 1) * w) as nat)
                    &&& forall|k: int|
                        0 <= k < out@.len() ==> #[trigger] out@[k] == (n1 / pow2((8 * k) as nat)) % 256
                }),
                8 * out@.len() + used == (i + 1) * w,
                used <= 255,
            decreases used,
        {
            let ghost m = out@.len();
            proof {
                lemma2_to64();
                assert((buffer as u8) == buffer % 256) by (bit_vector);
                assert((buffer >> 8u32) == buffer / 256) by (bit_vector);
                if exact {
                    lemma_div_div(n1, 8 * m, 8);
                    assert(8 * m + 8 == 8 * (m + 1));
                }
            }
            out.push(buffer as u8);
            buffer = buffer >> 8u32;
            used = used - 8;
        }
        i = i + 1;
    }
    let ghost n = packed_number(values@, w);
    proof {
        assert(values@.take(values@.len() as int) =~= values@);
    }
    if used > 0 {
        let ghost m = out@.len();
        proof {
            lemma2_to64();
            assert((buffer as u8) == buffer % 256) by (bit_vector);
        }
        out.push(buffer as u8);
    }
    proof {
        assert(out@.len() == packed_len(values@.len(), w));
        if exact {
            assert(out@ =~= spec_bitpack_encode(values@, w));
        }
    }
    out
}

proof fn lemma_pow2_le(a: nat, b: nat)
    requires
        a <= b,
    ensures
        pow2(a) <= pow2(b),
{
    if a < b {
        lemma_pow2_strictly_increases(a, b);
    }
}

/// `(x mod 2^(a+c)) / 2^a` is `(x / 2^a) mod 2^c`.
proof fn lemma_mod_then_div(x: nat, a: nat, c: nat)
    ensures
        (x % pow2(a + c)) / pow2(a) == (x / pow2(a)) % pow2(c),
{
    lemma_pow2_pos(a);
    lemma_pow2_pos(c);
    lemma_pow2_adds(a, c);
    lemma_mod_breakdown(x as int, pow2(a) as int, pow2(c) as int);
    let hi = (x / pow2(a)) % pow2(c);
    let lo = x % pow2(a);
    assert(x % pow2(a + c) == pow2(a) * hi + lo);
    lemma_mul_is_commutative(pow2(a) as int, hi as int);
    lemma_fundamental_div_mod_converse((x % pow2(a + c)) as int, pow2(a) as int, hi as int, lo as int);
}

/// Widening a remainder by one more byte.
proof fn lemma_mod_extend(x: nat, u: nat)
    ensures
        x % pow2(u + 8) == x % pow2(u) + ((x / pow2(u)) % 256) * pow2(u),
{
    lemma2_to64();
    lemma_pow2_pos(u);
    lemma_pow2_adds(u, 8);
    lemma_mod_breakdown(x as int, pow2(u) as int, 256);
    lemma_mul_is_commutative(pow2(u) as int, ((x / pow2(u)) % 256) as int);
}

proof fn lemma_mod_mod_pow2(x: nat, b: nat, u: nat)
    requires
        b <= u,
    ensures
        (x % pow2(u)) % pow2(b) == x % pow2(b),
{
    lemma_pow2_pos(b);
    lemma_pow2_pos((u - b) as nat);
    lemma_pow2_adds(b, (u - b) as nat);
    lemma_mod_mod(x as int, pow2(b) as int, pow2((u - b) as nat) as int);
}

proof fn lemma_small_pow2(x: nat, u: nat)
    requires
        x < pow2(u),
    ensures
        x % pow2(u) == x,
        x / pow2(u) == 0,
{
    lemma_pow2_pos(u);
    lemma_small_mod(x, pow2(u));
    lemma_fundamental_div_mod_converse(x as int, pow2(u) as int, 0, x as int);
}

proof fn lemma_mask(buffer: u128, bits: u8)
    requires
        bits <= 64,
    ensures
        ((buffer & (if bits == 64 { u128::MAX } else { ((1u128 << bits) - 1) as u128 })) as u64) as nat
            == (buffer as nat) % pow2(bits as nat),
{
    lemma2_to64();
    vstd::arithmetic::power2::lemma2_to64_rest();
    let low = buffer as u64;
    assert(low as u128 == buffer % 0x1_0000_0000_0000_0000u128) by (bit_vector)
        requires
            low == buffer as u64,
    ;
    assert(pow2(64) == 0x1_0000_0000_0000_0000);
    if bits == 64 {
        assert(((buffer & u128::MAX) as u64) == low) by (bit_vector)
            requires
                low == buffer as u64,
        ;
    } else {
        let m = ((1u128 << bits) - 1) as u128;
        let m64 = ((1u64 << (bits as u64)) - 1) as u64;
        assert(((buffer & m) as u64) == (low & m64) && 1u64 << (bits as u64) >= 1) by (bit_vector)
            requires
                bits < 64,
                low == buffer as u64,
                m == ((1u128 << bits) - 1) as u128,
                m64 == ((1u64 << (bits as u64)) - 1) as u64,
        ;
        vstd::bits::lemma_u64_pow2_no_overflow(bits as nat);
        lemma_u64_shl_is_mul(1u64, bits as u64);
        assert(m64 == vstd::bits::low_bits_mask(bits as nat) as u64);
        vstd::bits::lemma_u64_low_bits_mask_is_mod(low, bits as nat);
        lemma_mod_mod_pow2(buffer as nat, bits as nat, 64);
    }
}

#[verifier::spinoff_prover]
fn decode_narrow(bytes: &[u8], bits: u8, count: usize) -> (out: Vec<u64>)
    requires
        bits <= 120,
    ensures
        out@ == spec_bitpack_decode(bytes@, bits as nat, count as nat),
{
    let ghost w = bits as nat;
    let ghost bn = bytes_number(bytes@);
    let ghost spec = spec_bitpack_decode(bytes@, w, count as nat);
    proof {
        lemma2_to64();
        assert forall|j: int| 0 <= j < bytes@.len() implies #[trigger] nat_seq_u8(bytes@)[j] < pow2(8) by {}
        lemma_positional_bound(nat_seq_u8(bytes@), 8);
        assert forall|j: int| 0 <= j < bytes@.len() implies (bn / pow2((j * 8) as nat)) % pow2(8)
            == #[trigger] bytes@[j] by {
            lemma_positional_digit(nat_seq_u8(bytes@), 8, j);
        }
    }
    let mask: u128 = if bits == 64 {
        u128::MAX
    } else {
        assert(1u128 << bits >= 1) by (bit_vector)
            requires
                bits < 128,
        ;
        (1u128 << bits) - 1
    };
    let mut out: Vec<u64> = Vec::new();
    let mut buffer: u128 = 0;
    let mut used: u8 = 0;
    let mut idx: usize = 0;
    assert(out@.len() * w == 0) by (nonlinear_arith)
        requires
            out@.len() == 0,
    ;
    while out.len() < count
        invariant
            bits <= 120,
            w == bits as nat,
            mask == (if bits == 64 { u128::MAX } else { ((1u128 << bits) - 1) as u128 }),
            bn == bytes_number(bytes@),
            spec == spec_bitpack_decode(bytes@, w, count as nat),
            bn < pow2((bytes@.len() * 8) as nat),
            forall|j: int|
                0 <= j < bytes@.len() ==> (bn / pow2((j * 8) as nat)) % pow2(8) == #[trigger] bytes@[j],
            idx <= bytes@.len(),
            used < 8,
            out@.len() <= count,
            (8 * idx >= out@.len() * w && used == 8 * idx - out@.len() * w) || (8 * idx < out@.len()
                * w && used == 0 && idx == bytes@.len()),
            buffer == (bn / pow2((out@.len() * w) as nat)) % pow2(used as nat),
            out@ == spec.take(out@.len() as int),
        decreases count - out@.len(),
    {
        let ghost p = (out@.len() * w) as nat;
        while used < bits && idx < bytes.len()
            invariant
                bits <= 120,
                w == bits as nat,
                p == out@.len() * w,
                bn < pow2((bytes@.len() * 8) as nat),
                forall|j: int|
                    0 <= j < bytes@.len() ==> (bn / pow2((j * 8) as nat)) % pow2(8) == #[trigger] bytes@[j],
                idx <= bytes@.len(),
                used < bits + 8,
                (8 * idx >= p && used == 8 * idx - p) || (8 * idx < p && used == 0 && idx == bytes@.len()),
                buffer == (bn / pow2(p)) % pow2(used as nat),
            decreases bytes@.len() - idx,
        {
            let byte = bytes[idx];
            proof {
                lemma2_to64();
                let x = bn / pow2(p);
                lemma_pow2_pos(used as nat);
                lemma_shl_one(used);
                lemma_or_byte(buffer, byte, used);
                lemma_mod_extend(x, used as nat);
                lemma_div_div(bn, p, used as nat);
                assert(p + used == idx * 8);
                assert((bn / pow2((idx * 8) as nat)) % pow2(8) == byte);
            }
            buffer = buffer | ((byte as u128) << used);
            used = used + 8;
            idx = idx + 1;
        }
        let value = (buffer & mask) as u64;
        proof {
            lemma2_to64();
            let x = bn / pow2(p);
            if bits <= 64 {
                lemma_mask(buffer, bits);
            } else {
                lemma_mask_wide(buffer, bits);
            }
            if used as nat >= w {
                lemma_mod_mod_pow2(x, w, used as nat);
            } else {
                assert(idx == bytes@.len());
                lemma_pow2_strictly_increases(used as nat, w);
                if 8 * idx >= p {
                    assert(bytes@.len() * 8 == p + used);
                    lemma_div_below(bn, p, used as nat);
                    lemma_small_pow2(x, used as nat);
                    lemma_small_pow2(x, w);
                } else {
                    lemma_pow2_le((bytes@.len() * 8) as nat, p);
                    lemma_small_pow2(bn, p);
                    assert(x == 0);
                    lemma_small_pow2(0, w);
                }
            }
            assert(value == spec[out@.len() as int]);
        }
        out.push(value);
        let ghost old_buffer = buffer;
        let ghost old_used = used;
        buffer = buffer >> bits;
        used = if used >= bits {
            used - bits
        } else {
            0
        };
        proof {
            lemma2_to64();
            let x = bn / pow2(p);
            vstd::bits::lemma_u128_shr_is_div(old_buffer, bits as u128);
            let n_old = (out@.len() - 1) as nat;
            assert((n_old + 1) * w == n_old * w + w) by (nonlinear_arith);
            assert(out@.len() * w == p + w);
            if old_used as nat >= w {
                lemma_mod_then_div(x, w, (old_used - w) as nat);
                lemma_div_div(bn, p, w);
            } else {
                lemma_pow2_strictly_increases(old_used as nat, w);
                lemma_small_pow2(old_buffer as nat, w);
                assert(buffer == 0);
            }
            assert(out@ =~= spec.take(out@.len() as int));
        }
    }
    assert(out@ =~= spec);
    out
}

/// Bytes or-ed into a 128-bit buffer at `used`, one after another, until
/// `used` reaches `bits` or the bytes run out; bits shifted past position
/// 127 are lost.
pub open spec fn wide_fill(bytes: Seq<u8>, bits: u8, buffer: u128, used: u8, idx: nat) -> (u128, u8, nat)
    decreases bytes.len() - idx,
{
    if used < bits && idx < bytes.len() {
        wide_fill(bytes, bits, buffer | ((bytes[idx as int] as u128) << used), (used + 8) as u8, idx + 1)
    } else {
        (buffer, used, idx)
    }
}

/// `k` more values read from a 128-bit buffer: each the buffer's low `bits`
/// bits, cut to 64, after a fill; the buffer then moves on by `bits`.
pub open spec fn wide_run(bytes: Seq<u8>, bits: u8, k: nat, buffer: u128, used: u8, idx: nat) -> Seq<u64>
    decreases k,
{
    if k == 0 {
        Seq::empty()
    } else {
        let (b, u, i) = wide_fill(bytes, bits, buffer, used, idx);
        let mask = ((1u128 << bits) - 1) as u128;
        seq![(b & mask) as u64] + wide_run(bytes, bits, (k - 1) as nat, b >> bits, if u >= bits { (u - bits) as u8 } else { 0u8 }, i)
    }
}

/// The values read from packed bytes: for widths up to 120 bits each is the
/// `bits`-bit field of the bytes' little-endian number, cut to 64 bits;
/// wider fields go through the 128-bit buffer, which loses the bits it
/// cannot hold.
pub open spec fn spec_unpack(bytes: Seq<u8>, bits: u8, count: nat) -> Seq<u64> {
    if bits <= 120 {
        spec_bitpack_decode(bytes, bits as nat, count)
    } else {
        wide_run(bytes, bits, count, 0, 0, 0)
    }
}

fn decode_wide(bytes: &[u8], bits: u8, count: usize) -> (out: Vec<u64>)
    requires
        120 < bits <= 127,
    ensures
        out@ == wide_run(bytes@, bits, count as nat, 0, 0, 0),
{
    assert(1u128 << bits >= 1) by (bit_vector)
        requires
            bits < 128,
    ;
    let mask: u128 = (1u128 << bits) - 1;
    let mut out: Vec<u64> = Vec::new();
    let mut buffer: u128 = 0;
    let mut used: u8 = 0;
    let mut idx: usize = 0;
    let ghost total = wide_run(bytes@, bits, count as nat, 0, 0, 0);
    assert(out@ + total =~= total);
    while out.len() < count
        invariant
            120 < bits <= 127,
            mask == ((1u128 << bits) - 1) as u128,
            idx <= bytes@.len(),
            used < bits,
            out@.len() <= count,
            total == wide_run(bytes@, bits, count as nat, 0, 0, 0),
            out@ + wide_run(bytes@, bits, (count - out@.len()) as nat, buffer, used, idx as nat) == total,
        decreases count - out@.len(),
    {
        let ghost f = wide_fill(bytes@, bits, buffer, used, idx as nat);
        let ghost k = (count - out@.len()) as nat;
        let ghost before = out@;
        let ghost (ob, ou, oi) = (buffer, used, idx as nat);
        while used < bits && idx < bytes.len()
            invariant
                120 < bits <= 127,
                idx <= bytes@.len(),
                used < bits + 8,
                wide_fill(bytes@, bits, buffer, used, idx as nat) == f,
            decreases bytes@.len() - idx,
        {
            buffer = buffer | ((bytes[idx] as u128) << used);
            used = used + 8;
            idx = idx + 1;
        }
        assert(f == (buffer, used, idx as nat));
        let v = (buffer & mask) as u64;
        out.push(v);
        buffer = buffer >> bits;
        used = if used >= bits {
            used - bits
        } else {
            0
        };
        proof {
            assert(k > 0);
            assert(wide_run(bytes@, bits, k, ob, ou, oi) == seq![v] + wide_run(bytes@, bits, (k - 1) as nat, buffer, used, idx as nat));
            assert((count - out@.len()) as nat == (k - 1) as nat);
            assert(out@ + wide_run(bytes@, bits, (k - 1) as nat, buffer, used, idx as nat) =~= before + (seq![v] + wide_run(bytes@, bits, (k - 1) as nat, buffer, used, idx as nat)));
        }
    }
    assert(out@.len() == count);
    assert(out@ =~= total);
    out
}

proof fn lemma_wide_prefix(bytes: Seq<u8>, bits: u8, m: nat, n: nat, buffer: u128, used: u8, idx: nat)
    requires
        m <= n,
    ensures
        wide_run(bytes, bits, m, buffer, used, idx).len() == m,
        wide_run(bytes, bits, n, buffer, used, idx).len() == n,
        forall|i: int| 0 <= i < m ==> #[trigger] wide_run(bytes, bits, m, buffer, used, idx)[i]
            == wide_run(bytes, bits, n, buffer, used, idx)[i],
    decreases n,
{
    if n > 0 {
        let (b, u, i) = wide_fill(bytes, bits, buffer, used, idx);
        let nu = if u >= bits { (u - bits) as u8 } else { 0u8 };
        if m > 0 {
            lemma_wide_prefix(bytes, bits, (m - 1) as nat, (n - 1) as nat, b >> bits, nu, i);
            let a = wide_run(bytes, bits, m, buffer, used, idx);
            let c = wide_run(bytes, bits, n, buffer, used, idx);
            assert forall|k: int| 0 <= k < m implies #[trigger] a[k] == c[k] by {
                if k > 0 {
                    assert(a[k] == wide_run(bytes, bits, (m - 1) as nat, b >> bits, nu, i)[k - 1]);
                    assert(c[k] == wide_run(bytes, bits, (n - 1) as nat, b >> bits, nu, i)[k - 1]);
                }
            }
        } else {
            lemma_wide_prefix(bytes, bits, 0, (n - 1) as nat, b >> bits, nu, i);
        }
    }
}

/// Unpacking fewer values gives a prefix of unpacking more.
pub proof fn lemma_unpack_prefix(bytes: Seq<u8>, bits: u8, m: nat, n: nat)
    requires
        m <= n,
    ensures
        spec_unpack(bytes, bits, m).len() == m,
        spec_unpack(bytes, bits, n).len() == n,
        forall|i: int| 0 <= i < m ==> #[trigger] spec_unpack(bytes, bits, m)[i] == spec_unpack(bytes, bits, n)[i],
{
    if bits > 120 {
        lemma_wide_prefix(bytes, bits, m, n, 0, 0, 0);
    }
}

/// Unpacks `count` values of `bits` bits each from the bytes.
pub fn decode(bytes: &[u8], bits: u8, count: usize) -> (out: Vec<u64>)
    requires
        bits <= 127,
    ensures
        out@ == spec_unpack(bytes@, bits, count as nat),
{
    if bits <= 120 {
        decode_narrow(bytes, bits, count)
    } else {
        decode_wide(bytes, bits, count)
    }
}

/// Unpacking the packed bytes of values that fit in `bits` bits gives the values back.
pub proof fn lemma_bitpack_roundtrip(values: Seq<u64>, bits: nat)
    requires
        values_fit(values, bits),
    ensures
        spec_bitpack_decode(spec_bitpack_encode(values, bits), bits, values.len()) == values,
{
    lemma2_to64();
    let n = packed_number(values, bits);
    let len = packed_len(values.len(), bits);
    let enc = spec_bitpack_encode(values, bits);
    assert forall|j: int| 0 <= j < values.len() implies #[trigger] nat_seq_u64(values)[j] < pow2(bits) by {
        assert(values[j] < pow2(bits));
    }
    lemma_positional_bound(nat_seq_u64(values), bits);
    lemma_pow2_le((values.len() * bits) as nat, (len * 8) as nat);
    let digits = Seq::new(len, |k: int| (n / pow2((k * 8) as nat)) % pow2(8));
    lemma_positional_of_digits(n, len, 8);
    assert forall|k: int| 0 <= k < len implies #[trigger] nat_seq_u8(enc)[k] == digits[k] by {
        assert(8 * k == k * 8);
    }
    assert(nat_seq_u8(enc) =~= digits);
    assert(bytes_number(enc) == n);
    assert forall|i: int| 0 <= i < values.len() implies #[trigger] spec_bitpack_decode(
        enc,
        bits,
        values.len(),
    )[i] == values[i] by {
        lemma_positional_digit(nat_seq_u64(values), bits, i);
    }
    assert(spec_bitpack_decode(enc, bits, values.len()) =~= values);
}

} // verus!
