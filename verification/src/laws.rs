//! Laws of the bit-field codes: how stream bits relate to the bytes they came
//! from, and round-trip and uniqueness facts for the signed, truncated-binary
//! and variable-length codes that the reader decodes.

use vstd::prelude::*;
use vstd::arithmetic::power2::pow2;
use vstd::arithmetic::power2::lemma_pow2_unfold;
use vstd::arithmetic::power2::lemma2_to64;
use vstd::arithmetic::div_mod::lemma_fundamental_div_mod;
use vstd::arithmetic::div_mod::lemma_fundamental_div_mod_converse_div;
use vstd::arithmetic::div_mod::lemma_fundamental_div_mod_converse_mod;
use vstd::arithmetic::div_mod::lemma_div_is_ordered;
use crate::bits::{
    bit_at, bits_value, sign_extend, twos_complement, flog2, ns_w, ns_m, ns_code_ok, ns_decode,
    ns_encode_v, ns_encode_e, lemma_flog2_bounds, lemma_flog2_le_31,
};

verus! {

/// Bit `t` of the stream within byte `j` is bit `7 - t` of that byte: reading
/// bits one at a time walks each byte most-significant-bit first.
pub proof fn lemma_stream_bit_of_byte(data: Seq<u8>, j: int, t: int)
    requires
        0 <= j < data.len(),
        0 <= t < 8,
    ensures
        bit_at(data, 8 * j + t) == (data[j] >> ((7 - t) as u8)) & 1,
{
    lemma_fundamental_div_mod_converse_div(8 * j + t, 8, j, t);
    lemma_fundamental_div_mod_converse_mod(8 * j + t, 8, j, t);
}

/// The eight stream bits of byte `j`, read in order, concatenate back to
/// exactly that byte: 8 k single-bit reads reproduce the first k bytes.
pub proof fn lemma_byte_round_trip(data: Seq<u8>, j: int)
    requires
        0 <= j < data.len(),
    ensures
        bits_value(data, 8 * j, 8) == data[j],
{
    let b = data[j];
    lemma_stream_bit_of_byte(data, j, 0);
    lemma_stream_bit_of_byte(data, j, 1);
    lemma_stream_bit_of_byte(data, j, 2);
    lemma_stream_bit_of_byte(data, j, 3);
    lemma_stream_bit_of_byte(data, j, 4);
    lemma_stream_bit_of_byte(data, j, 5);
    lemma_stream_bit_of_byte(data, j, 6);
    lemma_stream_bit_of_byte(data, j, 7);
    assert(b == 128 * ((b >> 7u8) & 1) + 64 * ((b >> 6u8) & 1) + 32 * ((b >> 5u8) & 1) + 16 * ((b
        >> 4u8) & 1) + 8 * ((b >> 3u8) & 1) + 4 * ((b >> 2u8) & 1) + 2 * ((b >> 1u8) & 1) + ((b
        >> 0u8) & 1)) by (bit_vector);
    assert(bits_value(data, 8 * j, 8) == 128 * bit_at(data, 8 * j) + 64 * bit_at(data, 8 * j + 1)
        + 32 * bit_at(data, 8 * j + 2) + 16 * bit_at(data, 8 * j + 3) + 8 * bit_at(data, 8 * j + 4)
        + 4 * bit_at(data, 8 * j + 5) + 2 * bit_at(data, 8 * j + 6) + bit_at(data, 8 * j + 7)) by {
        reveal_with_fuel(bits_value, 9);
    }
}

/// Reading `n` bits is concatenation: the first bit carries weight
/// `pow2(n - 1)` and the remaining `n - 1` bits follow unchanged.
pub proof fn lemma_bits_value_split_first(data: Seq<u8>, start: int, n: nat)
    requires
        n >= 1,
    ensures
        bits_value(data, start, n) == bit_at(data, start) * pow2((n - 1) as nat) + bits_value(
            data,
            start + 1,
            (n - 1) as nat,
        ),
    decreases n,
{
    lemma2_to64();
    if n == 1 {
        assert(bits_value(data, start, 1) == bit_at(data, start)
            && bits_value(data, start + 1, 0) == 0) by {
            reveal_with_fuel(bits_value, 2);
        }
    }
    if n > 1 {
        let m = (n - 1) as nat;
        lemma_bits_value_split_first(data, start, m);
        lemma_pow2_unfold(m);
        let b = bit_at(data, start) as int;
        let p = pow2((m - 1) as nat) as int;
        let q = pow2(m) as int;
        assert(2 * (b * p) == b * q) by (nonlinear_arith)
            requires
                q == 2 * p,
        ;
        assert(bits_value(data, start, n) == 2 * bits_value(data, start, m) + bit_at(
            data,
            start + n - 1,
        ));
        assert(bits_value(data, start + 1, m) == 2 * bits_value(data, start + 1, (m - 1) as nat)
            + bit_at(data, start + 1 + m - 1));
    }
}

/// Round trip of the signed code: an `n`-bit two's-complement pattern written
/// for any value in `[-pow2(n-1), pow2(n-1) - 1]` is a valid `n`-bit field and
/// decodes back to that value.
pub proof fn lemma_su_round_trip(v: int, n: nat)
    requires
        1 <= n,
        -pow2((n - 1) as nat) <= v < pow2((n - 1) as nat),
    ensures
        twos_complement(v, n) < pow2(n),
        sign_extend(twos_complement(v, n), n) == v,
{
    lemma_pow2_unfold(n);
}

/// Shared bounds on the truncated-binary parameters: the short-code count
/// `ns_m(n)` lies between 1 and `pow2(ns_w(n) - 1)`, which brackets `n` from
/// below.
proof fn lemma_ns_params(n: nat)
    requires
        n >= 1,
    ensures
        ns_w(n) >= 1,
        pow2((ns_w(n) - 1) as nat) <= n < pow2(ns_w(n)),
        pow2(ns_w(n)) == 2 * pow2((ns_w(n) - 1) as nat),
        1 <= ns_m(n) <= pow2((ns_w(n) - 1) as nat),
        ns_m(n) <= n,
{
    lemma_flog2_bounds(n);
    lemma_pow2_unfold(ns_w(n));
}

/// Every truncated-binary code for an alphabet of size `n` decodes into
/// `[0, n)`.
pub proof fn lemma_ns_decode_in_range(n: nat, v: nat, e: nat)
    requires
        n >= 1,
        ns_code_ok(n, v, e),
    ensures
        ns_decode(n, v, e) < n,
{
    lemma_ns_params(n);
}

/// Round trip of the truncated-binary code: every value in `[0, n)` has an
/// encoding — short when it falls below `ns_m(n)`, long otherwise — and that
/// encoding decodes back to the value.
pub proof fn lemma_ns_round_trip(n: nat, x: nat)
    requires
        n >= 1,
        x < n,
    ensures
        ns_code_ok(n, ns_encode_v(n, x), ns_encode_e(n, x)),
        ns_decode(n, ns_encode_v(n, x), ns_encode_e(n, x)) == x,
{
    lemma_ns_params(n);
    let w = ns_w(n);
    let m = ns_m(n);
    let h = pow2((w - 1) as nat);
    if x >= m {
        let v = ns_encode_v(n, x);
        let e = ns_encode_e(n, x);
        lemma_fundamental_div_mod((x + m) as int, 2);
        assert(v >= m) by {
            lemma_div_is_ordered(2 * m as int, (x + m) as int, 2);
            lemma_fundamental_div_mod_converse_div(2 * m as int, 2, m as int, 0);
        }
        assert(v < h) by {
            lemma_div_is_ordered((x + m) as int, 2 * h - 1, 2);
            lemma_fundamental_div_mod_converse_div(2 * h - 1, 2, h - 1, 1);
        }
    }
}

/// The truncated-binary code is one to one: two codes that decode to the same
/// value are the same code.
pub proof fn lemma_ns_unique(n: nat, v1: nat, e1: nat, v2: nat, e2: nat)
    requires
        n >= 1,
        ns_code_ok(n, v1, e1),
        ns_code_ok(n, v2, e2),
        ns_decode(n, v1, e1) == ns_decode(n, v2, e2),
    ensures
        v1 == v2,
        e1 == e2,
{
    lemma_ns_params(n);
    let m = ns_m(n);
    if v1 >= m && v2 >= m {
        assert(2 * v1 + e1 == 2 * v2 + e2);
        lemma_fundamental_div_mod_converse_div((2 * v1 + e1) as int, 2, v1 as int, e1 as int);
        lemma_fundamental_div_mod_converse_div((2 * v2 + e2) as int, 2, v2 as int, e2 as int);
        lemma_fundamental_div_mod_converse_mod((2 * v1 + e1) as int, 2, v1 as int, e1 as int);
        lemma_fundamental_div_mod_converse_mod((2 * v2 + e2) as int, 2, v2 as int, e2 as int);
    }
}

/// Round trip of the variable-length code: every value up to `pow2(32) - 2`
/// arises from exactly the encoding with `flog2(u + 1)` leading zeros —
/// few enough to escape saturation — and a suffix that fits those bits;
/// decoding that suffix adds back `pow2(k) - 1` and returns the value.
pub proof fn lemma_uvlc_round_trip(u: nat)
    requires
        u <= pow2(32) - 2,
    ensures
        ({
            let k = flog2((u + 1) as nat);
            &&& k <= 31
            &&& pow2(k) <= u + 1
            &&& u + 1 - pow2(k) < pow2(k)
            &&& (u + 1 - pow2(k)) + pow2(k) - 1 == u
        }),
{
    let k = flog2((u + 1) as nat);
    lemma_flog2_bounds((u + 1) as nat);
    lemma_pow2_unfold(k + 1);
    lemma2_to64();
    vstd::arithmetic::power2::lemma2_to64_rest();
    lemma_flog2_le_31((u + 1) as nat);
}

} // verus!
