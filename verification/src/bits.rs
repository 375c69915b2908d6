//! Mathematical model of a byte stream viewed as a sequence of bits,
//! most-significant-bit first within each byte, together with the value
//! functions the reader's contracts are stated over.

use vstd::prelude::*;
use vstd::arithmetic::power2::pow2;
use vstd::arithmetic::power2::lemma_pow2_unfold;
use vstd::arithmetic::power2::lemma_pow2_strictly_increases;
use vstd::arithmetic::power2::lemma2_to64;

verus! {

/// Number of bits the byte sequence `data` provides.
pub open spec fn bit_len(data: Seq<u8>) -> int {
    data.len() * 8int
}

/// Bit `i` of the stream: bit `7 - i % 8` of byte `i / 8`, so that bits are
/// consumed most-significant-bit first within each byte.
pub open spec fn bit_at(data: Seq<u8>, i: int) -> u8
    recommends
        0 <= i < bit_len(data),
{
    (data[i / 8] >> ((7 - i % 8) as u8)) & 1
}

/// Unsigned value of the `n` bits starting at bit `start`, first bit most
/// significant: each further bit shifts the accumulated value up by one.
pub open spec fn bits_value(data: Seq<u8>, start: int, n: nat) -> nat
    decreases n,
{
    if n == 0 {
        0
    } else {
        2 * bits_value(data, start, (n - 1) as nat) + bit_at(data, start + n - 1) as nat
    }
}

/// Little-endian value of `n` whole bytes starting at bit `start`: byte `i`
/// (8 bits, most significant first) lands at bit offset `8 * i` of the result.
pub open spec fn le_value(data: Seq<u8>, start: int, n: nat) -> nat
    decreases n,
{
    if n == 0 {
        0
    } else {
        let m = (n - 1) as nat;
        le_value(data, start, m) + bits_value(data, start + 8 * m, 8) * pow2(8 * m)
    }
}

/// Index of the first 1 bit at or after position `p`, if any.
pub open spec fn first_one_at(data: Seq<u8>, p: int) -> Option<int>
    decreases bit_len(data) - p,
{
    if p < 0 || p >= bit_len(data) {
        None
    } else if bit_at(data, p) == 1 {
        Some(p)
    } else {
        first_one_at(data, p + 1)
    }
}

/// Largest `s` with `pow2(s) <= x`, for `x >= 1`.
pub open spec fn flog2(x: nat) -> nat
    decreases x,
{
    if x <= 1 {
        0
    } else {
        1 + flog2(x / 2)
    }
}

/// Signed value of the `n`-bit two's-complement pattern `u`.
pub open spec fn sign_extend(u: nat, n: nat) -> int
    recommends
        1 <= n,
        u < pow2(n),
{
    if u >= pow2((n - 1) as nat) {
        u - pow2(n)
    } else {
        u as int
    }
}

/// The `n`-bit two's-complement pattern of a signed value `v`.
pub open spec fn twos_complement(v: int, n: nat) -> nat
    recommends
        1 <= n,
        -pow2((n - 1) as nat) <= v < pow2((n - 1) as nat),
{
    if v < 0 {
        (v + pow2(n)) as nat
    } else {
        v as nat
    }
}

/// Code width `w` of the truncated-binary code for an alphabet of size `n`.
pub open spec fn ns_w(n: nat) -> nat {
    flog2(n) + 1
}

/// Number of values of the alphabet of size `n` that get the short code,
/// of `ns_w(n) - 1` bits.
pub open spec fn ns_m(n: nat) -> nat {
    (pow2(ns_w(n)) - n) as nat
}

/// Whether `(v, e)` is a truncated-binary code for an alphabet of size `n`:
/// `v` is the value of the first `ns_w(n) - 1` bits; a short code (`v` below
/// `ns_m(n)`) carries no extra bit, a long code carries one extra bit `e`.
pub open spec fn ns_code_ok(n: nat, v: nat, e: nat) -> bool {
    &&& v < pow2((ns_w(n) - 1) as nat)
    &&& e <= 1
    &&& (v < ns_m(n) ==> e == 0)
}

/// Value decoded from the truncated-binary code `(v, e)` for an alphabet of
/// size `n`.
pub open spec fn ns_decode(n: nat, v: nat, e: nat) -> nat
    recommends
        ns_code_ok(n, v, e),
{
    if v < ns_m(n) {
        v
    } else {
        (2 * v + e - ns_m(n)) as nat
    }
}

/// First-bits value of the truncated-binary encoding of `x` in an alphabet of
/// size `n`.
pub open spec fn ns_encode_v(n: nat, x: nat) -> nat {
    if x < ns_m(n) {
        x
    } else {
        (x + ns_m(n)) / 2
    }
}

/// Extra bit of the truncated-binary encoding of `x` in an alphabet of size
/// `n`; 0 for a short code.
pub open spec fn ns_encode_e(n: nat, x: nat) -> nat {
    if x < ns_m(n) {
        0
    } else {
        (x + ns_m(n)) % 2
    }
}

/// A stream bit is 0 or 1.
pub proof fn lemma_bit_at_is_bit(data: Seq<u8>, i: int)
    ensures
        bit_at(data, i) <= 1,
{
    let b = data[i / 8];
    let s = (7 - i % 8) as u8;
    assert((b >> s) & 1 <= 1) by (bit_vector);
}

/// `n` bits hold a value below `pow2(n)`.
pub proof fn lemma_bits_value_bound(data: Seq<u8>, start: int, n: nat)
    ensures
        bits_value(data, start, n) < pow2(n),
    decreases n,
{
    if n == 0 {
        lemma2_to64();
    } else {
        lemma_bits_value_bound(data, start, (n - 1) as nat);
        lemma_bit_at_is_bit(data, start + n - 1);
        lemma_pow2_unfold(n);
    }
}

/// `n` little-endian bytes hold a value below `pow2(8 * n)`.
pub proof fn lemma_le_value_bound(data: Seq<u8>, start: int, n: nat)
    ensures
        le_value(data, start, n) < pow2(8 * n),
    decreases n,
{
    if n == 0 {
        lemma2_to64();
    } else {
        let m = (n - 1) as nat;
        lemma_le_value_bound(data, start, m);
        lemma_bits_value_bound(data, start + 8 * m, 8);
        assert(le_value(data, start, n)
            == le_value(data, start, m) + bits_value(data, start + 8 * m, 8) * pow2(8 * m));
        assert(bits_value(data, start + 8 * m, 8) * pow2(8 * m)
            <= (pow2(8) - 1) * pow2(8 * m)) by {
            vstd::arithmetic::mul::lemma_mul_inequality(
                bits_value(data, start + 8 * m, 8) as int,
                (pow2(8) - 1) as int,
                pow2(8 * m) as int,
            );
        }
        assert(pow2(8) * pow2(8 * m) == pow2(8 * n)) by {
            vstd::arithmetic::power2::lemma_pow2_adds(8, 8 * m);
        }
        assert(pow2(8 * m) + (pow2(8) - 1) * pow2(8 * m) == pow2(8) * pow2(8 * m))
            by (nonlinear_arith);
    }
}

/// `flog2` brackets its argument between two consecutive powers of two.
pub proof fn lemma_flog2_bounds(x: nat)
    requires
        x >= 1,
    ensures
        pow2(flog2(x)) <= x < pow2(flog2(x) + 1),
    decreases x,
{
    if x <= 1 {
        lemma2_to64();
    } else {
        let h = x / 2;
        lemma_flog2_bounds(h);
        lemma_pow2_unfold(flog2(x));
        lemma_pow2_unfold(flog2(x) + 1);
        assert(x == 2 * h + x % 2 && x % 2 < 2) by {
            vstd::arithmetic::div_mod::lemma_fundamental_div_mod(x as int, 2);
        }
    }
}

/// `flog2` is at most 31 on values below `pow2(32)`.
pub proof fn lemma_flog2_le_31(x: nat)
    requires
        1 <= x < pow2(32),
    ensures
        flog2(x) <= 31,
{
    lemma_flog2_bounds(x);
    if flog2(x) > 31 {
        lemma_pow2_strictly_increases(31, flog2(x));
        lemma2_to64();
        assert(pow2(31) < pow2(flog2(x)));
        assert(pow2(flog2(x)) <= x);
        if flog2(x) > 32 {
            lemma_pow2_strictly_increases(32, flog2(x));
        }
    }
}

/// A run of zeros ending at a 1 bit pins down `first_one_at`.
pub proof fn lemma_first_one_at_found(data: Seq<u8>, p: int, i: int)
    requires
        0 <= p <= i < bit_len(data),
        bit_at(data, i) == 1,
        forall|j: int| p <= j < i ==> bit_at(data, j) == 0,
    ensures
        first_one_at(data, p) == Some(i),
    decreases i - p,
{
    if p < i {
        assert(bit_at(data, p) == 0);
        lemma_first_one_at_found(data, p + 1, i);
    }
}

/// A stream that is all zeros from `p` on has no further 1 bit.
pub proof fn lemma_first_one_at_none(data: Seq<u8>, p: int)
    requires
        0 <= p,
        forall|j: int| p <= j < bit_len(data) ==> bit_at(data, j) == 0,
    ensures
        first_one_at(data, p) is None,
    decreases bit_len(data) - p,
{
    if p < bit_len(data) {
        assert(bit_at(data, p) == 0);
        lemma_first_one_at_none(data, p + 1);
    }
}

} // verus!
