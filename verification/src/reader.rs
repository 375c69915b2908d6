//! The bit reader: a one-byte lookahead cache over an in-memory byte stream,
//! with the bit-field descriptor primitives `f`, `su`, `ns`, `uvlc` and `le`.

use vstd::prelude::*;
use vstd::arithmetic::power2::pow2;
use vstd::arithmetic::power2::lemma2_to64;
use crate::bits::{
    bit_len, bit_at, bits_value, le_value, first_one_at, sign_extend, flog2, ns_w, ns_m,
    ns_decode, lemma_bit_at_is_bit, lemma_bits_value_bound, lemma_first_one_at_none,
    lemma_first_one_at_found, lemma_flog2_bounds, lemma_flog2_le_31,
};

verus! {

/// Numeric cast helper: narrows or widens the 32-bit accumulator into the
/// result type a caller asked for.
pub trait FromU32: Sized {
    /// What the conversion yields, as a specification.
    spec fn from_u32_spec(v: u32) -> Self;

    fn from_u32(v: u32) -> (r: Self)
        ensures
            r == Self::from_u32_spec(v),
    ;
}

impl FromU32 for bool {
    open spec fn from_u32_spec(v: u32) -> bool {
        v != 0
    }

    fn from_u32(v: u32) -> (r: bool) {
        v != 0
    }
}

impl FromU32 for u8 {
    open spec fn from_u32_spec(v: u32) -> u8 {
        v as u8
    }

    fn from_u32(v: u32) -> (r: u8) {
        #[verifier::truncate] (v as u8)
    }
}

impl FromU32 for u16 {
    open spec fn from_u32_spec(v: u32) -> u16 {
        v as u16
    }

    fn from_u32(v: u32) -> (r: u16) {
        #[verifier::truncate] (v as u16)
    }
}

impl FromU32 for u32 {
    open spec fn from_u32_spec(v: u32) -> u32 {
        v
    }

    fn from_u32(v: u32) -> (r: u32) {
        v
    }
}

impl FromU32 for u64 {
    open spec fn from_u32_spec(v: u32) -> u64 {
        v as u64
    }

    fn from_u32(v: u32) -> (r: u64) {
        v as u64
    }
}

impl FromU32 for usize {
    open spec fn from_u32_spec(v: u32) -> usize {
        v as usize
    }

    fn from_u32(v: u32) -> (r: usize) {
        #[verifier::truncate] (v as usize)
    }
}

/// Bitwise reader over a byte stream, consuming bits most-significant-bit
/// first. `bbuf` caches the byte last fetched from the stream, `bpos` counts
/// its bits not yet consumed, and `pos` counts all bits consumed so far.
pub struct BitReader {
    data: Vec<u8>,
    fetched: usize,
    bbuf: u8,
    bpos: u8,
    pos: usize,
}

impl BitReader {
    /// The byte stream being read.
    pub closed spec fn stream(self) -> Seq<u8> {
        self.data@
    }

    /// Absolute bit offset: the number of bits consumed so far.
    pub closed spec fn position(self) -> int {
        self.pos as int
    }

    /// Internal consistency: the cache holds the byte the read position lies
    /// in, and at most 8 of its bits are still pending.
    pub closed spec fn wf(self) -> bool {
        &&& self.bpos <= 8
        &&& self.fetched <= self.data@.len()
        &&& 8 * self.data@.len() <= usize::MAX
        &&& self.pos == 8 * self.fetched - self.bpos
        &&& (self.bpos > 0 ==> self.fetched >= 1 && self.bbuf == self.data@[self.fetched - 1])
    }

    pub fn new(data: Vec<u8>) -> (r: BitReader)
        requires
            8 * data@.len() <= usize::MAX,
        ensures
            r.wf(),
            r.stream() == data@,
            r.position() == 0,
    {
        BitReader { data, fetched: 0, bbuf: 0, bpos: 0, pos: 0 }
    }

    pub fn get_position(&self) -> (r: usize)
        ensures
            r == self.position(),
    {
        self.pos
    }

    /// Read one bit. Yields the next stream bit while one is left, and the
    /// exhaustion signal `None`, changing nothing, once the stream has ended.
    pub fn read_bit(&mut self) -> (r: Option<u8>)
        requires
            old(self).wf(),
        ensures
            final(self).wf(),
            final(self).stream() == old(self).stream(),
            old(self).position() < bit_len(old(self).stream()) ==> {
                &&& r == Some(bit_at(old(self).stream(), old(self).position()))
                &&& final(self).position() == old(self).position() + 1
            },
            old(self).position() >= bit_len(old(self).stream()) ==> {
                &&& r is None
                &&& *final(self) == *old(self)
            },
            0 <= final(self).position() <= bit_len(final(self).stream()),
    {
        if self.bpos == 0 {
            if self.fetched >= self.data.len() {
                return None;
            }
            self.bbuf = self.data[self.fetched];
            self.fetched = self.fetched + 1;
            self.bpos = 8;
        }
        self.bpos = self.bpos - 1;
        self.pos = self.pos + 1;
        proof {
            let p = old(self).position();
            assert(p == 8 * (self.fetched - 1) + (7 - self.bpos));
            vstd::arithmetic::div_mod::lemma_fundamental_div_mod_converse_div(
                p, 8, self.fetched - 1, 7 - self.bpos,
            );
            vstd::arithmetic::div_mod::lemma_fundamental_div_mod_converse_mod(
                p, 8, self.fetched - 1, 7 - self.bpos,
            );
            assert(bit_at(self.data@, p) == (self.data@[p / 8] >> ((7 - p % 8) as u8)) & 1);
            assert((7 - p % 8) as u8 == self.bpos);
        }
        Some((self.bbuf >> self.bpos) & 1)
    }

    /// Consume and discard `n` bits. `None` once the stream runs out first,
    /// with every bit up to the end consumed and not rolled back.
    pub fn skip(&mut self, n: usize) -> (r: Option<()>)
        requires
            old(self).wf(),
        ensures
            final(self).wf(),
            final(self).stream() == old(self).stream(),
            old(self).position() + n <= bit_len(old(self).stream()) ==> {
                &&& r == Some(())
                &&& final(self).position() == old(self).position() + n
            },
            old(self).position() + n > bit_len(old(self).stream()) ==> {
                &&& r is None
                &&& final(self).position() == bit_len(old(self).stream())
            },
    {
        let mut i: usize = 0;
        while i < n
            invariant
                i <= n,
                self.wf(),
                self.stream() == old(self).stream(),
                self.position() == old(self).position() + i,
                self.position() <= bit_len(self.stream()),
            decreases n - i,
        {
            if self.read_bit().is_none() {
                return None;
            }
            i = i + 1;
        }
        Some(())
    }

    /// f(n): read an `n`-bit unsigned field, most significant bit first, into
    /// the caller's numeric type. Asking for more than 32 bits is a contract
    /// violation, not a stream error, and is ruled out up front.
    pub fn f<T: FromU32>(&mut self, nbit: usize) -> (r: Option<T>)
        requires
            old(self).wf(),
            nbit <= 32,
        ensures
            final(self).wf(),
            final(self).stream() == old(self).stream(),
            old(self).position() + nbit <= bit_len(old(self).stream()) ==> {
                &&& final(self).position() == old(self).position() + nbit
                &&& r == Some(T::from_u32_spec(
                    bits_value(old(self).stream(), old(self).position(), nbit as nat) as u32,
                ))
            },
            old(self).position() + nbit > bit_len(old(self).stream()) ==> {
                &&& r is None
                &&& final(self).position() == bit_len(old(self).stream())
            },
    {
        let mut x: u32 = 0;
        let mut i: usize = 0;
        proof {
            lemma2_to64();
        }
        while i < nbit
            invariant
                i <= nbit <= 32,
                self.wf(),
                self.stream() == old(self).stream(),
                self.position() == old(self).position() + i,
                self.position() <= bit_len(self.stream()),
                x == bits_value(self.stream(), old(self).position(), i as nat),
                x < pow2(i as nat),
            decreases nbit - i,
        {
            proof {
                lemma2_to64();
                if i < 31 {
                    vstd::arithmetic::power2::lemma_pow2_strictly_increases(i as nat, 31);
                }
            }
            match self.read_bit() {
                None => {
                    return None;
                },
                Some(b) => {
                    proof {
                        lemma_bit_at_is_bit(self.stream(), old(self).position() + i);
                        assert((x << 1u32) | (b as u32) == 2 * x + b) by (bit_vector)
                            requires
                                x < 0x8000_0000u32,
                                b <= 1,
                        ;
                    }
                    x = (x << 1u32) | (b as u32);
                },
            }
            i = i + 1;
        }
        proof {
            lemma_bits_value_bound(self.stream(), old(self).position(), nbit as nat);
            vstd::arithmetic::power2::lemma2_to64_rest();
            if (nbit as nat) < 32 {
                vstd::arithmetic::power2::lemma_pow2_strictly_increases(nbit as nat, 32);
            }
        }
        Some(T::from_u32(x))
    }

    /// su(n): read an `n`-bit field and interpret it as a two's-complement
    /// signed value.
    pub fn su(&mut self, n: usize) -> (r: Option<i32>)
        requires
            old(self).wf(),
            1 <= n <= 32,
        ensures
            final(self).wf(),
            final(self).stream() == old(self).stream(),
            old(self).position() + n <= bit_len(old(self).stream()) ==> {
                &&& final(self).position() == old(self).position() + n
                &&& r == Some(sign_extend(
                    bits_value(old(self).stream(), old(self).position(), n as nat),
                    n as nat,
                ) as i32)
            },
            old(self).position() + n > bit_len(old(self).stream()) ==> {
                &&& r is None
                &&& final(self).position() == bit_len(old(self).stream())
            },
    {
        let ghost u_spec = bits_value(old(self).stream(), old(self).position(), n as nat);
        let u = match self.f::<u32>(n) {
            Some(u) => u,
            None => {
                return None;
            },
        };
        proof {
            lemma_bits_value_bound(old(self).stream(), old(self).position(), n as nat);
            lemma2_to64();
            vstd::arithmetic::power2::lemma2_to64_rest();
            if (n as nat) < 32 {
                vstd::arithmetic::power2::lemma_pow2_strictly_increases(n as nat, 32);
            }
            assert(u == u_spec);
            vstd::bits::lemma_u64_shl_is_mul(1u64, (n - 1) as u64);
            vstd::arithmetic::power2::lemma_pow2_unfold(n as nat);
            if ((n - 1) as nat) < 31 {
                vstd::arithmetic::power2::lemma_pow2_strictly_increases((n - 1) as nat, 31);
            }
        }
        let half: u64 = 1u64 << ((n - 1) as u64);
        if (u as u64) >= half {
            let wide: i64 = u as i64 - half as i64 - half as i64;
            Some(wide as i32)
        } else {
            Some(u as i32)
        }
    }

    /// ns(n): read one truncated-binary (non-symmetric) code for an alphabet
    /// of size `n`, yielding a value in `[0, n)`. A short code is the
    /// `ns_w(n) - 1` leading bits when their value falls below `ns_m(n)`;
    /// otherwise one extra bit completes a long code.
    pub fn ns(&mut self, n: u32) -> (r: Option<u32>)
        requires
            old(self).wf(),
            n >= 1,
        ensures
            final(self).wf(),
            final(self).stream() == old(self).stream(),
            ({
                let w = ns_w(n as nat);
                let m = ns_m(n as nat);
                let p0 = old(self).position();
                let len = bit_len(old(self).stream());
                let v = bits_value(old(self).stream(), p0, (w - 1) as nat);
                let e = bit_at(old(self).stream(), p0 + w - 1) as nat;
                &&& (p0 + w - 1 > len ==> r is None && final(self).position() == len)
                &&& (p0 + w - 1 <= len && v < m ==> {
                    &&& r == Some(ns_decode(n as nat, v, 0) as u32)
                    &&& final(self).position() == p0 + w - 1
                })
                &&& (p0 + w - 1 <= len && v >= m && p0 + w <= len ==> {
                    &&& r == Some(ns_decode(n as nat, v, e) as u32)
                    &&& final(self).position() == p0 + w
                })
                &&& (p0 + w - 1 <= len && v >= m && p0 + w > len ==> {
                    &&& r is None
                    &&& final(self).position() == len
                })
            }),
            r matches Some(x) ==> x < n,
    {
        let ghost p0 = old(self).position();
        let ghost s = old(self).stream();
        let w: u32 = Self::floor_log2(n) + 1;
        proof {
            lemma_flog2_bounds(n as nat);
            lemma2_to64();
            vstd::arithmetic::power2::lemma2_to64_rest();
            lemma_flog2_le_31(n as nat);
            vstd::bits::lemma_u64_shl_is_mul(1u64, w as u64);
            vstd::arithmetic::power2::lemma_pow2_unfold(w as nat);
        }
        let m: u32 = ((1u64 << (w as u64)) - (n as u64)) as u32;
        let v = match self.f::<u32>((w - 1) as usize) {
            Some(v) => v,
            None => {
                return None;
            },
        };
        proof {
            lemma_bits_value_bound(s, p0, (w - 1) as nat);
            if ((w - 1) as nat) < 31 {
                vstd::arithmetic::power2::lemma_pow2_strictly_increases((w - 1) as nat, 31);
            }
        }
        if v < m {
            return Some(v);
        }
        let extra = match self.f::<u32>(1) {
            Some(e) => e,
            None => {
                return None;
            },
        };
        proof {
            vstd::bits::lemma_u32_shl_is_mul(v, 1);
            assert(bits_value(s, p0 + w - 1, 1) == bit_at(s, p0 + w - 1)) by {
                reveal_with_fuel(bits_value, 2);
            }
            lemma_bit_at_is_bit(s, p0 + w - 1);
        }
        Some(((v << 1u32) - m) + extra)
    }

    /// uvlc(): read one exponential variable-length code: a run of zero bits,
    /// a terminating 1 bit, then as many suffix bits as there were zeros.
    /// A run of 32 or more zeros saturates to `pow2(32) - 1` as soon as the
    /// terminator is consumed.
    pub fn uvlc(&mut self) -> (r: Option<u64>)
        requires
            old(self).wf(),
        ensures
            final(self).wf(),
            final(self).stream() == old(self).stream(),
            ({
                let s = old(self).stream();
                let p0 = old(self).position();
                let len = bit_len(s);
                match first_one_at(s, p0) {
                    None => r is None && final(self).position() == len,
                    Some(i) => {
                        let k = i - p0;
                        &&& (k >= 32 ==> {
                            &&& r == Some((pow2(32) - 1) as u64)
                            &&& final(self).position() == i + 1
                        })
                        &&& (k < 32 && i + 1 + k <= len ==> {
                            &&& r == Some(
                                (bits_value(s, i + 1, k as nat) + pow2(k as nat) - 1) as u64,
                            )
                            &&& final(self).position() == i + 1 + k
                        })
                        &&& (k < 32 && i + 1 + k > len ==> {
                            &&& r is None
                            &&& final(self).position() == len
                        })
                    },
                }
            }),
    {
        let ghost p0 = old(self).position();
        let ghost s = old(self).stream();
        let mut leading_zeros: usize = 0;
        loop
            invariant_except_break
                self.position() == p0 + leading_zeros,
            invariant
                self.wf(),
                self.stream() == s,
                s == old(self).stream(),
                p0 == old(self).position(),
                0 <= p0 <= bit_len(s),
                self.position() <= bit_len(s),
                forall|j: int| p0 <= j < p0 + leading_zeros ==> bit_at(s, j) == 0,
            ensures
                p0 + leading_zeros < bit_len(s),
                bit_at(s, p0 + leading_zeros) == 1,
                self.position() == p0 + leading_zeros + 1,
            decreases bit_len(s) - self.position(),
        {
            match self.read_bit() {
                None => {
                    proof {
                        lemma_first_one_at_none(s, p0);
                    }
                    return None;
                },
                Some(b) => {
                    if b > 0 {
                        proof {
                            lemma_bit_at_is_bit(s, p0 + leading_zeros);
                        }
                        break;
                    }
                    leading_zeros = leading_zeros + 1;
                },
            }
        }
        proof {
            lemma_first_one_at_found(s, p0, p0 + leading_zeros);
            lemma2_to64();
        }
        if leading_zeros >= 32 {
            return Some(0xFFFF_FFFFu64);
        }
        let value = match self.f::<u64>(leading_zeros) {
            Some(v) => v,
            None => {
                return None;
            },
        };
        proof {
            lemma_bits_value_bound(s, p0 + leading_zeros + 1, leading_zeros as nat);
            vstd::arithmetic::power2::lemma_pow2_strictly_increases(leading_zeros as nat, 32);
            vstd::bits::lemma_u64_shl_is_mul(1u64, leading_zeros as u64);
        }
        Some(value + ((1u64 << (leading_zeros as u64)) - 1))
    }

    /// le(n): read `n` whole bytes, least significant byte first, into the
    /// caller's numeric type. The accumulator holds 32 bits, so at most 4
    /// bytes may be asked for; more is a contract violation, not a stream
    /// error.
    pub fn le<T: FromU32>(&mut self, n: usize) -> (r: Option<T>)
        requires
            old(self).wf(),
            n <= 4,
        ensures
            final(self).wf(),
            final(self).stream() == old(self).stream(),
            old(self).position() + 8 * n <= bit_len(old(self).stream()) ==> {
                &&& final(self).position() == old(self).position() + 8 * n
                &&& r == Some(T::from_u32_spec(
                    le_value(old(self).stream(), old(self).position(), n as nat) as u32,
                ))
            },
            old(self).position() + 8 * n > bit_len(old(self).stream()) ==> {
                &&& r is None
                &&& final(self).position() == bit_len(old(self).stream())
            },
    {
        let ghost p0 = old(self).position();
        let ghost s = old(self).stream();
        let mut t: u32 = 0;
        let mut i: usize = 0;
        proof {
            lemma2_to64();
        }
        while i < n
            invariant
                i <= n <= 4,
                self.wf(),
                self.stream() == s,
                s == old(self).stream(),
                p0 == old(self).position(),
                self.position() == p0 + 8 * i,
                self.position() <= bit_len(s),
                t == le_value(s, p0, i as nat),
                t < pow2((8 * i) as nat),
            decreases n - i,
        {
            let byte = match self.f::<u32>(8) {
                Some(b) => b,
                None => {
                    return None;
                },
            };
            proof {
                lemma_bits_value_bound(s, p0 + 8 * i, 8);
                lemma2_to64();
                vstd::arithmetic::power2::lemma_pow2_adds(8, (8 * i) as nat);
                assert(byte * pow2((8 * i) as nat) <= (pow2(8) - 1) * pow2((8 * i) as nat)) by {
                    vstd::arithmetic::mul::lemma_mul_inequality(
                        byte as int,
                        (pow2(8) - 1) as int,
                        pow2((8 * i) as nat) as int,
                    );
                }
                assert((pow2(8) - 1) * pow2((8 * i) as nat) + pow2((8 * i) as nat)
                    == pow2((8 * (i + 1)) as nat)) by (nonlinear_arith)
                    requires
                        pow2(8) * pow2((8 * i) as nat) == pow2((8 * (i + 1)) as nat),
                ;
                assert(pow2((8 * (i + 1)) as nat) <= pow2(32)) by {
                    if 8 * (i + 1) < 32 {
                        vstd::arithmetic::power2::lemma_pow2_strictly_increases(
                            (8 * (i + 1)) as nat, 32,
                        );
                    }
                }
                vstd::bits::lemma_u32_shl_is_mul(byte, (i * 8) as u32);
            }
            t = t + (byte << ((i * 8) as u32));
            i = i + 1;
        }
        proof {
            crate::bits::lemma_le_value_bound(s, p0, n as nat);
            if 8 * n < 32 {
                vstd::arithmetic::power2::lemma_pow2_strictly_increases((8 * n) as nat, 32);
            }
        }
        Some(T::from_u32(t))
    }

    // FloorLog2(x): largest s with pow2(s) <= x, by counting right shifts.
    fn floor_log2(x: u32) -> (r: u32)
        requires
            x >= 1,
        ensures
            r == flog2(x as nat),
            r <= 31,
    {
        let ghost x0 = x as nat;
        let mut x = x;
        let mut s: u32 = 0;
        proof {
            lemma2_to64();
            vstd::arithmetic::power2::lemma2_to64_rest();
            lemma_flog2_le_31(x0);
            assert(x0 / 1 == x0);
        }
        while x != 0
            invariant
                s <= 32,
                1 <= x0 < pow2(32),
                x as nat == x0 / pow2(s as nat),
                x != 0 ==> flog2(x0) == s + flog2(x as nat),
                x == 0 ==> s >= 1 && flog2(x0) == s - 1,
            decreases x,
        {
            proof {
                lemma2_to64();
                vstd::arithmetic::power2::lemma2_to64_rest();
                vstd::arithmetic::power2::lemma_pow2_pos(s as nat);
                if x0 < pow2(s as nat) {
                    vstd::arithmetic::div_mod::lemma_basic_div(x0 as int, pow2(s as nat) as int);
                    assert(false);
                }
                if s >= 32 {
                    if s > 32 {
                        vstd::arithmetic::power2::lemma_pow2_strictly_increases(32, s as nat);
                    }
                    assert(false);
                }
                vstd::bits::lemma_u32_shr_is_div(x, 1);
                vstd::arithmetic::div_mod::lemma_div_denominator(
                    x0 as int, pow2(s as nat) as int, 2,
                );
                vstd::arithmetic::power2::lemma_pow2_adds(s as nat, 1);
                assert((x as nat) / 2 >= 1 <==> x >= 2) by (nonlinear_arith);
            }
            x = x >> 1u32;
            s = s + 1;
        }
        s - 1
    }
}

} // verus!
