use bitio::reader::BitReader;

/// Pack bits (each 0 or 1), most significant bit first, into whole bytes,
/// zero-padding the tail of the last byte.
fn pack_bits(bits: &[u8]) -> Vec<u8> {
    let mut out: Vec<u8> = Vec::new();
    let mut acc: u8 = 0;
    let mut used: usize = 0;
    for &b in bits {
        acc = (acc << 1) | (b & 1);
        used += 1;
        if used == 8 {
            out.push(acc);
            acc = 0;
            used = 0;
        }
    }
    if used > 0 {
        out.push(acc << (8 - used));
    }
    out
}

/// Append the low `n` bits of `value`, most significant first.
fn push_field(bits: &mut Vec<u8>, value: u64, n: usize) {
    let mut i: usize = n;
    while i > 0 {
        i -= 1;
        bits.push(((value >> i) & 1) as u8);
    }
}

fn bit_of(bytes: &[u8], i: usize) -> u8 {
    (bytes[i / 8] >> (7 - i % 8)) & 1
}

#[test]
fn read_bit_reproduces_bytes_msb_first() {
    let bytes: Vec<u8> = vec![0b1010_1100, 0x00, 0xFF, 0x5A, 0x13];
    let mut r = BitReader::new(bytes.clone());
    for i in 0..bytes.len() * 8 {
        assert_eq!(r.read_bit(), Some(bit_of(&bytes, i)), "bit {}", i);
    }
    assert_eq!(r.read_bit(), None);
}

#[test]
fn read_bit_first_byte_values() {
    let mut r = BitReader::new(vec![0b1011_0001]);
    let expected: [u8; 8] = [1, 0, 1, 1, 0, 0, 0, 1];
    for &e in expected.iter() {
        assert_eq!(r.read_bit(), Some(e));
    }
}

#[test]
fn f_matches_manual_bit_concatenation() {
    let bytes: Vec<u8> = vec![0xAB, 0xCD, 0xEF, 0x12, 0x34];
    for n in 1usize..=32 {
        let mut with_f = BitReader::new(bytes.clone());
        let got: u32 = with_f.f::<u32>(n).unwrap();
        let mut manual = BitReader::new(bytes.clone());
        let mut acc: u32 = 0;
        for _ in 0..n {
            acc = (acc << 1) | manual.read_bit().unwrap() as u32;
        }
        assert_eq!(got, acc, "width {}", n);
        assert_eq!(with_f.get_position(), n);
    }
}

#[test]
fn f_exact_values_and_casts() {
    let bytes: Vec<u8> = vec![0xAB, 0xCD, 0xEF, 0x12];
    assert_eq!(BitReader::new(bytes.clone()).f::<u32>(4), Some(0xA));
    assert_eq!(BitReader::new(bytes.clone()).f::<u32>(12), Some(0xABC));
    assert_eq!(BitReader::new(bytes.clone()).f::<u32>(32), Some(0xABCDEF12));
    assert_eq!(BitReader::new(bytes.clone()).f::<u8>(12), Some(0xBC)); // narrowing keeps low bits
    assert_eq!(BitReader::new(bytes.clone()).f::<u16>(16), Some(0xABCD));
    assert_eq!(BitReader::new(bytes.clone()).f::<u64>(24), Some(0xABCDEF));
    assert_eq!(BitReader::new(bytes.clone()).f::<usize>(8), Some(0xAB));
    assert_eq!(BitReader::new(bytes.clone()).f::<bool>(1), Some(true));
    assert_eq!(BitReader::new(vec![0x00]).f::<bool>(1), Some(false));
    assert_eq!(BitReader::new(bytes).f::<u32>(0), Some(0));
}

#[test]
fn f_fails_when_stream_too_short() {
    let mut r = BitReader::new(vec![0xFF]);
    assert_eq!(r.f::<u32>(9), None);
    // the failed read consumed everything that was left
    assert_eq!(r.get_position(), 8);
    assert_eq!(r.read_bit(), None);
}

#[test]
fn su_round_trips_small_widths() {
    for n in 1usize..=8 {
        let lo: i64 = -(1i64 << (n - 1));
        let hi: i64 = (1i64 << (n - 1)) - 1;
        for v in lo..=hi {
            let pattern: u64 = (v as u64) & ((1u64 << n) - 1);
            let mut bits: Vec<u8> = Vec::new();
            push_field(&mut bits, pattern, n);
            let mut r = BitReader::new(pack_bits(&bits));
            assert_eq!(r.su(n), Some(v as i32), "width {} value {}", n, v);
        }
    }
}

#[test]
fn su_round_trips_full_width() {
    for &v in [i32::MIN, -1, 0, 1, i32::MAX, -123456789, 987654321].iter() {
        let mut bits: Vec<u8> = Vec::new();
        push_field(&mut bits, v as u32 as u64, 32);
        let mut r = BitReader::new(pack_bits(&bits));
        assert_eq!(r.su(32), Some(v), "value {}", v);
    }
}

#[test]
fn su_sign_bit_decides() {
    // 4-bit field 0b1000 is -8, 0b0111 is 7
    let mut r = BitReader::new(vec![0b1000_0111]);
    assert_eq!(r.su(4), Some(-8));
    assert_eq!(r.su(4), Some(7));
}

#[test]
fn su_fails_when_stream_too_short() {
    let mut r = BitReader::new(vec![0xFF]);
    assert_eq!(r.su(9), None);
    assert_eq!(r.get_position(), 8);
}

/// Truncated-binary encoder: the short code is `x` in `w - 1` bits; the long
/// code is `x + m` in `w` bits.
fn encode_ns(bits: &mut Vec<u8>, x: u32, n: u32) {
    let mut w: u32 = 0;
    let mut y: u32 = n;
    while y != 0 {
        y >>= 1;
        w += 1;
    }
    let m: u64 = (1u64 << w) - n as u64;
    if (x as u64) < m {
        push_field(bits, x as u64, w as usize - 1);
    } else {
        push_field(bits, x as u64 + m, w as usize);
    }
}

#[test]
fn ns_alphabet_of_five_from_spec_examples() {
    // n = 5 gives w = 3, m = 3: 0,1,2 in two bits; 3,4 in three.
    for (code, value, len) in [
        (&[0u8, 0u8][..], 0u32, 2usize),
        (&[0, 1][..], 1, 2),
        (&[1, 0][..], 2, 2),
        (&[1, 1, 0][..], 3, 3),
        (&[1, 1, 1][..], 4, 3),
    ] {
        let mut r = BitReader::new(pack_bits(code));
        assert_eq!(r.ns(5), Some(value));
        assert_eq!(r.get_position(), len);
    }
}

#[test]
fn ns_round_trips_every_value_of_small_alphabets() {
    for n in 1u32..=40 {
        for x in 0u32..n {
            let mut bits: Vec<u8> = Vec::new();
            encode_ns(&mut bits, x, n);
            let mut r = BitReader::new(pack_bits(&bits));
            assert_eq!(r.ns(n), Some(x), "alphabet {} value {}", n, x);
        }
    }
}

#[test]
fn ns_handles_huge_alphabets() {
    let n: u32 = (1u32 << 31) + 5;
    let mut bits: Vec<u8> = Vec::new();
    encode_ns(&mut bits, 7, n);
    let mut r = BitReader::new(pack_bits(&bits));
    assert_eq!(r.ns(n), Some(7));
    assert_eq!(r.get_position(), 31);

    let mut bits2: Vec<u8> = Vec::new();
    encode_ns(&mut bits2, n - 1, n);
    let mut r2 = BitReader::new(pack_bits(&bits2));
    assert_eq!(r2.ns(n), Some(n - 1));
    assert_eq!(r2.get_position(), 32);

    let mut bits3: Vec<u8> = Vec::new();
    encode_ns(&mut bits3, 1u32 << 31, u32::MAX);
    let mut r3 = BitReader::new(pack_bits(&bits3));
    assert_eq!(r3.ns(u32::MAX), Some(1u32 << 31));
}

#[test]
fn ns_of_one_consumes_nothing() {
    let mut r = BitReader::new(vec![]);
    assert_eq!(r.ns(1), Some(0));
    assert_eq!(r.get_position(), 0);
}

#[test]
fn ns_fails_when_stream_too_short() {
    // n = 300 needs 8 leading bits and, for 0xF0 >= m = 212, one more;
    // the single byte ends right before it.
    let mut r = BitReader::new(pack_bits(&[1, 1, 1, 1]));
    assert_eq!(r.ns(300), None);
    assert_eq!(r.get_position(), 8);
}

fn encode_uvlc(bits: &mut Vec<u8>, u: u64) {
    let mut k: usize = 0;
    while (1u64 << (k + 1)) <= u + 1 {
        k += 1;
    }
    for _ in 0..k {
        bits.push(0);
    }
    bits.push(1);
    push_field(bits, u + 1 - (1u64 << k), k);
}

#[test]
fn uvlc_spec_example() {
    // 00101: two leading zeros, terminator, suffix 01 -> 1 + 4 - 1 = 4
    let mut r = BitReader::new(pack_bits(&[0, 0, 1, 0, 1]));
    assert_eq!(r.uvlc(), Some(4));
    assert_eq!(r.get_position(), 5);
}

#[test]
fn uvlc_round_trips_sample_values() {
    let samples: [u64; 12] = [0, 1, 2, 3, 4, 5, 100, 255, 256, 65535, 0xFFFF_FFFD, 0xFFFF_FFFE];
    for &u in samples.iter() {
        let mut bits: Vec<u8> = Vec::new();
        encode_uvlc(&mut bits, u);
        let mut r = BitReader::new(pack_bits(&bits));
        assert_eq!(r.uvlc(), Some(u), "value {}", u);
    }
}

#[test]
fn uvlc_saturates_at_32_leading_zeros() {
    // 32 zeros then the terminator: the suffix is not even looked at.
    let mut bits: Vec<u8> = vec![0; 32];
    bits.push(1);
    let mut r = BitReader::new(pack_bits(&bits));
    assert_eq!(r.uvlc(), Some(0xFFFF_FFFF));
    assert_eq!(r.get_position(), 33);
}

#[test]
fn uvlc_saturates_beyond_32_leading_zeros() {
    let mut bits: Vec<u8> = vec![0; 40];
    bits.push(1);
    let mut r = BitReader::new(pack_bits(&bits));
    assert_eq!(r.uvlc(), Some(0xFFFF_FFFF));
    assert_eq!(r.get_position(), 41);
}

#[test]
fn uvlc_fails_without_terminator() {
    let mut r = BitReader::new(vec![0x00, 0x00]);
    assert_eq!(r.uvlc(), None);
    assert_eq!(r.get_position(), 16);
}

#[test]
fn uvlc_fails_when_suffix_is_short() {
    // seven zeros and the terminator fill the only byte: the seven suffix
    // bits are missing
    let mut r = BitReader::new(vec![0b0000_0001]);
    assert_eq!(r.uvlc(), None);
    assert_eq!(r.get_position(), 8);
    let mut r2 = BitReader::new(vec![]);
    assert_eq!(r2.uvlc(), None);
}

#[test]
fn le_four_bytes_from_spec_example() {
    let mut r = BitReader::new(vec![0x01, 0x02, 0x03, 0x04]);
    assert_eq!(r.le::<u32>(4), Some(0x04030201));
    assert_eq!(r.get_position(), 32);
}

#[test]
fn le_small_widths_and_casts() {
    assert_eq!(BitReader::new(vec![0x34, 0x12]).le::<u16>(2), Some(0x1234));
    assert_eq!(BitReader::new(vec![0xAB]).le::<u8>(1), Some(0xAB));
    assert_eq!(BitReader::new(vec![0x01, 0x02, 0x03]).le::<u64>(3), Some(0x030201));
    assert_eq!(BitReader::new(vec![0xFF]).le::<u32>(0), Some(0));
}

#[test]
fn le_is_not_byte_aligned_by_force() {
    // one bit consumed first: le still reads the next 16 bits as two bytes
    let mut r = BitReader::new(vec![0b0000_0001, 0b1000_0000, 0b1000_0000]);
    assert_eq!(r.read_bit(), Some(0));
    assert_eq!(r.le::<u32>(2), Some(0x0103));
}

#[test]
fn le_fails_when_stream_too_short() {
    let mut r = BitReader::new(vec![0x01, 0x02]);
    assert_eq!(r.le::<u32>(4), None);
    assert_eq!(r.get_position(), 16);
}

#[test]
fn skip_advances_and_reports_exhaustion() {
    let mut r = BitReader::new(vec![0xAA, 0xBB]);
    assert_eq!(r.skip(0), Some(()));
    assert_eq!(r.get_position(), 0);
    assert_eq!(r.skip(3), Some(()));
    assert_eq!(r.get_position(), 3);
    assert_eq!(r.skip(13), Some(()));
    assert_eq!(r.get_position(), 16);
    assert_eq!(r.skip(1), None);
    let mut short = BitReader::new(vec![0xAA]);
    assert_eq!(short.skip(9), None);
    assert_eq!(short.get_position(), 8);
}

#[test]
fn every_read_after_exhaustion_returns_none() {
    let mut r = BitReader::new(vec![0x42]);
    assert_eq!(r.f::<u32>(8), Some(0x42));
    assert_eq!(r.read_bit(), None);
    assert_eq!(r.skip(1), None);
    assert_eq!(r.f::<u32>(1), None);
    assert_eq!(r.su(1), None);
    assert_eq!(r.ns(2), None);
    assert_eq!(r.uvlc(), None);
    assert_eq!(r.le::<u32>(1), None);
    assert_eq!(r.get_position(), 8);

    let mut empty = BitReader::new(vec![]);
    assert_eq!(empty.read_bit(), None);
    assert_eq!(empty.su(5), None);
    assert_eq!(empty.le::<u32>(1), None);
}

#[test]
fn position_counts_bits_across_all_primitives() {
    let mut r = BitReader::new(vec![0xDE, 0xAD, 0xBE, 0xEF, 0x01, 0x23, 0x45, 0x67]);
    assert_eq!(r.get_position(), 0);
    r.read_bit().unwrap();
    assert_eq!(r.get_position(), 1);
    r.f::<u32>(5).unwrap();
    assert_eq!(r.get_position(), 6);
    r.su(3).unwrap();
    assert_eq!(r.get_position(), 9);
    r.skip(2).unwrap();
    assert_eq!(r.get_position(), 11);
    r.ns(6).unwrap();
    assert!(r.get_position() == 13 || r.get_position() == 14);
    let before: usize = r.get_position();
    r.f::<u32>(0).unwrap();
    assert_eq!(r.get_position(), before);
    r.le::<u32>(2).unwrap();
    assert_eq!(r.get_position(), before + 16);
}

#[test]
fn position_equals_number_of_successful_bit_reads() {
    let bytes: Vec<u8> = vec![0x0F, 0xF0, 0x55];
    let mut r = BitReader::new(bytes);
    let mut count: usize = 0;
    while r.read_bit().is_some() {
        count += 1;
        assert_eq!(r.get_position(), count);
    }
    assert_eq!(count, 24);
    assert_eq!(r.get_position(), 24); // a failed read does not move it
}
