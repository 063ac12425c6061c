//! Variable-length integer codec: unsigned LEB128 and signed zigzag-LEB128.
//!
//! A value is emitted low seven bits first; every byte except the last
//! carries the continuation bit `0x80`. A 64-bit value occupies at most ten
//! bytes. Signed values are first mapped through zigzag so that small
//! magnitudes stay small.

use vstd::prelude::*;
use vstd::arithmetic::div_mod::lemma_fundamental_div_mod;
use vstd::arithmetic::div_mod::lemma_mod_multiples_vanish;
use vstd::arithmetic::div_mod::lemma_small_mod;
use crate::format::BinaryFormatError;

verus! {

/// 128 raised to `k`: the place value of the `k`-th varint byte.
pub open spec fn p128(k: nat) -> nat
    decreases k,
{
    if k == 0 {
        1
    } else {
        128 * p128((k - 1) as nat)
    }
}

/// The LEB128 byte sequence of `v`: low seven bits first, continuation bit
/// on every byte but the last. Zero encodes as a single `0x00` byte.
pub open spec fn uvarint_bytes(v: nat) -> Seq<u8>
    decreases v,
{
    if v < 128 {
        seq![v as u8]
    } else {
        seq![(128 + v % 128) as u8] + uvarint_bytes(v / 128)
    }
}

/// How many leading bytes of `s` form one varint when at most `budget` bytes
/// may still be consumed: the varint ends at the first byte without the
/// continuation bit. `None` when `s` ends first or the budget runs out.
pub open spec fn uvarint_len_from(s: Seq<u8>, budget: nat) -> Option<nat>
    decreases budget,
{
    if s.len() == 0 || budget == 0 {
        None
    } else if s[0] < 128 {
        Some(1nat)
    } else {
        match uvarint_len_from(s.skip(1), (budget - 1) as nat) {
            Some(n) => Some(n + 1),
            None => None,
        }
    }
}

/// How many leading bytes of `s` form one varint. A well-formed varint is at
/// most ten bytes; `None` when `s` ends before a terminating byte or the
/// first ten bytes all carry the continuation bit.
pub open spec fn uvarint_len(s: Seq<u8>) -> Option<nat> {
    uvarint_len_from(s, 10)
}

/// The value carried by the first `n` bytes of `s`, each byte contributing
/// its low seven bits at its place value.
pub open spec fn uvarint_value(s: Seq<u8>, n: nat) -> nat
    recommends
        n <= s.len(),
    decreases n,
{
    if n == 0 {
        0
    } else {
        (s[0] % 128) as nat + 128 * uvarint_value(s.skip(1), (n - 1) as nat)
    }
}

/// The decoded 64-bit value of a varint of `n` bytes: the carried value,
/// truncated to 64 bits (only the tenth byte can place bits at or past bit
/// 63, and of its seven payload bits only the lowest survives).
pub open spec fn uvarint_decoded(s: Seq<u8>, n: nat) -> nat {
    uvarint_value(s, n) % 0x1_0000_0000_0000_0000
}

/// The zigzag image of a signed value: non-negative values map to the even
/// naturals, negative values to the odd ones.
pub open spec fn zigzag(v: int) -> int {
    if v >= 0 {
        2 * v
    } else {
        -2 * v - 1
    }
}

/// The inverse of `zigzag`.
pub open spec fn unzigzag(u: int) -> int {
    if u % 2 == 0 {
        u / 2
    } else {
        -(u / 2) - 1
    }
}

/// Appends the LEB128 encoding of `value` to `out`; returns how many bytes
/// were written.
pub fn encode_unsigned(value: u64, out: &mut Vec<u8>) -> (written: usize)
    ensures
        final(out)@ == old(out)@ + uvarint_bytes(value as nat),
        written == uvarint_bytes(value as nat).len(),
{
    let ghost entry_len = old(out)@.len() as int;
    proof {
        lemma_uvarint_bytes_len_u64(value);
    }
    let mut v = value;
    let mut written: usize = 0;
    proof {
        assert(out@.subrange(0, entry_len) =~= old(out)@);
        assert(out@.skip(entry_len) =~= Seq::<u8>::empty());
        assert(Seq::<u8>::empty() + uvarint_bytes(value as nat) =~= uvarint_bytes(value as nat));
    }
    loop
        invariant
            entry_len == old(out)@.len(),
            out@.len() == entry_len + written,
            out@.subrange(0, entry_len) == old(out)@,
            uvarint_bytes(value as nat) == out@.skip(entry_len) + uvarint_bytes(v as nat),
            written + uvarint_bytes(v as nat).len() == uvarint_bytes(value as nat).len(),
            uvarint_bytes(value as nat).len() <= 10,
        decreases v,
    {
        proof {
            assert(uvarint_bytes(v as nat).len() >= 1);
        }
        let ghost prev = out@;
        let byte = (v % 128) as u8;
        let next = v / 128;
        if next != 0 {
            assert(v >= 128);
            out.push(byte + 128);
            proof {
                assert(uvarint_bytes(v as nat) == seq![(128 + v as nat % 128) as u8]
                    + uvarint_bytes(next as nat));
                assert(byte + 128 == (128 + v as nat % 128) as u8);
                assert(out@.subrange(0, entry_len) =~= prev.subrange(0, entry_len));
                assert(out@.skip(entry_len) =~= prev.skip(entry_len) + seq![(128 + v as nat % 128) as u8]);
                assert(prev.skip(entry_len) + (seq![(128 + v as nat % 128) as u8]
                    + uvarint_bytes(next as nat)) =~= (prev.skip(entry_len) + seq![(128 + v as nat % 128) as u8])
                    + uvarint_bytes(next as nat));
            }
            written = written + 1;
            v = next;
        } else {
            assert(v < 128);
            out.push(byte);
            written = written + 1;
            proof {
                assert(uvarint_bytes(v as nat) =~= seq![v as u8]);
                assert(byte == v as u8);
                assert(out@.skip(entry_len) =~= prev.skip(entry_len) + seq![v as u8]);
                assert(out@.subrange(0, entry_len) =~= prev.subrange(0, entry_len));
                assert(prev.skip(entry_len) + uvarint_bytes(v as nat) =~= out@.skip(entry_len));
                assert(out@ =~= out@.subrange(0, entry_len) + out@.skip(entry_len));
                assert(out@ =~= old(out)@ + uvarint_bytes(value as nat));
            }
            return written;
        }
    }
}

/// Reads one unsigned varint from `data` starting at `pos`. On success
/// returns the value and the position just past the varint. Fails with
/// `InsufficientData` when the buffer ends mid-sequence or ten bytes pass
/// without a terminating byte.
pub fn decode_unsigned(data: &Vec<u8>, pos: usize) -> (r: Result<(u64, usize), BinaryFormatError>)
    requires
        pos <= data@.len(),
    ensures
        match r {
            Ok((v, next)) => {
                &&& pos < next <= data@.len()
                &&& uvarint_len(data@.skip(pos as int)) == Some((next - pos) as nat)
                &&& v as nat == uvarint_decoded(data@.skip(pos as int), (next - pos) as nat)
            },
            Err(e) => {
                &&& e == BinaryFormatError::InsufficientData
                &&& uvarint_len(data@.skip(pos as int)) is None
            },
        },
{
    let ghost s = data@.skip(pos as int);
    proof {
        assert(s.skip(0) =~= s);
    }
    let mut i = pos;
    let mut k: usize = 0;
    let mut result: u64 = 0;
    let mut mult: u64 = 1;
    loop
        invariant
            pos <= i <= data@.len(),
            s == data@.skip(pos as int),
            k == i - pos,
            k <= 9,
            mult as nat == p128(k as nat),
            result as nat == uvarint_value(s, k as nat),
            result < mult,
            uvarint_len(s) == match uvarint_len_from(s.skip(k as int), (10 - k) as nat) {
                Some(n) => Some((n + k) as nat),
                None => None::<nat>,
            },
        decreases data@.len() - i,
    {
        proof {
            lemma_p128_bounds(k as nat);
        }
        if i >= data.len() {
            proof {
                assert(s.skip(k as int).len() == 0);
            }
            return Err(BinaryFormatError::InsufficientData);
        }
        let b = data[i];
        proof {
            assert(s.skip(k as int)[0] == s[k as int]);
            assert(s[k as int] == data@[pos + k]);
        }
        i = i + 1;
        let low = (b % 128) as u64;
        proof {
            lemma_uvarint_value_step(s, k as nat);
        }
        if b < 128 {
            proof {
                assert(uvarint_len_from(s.skip(k as int), (10 - k) as nat) == Some(1nat));
            }
            if k == 9 {
                proof {
                    lemma_top_byte_truncation(result, low, s);
                }
                let top_bit = (low % 2) * mult;
                return Ok((result + top_bit, i));
            } else {
                proof {
                    assert(result + low * mult < 128 * mult) by (nonlinear_arith)
                        requires
                            result < mult,
                            low < 128,
                            mult >= 1,
                    ;
                    lemma_p128_bounds((k + 1) as nat);
                    assert(low as nat == (s[k as int] % 128) as nat);
                    lemma_small_mod(
                        uvarint_value(s, (k + 1) as nat),
                        0x1_0000_0000_0000_0000,
                    );
                }
                return Ok((result + low * mult, i));
            }
        }
        if k == 9 {
            proof {
                assert(s.skip(9).len() > 0);
                assert(s.skip(9)[0] == s[9]);
                assert(uvarint_len_from(s.skip(9).skip(1), 0) is None);
                assert(uvarint_len_from(s.skip(9), 1) is None);
            }
            return Err(BinaryFormatError::InsufficientData);
        }
        proof {
            assert(result + low * mult < 128 * mult) by (nonlinear_arith)
                requires
                    result < mult,
                    low < 128,
                    mult >= 1,
            ;
            lemma_p128_bounds((k + 1) as nat);
            assert(s.skip(k as int).skip(1) =~= s.skip(k + 1));
            assert(low as nat == (s[k as int] % 128) as nat);
        }
        result = result + low * mult;
        mult = mult * 128;
        k = k + 1;
    }
}

/// Appends the zigzag-LEB128 encoding of `value` to `out`; returns how many
/// bytes were written.
pub fn encode_signed(value: i64, out: &mut Vec<u8>) -> (written: usize)
    ensures
        final(out)@ == old(out)@ + uvarint_bytes(zigzag(value as int) as nat),
        written == uvarint_bytes(zigzag(value as int) as nat).len(),
{
    let u: u64 = if value >= 0 {
        (value as u64) * 2
    } else {
        let m = -(value + 1);
        (m as u64) * 2 + 1
    };
    assert(u as int == zigzag(value as int));
    encode_unsigned(u, out)
}

/// Reads one signed (zigzag) varint from `data` starting at `pos`; the
/// success and failure conditions are those of `decode_unsigned`.
pub fn decode_signed(data: &Vec<u8>, pos: usize) -> (r: Result<(i64, usize), BinaryFormatError>)
    requires
        pos <= data@.len(),
    ensures
        match r {
            Ok((v, next)) => {
                &&& pos < next <= data@.len()
                &&& uvarint_len(data@.skip(pos as int)) == Some((next - pos) as nat)
                &&& v as int == unzigzag(
                    uvarint_decoded(data@.skip(pos as int), (next - pos) as nat) as int,
                )
            },
            Err(e) => {
                &&& e == BinaryFormatError::InsufficientData
                &&& uvarint_len(data@.skip(pos as int)) is None
            },
        },
{
    let (u, next) = match decode_unsigned(data, pos) {
        Ok(p) => p,
        Err(e) => {
            return Err(e);
        },
    };
    let half = u / 2;
    if u % 2 == 0 {
        Ok((half as i64, next))
    } else {
        Ok((-(half as i64) - 1, next))
    }
}

/// The value carried by `n + 1` bytes is the value carried by `n` bytes plus
/// the next byte's low seven bits at its place value.
proof fn lemma_uvarint_value_step(s: Seq<u8>, n: nat)
    requires
        n + 1 <= s.len(),
    ensures
        uvarint_value(s, n + 1) == uvarint_value(s, n) + (s[n as int] % 128) * p128(n),
    decreases n,
{
    if n == 0 {
        assert(uvarint_value(s.skip(1), 0) == 0);
        assert(p128(0) == 1);
        assert(uvarint_value(s, 1) == (s[0] % 128) as nat + 128 * uvarint_value(s.skip(1), 0));
    } else {
        lemma_uvarint_value_step(s.skip(1), (n - 1) as nat);
        assert(s.skip(1)[n - 1] == s[n as int]);
        assert(uvarint_value(s, n + 1) == (s[0] % 128) as nat + 128 * uvarint_value(s.skip(1), n));
        assert(uvarint_value(s, n) == (s[0] % 128) as nat + 128 * uvarint_value(
            s.skip(1),
            (n - 1) as nat,
        ));
        assert(p128(n) == 128 * p128((n - 1) as nat));
        let a = uvarint_value(s.skip(1), (n - 1) as nat);
        let b = (s[n as int] % 128) as nat;
        let p = p128((n - 1) as nat);
        assert(uvarint_value(s.skip(1), n) == a + b * p);
        assert(128 * (a + b * p) == 128 * a + b * (128 * p)) by (nonlinear_arith);
        assert(uvarint_value(s, n + 1) == (s[0] % 128) as nat + 128 * a + b * (128 * p));
        assert(uvarint_value(s, n + 1) == uvarint_value(s, n) + b * p128(n));
    }
}

/// Bounds on the place values that the decoder walks through.
proof fn lemma_p128_bounds(k: nat)
    requires
        k <= 10,
    ensures
        p128(k) >= 1,
        k <= 8 ==> p128(k) <= 0x100_0000_0000_0000,
        k <= 9 ==> p128(k) <= 0x8000_0000_0000_0000,
        k == 9 ==> p128(k) == 0x8000_0000_0000_0000,
        k == 10 ==> p128(k) == 0x40_0000_0000_0000_0000,
{
    assert(p128(0) == 1);
    assert(p128(1) == 128);
    assert(p128(2) == 0x4000);
    assert(p128(3) == 0x20_0000);
    assert(p128(4) == 0x1000_0000);
    assert(p128(5) == 0x8_0000_0000);
    assert(p128(6) == 0x400_0000_0000);
    assert(p128(7) == 0x2_0000_0000_0000);
    assert(p128(8) == 0x100_0000_0000_0000);
    assert(p128(9) == 0x8000_0000_0000_0000);
    assert(p128(10) == 0x40_0000_0000_0000_0000);
}

/// At the tenth byte only the lowest of the seven payload bits fits below
/// bit 64: the decoded (truncated) value adds just that bit at place 2^63.
proof fn lemma_top_byte_truncation(result: u64, low: u64, s: Seq<u8>)
    requires
        10 <= s.len(),
        low == s[9] % 128,
        result as nat == uvarint_value(s, 9),
        result < 0x8000_0000_0000_0000,
    ensures
        result + (low % 2) * 0x8000_0000_0000_0000 == uvarint_decoded(s, 10),
        result + (low % 2) * 0x8000_0000_0000_0000 <= u64::MAX,
{
    lemma_uvarint_value_step(s, 9);
    lemma_p128_bounds(9);
    let m: int = 0x1_0000_0000_0000_0000;
    let h: int = 0x8000_0000_0000_0000;
    assert(uvarint_value(s, 10) == result + low * h);
    lemma_fundamental_div_mod(low as int, 2);
    assert(low * h == (low / 2) * m + (low % 2) * h) by (nonlinear_arith)
        requires
            m == 2 * h,
            low == 2 * (low as int / 2) + low as int % 2,
    ;
    assert(result + (low % 2) * h < m) by (nonlinear_arith)
        requires
            result < h,
            0 <= low % 2 <= 1,
            m == 2 * h,
            h > 0,
    ;
    lemma_mod_multiples_vanish(low as int / 2, result + (low % 2) * h, m);
    lemma_small_mod((result + (low % 2) * h) as nat, m as nat);
}

/// An encoded varint parses back: after `uvarint_bytes(v)`, whatever
/// follows, the parser consumes exactly those bytes and carries exactly `v`.
proof fn lemma_uvarint_round_trip_rec(v: nat, rest: Seq<u8>, budget: nat)
    requires
        1 <= budget <= 10,
        v < p128(budget),
    ensures
        1 <= uvarint_bytes(v).len() <= budget,
        uvarint_len_from(uvarint_bytes(v) + rest, budget) == Some(uvarint_bytes(v).len()),
        uvarint_value(uvarint_bytes(v) + rest, uvarint_bytes(v).len()) == v,
    decreases v,
{
    let s = uvarint_bytes(v) + rest;
    if v < 128 {
        assert(s[0] == v as u8);
        assert(uvarint_value(s.skip(1), 0) == 0);
        assert(uvarint_value(s, 1) == (s[0] % 128) as nat);
    } else {
        assert(p128(budget) == 128 * p128((budget - 1) as nat));
        assert(budget >= 2) by {
            if budget == 1 {
                reveal_with_fuel(p128, 2);
            }
        };
        assert(v / 128 < p128((budget - 1) as nat)) by (nonlinear_arith)
            requires
                v < 128 * p128((budget - 1) as nat),
        ;
        lemma_uvarint_round_trip_rec(v / 128, rest, (budget - 1) as nat);
        assert(s.skip(1) =~= uvarint_bytes(v / 128) + rest);
        assert(s[0] == (128 + v % 128) as u8);
        assert(s[0] >= 128);
        let n = uvarint_bytes(v).len();
        assert(n == 1 + uvarint_bytes(v / 128).len());
        assert(uvarint_value(s, n) == (s[0] % 128) as nat + 128 * uvarint_value(
            s.skip(1),
            (n - 1) as nat,
        ));
        assert((s[0] % 128) as nat == v % 128);
        lemma_fundamental_div_mod(v as int, 128);
    }
}

/// A 64-bit value encodes to between one and ten bytes.
proof fn lemma_uvarint_bytes_len_u64(v: u64)
    ensures
        1 <= uvarint_bytes(v as nat).len() <= 10,
{
    lemma_p128_bounds(10);
    assert((v as nat) < p128(10));
    lemma_uvarint_round_trip_rec(v as nat, Seq::empty(), 10);
}

/// Varint round-trip, unsigned side: for every 64-bit value, decoding the
/// encoding (followed by anything) consumes exactly the encoded bytes and
/// yields the value back. The encoding takes at most ten bytes.
pub proof fn lemma_unsigned_varint_round_trip(v: u64, rest: Seq<u8>)
    ensures
        1 <= uvarint_bytes(v as nat).len() <= 10,
        uvarint_len(uvarint_bytes(v as nat) + rest) == Some(uvarint_bytes(v as nat).len()),
        uvarint_decoded(uvarint_bytes(v as nat) + rest, uvarint_bytes(v as nat).len()) == v as nat,
{
    lemma_p128_bounds(10);
    assert((v as nat) < p128(10));
    lemma_uvarint_round_trip_rec(v as nat, rest, 10);
    lemma_small_mod(v as nat, 0x1_0000_0000_0000_0000);
}

/// Varint round-trip, signed side: zigzag followed by unzigzag is the
/// identity on the whole `i64` range, so decoding the signed encoding
/// yields the value back.
pub proof fn lemma_signed_varint_round_trip(v: i64, rest: Seq<u8>)
    ensures
        1 <= uvarint_bytes(zigzag(v as int) as nat).len() <= 10,
        uvarint_len(uvarint_bytes(zigzag(v as int) as nat) + rest) == Some(
            uvarint_bytes(zigzag(v as int) as nat).len(),
        ),
        unzigzag(
            uvarint_decoded(
                uvarint_bytes(zigzag(v as int) as nat) + rest,
                uvarint_bytes(zigzag(v as int) as nat).len(),
            ) as int,
        ) == v as int,
{
    assert(0 <= zigzag(v as int) < 0x1_0000_0000_0000_0000);
    let u: u64 = zigzag(v as int) as u64;
    assert(zigzag(v as int) == u as int);
    lemma_unsigned_varint_round_trip(u, rest);
    assert(unzigzag(zigzag(v as int)) == v as int);
}

} // verus!
