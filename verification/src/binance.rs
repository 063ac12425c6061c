//! Trade messages as they arrive from the exchange feed, and their
//! conversion into the codec's fixed-point trades.
//!
//! The feed hands prices and quantities over as decimal strings; `to_trade`
//! parses them exactly into hundred-thousandths, truncating digits past the
//! fifth decimal place.

use vstd::prelude::*;
use vstd::string::StringSliceAdditionalSpecFns;
use crate::format::Trade;

verus! {

/// Everything that can go wrong while turning a feed message into a trade.
#[derive(Clone, Copy, Debug, PartialEq, Eq, Structural)]
pub enum TradeMessageError {
    /// The feed handed over something other than a text message.
    InvalidMessageFromWebsocket,
    /// The message's text was not the expected JSON shape.
    JsonParseError,
    /// A keep-alive reply could not be sent.
    FailedToSendPong,
    /// A price or quantity string is not a plain decimal number, or does
    /// not fit the fixed-point range.
    InvalidNumber,
}

/// Everything that can go wrong at the websocket connection.
#[derive(Clone, Debug, PartialEq, Eq)]
pub enum BinanceWebsocketError {
    /// A keep-alive reply could not be sent.
    FailedToSendPong(String),
    /// Connecting to or reading from the stream failed.
    WebsocketConnectionError(String),
}

/// The trade payload inside one stream message.
pub struct WebSocketTrade {
    /// Millisecond epoch of the trade.
    pub timestamp: u64,
    /// Asset symbol.
    pub asset: String,
    /// Price as a decimal string.
    pub price: String,
    /// Quantity as a decimal string.
    pub quantity: String,
    /// True when the buyer is the maker.
    pub is_buyer_maker: bool,
}

/// One stream message: a wrapper around the trade payload.
pub struct WebSocketMessage {
    pub data: WebSocketTrade,
}

/// A trade as received, with the moment it arrived for latency accounting.
pub struct TradeMessage {
    pub timestamp: u64,
    pub asset: String,
    pub price: String,
    pub quantity: String,
    pub is_buyer_maker: bool,
    /// Microsecond epoch at which the message was taken off the feed.
    pub received_at: u128,
}

/// `b` is an ASCII decimal digit.
pub open spec fn digit_ok(b: u8) -> bool {
    48 <= b <= 57
}

/// Every byte of `s` is an ASCII decimal digit.
pub open spec fn all_digits(s: Seq<u8>) -> bool {
    forall|i: int| 0 <= i < s.len() ==> digit_ok(#[trigger] s[i])
}

/// The numeric weight of one digit byte.
pub open spec fn dval(b: u8) -> nat {
    if 48 <= b {
        (b - 48) as nat
    } else {
        0
    }
}

/// The value of a digit string read left to right.
pub open spec fn digits_val(s: Seq<u8>) -> nat
    decreases s.len(),
{
    if s.len() == 0 {
        0
    } else {
        digits_val(s.drop_last()) * 10 + dval(s.last())
    }
}

/// Ten raised to `k`.
pub open spec fn pow10(k: nat) -> nat
    decreases k,
{
    if k == 0 {
        1
    } else {
        10 * pow10((k - 1) as nat)
    }
}

/// The index of the first `.` in `s`, if any.
pub open spec fn find_dot(s: Seq<u8>) -> Option<int>
    decreases s.len(),
{
    if s.len() == 0 {
        None
    } else if s[0] == 46 {
        Some(0int)
    } else {
        match find_dot(s.skip(1)) {
            Some(i) => Some(i + 1),
            None => None,
        }
    }
}

/// The value of a fractional digit string in hundred-thousandths: digits
/// past the fifth are truncated, shorter strings are scaled up.
pub open spec fn frac_e5(fp: Seq<u8>) -> nat {
    if fp.len() >= 5 {
        digits_val(fp.take(5))
    } else {
        digits_val(fp) * pow10((5 - fp.len()) as nat)
    }
}

/// The value of a plain decimal string in hundred-thousandths: digits with
/// at most one `.`, at least one digit in all; anything else has no value.
pub open spec fn decimal_e5(s: Seq<u8>) -> Option<nat> {
    match find_dot(s) {
        None => if s.len() >= 1 && all_digits(s) {
            Some(digits_val(s) * 100000)
        } else {
            None
        },
        Some(d) => {
            let ip = s.take(d);
            let fp = s.skip(d + 1);
            if ip.len() + fp.len() >= 1 && all_digits(ip) && all_digits(fp) {
                Some(digits_val(ip) * 100000 + frac_e5(fp))
            } else {
                None
            }
        },
    }
}

/// A digit string's value only grows as more digits are read.
proof fn lemma_digits_val_monotone(s: Seq<u8>, i: int)
    requires
        0 <= i <= s.len(),
    ensures
        digits_val(s) >= digits_val(s.take(i)),
    decreases s.len() - i,
{
    if i == s.len() {
        assert(s.take(i) =~= s);
    } else {
        lemma_digits_val_monotone(s, i + 1);
        assert(s.take(i + 1).drop_last() =~= s.take(i));
        assert(digits_val(s.take(i + 1)) == digits_val(s.take(i)) * 10 + dval(s.take(i + 1).last()));
    }
}

/// Parses the digit run `bytes[start..end]`; fails exactly when a byte is
/// not a digit or the value exceeds `u64::MAX`.
fn digits_to_u64(bytes: &[u8], start: usize, end: usize) -> (r: Option<u64>)
    requires
        start <= end <= bytes@.len(),
    ensures
        match r {
            Some(v) => all_digits(bytes@.subrange(start as int, end as int)) && v as nat
                == digits_val(bytes@.subrange(start as int, end as int)),
            None => {
                ||| !all_digits(bytes@.subrange(start as int, end as int))
                ||| digits_val(bytes@.subrange(start as int, end as int)) > u64::MAX
            },
        },
{
    let ghost sub = bytes@.subrange(start as int, end as int);
    let mut acc: u64 = 0;
    let mut i = start;
    proof {
        assert(sub.take(0) =~= Seq::<u8>::empty());
    }
    while i < end
        invariant
            start <= i <= end <= bytes@.len(),
            sub == bytes@.subrange(start as int, end as int),
            acc as nat == digits_val(sub.take(i - start)),
            all_digits(sub.take(i - start)),
        decreases end - i,
    {
        let b = *vstd::slice::slice_index_get(bytes, i);
        proof {
            assert(sub[i - start] == bytes@[i as int]);
        }
        if b < 48 || b > 57 {
            proof {
                assert(!digit_ok(sub[i - start]));
            }
            return None;
        }
        let step = match acc.checked_mul(10) {
            None => None,
            Some(t) => t.checked_add((b - 48) as u64),
        };
        proof {
            assert(sub.take(i - start + 1).drop_last() =~= sub.take(i - start));
            assert(sub.take(i - start + 1).last() == sub[i - start]);
            assert(digits_val(sub.take(i - start + 1)) == (acc as nat) * 10 + dval(sub[i - start]));
        }
        acc = match step {
            None => {
                proof {
                    lemma_digits_val_monotone(sub, i - start + 1);
                }
                return None;
            },
            Some(v) => v,
        };
        i = i + 1;
    }
    proof {
        assert(sub.take(end - start) =~= sub);
    }
    Some(acc)
}

/// Parses the fractional digit run `bytes[start..end]` into
/// hundred-thousandths, truncating digits past the fifth; fails exactly
/// when a byte is not a digit.
fn frac_to_e5(bytes: &[u8], start: usize, end: usize) -> (r: Option<u64>)
    requires
        start <= end <= bytes@.len(),
    ensures
        match r {
            Some(v) => all_digits(bytes@.subrange(start as int, end as int)) && v as nat == frac_e5(
                bytes@.subrange(start as int, end as int),
            ),
            None => !all_digits(bytes@.subrange(start as int, end as int)),
        },
{
    let ghost sub = bytes@.subrange(start as int, end as int);
    let keep = if end - start >= 5 {
        5
    } else {
        end - start
    };
    let first = match digits_to_u64(bytes, start, start + keep) {
        None => {
            proof {
                // the value of at most five digit bytes cannot overflow
                let pre = bytes@.subrange(start as int, start + keep as int);
                if all_digits(pre) {
                    lemma_digits_bounded(pre);
                }
                assert(!all_digits(pre) ==> !all_digits(sub)) by {
                    if !all_digits(pre) {
                        let i = choose|i: int| 0 <= i < pre.len() && !digit_ok(pre[i]);
                        assert(sub[i] == pre[i]);
                    }
                }
            }
            return None;
        },
        Some(v) => v,
    };
    // validate the truncated tail
    let mut i = start + keep;
    while i < end
        invariant
            start + keep <= i <= end <= bytes@.len(),
            keep == if end - start >= 5 {
                5int
            } else {
                end - start
            },
            sub == bytes@.subrange(start as int, end as int),
            forall|x: int| keep <= x < i - start ==> digit_ok(#[trigger] sub[x]),
        decreases end - i,
    {
        let b = *vstd::slice::slice_index_get(bytes, i);
        proof {
            assert(sub[i - start] == bytes@[i as int]);
        }
        if b < 48 || b > 57 {
            proof {
                assert(!digit_ok(sub[i - start]));
            }
            return None;
        }
        i = i + 1;
    }
    proof {
        assert(bytes@.subrange(start as int, start + keep as int) =~= sub.take(keep as int));
    }
    let scaled = if keep == 5 {
        proof {
            assert(sub.take(5) =~= sub.take(keep as int));
        }
        first
    } else {
        let scale: u64 = if keep == 0 {
            100000
        } else if keep == 1 {
            10000
        } else if keep == 2 {
            1000
        } else if keep == 3 {
            100
        } else {
            10
        };
        proof {
            lemma_pow10_small();
            assert(sub.take(keep as int) =~= sub);
            lemma_digits_bounded(sub);
        }
        first * scale
    };
    Some(scaled)
}

/// The value of at most five digit bytes stays under a hundred thousand.
proof fn lemma_digits_bounded(s: Seq<u8>)
    requires
        all_digits(s),
        s.len() <= 5,
    ensures
        digits_val(s) < pow10(s.len()),
        digits_val(s) < 100000,
    decreases s.len(),
{
    lemma_pow10_small();
    if s.len() == 0 {
    } else {
        assert(all_digits(s.drop_last())) by {
            assert(forall|i: int|
                0 <= i < s.drop_last().len() ==> s.drop_last()[i] == #[trigger] s[i]);
        }
        lemma_digits_bounded(s.drop_last());
        assert(dval(s.last()) <= 9);
        assert(pow10(s.len()) == 10 * pow10((s.len() - 1) as nat));
    }
}

/// The first few powers of ten.
proof fn lemma_pow10_small()
    ensures
        pow10(0) == 1,
        pow10(1) == 10,
        pow10(2) == 100,
        pow10(3) == 1000,
        pow10(4) == 10000,
        pow10(5) == 100000,
{
    assert(pow10(0) == 1);
    assert(pow10(1) == 10);
    assert(pow10(2) == 100);
    assert(pow10(3) == 1000);
    assert(pow10(4) == 10000);
    assert(pow10(5) == 100000);
}

/// Parses a plain decimal string into hundred-thousandths: digits with at
/// most one `.` and at least one digit, truncating digits past the fifth
/// decimal place. Fails exactly when the string is not of that shape or
/// the value exceeds `u64::MAX`.
pub fn parse_decimal_e5(s: &str) -> (r: Option<u64>)
    ensures
        match r {
            Some(v) => decimal_e5(s.spec_bytes()) == Some(v as nat),
            None => match decimal_e5(s.spec_bytes()) {
                None => true,
                Some(w) => w > u64::MAX,
            },
        },
{
    let bytes = s.as_bytes();
    let ghost sb = s.spec_bytes();
    let n = bytes.len();
    // find the first dot
    let mut d: usize = 0;
    proof {
        assert(sb.skip(0) =~= sb);
    }
    let mut dot_found = false;
    while d < n && !dot_found
        invariant
            n == sb.len(),
            bytes@ == sb,
            d <= n,
            !dot_found ==> find_dot(sb) == (match find_dot(sb.skip(d as int)) {
                Some(i) => Some(i + d),
                None => None::<int>,
            }),
            dot_found ==> find_dot(sb) == Some(d as int) && d < n,
        decreases n - d + (if dot_found {
            0int
        } else {
            1int
        }),
    {
        let b = *vstd::slice::slice_index_get(bytes, d);
        proof {
            assert(sb.skip(d as int)[0] == sb[d as int]);
        }
        if b == 46 {
            dot_found = true;
        } else {
            proof {
                assert(sb.skip(d as int).skip(1) =~= sb.skip(d + 1));
            }
            d = d + 1;
        }
    }
    if !dot_found {
        proof {
            assert(sb.skip(n as int).len() == 0);
            assert(find_dot(sb) is None);
        }
        if n == 0 {
            return None;
        }
        let ipv = match digits_to_u64(bytes, 0, n) {
            None => {
                proof {
                    assert(sb.subrange(0, n as int) =~= sb);
                    if all_digits(sb) {
                        mul_ge(digits_val(sb), 100000);
                    }
                }
                return None;
            },
            Some(v) => v,
        };
        proof {
            assert(sb.subrange(0, n as int) =~= sb);
        }
        match ipv.checked_mul(100000) {
            None => None,
            Some(v) => Some(v),
        }
    } else {
        // digits before the dot, fractional digits after it
        let ipv = match digits_to_u64(bytes, 0, d) {
            None => {
                proof {
                    assert(sb.take(d as int) =~= sb.subrange(0, d as int));
                    if all_digits(sb.take(d as int)) {
                        mul_ge(digits_val(sb.take(d as int)), 100000);
                    }
                }
                return None;
            },
            Some(v) => v,
        };
        let fv = match frac_to_e5(bytes, d + 1, n) {
            None => {
                proof {
                    assert(sb.skip(d + 1) =~= sb.subrange(d + 1, n as int));
                }
                return None;
            },
            Some(v) => v,
        };
        proof {
            assert(sb.take(d as int) =~= sb.subrange(0, d as int));
            assert(sb.skip(d + 1) =~= sb.subrange(d + 1, n as int));
        }
        if d == 0 && d + 1 == n {
            return None;
        }
        let scaled = match ipv.checked_mul(100000) {
            None => {
                return None;
            },
            Some(v) => v,
        };
        match scaled.checked_add(fv) {
            None => None,
            Some(v) => Some(v),
        }
    }
}

/// A value is no larger than itself scaled by a positive factor.
proof fn mul_ge(a: nat, b: nat)
    requires
        b >= 1,
    ensures
        a * b >= a,
{
    assert(a * b >= a * 1) by (nonlinear_arith)
        requires
            b >= 1,
    ;
}

/// Relies on `SystemTime::now` for the wall clock; nothing is promised of
/// the value. A clock before the epoch reads as zero instead of failing.
#[verifier::external_body]
fn now_micros() -> u128 {
    std::time::SystemTime::now().duration_since(std::time::UNIX_EPOCH).map(
        |d| d.as_micros(),
    ).unwrap_or(0)
}

impl TradeMessage {
    /// Wraps a feed payload, stamping the arrival time.
    pub fn from_ws_payload(payload: WebSocketTrade) -> (r: Self)
        ensures
            r.timestamp == payload.timestamp,
            r.asset == payload.asset,
            r.price == payload.price,
            r.quantity == payload.quantity,
            r.is_buyer_maker == payload.is_buyer_maker,
    {
        TradeMessage {
            timestamp: payload.timestamp,
            asset: payload.asset,
            price: payload.price,
            quantity: payload.quantity,
            is_buyer_maker: payload.is_buyer_maker,
            received_at: now_micros(),
        }
    }

    /// Converts the message into a fixed-point trade, parsing the decimal
    /// price and quantity strings exactly into hundred-thousandths. Fails
    /// exactly when either string is not a plain decimal or its value does
    /// not fit the fixed-point range.
    pub fn to_trade(self) -> (r: Result<Trade, TradeMessageError>)
        ensures
            match r {
                Ok(t) => {
                    &&& t.price_e5 >= 0
                    &&& decimal_e5(vstd::utf8::encode_utf8(self.price@)) == Some(t.price_e5 as nat)
                    &&& decimal_e5(vstd::utf8::encode_utf8(self.quantity@)) == Some(t.quantity_e5 as nat)
                    &&& t.symbol == self.asset
                    &&& t.timestamp == self.timestamp
                    &&& t.is_buyer_maker == self.is_buyer_maker
                },
                Err(TradeMessageError::InvalidNumber) => {
                    ||| match decimal_e5(vstd::utf8::encode_utf8(self.price@)) {
                        None => true,
                        Some(w) => w > i64::MAX,
                    }
                    ||| match decimal_e5(vstd::utf8::encode_utf8(self.quantity@)) {
                        None => true,
                        Some(w) => w > u64::MAX,
                    }
                },
                Err(_) => false,
            },
    {
        let price_e5_u = match parse_decimal_e5(self.price.as_str()) {
            None => {
                return Err(TradeMessageError::InvalidNumber);
            },
            Some(v) => v,
        };
        if price_e5_u > 0x7fff_ffff_ffff_ffff {
            return Err(TradeMessageError::InvalidNumber);
        }
        let quantity_e5 = match parse_decimal_e5(self.quantity.as_str()) {
            None => {
                return Err(TradeMessageError::InvalidNumber);
            },
            Some(v) => v,
        };
        Ok(
            Trade {
                symbol: self.asset,
                timestamp: self.timestamp,
                price_e5: price_e5_u as i64,
                quantity_e5,
                is_buyer_maker: self.is_buyer_maker,
            },
        )
    }
}

} // verus!
