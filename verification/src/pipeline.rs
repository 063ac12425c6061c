//! Pipeline glue: seeding the encoder from reference values, the handshake
//! frame, the per-trade encode step, and the length-prefixed transport
//! unit. The surrounding loops (channel reads, socket writes, the spin on
//! the ring) live outside the library and hand plain values in and out.
//!
//! The producer's first frame carries the literal bytes `START`; the second
//! carries the serialised header; every later frame carries one encoded
//! trade. Encoding errors drop the one trade and leave the encoder as it
//! was: the pipeline does not terminate on per-frame errors.

use vstd::prelude::*;
use vstd::bytes::spec_u32_to_le_bytes;
use vstd::bytes::u32_to_le_bytes;
use vstd::arithmetic::power2::pow2;
use crate::binance::TradeMessage;
use crate::binance::decimal_e5;
use crate::format::BinaryFormat;
use crate::format::BinaryFormatError;
use crate::format::TradeView;
use crate::format::assets_view;
use crate::format::frame_wire;
use crate::format::header_wire;
use crate::format::i64_of_bits;
use crate::format::fits_i64;
use crate::format::seeded_states;
use crate::format::state_after;
use crate::format::symbol_id;
use crate::format::sym_len_ok;

verus! {

/// The handshake payload: the ASCII bytes of `START`.
pub open spec fn start_bytes() -> Seq<u8> {
    seq![83u8, 84u8, 65u8, 82u8, 84u8]
}

/// The producer's first frame: the handshake payload.
pub fn start_frame() -> (r: Vec<u8>)
    ensures
        r@ == start_bytes(),
{
    let mut v: Vec<u8> = Vec::new();
    v.push(83);
    v.push(84);
    v.push(65);
    v.push(82);
    v.push(84);
    proof {
        assert(v@ =~= start_bytes());
    }
    v
}

/// True exactly when `data` is the handshake frame; a consumer discards
/// frames until it has seen it.
pub fn is_start_frame(data: &Vec<u8>) -> (r: bool)
    ensures
        r == (data@ == start_bytes()),
{
    if data.len() != 5 {
        return false;
    }
    let ok = data[0] == 83 && data[1] == 84 && data[2] == 65 && data[3] == 82 && data[4] == 84;
    proof {
        if ok {
            assert(data@ =~= start_bytes());
        }
    }
    ok
}

/// Builds an encoder configured for the asset list together with its
/// serialised header, the per-asset state seeded from the reference
/// values: one price and one quantity per asset, in asset order, at the
/// reference timestamp.
pub fn initialize_encoder(
    assets: Vec<String>,
    reference_timestamp: u64,
    reference_prices: &Vec<i64>,
    reference_quantities: &Vec<u64>,
) -> (r: Result<(BinaryFormat, Vec<u8>), BinaryFormatError>)
    ensures
        match r {
            Ok((encoder, header)) => {
                &&& encoder.wf()
                &&& encoder.assets@ == assets@
                &&& header@ == header_wire(
                    assets_view(assets@),
                    reference_timestamp,
                    reference_prices@,
                    reference_quantities@,
                )
                &&& encoder.states@ == seeded_states(
                    reference_timestamp,
                    reference_prices@,
                    reference_quantities@,
                )
            },
            Err(BinaryFormatError::TooManyAssets) => assets@.len() > 127,
            Err(BinaryFormatError::InvalidSymbol) => {
                &&& assets@.len() <= 127
                &&& exists|i: int| 0 <= i < assets@.len() && !sym_len_ok(#[trigger] assets@[i]@)
            },
            Err(BinaryFormatError::InvalidHeaderLength) => {
                ||| reference_prices@.len() != assets@.len()
                ||| reference_quantities@.len() != assets@.len()
            },
            Err(_) => false,
        },
{
    let mut encoder = match BinaryFormat::new().with_assets(assets) {
        Ok(f) => f,
        Err(e) => {
            return Err(e);
        },
    };
    let mut header: Vec<u8> = Vec::new();
    match encoder.write_header(
        &mut header,
        reference_timestamp,
        reference_prices,
        reference_quantities,
    ) {
        Ok(()) => Ok((encoder, header)),
        Err(e) => Err(e),
    }
}

/// The trade a feed message stands for, if its decimal strings parse and
/// fit the fixed-point ranges.
pub open spec fn msg_trade_view(msg: TradeMessage) -> Option<TradeView> {
    let pv = decimal_e5(vstd::utf8::encode_utf8(msg.price@));
    let qv = decimal_e5(vstd::utf8::encode_utf8(msg.quantity@));
    if pv is Some && pv->Some_0 <= i64::MAX && qv is Some && qv->Some_0 <= u64::MAX {
        Some(
            TradeView {
                symbol: msg.asset@,
                timestamp: msg.timestamp,
                price_e5: pv->Some_0 as i64,
                quantity_e5: qv->Some_0 as u64,
                is_buyer_maker: msg.is_buyer_maker,
            },
        )
    } else {
        None
    }
}

/// One pipeline step: converts a feed message into a fixed-point trade and
/// encodes it against the encoder's delta state. A message whose numbers
/// do not parse, whose symbol is not configured, or whose deltas overflow
/// yields `None` with the encoder unchanged: the pipeline drops that trade
/// and goes on.
pub fn encode_trade_frame(encoder: &mut BinaryFormat, msg: TradeMessage) -> (r: Option<Vec<u8>>)
    requires
        old(encoder).wf(),
    ensures
        final(encoder).wf(),
        final(encoder).assets == old(encoder).assets,
        match r {
            None => {
                &&& *final(encoder) == *old(encoder)
                &&& (msg_trade_view(msg) is None || {
                    let tv = msg_trade_view(msg)->Some_0;
                    let sid = symbol_id(old(encoder).syms(), tv.symbol);
                    ||| sid is None
                    ||| !fits_i64(
                        i64_of_bits(tv.timestamp) - i64_of_bits(
                            old(encoder).states@[sid->Some_0].last_timestamp,
                        ),
                    )
                    ||| !fits_i64(tv.price_e5 - old(encoder).states@[sid->Some_0].last_price_e5)
                })
            },
            Some(frame) => {
                &&& msg_trade_view(msg) is Some
                &&& {
                    let tv = msg_trade_view(msg)->Some_0;
                    &&& symbol_id(old(encoder).syms(), tv.symbol) is Some
                    &&& {
                        let id = symbol_id(old(encoder).syms(), tv.symbol)->Some_0;
                        let dts = i64_of_bits(tv.timestamp) - i64_of_bits(
                            old(encoder).states@[id].last_timestamp,
                        );
                        let dp = tv.price_e5 - old(encoder).states@[id].last_price_e5;
                        &&& fits_i64(dts)
                        &&& fits_i64(dp)
                        &&& frame@ == frame_wire(
                            id as u8,
                            tv.is_buyer_maker,
                            dts as i64,
                            dp as i64,
                            tv.quantity_e5,
                        )
                        &&& final(encoder).states@ == state_after(old(encoder).states@, id, tv)
                    }
                }
            },
        },
{
    let ghost mtv = msg_trade_view(msg);
    let trade = match msg.to_trade() {
        Err(_) => {
            return None;
        },
        Ok(t) => t,
    };
    proof {
        assert(mtv is Some);
        let tv = mtv->Some_0;
        assert(trade@.symbol == tv.symbol);
        assert(trade@.timestamp == tv.timestamp);
        assert(trade@.price_e5 == tv.price_e5);
        assert(trade@.quantity_e5 == tv.quantity_e5);
        assert(trade@.is_buyer_maker == tv.is_buyer_maker);
        assert(trade@ == tv);
    }
    match encoder.encode(&trade) {
        Err(_) => None,
        Ok(frame) => Some(frame),
    }
}

/// One transport unit of the length-prefixed stream: the payload's length
/// as four little-endian bytes, then the payload. The handshake, the
/// header and every encoded trade travel as one unit each.
pub fn frame_unit(payload: &Vec<u8>) -> (r: Vec<u8>)
    requires
        payload@.len() <= u32::MAX,
    ensures
        r@ == spec_u32_to_le_bytes(payload@.len() as u32) + payload@,
{
    let mut out = u32_to_le_bytes(payload.len() as u32);
    out.extend_from_slice(payload.as_slice());
    out
}

/// The ingest side's retry schedule: before retry `attempt` (counted from
/// one) the caller backs off two-to-the-`attempt` seconds, saturating once
/// the doubling no longer fits 64 bits.
pub fn backoff_seconds(attempt: u32) -> (r: u64)
    ensures
        attempt <= 63 ==> r as nat == pow2(attempt as nat),
        attempt > 63 ==> r == u64::MAX,
{
    let mut k: u32 = 0;
    let mut acc: u64 = 1;
    proof {
        vstd::arithmetic::power2::lemma2_to64();
    }
    while k < attempt
        invariant
            k <= attempt,
            k <= 63,
            acc as nat == pow2(k as nat),
            acc <= 0x8000_0000_0000_0000,
        decreases attempt - k,
    {
        proof {
            vstd::arithmetic::power2::lemma2_to64();
            vstd::arithmetic::power2::lemma2_to64_rest();
        }
        if acc > 0x7fff_ffff_ffff_ffff {
            proof {
                if (k as nat) < 63 {
                    vstd::arithmetic::power2::lemma_pow2_strictly_increases(k as nat, 63);
                }
            }
            return u64::MAX;
        }
        proof {
            if (k as nat) >= 63 {
                assert(k == 63);
                assert(pow2(63) == 0x8000_0000_0000_0000);
                assert(false);
            }
            if (k as nat) < 62 {
                vstd::arithmetic::power2::lemma_pow2_strictly_increases(k as nat, 62);
            }
        }
        acc = acc * 2;
        k = k + 1;
        proof {
            vstd::arithmetic::power2::lemma_pow2_unfold(k as nat);
        }
    }
    acc
}

} // verus!
