//! Binary trade frame codec: header writer/reader, per-message frames, and
//! the per-asset delta state that encoder and decoder keep in lock-step.
//!
//! Prices and quantities are fixed-point integers in units of one
//! hundred-thousandth (five decimal places), the codec's wire quantisation:
//! a price of `45001.0` is the value `4_500_100_000`. Timestamps are
//! millisecond epochs. Timestamp deltas are computed on the `u64` bit
//! pattern reinterpreted as a signed 64-bit value.

use vstd::prelude::*;
use vstd::utf8::valid_utf8;
use vstd::utf8::decode_utf8;
use vstd::utf8::encode_utf8;
use vstd::bytes::spec_u64_to_le_bytes;
use vstd::bytes::spec_u64_from_le_bytes;
use vstd::bytes::u64_to_le_bytes;
use vstd::bytes::u64_from_le_bytes;
use vstd::slice::slice_subrange;
use crate::varint::encode_signed;
use crate::varint::encode_unsigned;
use crate::varint::uvarint_bytes;
use crate::varint::uvarint_len;
use crate::varint::uvarint_decoded;
use crate::varint::zigzag;
use crate::varint::unzigzag;

verus! {

/// Everything that can go wrong while encoding or decoding.
#[derive(Clone, Copy, Debug, PartialEq, Eq, Structural)]
pub enum BinaryFormatError {
    /// An underlying read or write failed. Never produced by the in-memory
    /// codec itself; kept for callers that feed it from fallible streams.
    IoError,
    /// A decoded asset id lies outside the asset table.
    InvalidAssetId(u8),
    /// A symbol is not in the asset table, is empty or longer than 255
    /// bytes, or its header bytes are not valid UTF-8.
    InvalidSymbol,
    /// The header's version byte differs from the supported version.
    InvalidVersion(u8),
    /// The reference vectors handed to the header writer do not have one
    /// entry per configured asset.
    InvalidHeaderLength,
    /// A buffer ended in the middle of a header or frame, or a varint ran
    /// past ten bytes without terminating.
    InsufficientData,
    /// More than 127 assets were configured or announced by a header.
    TooManyAssets,
    /// A timestamp or price delta does not fit in a signed 64-bit value.
    Overflow,
}

/// One trade, the codec's logical payload.
#[derive(Clone, Debug, PartialEq)]
pub struct Trade {
    /// Asset symbol; must appear in the codec's asset table.
    pub symbol: String,
    /// Millisecond epoch.
    pub timestamp: u64,
    /// Price in hundred-thousandths.
    pub price_e5: i64,
    /// Quantity in hundred-thousandths; quantities are non-negative.
    pub quantity_e5: u64,
    /// True when the buyer is the maker.
    pub is_buyer_maker: bool,
}

/// The mathematical image of a `Trade`: the symbol as its character
/// sequence, the numbers as themselves.
pub struct TradeView {
    pub symbol: Seq<char>,
    pub timestamp: u64,
    pub price_e5: i64,
    pub quantity_e5: u64,
    pub is_buyer_maker: bool,
}

impl View for Trade {
    type V = TradeView;

    open spec fn view(&self) -> TradeView {
        TradeView {
            symbol: self.symbol@,
            timestamp: self.timestamp,
            price_e5: self.price_e5,
            quantity_e5: self.quantity_e5,
            is_buyer_maker: self.is_buyer_maker,
        }
    }
}

/// Delta state for one asset: the values most recently encoded or decoded
/// for it.
#[derive(Clone, Copy, Debug, PartialEq, Eq, Structural)]
pub struct AssetState {
    pub last_timestamp: u64,
    pub last_price_e5: i64,
    pub last_quantity_e5: u64,
}

/// Binary format encoder/decoder for trade data. Encoder and decoder are
/// structurally identical; the distinction is which routines they invoke.
pub struct BinaryFormat {
    /// Wire version; the only supported value is 1.
    pub version: u8,
    /// The asset table, in wire order: an asset's id is its index here.
    pub assets: Vec<String>,
    /// One delta state per asset, indexed by asset id.
    pub states: Vec<AssetState>,
}

/// A symbol fits the wire: its UTF-8 encoding takes 1 to 255 bytes.
pub open spec fn sym_len_ok(sym: Seq<char>) -> bool {
    1 <= encode_utf8(sym).len() <= 255
}

/// The asset table as character sequences.
pub open spec fn assets_view(assets: Seq<String>) -> Seq<Seq<char>> {
    assets.map_values(|s: String| s@)
}

/// The signed value whose 64-bit two's-complement pattern is `t`.
pub open spec fn i64_of_bits(t: u64) -> int {
    if t <= 0x7fff_ffff_ffff_ffff {
        t as int
    } else {
        t - 0x1_0000_0000_0000_0000
    }
}

/// The 64-bit pattern of a signed value; inverse of `i64_of_bits`.
pub open spec fn bits_of_i64(v: int) -> u64
    recommends
        fits_i64(v),
{
    if v >= 0 {
        v as u64
    } else {
        (v + 0x1_0000_0000_0000_0000) as u64
    }
}

/// `v` is representable as a signed 64-bit value.
pub open spec fn fits_i64(v: int) -> bool {
    i64::MIN <= v <= i64::MAX
}

/// Reinterprets the bit pattern of `t` as a signed 64-bit value.
pub fn u64_bits_to_i64(t: u64) -> (r: i64)
    ensures
        r as int == i64_of_bits(t),
{
    if t <= 0x7fff_ffff_ffff_ffff {
        t as i64
    } else {
        let m = u64::MAX - t;
        -(m as i64) - 1
    }
}

/// Reinterprets the bit pattern of `v` as an unsigned 64-bit value.
pub fn i64_bits_to_u64(v: i64) -> (r: u64)
    ensures
        r == bits_of_i64(v as int),
{
    if v >= 0 {
        v as u64
    } else {
        let m = -(v + 1);
        u64::MAX - (m as u64)
    }
}

/// Round trip of the two bit reinterpretations.
pub proof fn lemma_bits_round_trip(v: int)
    requires
        fits_i64(v),
    ensures
        i64_of_bits(bits_of_i64(v)) == v,
{
}

/// One symbol on the wire: a length byte, then the UTF-8 bytes.
pub open spec fn symbol_wire(sym: Seq<char>) -> Seq<u8> {
    seq![encode_utf8(sym).len() as u8] + encode_utf8(sym)
}

/// The asset table on the wire: each symbol in declared order.
pub open spec fn symbols_wire(assets: Seq<Seq<char>>) -> Seq<u8>
    decreases assets.len(),
{
    if assets.len() == 0 {
        Seq::empty()
    } else {
        symbols_wire(assets.drop_last()) + symbol_wire(assets.last())
    }
}

/// Reference prices on the wire: each as its 64-bit pattern, little-endian.
pub open spec fn prices_wire(prices: Seq<i64>) -> Seq<u8>
    decreases prices.len(),
{
    if prices.len() == 0 {
        Seq::empty()
    } else {
        prices_wire(prices.drop_last()) + spec_u64_to_le_bytes(bits_of_i64(prices.last() as int))
    }
}

/// Reference quantities on the wire: each little-endian.
pub open spec fn quantities_wire(qtys: Seq<u64>) -> Seq<u8>
    decreases qtys.len(),
{
    if qtys.len() == 0 {
        Seq::empty()
    } else {
        quantities_wire(qtys.drop_last()) + spec_u64_to_le_bytes(qtys.last())
    }
}

/// The whole header on the wire: version, asset count, symbols, reference
/// timestamp, reference prices, reference quantities.
pub open spec fn header_wire(
    assets: Seq<Seq<char>>,
    reference_timestamp: u64,
    prices: Seq<i64>,
    qtys: Seq<u64>,
) -> Seq<u8> {
    seq![1u8, assets.len() as u8] + symbols_wire(assets) + spec_u64_to_le_bytes(
        reference_timestamp,
    ) + prices_wire(prices) + quantities_wire(qtys)
}

/// The mathematical image of a parsed header.
pub struct HeaderView {
    pub assets: Seq<Seq<char>>,
    pub reference_timestamp: u64,
    pub reference_prices: Seq<i64>,
    pub reference_quantities: Seq<u64>,
}

/// Parses `n` length-prefixed symbols from the front of `s`: for each, a
/// length byte between 1 and 255, then that many bytes of valid UTF-8.
/// Returns the symbols and how many bytes they occupied.
pub open spec fn parse_symbols(s: Seq<u8>, n: nat) -> Result<
    (Seq<Seq<char>>, nat),
    BinaryFormatError,
>
    decreases n,
{
    if n == 0 {
        Ok((Seq::empty(), 0nat))
    } else if s.len() < 1 {
        Err(BinaryFormatError::InsufficientData)
    } else if s[0] == 0 {
        Err(BinaryFormatError::InvalidSymbol)
    } else if s.len() < 1 + s[0] {
        Err(BinaryFormatError::InsufficientData)
    } else if !valid_utf8(s.subrange(1, 1 + s[0])) {
        Err(BinaryFormatError::InvalidSymbol)
    } else {
        match parse_symbols(s.skip(1 + s[0]), (n - 1) as nat) {
            Ok((syms, used)) => Ok(
                (seq![decode_utf8(s.subrange(1, 1 + s[0]))] + syms, (1 + s[0] + used) as nat),
            ),
            Err(e) => Err(e),
        }
    }
}

/// Parses a whole header from the front of `s`: version byte 1, an asset
/// count of at most 127, the symbols, then the reference timestamp, prices
/// and quantities. Returns the header and how many bytes it occupied.
pub open spec fn parse_header(s: Seq<u8>) -> Result<(HeaderView, nat), BinaryFormatError> {
    if s.len() < 1 {
        Err(BinaryFormatError::InsufficientData)
    } else if s[0] != 1 {
        Err(BinaryFormatError::InvalidVersion(s[0]))
    } else if s.len() < 2 {
        Err(BinaryFormatError::InsufficientData)
    } else if s[1] > 127 {
        Err(BinaryFormatError::TooManyAssets)
    } else {
        let n = s[1] as int;
        match parse_symbols(s.skip(2), s[1] as nat) {
            Err(e) => Err(e),
            Ok((syms, used)) => {
                let off = 2 + used as int;
                if s.len() < off + 8 + 16 * n {
                    Err(BinaryFormatError::InsufficientData)
                } else {
                    Ok(
                        (
                            HeaderView {
                                assets: syms,
                                reference_timestamp: spec_u64_from_le_bytes(
                                    s.subrange(off, off + 8),
                                ),
                                reference_prices: Seq::new(
                                    n as nat,
                                    |i: int|
                                        i64_of_bits(
                                            spec_u64_from_le_bytes(
                                                s.subrange(off + 8 + 8 * i, off + 16 + 8 * i),
                                            ),
                                        ) as i64,
                                ),
                                reference_quantities: Seq::new(
                                    n as nat,
                                    |i: int|
                                        spec_u64_from_le_bytes(
                                            s.subrange(
                                                off + 8 + 8 * n + 8 * i,
                                                off + 16 + 8 * n + 8 * i,
                                            ),
                                        ),
                                ),
                            },
                            (off + 8 + 16 * n) as nat,
                        ),
                    )
                }
            },
        }
    }
}

/// Relies on `String::from_utf8`: succeeds exactly on valid UTF-8, and then
/// returns the string whose character sequence is the decoding of `bytes`.
#[verifier::external_body]
fn string_from_utf8(bytes: Vec<u8>) -> (r: Option<String>)
    ensures
        match r {
            Some(s) => valid_utf8(bytes@) && s@ == decode_utf8(bytes@),
            None => !valid_utf8(bytes@),
        },
{
    match String::from_utf8(bytes) {
        Ok(s) => Some(s),
        Err(_) => None,
    }
}

/// The delta states a header seeds: one per asset, all at the reference
/// values.
pub open spec fn seeded_states(
    reference_timestamp: u64,
    prices: Seq<i64>,
    qtys: Seq<u64>,
) -> Seq<AssetState> {
    Seq::new(
        prices.len(),
        |i: int|
            AssetState {
                last_timestamp: reference_timestamp,
                last_price_e5: prices[i],
                last_quantity_e5: qtys[i],
            },
    )
}

impl Default for BinaryFormat {
    /// Same as `new`: a fresh codec with no assets.
    fn default() -> (r: Self)
        ensures
            r.wf(),
            r.assets@.len() == 0,
            r.states@.len() == 0,
            r.version == 1,
    {
        BinaryFormat { version: 1, assets: Vec::new(), states: Vec::new() }
    }
}

impl BinaryFormat {
    /// The codec's structural invariant: version 1, one state per asset, at
    /// most 127 assets, every symbol within wire bounds.
    pub open spec fn wf(self) -> bool {
        &&& self.version == 1
        &&& self.assets@.len() == self.states@.len()
        &&& self.assets@.len() <= 127
        &&& forall|i: int|
            0 <= i < self.assets@.len() ==> sym_len_ok(#[trigger] self.assets@[i]@)
    }

    /// The asset table as character sequences.
    pub open spec fn syms(self) -> Seq<Seq<char>> {
        assets_view(self.assets@)
    }

    /// A fresh codec: version 1, no assets, no state.
    pub fn new() -> (r: Self)
        ensures
            r.wf(),
            r.assets@.len() == 0,
            r.states@.len() == 0,
            r.version == 1,
    {
        BinaryFormat { version: 1, assets: Vec::new(), states: Vec::new() }
    }

    /// Configures the asset table, zeroing the delta states. Rejects more
    /// than 127 assets, and any symbol that is empty or longer than 255
    /// bytes.
    pub fn with_assets(self, assets: Vec<String>) -> (r: Result<Self, BinaryFormatError>)
        ensures
            match r {
                Ok(f) => {
                    &&& assets@.len() <= 127
                    &&& forall|i: int|
                        0 <= i < assets@.len() ==> sym_len_ok(#[trigger] assets@[i]@)
                    &&& f.version == self.version
                    &&& f.assets == assets
                    &&& f.states@ == Seq::new(
                        assets@.len(),
                        |i: int|
                            AssetState { last_timestamp: 0, last_price_e5: 0, last_quantity_e5: 0 },
                    )
                    &&& self.version == 1 ==> f.wf()
                },
                Err(BinaryFormatError::TooManyAssets) => assets@.len() > 127,
                Err(BinaryFormatError::InvalidSymbol) => {
                    &&& assets@.len() <= 127
                    &&& exists|i: int|
                        0 <= i < assets@.len() && !sym_len_ok(#[trigger] assets@[i]@)
                },
                Err(_) => false,
            },
    {
        if assets.len() > 127 {
            return Err(BinaryFormatError::TooManyAssets);
        }
        let mut states: Vec<AssetState> = Vec::new();
        let mut i: usize = 0;
        while i < assets.len()
            invariant
                i <= assets@.len() <= 127,
                states@.len() == i,
                forall|j: int|
                    0 <= j < i ==> states@[j] == (AssetState {
                        last_timestamp: 0,
                        last_price_e5: 0,
                        last_quantity_e5: 0,
                    }),
                forall|j: int| 0 <= j < i ==> sym_len_ok(#[trigger] assets@[j]@),
            decreases assets@.len() - i,
        {
            let byte_len = assets[i].as_str().as_bytes().len();
            if byte_len == 0 || byte_len > 255 {
                return Err(BinaryFormatError::InvalidSymbol);
            }
            states.push(AssetState { last_timestamp: 0, last_price_e5: 0, last_quantity_e5: 0 });
            i = i + 1;
        }
        proof {
            assert(states@ =~= Seq::new(
                assets@.len(),
                |i: int| AssetState { last_timestamp: 0, last_price_e5: 0, last_quantity_e5: 0 },
            ));
        }
        Ok(BinaryFormat { version: self.version, assets, states })
    }

    /// Serialises the header for the configured assets and seeds the delta
    /// states from the reference values: one (price, quantity) pair per
    /// asset, in asset order, all at the reference timestamp. Fails, writing
    /// and changing nothing, when the reference vectors do not have one
    /// entry per asset.
    pub fn write_header(
        &mut self,
        buffer: &mut Vec<u8>,
        reference_timestamp: u64,
        reference_prices: &Vec<i64>,
        reference_quantities: &Vec<u64>,
    ) -> (r: Result<(), BinaryFormatError>)
        requires
            old(self).wf(),
        ensures
            match r {
                Ok(()) => {
                    &&& reference_prices@.len() == old(self).assets@.len()
                    &&& reference_quantities@.len() == old(self).assets@.len()
                    &&& final(buffer)@ == old(buffer)@ + header_wire(
                        old(self).syms(),
                        reference_timestamp,
                        reference_prices@,
                        reference_quantities@,
                    )
                    &&& final(self).assets == old(self).assets
                    &&& final(self).version == old(self).version
                    &&& final(self).states@ == seeded_states(
                        reference_timestamp,
                        reference_prices@,
                        reference_quantities@,
                    )
                    &&& final(self).wf()
                },
                Err(BinaryFormatError::InvalidHeaderLength) => {
                    &&& {
                        ||| reference_prices@.len() != old(self).assets@.len()
                        ||| reference_quantities@.len() != old(self).assets@.len()
                    }
                    &&& *final(self) == *old(self)
                    &&& final(buffer)@ == old(buffer)@
                },
                Err(_) => false,
            },
    {
        if reference_prices.len() != self.assets.len() || reference_quantities.len()
            != self.assets.len() {
            return Err(BinaryFormatError::InvalidHeaderLength);
        }
        let ghost syms = self.syms();
        let ghost buf0 = buffer@;
        let count = self.assets.len() as u8;
        buffer.push(self.version);
        buffer.push(count);
        let ghost head_fixed = buf0 + seq![1u8, syms.len() as u8];
        proof {
            assert(buffer@ =~= head_fixed);
        }
        let mut i: usize = 0;
        while i < self.assets.len()
            invariant
                old(self).wf(),
                *self == *old(self),
                syms == old(self).syms(),
                head_fixed == buf0 + seq![1u8, syms.len() as u8],
                i <= self.assets@.len(),
                buffer@ == head_fixed + symbols_wire(syms.take(i as int)),
            decreases self.assets@.len() - i,
        {
            let ghost prevbuf = buffer@;
            let sym_bytes = self.assets[i].as_str().as_bytes();
            proof {
                assert(syms[i as int] == self.assets@[i as int]@);
                assert(sym_bytes@ == encode_utf8(syms[i as int]));
                assert(sym_len_ok(syms[i as int]));
            }
            buffer.push(sym_bytes.len() as u8);
            buffer.extend_from_slice(sym_bytes);
            proof {
                assert(buffer@ =~= prevbuf + symbol_wire(syms[i as int]));
                assert(syms.take(i + 1).drop_last() =~= syms.take(i as int));
                assert(syms.take(i + 1).last() == syms[i as int]);
                assert(symbols_wire(syms.take(i + 1)) == symbols_wire(syms.take(i as int))
                    + symbol_wire(syms[i as int]));
                assert(head_fixed + (symbols_wire(syms.take(i as int)) + symbol_wire(
                    syms[i as int],
                )) =~= (head_fixed + symbols_wire(syms.take(i as int))) + symbol_wire(
                    syms[i as int],
                ));
            }
            i = i + 1;
        }
        let ghost head_syms = head_fixed + symbols_wire(syms);
        proof {
            assert(syms.take(syms.len() as int) =~= syms);
        }
        let ts_bytes = u64_to_le_bytes(reference_timestamp);
        buffer.extend_from_slice(ts_bytes.as_slice());
        let ghost head_ts = head_syms + spec_u64_to_le_bytes(reference_timestamp);
        proof {
            assert(buffer@ =~= head_ts);
        }
        let mut j: usize = 0;
        while j < reference_prices.len()
            invariant
                old(self).wf(),
                *self == *old(self),
                j <= reference_prices@.len(),
                buffer@ == head_ts + prices_wire(reference_prices@.take(j as int)),
            decreases reference_prices@.len() - j,
        {
            let ghost prevbuf = buffer@;
            let u = i64_bits_to_u64(reference_prices[j]);
            let ub = u64_to_le_bytes(u);
            buffer.extend_from_slice(ub.as_slice());
            proof {
                let pr = reference_prices@;
                assert(pr.take(j + 1).drop_last() =~= pr.take(j as int));
                assert(pr.take(j + 1).last() == pr[j as int]);
                assert(prices_wire(pr.take(j + 1)) == prices_wire(pr.take(j as int))
                    + spec_u64_to_le_bytes(bits_of_i64(pr[j as int] as int)));
                assert(buffer@ =~= head_ts + prices_wire(pr.take(j + 1)));
            }
            j = j + 1;
        }
        let ghost head_prices = head_ts + prices_wire(reference_prices@);
        proof {
            assert(reference_prices@.take(reference_prices@.len() as int) =~= reference_prices@);
        }
        let mut k: usize = 0;
        while k < reference_quantities.len()
            invariant
                old(self).wf(),
                *self == *old(self),
                k <= reference_quantities@.len(),
                head_prices == head_ts + prices_wire(reference_prices@),
                buffer@ == head_prices + quantities_wire(reference_quantities@.take(k as int)),
            decreases reference_quantities@.len() - k,
        {
            let ghost prevbuf = buffer@;
            let qb = u64_to_le_bytes(reference_quantities[k]);
            buffer.extend_from_slice(qb.as_slice());
            proof {
                let qt = reference_quantities@;
                assert(qt.take(k + 1).drop_last() =~= qt.take(k as int));
                assert(qt.take(k + 1).last() == qt[k as int]);
                assert(quantities_wire(qt.take(k + 1)) == quantities_wire(qt.take(k as int))
                    + spec_u64_to_le_bytes(qt[k as int]));
                assert(buffer@ =~= head_prices + quantities_wire(qt.take(k + 1)));
            }
            k = k + 1;
        }
        proof {
            assert(reference_quantities@.take(reference_quantities@.len() as int)
                =~= reference_quantities@);
        }
        let mut states: Vec<AssetState> = Vec::new();
        let mut m: usize = 0;
        while m < reference_prices.len()
            invariant
                old(self).wf(),
                *self == *old(self),
                m <= reference_prices@.len(),
                reference_quantities@.len() == reference_prices@.len(),
                states@.len() == m,
                forall|x: int|
                    0 <= x < m ==> states@[x] == (AssetState {
                        last_timestamp: reference_timestamp,
                        last_price_e5: reference_prices@[x],
                        last_quantity_e5: reference_quantities@[x],
                    }),
            decreases reference_prices@.len() - m,
        {
            states.push(
                AssetState {
                    last_timestamp: reference_timestamp,
                    last_price_e5: reference_prices[m],
                    last_quantity_e5: reference_quantities[m],
                },
            );
            m = m + 1;
        }
        self.states = states;
        proof {
            assert(self.states@ =~= seeded_states(
                reference_timestamp,
                reference_prices@,
                reference_quantities@,
            ));
            assert(buffer@ =~= buf0 + header_wire(
                syms,
                reference_timestamp,
                reference_prices@,
                reference_quantities@,
            ));
        }
        Ok(())
    }

    /// Deserialises a header from the front of `data`, replacing the asset
    /// table and seeding the delta states exactly as the writer did.
    /// Returns how many bytes the header occupied. On failure the codec is
    /// unchanged.
    pub fn read_header(&mut self, data: &Vec<u8>) -> (r: Result<usize, BinaryFormatError>)
        requires
            old(self).version == 1,
        ensures
            match r {
                Ok(n) => match parse_header(data@) {
                    Ok((h, used)) => {
                        &&& n == used
                        &&& n <= data@.len()
                        &&& final(self).syms() == h.assets
                        &&& final(self).states@ == seeded_states(
                            h.reference_timestamp,
                            h.reference_prices,
                            h.reference_quantities,
                        )
                        &&& final(self).version == 1
                        &&& final(self).wf()
                    },
                    Err(_) => false,
                },
                Err(e) => {
                    &&& parse_header(data@) == Err::<(HeaderView, nat), BinaryFormatError>(e)
                    &&& *final(self) == *old(self)
                },
            },
    {
        if data.len() < 1 {
            return Err(BinaryFormatError::InsufficientData);
        }
        let version = data[0];
        if version != self.version {
            return Err(BinaryFormatError::InvalidVersion(version));
        }
        if data.len() < 2 {
            return Err(BinaryFormatError::InsufficientData);
        }
        let count = data[1];
        if count > 127 {
            return Err(BinaryFormatError::TooManyAssets);
        }
        let count_us = count as usize;
        let mut assets: Vec<String> = Vec::new();
        let mut pos: usize = 2;
        let mut t: usize = 0;
        proof {
            assert(data@.skip(2).skip(0) =~= data@.skip(2));
            assert(assets_view(assets@) + parse_symbols(data@.skip(2), count as nat)->Ok_0.0
                =~= parse_symbols(data@.skip(2), count as nat)->Ok_0.0);
        }
        while t < count_us
            invariant
                *self == *old(self),
                old(self).version == 1,
                data@.len() >= 2,
                data@[0] == 1,
                data@[1] == count,
                count <= 127,
                count_us == count,
                t <= count_us,
                assets@.len() == t,
                2 <= pos <= data@.len(),
                forall|x: int| 0 <= x < t ==> sym_len_ok(#[trigger] assets@[x]@),
                parse_symbols(data@.skip(2), count as nat) == (match parse_symbols(
                    data@.skip(pos as int),
                    (count_us - t) as nat,
                ) {
                    Ok((syms, used)) => Ok::<(Seq<Seq<char>>, nat), BinaryFormatError>(
                        (assets_view(assets@) + syms, ((pos - 2) + used) as nat),
                    ),
                    Err(e) => Err(e),
                }),
            decreases count_us - t,
        {
            let ghost srem = data@.skip(pos as int);
            if pos >= data.len() {
                proof {
                    assert(srem.len() == 0);
                }
                return Err(BinaryFormatError::InsufficientData);
            }
            let l = data[pos] as usize;
            proof {
                assert(srem[0] == data@[pos as int]);
            }
            if l == 0 {
                return Err(BinaryFormatError::InvalidSymbol);
            }
            if l > data.len() - (pos + 1) {
                proof {
                    assert(srem.len() < 1 + srem[0]);
                }
                return Err(BinaryFormatError::InsufficientData);
            }
            let bytes_slice = slice_subrange(data.as_slice(), pos + 1, pos + 1 + l);
            let bytes_vec = vstd::slice::slice_to_vec(bytes_slice);
            proof {
                assert(bytes_vec@ =~= srem.subrange(1, 1 + srem[0]));
            }
            match string_from_utf8(bytes_vec) {
                None => {
                    return Err(BinaryFormatError::InvalidSymbol);
                },
                Some(sym) => {
                    let ghost prev_assets = assets@;
                    let ghost inner = parse_symbols(
                        data@.skip(pos + 1 + l),
                        (count_us - t - 1) as nat,
                    );
                    assets.push(sym);
                    proof {
                        vstd::utf8::decode_utf8_encode_utf8(srem.subrange(1, 1 + srem[0]));
                        assert(encode_utf8(sym@) =~= srem.subrange(1, 1 + srem[0]));
                        assert(sym_len_ok(sym@));
                        assert(assets_view(assets@) =~= assets_view(prev_assets) + seq![sym@]);
                        assert(srem.skip(1 + srem[0]) =~= data@.skip(pos + 1 + l));
                        assert(parse_symbols(srem, (count_us - t) as nat) == (match inner {
                            Ok((syms, used)) => Ok::<(Seq<Seq<char>>, nat), BinaryFormatError>(
                                (seq![sym@] + syms, (1 + l + used) as nat),
                            ),
                            Err(e) => Err(e),
                        }));
                        if inner is Ok {
                            let syms = inner->Ok_0.0;
                            assert((assets_view(prev_assets) + (seq![sym@] + syms))
                                =~= (assets_view(prev_assets) + seq![sym@]) + syms);
                        }
                    }
                    pos = pos + 1 + l;
                    t = t + 1;
                },
            }
        }
        proof {
            assert(parse_symbols(data@.skip(pos as int), 0) == Ok::<
                (Seq<Seq<char>>, nat),
                BinaryFormatError,
            >((Seq::empty(), 0nat)));
            assert(assets_view(assets@) + Seq::<Seq<char>>::empty() =~= assets_view(assets@));
            assert(parse_symbols(data@.skip(2), count as nat) == Ok::<
                (Seq<Seq<char>>, nat),
                BinaryFormatError,
            >((assets_view(assets@), (pos - 2) as nat)));
        }
        if data.len() - pos < 8 + 16 * count_us {
            return Err(BinaryFormatError::InsufficientData);
        }
        let ts = u64_from_le_bytes(slice_subrange(data.as_slice(), pos, pos + 8));
        let mut prices: Vec<i64> = Vec::new();
        let mut t2: usize = 0;
        while t2 < count_us
            invariant
                *self == *old(self),
                old(self).version == 1,
                count_us <= 127,
                t2 <= count_us,
                prices@.len() == t2,
                pos + 8 + 16 * count_us <= data@.len(),
                data@.len() <= usize::MAX,
                forall|x: int|
                    0 <= x < t2 ==> #[trigger] prices@[x] as int == i64_of_bits(
                        spec_u64_from_le_bytes(
                            data@.subrange(pos + 8 + 8 * x, pos + 16 + 8 * x),
                        ),
                    ),
            decreases count_us - t2,
        {
            let u = u64_from_le_bytes(
                slice_subrange(data.as_slice(), pos + 8 + 8 * t2, pos + 16 + 8 * t2),
            );
            prices.push(u64_bits_to_i64(u));
            t2 = t2 + 1;
        }
        let mut states: Vec<AssetState> = Vec::new();
        let mut t3: usize = 0;
        while t3 < count_us
            invariant
                *self == *old(self),
                old(self).version == 1,
                count_us <= 127,
                t3 <= count_us,
                prices@.len() == count_us,
                states@.len() == t3,
                pos + 8 + 16 * count_us <= data@.len(),
                data@.len() <= usize::MAX,
                forall|x: int|
                    0 <= x < count_us ==> #[trigger] prices@[x] as int == i64_of_bits(
                        spec_u64_from_le_bytes(
                            data@.subrange(pos + 8 + 8 * x, pos + 16 + 8 * x),
                        ),
                    ),
                forall|x: int|
                    0 <= x < t3 ==> #[trigger] states@[x] == (AssetState {
                        last_timestamp: spec_u64_from_le_bytes(data@.subrange(pos as int, pos + 8)),
                        last_price_e5: prices@[x],
                        last_quantity_e5: spec_u64_from_le_bytes(
                            data@.subrange(
                                pos + 8 + 8 * (count_us as int) + 8 * x,
                                pos + 16 + 8 * (count_us as int) + 8 * x,
                            ),
                        ),
                    }),
                ts == spec_u64_from_le_bytes(data@.subrange(pos as int, pos + 8)),
            decreases count_us - t3,
        {
            let q = u64_from_le_bytes(
                slice_subrange(
                    data.as_slice(),
                    pos + 8 + 8 * count_us + 8 * t3,
                    pos + 16 + 8 * count_us + 8 * t3,
                ),
            );
            states.push(
                AssetState { last_timestamp: ts, last_price_e5: prices[t3], last_quantity_e5: q },
            );
            t3 = t3 + 1;
        }
        self.assets = assets;
        self.states = states;
        proof {
            let h = parse_header(data@)->Ok_0.0;
            assert(self.syms() == h.assets);
            assert(self.states@ =~= seeded_states(
                h.reference_timestamp,
                h.reference_prices,
                h.reference_quantities,
            ));
        }
        Ok(pos + 8 + 16 * count_us)
    }
}


/// A non-empty asset table's wire image starts with its first symbol.
proof fn lemma_symbols_wire_cons(assets: Seq<Seq<char>>)
    requires
        assets.len() >= 1,
    ensures
        symbols_wire(assets) == symbol_wire(assets[0]) + symbols_wire(assets.skip(1)),
    decreases assets.len(),
{
    if assets.len() == 1 {
        assert(assets.drop_last() =~= Seq::<Seq<char>>::empty());
        assert(assets.skip(1) =~= Seq::<Seq<char>>::empty());
        assert(symbols_wire(Seq::<Seq<char>>::empty()) == Seq::<u8>::empty());
        assert(Seq::<u8>::empty() + symbol_wire(assets[0]) =~= symbol_wire(assets[0]));
        assert(symbol_wire(assets[0]) + Seq::<u8>::empty() =~= symbol_wire(assets[0]));
        assert(assets.last() == assets[0]);
    } else {
        lemma_symbols_wire_cons(assets.drop_last());
        assert(assets.drop_last()[0] == assets[0]);
        assert(assets.drop_last().skip(1) =~= assets.skip(1).drop_last());
        assert(assets.last() == assets.skip(1).last());
        assert(assets.skip(1).len() >= 1);
        assert(symbols_wire(assets.skip(1)) == symbols_wire(assets.skip(1).drop_last())
            + symbol_wire(assets.skip(1).last()));
        assert((symbol_wire(assets[0]) + symbols_wire(assets.skip(1).drop_last())) + symbol_wire(
            assets.skip(1).last(),
        ) =~= symbol_wire(assets[0]) + (symbols_wire(assets.skip(1).drop_last()) + symbol_wire(
            assets.skip(1).last(),
        )));
    }
}

/// Written symbols parse back: after the asset table's wire image, whatever
/// follows, the parser returns exactly those symbols and consumes exactly
/// that image.
proof fn lemma_parse_symbols_round_trip(assets: Seq<Seq<char>>, rest: Seq<u8>)
    requires
        forall|i: int| 0 <= i < assets.len() ==> sym_len_ok(#[trigger] assets[i]),
    ensures
        parse_symbols(symbols_wire(assets) + rest, assets.len()) == Ok::<
            (Seq<Seq<char>>, nat),
            BinaryFormatError,
        >((assets, symbols_wire(assets).len())),
    decreases assets.len(),
{
    if assets.len() == 0 {
        assert(symbols_wire(assets) =~= Seq::<u8>::empty());
        assert(assets =~= Seq::<Seq<char>>::empty());
    } else {
        lemma_symbols_wire_cons(assets);
        let sym = assets[0];
        let enc = encode_utf8(sym);
        let s = symbols_wire(assets) + rest;
        let tail_rest = symbols_wire(assets.skip(1)) + rest;
        assert(s =~= (symbol_wire(sym) + symbols_wire(assets.skip(1))) + rest);
        assert(s =~= symbol_wire(sym) + tail_rest);
        assert(s[0] == enc.len() as u8);
        assert(s[0] == enc.len());
        assert(s.subrange(1, 1 + s[0]) =~= enc);
        vstd::utf8::encode_utf8_valid_utf8(sym);
        vstd::utf8::encode_utf8_decode_utf8(sym);
        assert(s.skip(1 + s[0]) =~= tail_rest);
        lemma_parse_symbols_round_trip(assets.skip(1), rest);
        assert(parse_symbols(s, assets.len()) == Ok::<(Seq<Seq<char>>, nat), BinaryFormatError>(
            (seq![sym] + assets.skip(1), (1 + s[0] + symbols_wire(assets.skip(1)).len()) as nat),
        ));
        assert(seq![sym] + assets.skip(1) =~= assets);
        assert(symbols_wire(assets).len() == 1 + enc.len() + symbols_wire(assets.skip(1)).len());
    }
}

/// Length and per-element layout of the reference price section.
proof fn lemma_prices_wire_props(prices: Seq<i64>)
    ensures
        prices_wire(prices).len() == 8 * prices.len(),
        forall|i: int|
            0 <= i < prices.len() ==> prices_wire(prices).subrange(8 * i, 8 * i + 8)
                == spec_u64_to_le_bytes(bits_of_i64((#[trigger] prices[i]) as int)),
    decreases prices.len(),
{
    vstd::bytes::lemma_auto_spec_u64_to_from_le_bytes();
    if prices.len() == 0 {
    } else {
        lemma_prices_wire_props(prices.drop_last());
        assert forall|i: int| 0 <= i < prices.len() implies prices_wire(prices).subrange(
            8 * i,
            8 * i + 8,
        ) == spec_u64_to_le_bytes(bits_of_i64((prices[i]) as int)) by {
            if i < prices.len() - 1 {
                assert(prices.drop_last()[i] == prices[i]);
                assert(prices_wire(prices).subrange(8 * i, 8 * i + 8) =~= prices_wire(
                    prices.drop_last(),
                ).subrange(8 * i, 8 * i + 8));
            } else {
                assert(prices.last() == prices[i]);
                assert(prices_wire(prices).subrange(8 * i, 8 * i + 8) =~= spec_u64_to_le_bytes(
                    bits_of_i64(prices.last() as int),
                ));
            }
        }
    }
}

/// Length and per-element layout of the reference quantity section.
proof fn lemma_quantities_wire_props(qtys: Seq<u64>)
    ensures
        quantities_wire(qtys).len() == 8 * qtys.len(),
        forall|i: int|
            0 <= i < qtys.len() ==> quantities_wire(qtys).subrange(8 * i, 8 * i + 8)
                == spec_u64_to_le_bytes(#[trigger] qtys[i]),
    decreases qtys.len(),
{
    vstd::bytes::lemma_auto_spec_u64_to_from_le_bytes();
    if qtys.len() == 0 {
    } else {
        lemma_quantities_wire_props(qtys.drop_last());
        assert forall|i: int| 0 <= i < qtys.len() implies quantities_wire(qtys).subrange(
            8 * i,
            8 * i + 8,
        ) == spec_u64_to_le_bytes(qtys[i]) by {
            if i < qtys.len() - 1 {
                assert(qtys.drop_last()[i] == qtys[i]);
                assert(quantities_wire(qtys).subrange(8 * i, 8 * i + 8) =~= quantities_wire(
                    qtys.drop_last(),
                ).subrange(8 * i, 8 * i + 8));
            } else {
                assert(qtys.last() == qtys[i]);
                assert(quantities_wire(qtys).subrange(8 * i, 8 * i + 8) =~= spec_u64_to_le_bytes(
                    qtys.last(),
                ));
            }
        }
    }
}

/// Header round-trip: a header written by an encoder configured with a
/// given asset list and reference vectors, followed by anything, parses
/// back to exactly those assets and reference values, consuming exactly the
/// header's bytes. Together with the contracts of `write_header` and
/// `read_header` this says the reader reconstructs the writer's
/// configuration and per-asset state seed.
pub proof fn lemma_header_round_trip(
    assets: Seq<Seq<char>>,
    reference_timestamp: u64,
    prices: Seq<i64>,
    qtys: Seq<u64>,
    rest: Seq<u8>,
)
    requires
        assets.len() <= 127,
        prices.len() == assets.len(),
        qtys.len() == assets.len(),
        forall|i: int| 0 <= i < assets.len() ==> sym_len_ok(#[trigger] assets[i]),
    ensures
        parse_header(header_wire(assets, reference_timestamp, prices, qtys) + rest) == Ok::<
            (HeaderView, nat),
            BinaryFormatError,
        >(
            (
                HeaderView {
                    assets,
                    reference_timestamp,
                    reference_prices: prices,
                    reference_quantities: qtys,
                },
                header_wire(assets, reference_timestamp, prices, qtys).len(),
            ),
        ),
{
    vstd::bytes::lemma_auto_spec_u64_to_from_le_bytes();
    lemma_prices_wire_props(prices);
    lemma_quantities_wire_props(qtys);
    let n = assets.len() as int;
    let w = header_wire(assets, reference_timestamp, prices, qtys);
    let s = w + rest;
    let sw = symbols_wire(assets);
    let tsb = spec_u64_to_le_bytes(reference_timestamp);
    let pw = prices_wire(prices);
    let qw = quantities_wire(qtys);
    assert(s.len() >= 2);
    assert(s[0] == 1);
    assert(s[1] == assets.len() as u8);
    assert(s[1] as int == n);
    assert(s.skip(2) =~= sw + (tsb + pw + qw + rest));
    lemma_parse_symbols_round_trip(assets, tsb + pw + qw + rest);
    let off = 2 + sw.len() as int;
    assert(w.len() == off + 8 + 16 * n);
    assert(s.len() >= off + 8 + 16 * n);
    assert(s.subrange(off, off + 8) =~= tsb);
    let h = parse_header(s)->Ok_0.0;
    assert(h.assets == assets);
    assert(h.reference_timestamp == reference_timestamp);
    assert forall|i: int| 0 <= i < n implies #[trigger] h.reference_prices[i] == prices[i] by {
        assert(s.subrange(off + 8 + 8 * i, off + 16 + 8 * i) =~= pw.subrange(8 * i, 8 * i + 8));
        lemma_bits_round_trip(prices[i] as int);
    }
    assert forall|i: int| 0 <= i < n implies #[trigger] h.reference_quantities[i] == qtys[i] by {
        assert(s.subrange(off + 8 + 8 * n + 8 * i, off + 16 + 8 * n + 8 * i) =~= qw.subrange(
            8 * i,
            8 * i + 8,
        ));
    }
    assert(h.reference_prices =~= prices);
    assert(h.reference_quantities =~= qtys);
    assert(parse_header(s)->Ok_0.1 == w.len());
}


/// The frame's first byte: the asset id in the low seven bits, the
/// buyer-maker flag in the high bit.
pub open spec fn packed_byte(id: u8, maker: bool) -> u8
    recommends
        id < 128,
{
    if maker {
        (id + 128) as u8
    } else {
        id
    }
}

/// One message frame on the wire: packed id byte, signed timestamp delta,
/// signed price delta, unsigned absolute quantity, all varints.
pub open spec fn frame_wire(id: u8, maker: bool, ts_delta: i64, price_delta: i64, qty: u64) -> Seq<
    u8,
> {
    seq![packed_byte(id, maker)] + uvarint_bytes(zigzag(ts_delta as int) as nat) + uvarint_bytes(
        zigzag(price_delta as int) as nat,
    ) + uvarint_bytes(qty as nat)
}

/// The id of `sym` in the asset table: the least index holding it.
pub open spec fn symbol_id(assets: Seq<Seq<char>>, sym: Seq<char>) -> Option<int>
    decreases assets.len(),
{
    if assets.len() == 0 {
        None
    } else if assets[0] == sym {
        Some(0int)
    } else {
        match symbol_id(assets.skip(1), sym) {
            Some(i) => Some(i + 1),
            None => None,
        }
    }
}

/// Parses one signed (zigzag) varint from the front of `s`.
pub open spec fn parse_svarint(s: Seq<u8>) -> Result<(int, nat), BinaryFormatError> {
    match uvarint_len(s) {
        None => Err(BinaryFormatError::InsufficientData),
        Some(n) => Ok((unzigzag(uvarint_decoded(s, n) as int), n)),
    }
}

/// Parses one message frame from the front of `s` against the given asset
/// table and delta states: the packed id byte, then the three varints; the
/// timestamp and price are reconstructed by adding the deltas to the
/// state's last values. A price delta that leaves the signed 64-bit range,
/// and a reconstructed timestamp that is negative (the delta would
/// underflow the unsigned epoch) or leaves the signed range, are overflows.
pub open spec fn parse_message(
    s: Seq<u8>,
    assets: Seq<Seq<char>>,
    states: Seq<AssetState>,
) -> Result<(TradeView, nat), BinaryFormatError>
    recommends
        states.len() == assets.len(),
{
    if s.len() < 1 {
        Err(BinaryFormatError::InsufficientData)
    } else {
        let id = (s[0] % 128) as int;
        let maker = s[0] >= 128;
        if id >= assets.len() {
            Err(BinaryFormatError::InvalidAssetId((s[0] % 128) as u8))
        } else {
            match parse_svarint(s.skip(1)) {
                Err(e) => Err(e),
                Ok((dts, n1)) => {
                    let nts = i64_of_bits(states[id].last_timestamp) + dts;
                    if !fits_i64(nts) || nts < 0 {
                        Err(BinaryFormatError::Overflow)
                    } else {
                        match parse_svarint(s.skip(1 + n1 as int)) {
                            Err(e) => Err(e),
                            Ok((dp, n2)) => {
                                let np = states[id].last_price_e5 + dp;
                                if !fits_i64(np) {
                                    Err(BinaryFormatError::Overflow)
                                } else {
                                    match uvarint_len(s.skip(1 + n1 as int + n2 as int)) {
                                        None => Err(BinaryFormatError::InsufficientData),
                                        Some(n3) => Ok(
                                            (
                                                TradeView {
                                                    symbol: assets[id],
                                                    timestamp: nts as u64,
                                                    price_e5: np as i64,
                                                    quantity_e5: uvarint_decoded(
                                                        s.skip(1 + n1 as int + n2 as int),
                                                        n3,
                                                    ) as u64,
                                                    is_buyer_maker: maker,
                                                },
                                                (1 + n1 + n2 + n3) as nat,
                                            ),
                                        ),
                                    }
                                }
                            },
                        }
                    }
                },
            }
        }
    }
}

/// The delta state after a trade for asset `id` was encoded or decoded.
pub open spec fn state_after(states: Seq<AssetState>, id: int, t: TradeView) -> Seq<AssetState> {
    states.update(
        id,
        AssetState {
            last_timestamp: t.timestamp,
            last_price_e5: t.price_e5,
            last_quantity_e5: t.quantity_e5,
        },
    )
}

/// Finds a symbol in the asset table; returns its least index.
fn find_symbol(assets: &Vec<String>, sym: &String) -> (r: Option<usize>)
    ensures
        match r {
            Some(i) => i < assets@.len() && symbol_id(assets_view(assets@), sym@) == Some(i as int),
            None => symbol_id(assets_view(assets@), sym@) is None,
        },
{
    let ghost full = assets_view(assets@);
    let mut j: usize = 0;
    proof {
        assert(full.skip(0) =~= full);
    }
    while j < assets.len()
        invariant
            j <= assets@.len(),
            full == assets_view(assets@),
            symbol_id(full, sym@) == (match symbol_id(full.skip(j as int), sym@) {
                Some(i) => Some(i + j),
                None => None::<int>,
            }),
        decreases assets@.len() - j,
    {
        proof {
            assert(full.skip(j as int)[0] == full[j as int]);
            assert(full[j as int] == assets@[j as int]@);
        }
        if assets[j].eq(sym) {
            return Some(j);
        }
        proof {
            assert(full.skip(j as int).skip(1) =~= full.skip(j + 1));
        }
        j = j + 1;
    }
    proof {
        assert(full.skip(j as int).len() == 0);
    }
    None
}

impl BinaryFormat {
    /// Serialises one trade as a frame appended to `buffer` and advances the
    /// asset's delta state to the trade's values. Fails, writing and
    /// changing nothing, when the symbol is not in the asset table or a
    /// delta leaves the signed 64-bit range.
    pub fn write_message(&mut self, trade: &Trade, buffer: &mut Vec<u8>) -> (r: Result<
        (),
        BinaryFormatError,
    >)
        requires
            old(self).wf(),
        ensures
            match r {
                Ok(()) => {
                    &&& symbol_id(old(self).syms(), trade.symbol@) is Some
                    &&& {
                        let id = symbol_id(old(self).syms(), trade.symbol@)->Some_0;
                        let dts = i64_of_bits(trade.timestamp) - i64_of_bits(
                            old(self).states@[id].last_timestamp,
                        );
                        let dp = trade.price_e5 - old(self).states@[id].last_price_e5;
                        &&& fits_i64(dts)
                        &&& fits_i64(dp)
                        &&& final(buffer)@ == old(buffer)@ + frame_wire(
                            id as u8,
                            trade.is_buyer_maker,
                            dts as i64,
                            dp as i64,
                            trade.quantity_e5,
                        )
                        &&& final(self).states@ == state_after(old(self).states@, id, trade@)
                    }
                    &&& final(self).assets == old(self).assets
                    &&& final(self).version == old(self).version
                    &&& final(self).wf()
                },
                Err(BinaryFormatError::InvalidSymbol) => {
                    &&& symbol_id(old(self).syms(), trade.symbol@) is None
                    &&& *final(self) == *old(self)
                    &&& final(buffer)@ == old(buffer)@
                },
                Err(BinaryFormatError::Overflow) => {
                    &&& symbol_id(old(self).syms(), trade.symbol@) is Some
                    &&& {
                        let id = symbol_id(old(self).syms(), trade.symbol@)->Some_0;
                        ||| !fits_i64(
                            i64_of_bits(trade.timestamp) - i64_of_bits(
                                old(self).states@[id].last_timestamp,
                            ),
                        )
                        ||| !fits_i64(trade.price_e5 - old(self).states@[id].last_price_e5)
                    }
                    &&& *final(self) == *old(self)
                    &&& final(buffer)@ == old(buffer)@
                },
                Err(_) => false,
            },
    {
        let id = match find_symbol(&self.assets, &trade.symbol) {
            None => {
                return Err(BinaryFormatError::InvalidSymbol);
            },
            Some(i) => i,
        };
        let last = self.states[id];
        let a = u64_bits_to_i64(trade.timestamp);
        let b = u64_bits_to_i64(last.last_timestamp);
        let dts = match a.checked_sub(b) {
            None => {
                return Err(BinaryFormatError::Overflow);
            },
            Some(d) => d,
        };
        let dp = match trade.price_e5.checked_sub(last.last_price_e5) {
            None => {
                return Err(BinaryFormatError::Overflow);
            },
            Some(d) => d,
        };
        let packed = if trade.is_buyer_maker {
            (id as u8) + 128
        } else {
            id as u8
        };
        let ghost buf0 = buffer@;
        buffer.push(packed);
        let ghost buf1 = buffer@;
        encode_signed(dts, buffer);
        let ghost buf2 = buffer@;
        encode_signed(dp, buffer);
        let ghost buf3 = buffer@;
        encode_unsigned(trade.quantity_e5, buffer);
        self.states[id] = AssetState {
            last_timestamp: trade.timestamp,
            last_price_e5: trade.price_e5,
            last_quantity_e5: trade.quantity_e5,
        };
        proof {
            assert(packed == packed_byte(id as u8, trade.is_buyer_maker));
            assert(buf1 =~= buf0 + seq![packed_byte(id as u8, trade.is_buyer_maker)]);
            assert(buffer@ =~= buf0 + frame_wire(
                id as u8,
                trade.is_buyer_maker,
                dts,
                dp,
                trade.quantity_e5,
            ));
            assert(self.states@ =~= state_after(old(self).states@, id as int, trade@));
        }
        Ok(())
    }

    /// Serialises one trade into a fresh buffer; the codec's delta state
    /// advances exactly as in `write_message`.
    pub fn encode(&mut self, trade: &Trade) -> (r: Result<Vec<u8>, BinaryFormatError>)
        requires
            old(self).wf(),
        ensures
            match r {
                Ok(frame) => {
                    &&& symbol_id(old(self).syms(), trade.symbol@) is Some
                    &&& {
                        let id = symbol_id(old(self).syms(), trade.symbol@)->Some_0;
                        let dts = i64_of_bits(trade.timestamp) - i64_of_bits(
                            old(self).states@[id].last_timestamp,
                        );
                        let dp = trade.price_e5 - old(self).states@[id].last_price_e5;
                        &&& fits_i64(dts)
                        &&& fits_i64(dp)
                        &&& frame@ == frame_wire(
                            id as u8,
                            trade.is_buyer_maker,
                            dts as i64,
                            dp as i64,
                            trade.quantity_e5,
                        )
                        &&& final(self).states@ == state_after(old(self).states@, id, trade@)
                    }
                    &&& final(self).assets == old(self).assets
                    &&& final(self).version == old(self).version
                    &&& final(self).wf()
                },
                Err(e) => {
                    &&& *final(self) == *old(self)
                    &&& match e {
                        BinaryFormatError::InvalidSymbol => symbol_id(
                            old(self).syms(),
                            trade.symbol@,
                        ) is None,
                        BinaryFormatError::Overflow => {
                            &&& symbol_id(old(self).syms(), trade.symbol@) is Some
                            &&& {
                                let id = symbol_id(old(self).syms(), trade.symbol@)->Some_0;
                                ||| !fits_i64(
                                    i64_of_bits(trade.timestamp) - i64_of_bits(
                                        old(self).states@[id].last_timestamp,
                                    ),
                                )
                                ||| !fits_i64(trade.price_e5 - old(self).states@[id].last_price_e5)
                            }
                        },
                        _ => false,
                    }
                },
            },
    {
        let mut buffer: Vec<u8> = Vec::new();
        match self.write_message(trade, &mut buffer) {
            Ok(()) => Ok(buffer),
            Err(e) => Err(e),
        }
    }

    /// Deserialises one message frame from `data` starting at `pos`,
    /// advancing the asset's delta state to the decoded values. Returns the
    /// trade and the position just past the frame. A timestamp delta whose
    /// sum with the last timestamp would leave the unsigned 64-bit epoch
    /// range is an overflow. On failure the codec is unchanged.
    pub fn read_message(&mut self, data: &Vec<u8>, pos: usize) -> (r: Result<
        (Trade, usize),
        BinaryFormatError,
    >)
        requires
            old(self).wf(),
            pos <= data@.len(),
        ensures
            match r {
                Ok((t, next)) => {
                    &&& pos < next <= data@.len()
                    &&& parse_message(data@.skip(pos as int), old(self).syms(), old(self).states@)
                        == Ok::<(TradeView, nat), BinaryFormatError>((t@, (next - pos) as nat))
                    &&& final(self).states@ == state_after(
                        old(self).states@,
                        (data@[pos as int] % 128) as int,
                        t@,
                    )
                    &&& final(self).assets == old(self).assets
                    &&& final(self).version == old(self).version
                    &&& final(self).wf()
                },
                Err(e) => {
                    &&& parse_message(data@.skip(pos as int), old(self).syms(), old(self).states@)
                        == Err::<(TradeView, nat), BinaryFormatError>(e)
                    &&& *final(self) == *old(self)
                },
            },
    {
        let ghost s = data@.skip(pos as int);
        if pos >= data.len() {
            proof {
                assert(s.len() == 0);
            }
            return Err(BinaryFormatError::InsufficientData);
        }
        let b = data[pos];
        proof {
            assert(s[0] == data@[pos as int]);
        }
        let is_buyer_maker = b >= 128;
        let id = (b % 128) as usize;
        if id >= self.assets.len() {
            return Err(BinaryFormatError::InvalidAssetId(b % 128));
        }
        proof {
            assert(s.skip(1) =~= data@.skip(pos + 1));
        }
        let (dts, p1) = match crate::varint::decode_signed(data, pos + 1) {
            Err(e) => {
                return Err(e);
            },
            Ok(x) => x,
        };
        let last = self.states[id];
        let lt = u64_bits_to_i64(last.last_timestamp);
        let nts = match lt.checked_add(dts) {
            None => {
                return Err(BinaryFormatError::Overflow);
            },
            Some(x) => x,
        };
        if nts < 0 {
            return Err(BinaryFormatError::Overflow);
        }
        let timestamp = nts as u64;
        proof {
            assert(s.skip(1 + (p1 - (pos + 1))) =~= data@.skip(p1 as int));
        }
        let (dp, p2) = match crate::varint::decode_signed(data, p1) {
            Err(e) => {
                return Err(e);
            },
            Ok(x) => x,
        };
        let price_e5 = match last.last_price_e5.checked_add(dp) {
            None => {
                return Err(BinaryFormatError::Overflow);
            },
            Some(x) => x,
        };
        proof {
            assert(s.skip(1 + (p1 - (pos + 1)) + (p2 - p1)) =~= data@.skip(p2 as int));
        }
        let (quantity_e5, p3) = match crate::varint::decode_unsigned(data, p2) {
            Err(e) => {
                return Err(e);
            },
            Ok(x) => x,
        };
        let symbol = self.assets[id].clone();
        let trade = Trade { symbol, timestamp, price_e5, quantity_e5, is_buyer_maker };
        self.states[id] = AssetState {
            last_timestamp: timestamp,
            last_price_e5: price_e5,
            last_quantity_e5: quantity_e5,
        };
        proof {
            assert(trade@.symbol == old(self).syms()[id as int]);
            assert(self.states@ =~= state_after(old(self).states@, id as int, trade@));
        }
        Ok((trade, p3))
    }

    /// Deserialises one frame from the front of `data`; the codec's delta
    /// state advances exactly as in `read_message`.
    pub fn decode(&mut self, data: &Vec<u8>) -> (r: Result<Trade, BinaryFormatError>)
        requires
            old(self).wf(),
        ensures
            match r {
                Ok(t) => match parse_message(data@, old(self).syms(), old(self).states@) {
                    Ok((tv, used)) => {
                        &&& t@ == tv
                        &&& final(self).states@ == state_after(
                            old(self).states@,
                            (data@[0] % 128) as int,
                            tv,
                        )
                        &&& final(self).assets == old(self).assets
                        &&& final(self).version == old(self).version
                        &&& final(self).wf()
                    },
                    Err(_) => false,
                },
                Err(e) => {
                    &&& parse_message(data@, old(self).syms(), old(self).states@) == Err::<
                        (TradeView, nat),
                        BinaryFormatError,
                    >(e)
                    &&& *final(self) == *old(self)
                },
            },
    {
        proof {
            assert(data@.skip(0) =~= data@);
        }
        match self.read_message(data, 0) {
            Ok((t, _)) => Ok(t),
            Err(e) => Err(e),
        }
    }
}

/// Frame round-trip: a frame encoded against some delta state, followed by
/// anything, parses back against the same state to exactly the encoded
/// trade, consuming exactly the frame's bytes; the decoder's state update
/// (to the trade's values) therefore equals the encoder's, so encoder and
/// decoder stay in lock-step frame by frame. The trade's timestamp must
/// fit the signed 64-bit range (every millisecond epoch does): past it the
/// decoder's underflow guard rejects the reconstructed value.
pub proof fn lemma_message_round_trip(
    assets: Seq<Seq<char>>,
    states: Seq<AssetState>,
    id: int,
    maker: bool,
    timestamp: u64,
    price_e5: i64,
    quantity_e5: u64,
    rest: Seq<u8>,
)
    requires
        states.len() == assets.len(),
        assets.len() <= 127,
        0 <= id < assets.len(),
        timestamp <= i64::MAX,
        fits_i64(i64_of_bits(timestamp) - i64_of_bits(states[id].last_timestamp)),
        fits_i64(price_e5 - states[id].last_price_e5),
    ensures
        ({
            let dts = (i64_of_bits(timestamp) - i64_of_bits(states[id].last_timestamp)) as i64;
            let dp = (price_e5 - states[id].last_price_e5) as i64;
            let w = frame_wire(id as u8, maker, dts, dp, quantity_e5);
            parse_message(w + rest, assets, states) == Ok::<
                (TradeView, nat),
                BinaryFormatError,
            >(
                (
                    TradeView {
                        symbol: assets[id],
                        timestamp,
                        price_e5,
                        quantity_e5,
                        is_buyer_maker: maker,
                    },
                    w.len(),
                ),
            )
        }),
{
    let dts = (i64_of_bits(timestamp) - i64_of_bits(states[id].last_timestamp)) as i64;
    let dp = (price_e5 - states[id].last_price_e5) as i64;
    let uv1 = uvarint_bytes(zigzag(dts as int) as nat);
    let uv2 = uvarint_bytes(zigzag(dp as int) as nat);
    let uv3 = uvarint_bytes(quantity_e5 as nat);
    let w = frame_wire(id as u8, maker, dts, dp, quantity_e5);
    let s = w + rest;
    assert(s[0] == packed_byte(id as u8, maker));
    assert((s[0] % 128) as int == id);
    assert((s[0] >= 128) == maker);
    assert(s.skip(1) =~= uv1 + (uv2 + (uv3 + rest)));
    crate::varint::lemma_signed_varint_round_trip(dts, uv2 + (uv3 + rest));
    let n1 = uv1.len() as int;
    assert(parse_svarint(s.skip(1)) == Ok::<(int, nat), BinaryFormatError>((dts as int, n1 as nat)));
    assert(i64_of_bits(states[id].last_timestamp) + dts == i64_of_bits(timestamp));
    assert(i64_of_bits(timestamp) == timestamp);
    assert(s.skip(1 + n1) =~= uv2 + (uv3 + rest));
    crate::varint::lemma_signed_varint_round_trip(dp, uv3 + rest);
    let n2 = uv2.len() as int;
    assert(parse_svarint(s.skip(1 + n1)) == Ok::<(int, nat), BinaryFormatError>((dp as int, n2 as nat)));
    assert(states[id].last_price_e5 + dp == price_e5);
    assert(s.skip(1 + n1 + n2) =~= uv3 + rest);
    crate::varint::lemma_unsigned_varint_round_trip(quantity_e5, rest);
    let n3 = uv3.len() as int;
    assert(uvarint_len(s.skip(1 + n1 + n2)) == Some(n3 as nat));
    assert(uvarint_decoded(s.skip(1 + n1 + n2), n3 as nat) == quantity_e5 as nat);
    assert(w.len() == 1 + n1 + n2 + n3);
}


/// A found symbol id points at the symbol.
proof fn lemma_symbol_id_found(assets: Seq<Seq<char>>, sym: Seq<char>)
    requires
        symbol_id(assets, sym) is Some,
    ensures
        0 <= symbol_id(assets, sym)->Some_0 < assets.len(),
        assets[symbol_id(assets, sym)->Some_0] == sym,
    decreases assets.len(),
{
    if assets.len() == 0 {
    } else if assets[0] == sym {
    } else {
        lemma_symbol_id_found(assets.skip(1), sym);
    }
}

/// A trade can be encoded against the given state: its symbol is in the
/// table and both deltas fit a signed 64-bit value.
pub open spec fn encode_ok(assets: Seq<Seq<char>>, states: Seq<AssetState>, tv: TradeView) -> bool {
    &&& symbol_id(assets, tv.symbol) is Some
    &&& {
        let id = symbol_id(assets, tv.symbol)->Some_0;
        &&& fits_i64(i64_of_bits(tv.timestamp) - i64_of_bits(states[id].last_timestamp))
        &&& fits_i64(tv.price_e5 - states[id].last_price_e5)
    }
}

/// The frame a trade encodes to against the given state.
pub open spec fn encode_frame(
    assets: Seq<Seq<char>>,
    states: Seq<AssetState>,
    tv: TradeView,
) -> Seq<u8>
    recommends
        encode_ok(assets, states, tv),
{
    let id = symbol_id(assets, tv.symbol)->Some_0;
    let dts = i64_of_bits(tv.timestamp) - i64_of_bits(states[id].last_timestamp);
    let dp = tv.price_e5 - states[id].last_price_e5;
    frame_wire(id as u8, tv.is_buyer_maker, dts as i64, dp as i64, tv.quantity_e5)
}

/// Encodes a whole sequence of trades, threading the delta state from each
/// frame to the next: the concatenated frames and the final state, or
/// `None` as soon as one trade cannot be encoded.
pub open spec fn encode_all(
    assets: Seq<Seq<char>>,
    states: Seq<AssetState>,
    trades: Seq<TradeView>,
) -> Option<(Seq<u8>, Seq<AssetState>)>
    decreases trades.len(),
{
    if trades.len() == 0 {
        Some((Seq::empty(), states))
    } else if !encode_ok(assets, states, trades[0]) {
        None
    } else {
        let id = symbol_id(assets, trades[0].symbol)->Some_0;
        match encode_all(assets, state_after(states, id, trades[0]), trades.skip(1)) {
            Some((bytes, fin)) => Some((encode_frame(assets, states, trades[0]) + bytes, fin)),
            None => None,
        }
    }
}

/// Decodes `n` message frames from the front of `s`, threading the delta
/// state from each frame to the next: the decoded trades and the final
/// state, or `None` as soon as one frame does not parse.
pub open spec fn decode_all(
    s: Seq<u8>,
    assets: Seq<Seq<char>>,
    states: Seq<AssetState>,
    n: nat,
) -> Option<(Seq<TradeView>, Seq<AssetState>)>
    decreases n,
{
    if n == 0 {
        Some((Seq::empty(), states))
    } else {
        match parse_message(s, assets, states) {
            Err(_) => None,
            Ok((tv, used)) => {
                let states2 = state_after(states, (s[0] % 128) as int, tv);
                match decode_all(s.skip(used as int), assets, states2, (n - 1) as nat) {
                    Some((tvs, fin)) => Some((seq![tv] + tvs, fin)),
                    None => None,
                }
            },
        }
    }
}

/// One step of the batch round-trip: against matching states, the head
/// frame of a stream parses back to the trade that produced it, and the
/// stream's remainder starts right after it.
proof fn lemma_batch_round_trip_step(
    assets: Seq<Seq<char>>,
    states: Seq<AssetState>,
    tv: TradeView,
    tail: Seq<u8>,
)
    requires
        states.len() == assets.len(),
        assets.len() <= 127,
        tv.timestamp <= i64::MAX,
        encode_ok(assets, states, tv),
    ensures
        ({
            let frame = encode_frame(assets, states, tv);
            let s = frame + tail;
            &&& parse_message(s, assets, states) == Ok::<(TradeView, nat), BinaryFormatError>(
                (tv, frame.len()),
            )
            &&& (s[0] % 128) as int == symbol_id(assets, tv.symbol)->Some_0
            &&& s.skip(frame.len() as int) == tail
        }),
{
    lemma_symbol_id_found(assets, tv.symbol);
    let id = symbol_id(assets, tv.symbol)->Some_0;
    let frame = encode_frame(assets, states, tv);
    let s = frame + tail;
    lemma_message_round_trip(
        assets,
        states,
        id,
        tv.is_buyer_maker,
        tv.timestamp,
        tv.price_e5,
        tv.quantity_e5,
        tail,
    );
    assert(TradeView {
        symbol: assets[id],
        timestamp: tv.timestamp,
        price_e5: tv.price_e5,
        quantity_e5: tv.quantity_e5,
        is_buyer_maker: tv.is_buyer_maker,
    } == tv);
    assert(s[0] == packed_byte(id as u8, tv.is_buyer_maker));
    assert((s[0] % 128) as int == id);
    assert(s.skip(frame.len() as int) =~= tail);
}

/// Batch round-trip with interleaved symbols: a sequence of trades encoded
/// frame by frame, followed by anything, decodes against the same starting
/// state to exactly the input trades; after every step the decoder's delta
/// state equals the encoder's, so the two stay in lock-step over the whole
/// stream, and the final states are equal. Every trade's timestamp must
/// fit the signed 64-bit range, as every millisecond epoch does.
pub proof fn lemma_batch_round_trip(
    assets: Seq<Seq<char>>,
    states: Seq<AssetState>,
    trades: Seq<TradeView>,
    rest: Seq<u8>,
)
    requires
        states.len() == assets.len(),
        assets.len() <= 127,
        forall|k: int| 0 <= k < trades.len() ==> (#[trigger] trades[k]).timestamp <= i64::MAX,
        encode_all(assets, states, trades) is Some,
    ensures
        ({
            let (bytes, fin) = encode_all(assets, states, trades)->Some_0;
            decode_all(bytes + rest, assets, states, trades.len()) == Some((trades, fin))
        }),
    decreases trades.len(),
{
    if trades.len() == 0 {
        let (bytes, fin) = encode_all(assets, states, trades)->Some_0;
        assert(bytes =~= Seq::<u8>::empty());
        assert(trades =~= Seq::<TradeView>::empty());
    } else {
        let tv = trades[0];
        let id = symbol_id(assets, tv.symbol)->Some_0;
        let states2 = state_after(states, id, tv);
        let frame = encode_frame(assets, states, tv);
        let (tail_bytes, fin) = encode_all(assets, states2, trades.skip(1))->Some_0;
        let (bytes, _) = encode_all(assets, states, trades)->Some_0;
        assert(bytes =~= frame + tail_bytes);
        assert(bytes + rest =~= frame + (tail_bytes + rest));
        assert(tv.timestamp <= i64::MAX) by {
            assert(trades[0] == tv);
        }
        lemma_batch_round_trip_step(assets, states, tv, tail_bytes + rest);
        assert(forall|k: int|
            0 <= k < trades.skip(1).len() ==> (#[trigger] trades.skip(1)[k]).timestamp
                <= i64::MAX) by {
            assert(forall|k: int|
                0 <= k < trades.skip(1).len() ==> trades.skip(1)[k] == #[trigger] trades[k + 1]);
        }
        lemma_batch_round_trip(assets, states2, trades.skip(1), rest);
        let s = bytes + rest;
        assert(s.skip(frame.len() as int) == tail_bytes + rest);
        assert(seq![tv] + trades.skip(1) =~= trades);
    }
}

} // verus!
