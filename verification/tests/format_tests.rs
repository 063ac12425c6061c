use perp_signal_hft::format::{BinaryFormat, BinaryFormatError, Trade};
use perp_signal_hft::varint::encode_signed;

fn test_assets() -> Vec<String> {
    vec![
        "BTCUSDT".to_string(),
        "ETHUSDT".to_string(),
        "SOLUSDT".to_string(),
    ]
}

// Reference values shared by the scenarios: prices 45000.0, 2500.5, 120.75
// in hundred-thousandths.
const REF_TS: u64 = 1_700_000_000_000;
const REF_PRICES: [i64; 3] = [4_500_000_000, 250_050_000, 12_075_000];

fn header_setup(quantities: Vec<u64>) -> (BinaryFormat, Vec<u8>) {
    let mut encoder = BinaryFormat::new().with_assets(test_assets()).unwrap();
    let mut buffer = Vec::new();
    encoder
        .write_header(&mut buffer, REF_TS, &REF_PRICES.to_vec(), &quantities)
        .unwrap();
    (encoder, buffer)
}

#[test]
fn test_header_write_and_read() {
    let assets = test_assets();
    // quantities 1.0, 10.0, 100.0
    let reference_quantities = vec![100_000u64, 1_000_000, 10_000_000];
    let (_encoder, buffer) = header_setup(reference_quantities.clone());

    let mut decoder = BinaryFormat::new();
    decoder.read_header(&buffer).unwrap();

    assert_eq!(decoder.assets, assets);
    assert_eq!(decoder.states.len(), assets.len());
    assert_eq!(decoder.states[0].last_timestamp, REF_TS);
    assert_eq!(decoder.states[0].last_price_e5, REF_PRICES[0]);
    assert_eq!(decoder.states[0].last_quantity_e5, reference_quantities[0]);
}

#[test]
fn test_single_trade_encoding_and_decoding() {
    let reference_quantities = vec![100_000u64, 1_000_000, 10_000_000];
    let (mut encoder, mut buffer) = header_setup(reference_quantities);

    let trade = Trade {
        symbol: "BTCUSDT".to_string(),
        timestamp: 1_700_000_001_000,   // Delta = +1000 ms
        price_e5: 4_500_100_000,        // 45001.0, delta = +1.0
        quantity_e5: 150_000,           // 1.5
        is_buyer_maker: true,
    };

    let encoded_trade = encoder.encode(&trade).unwrap();
    buffer.extend_from_slice(&encoded_trade);

    let mut decoder = BinaryFormat::new();
    let pos = decoder.read_header(&buffer).unwrap();
    let (decoded_trade, _) = decoder.read_message(&buffer, pos).unwrap();

    assert_eq!(decoded_trade.symbol, trade.symbol);
    assert_eq!(decoded_trade.timestamp, trade.timestamp);
    assert_eq!(decoded_trade.price_e5, trade.price_e5);
    assert_eq!(decoded_trade.quantity_e5, trade.quantity_e5);
    assert_eq!(decoded_trade.is_buyer_maker, trade.is_buyer_maker);
}

#[test]
fn test_batch_trade_encoding_and_decoding() {
    let reference_quantities = vec![100_000u64, 1_000_000, 10_000_000];
    let (mut encoder, mut buffer) = header_setup(reference_quantities);

    let trades = vec![
        Trade {
            symbol: "BTCUSDT".to_string(),
            timestamp: 1_700_000_001_000, // Delta = +1000 ms
            price_e5: 4_500_100_000,      // 45001.0, delta = +1.0
            quantity_e5: 150_000,         // 1.5
            is_buyer_maker: true,
        },
        Trade {
            symbol: "ETHUSDT".to_string(),
            timestamp: 1_700_000_002_000, // Delta = +2000 ms
            price_e5: 250_150_000,        // 2501.5, delta = +1.0
            quantity_e5: 1_050_000,       // 10.5
            is_buyer_maker: false,
        },
        Trade {
            symbol: "SOLUSDT".to_string(),
            timestamp: 1_700_000_003_000, // Delta = +3000 ms
            price_e5: 12_100_000,         // 121.0, delta = +0.25
            quantity_e5: 10_025_000,      // 100.25
            is_buyer_maker: true,
        },
    ];

    for trade in &trades {
        let encoded_trade = encoder.encode(trade).unwrap();
        buffer.extend_from_slice(&encoded_trade);
    }

    let mut decoder = BinaryFormat::new();
    let mut pos = decoder.read_header(&buffer).unwrap();

    let mut decoded_trades = Vec::new();
    while pos < buffer.len() {
        let (decoded_trade, next) = decoder.read_message(&buffer, pos).unwrap();
        decoded_trades.push(decoded_trade);
        pos = next;
    }

    assert_eq!(trades.len(), decoded_trades.len());
    for (original, decoded) in trades.iter().zip(decoded_trades.iter()) {
        assert_eq!(original.symbol, decoded.symbol);
        assert_eq!(original.timestamp, decoded.timestamp);
        assert_eq!(original.price_e5, decoded.price_e5);
        assert_eq!(original.quantity_e5, decoded.quantity_e5);
        assert_eq!(original.is_buyer_maker, decoded.is_buyer_maker);
    }
    // the decoder's state equals the encoder's after the batch
    assert_eq!(encoder.states, decoder.states);
}

#[test]
fn single_trade_frame_first_byte_packs_id_and_maker_bit() {
    // quantities all zero
    let (mut encoder, buffer) = header_setup(vec![0, 0, 0]);

    let trade = Trade {
        symbol: "BTCUSDT".to_string(),
        timestamp: 1_700_000_001_000,
        price_e5: 4_500_100_000,
        quantity_e5: 150_000,
        is_buyer_maker: true,
    };
    let frame = encoder.encode(&trade).unwrap();
    assert_eq!(frame[0], 0x80); // id 0 | maker bit

    let mut decoder = BinaryFormat::new();
    decoder.read_header(&buffer).unwrap();
    let decoded = decoder.decode(&frame).unwrap();
    assert_eq!(decoded.symbol, trade.symbol);
    assert_eq!(decoded.timestamp, trade.timestamp);
    assert_eq!(decoded.price_e5, trade.price_e5);
    assert_eq!(decoded.quantity_e5, trade.quantity_e5);
    assert_eq!(decoded.is_buyer_maker, true);
}

#[test]
fn three_trades_across_assets_decode_in_order() {
    let (mut encoder, buffer) = header_setup(vec![0, 0, 0]);
    // Δt = +1000, +2000, +3000 ms; price deltas +1.0, +1.0, +0.25
    let trades = vec![
        Trade {
            symbol: "BTCUSDT".to_string(),
            timestamp: REF_TS + 1000,
            price_e5: REF_PRICES[0] + 100_000,
            quantity_e5: 100_000,
            is_buyer_maker: false,
        },
        Trade {
            symbol: "ETHUSDT".to_string(),
            timestamp: REF_TS + 2000,
            price_e5: REF_PRICES[1] + 100_000,
            quantity_e5: 200_000,
            is_buyer_maker: true,
        },
        Trade {
            symbol: "SOLUSDT".to_string(),
            timestamp: REF_TS + 3000,
            price_e5: REF_PRICES[2] + 25_000,
            quantity_e5: 300_000,
            is_buyer_maker: false,
        },
    ];
    let mut decoder = BinaryFormat::new();
    decoder.read_header(&buffer).unwrap();
    for trade in &trades {
        let frame = encoder.encode(trade).unwrap();
        let decoded = decoder.decode(&frame).unwrap();
        assert_eq!(&decoded, trade);
        assert_eq!(encoder.states, decoder.states);
    }
}

#[test]
fn decode_with_out_of_range_id_is_rejected_and_state_kept() {
    let (_, buffer) = header_setup(vec![0, 0, 0]);
    let mut decoder = BinaryFormat::new();
    decoder.read_header(&buffer).unwrap();
    let states_before = decoder.states.clone();

    // packed id byte 0x83: id 3 with the maker bit, against 3 assets
    let mut frame = vec![0x83u8];
    encode_signed(0, &mut frame);
    encode_signed(0, &mut frame);
    frame.push(0);
    assert_eq!(
        decoder.decode(&frame),
        Err(BinaryFormatError::InvalidAssetId(3))
    );
    assert_eq!(decoder.states, states_before);
}

#[test]
fn header_with_wrong_version_is_rejected() {
    let (_, mut buffer) = header_setup(vec![0, 0, 0]);
    buffer[0] = 2;
    let mut decoder = BinaryFormat::new();
    assert_eq!(
        decoder.read_header(&buffer),
        Err(BinaryFormatError::InvalidVersion(2))
    );
    assert_eq!(decoder.assets.len(), 0);
}

#[test]
fn truncated_header_is_insufficient() {
    let (_, buffer) = header_setup(vec![0, 0, 0]);
    let mut decoder = BinaryFormat::new();
    for cut in [0usize, 1, 3, 10, buffer.len() - 1] {
        let short = buffer[..cut].to_vec();
        assert_eq!(
            decoder.read_header(&short),
            Err(BinaryFormatError::InsufficientData),
            "cut at {}",
            cut
        );
    }
}

#[test]
fn header_with_invalid_utf8_symbol_is_rejected() {
    // version 1, one asset, length 2, bytes that are not valid UTF-8
    let mut buffer = vec![1u8, 1, 2, 0xC3, 0x28];
    buffer.extend_from_slice(&[0u8; 8]); // reference timestamp
    buffer.extend_from_slice(&[0u8; 8]); // reference price
    buffer.extend_from_slice(&[0u8; 8]); // reference quantity
    let mut decoder = BinaryFormat::new();
    assert_eq!(
        decoder.read_header(&buffer),
        Err(BinaryFormatError::InvalidSymbol)
    );
}

#[test]
fn header_round_trips_a_multibyte_symbol() {
    let assets = vec!["\u{039E}2".to_string()];
    let mut encoder = BinaryFormat::new().with_assets(assets.clone()).unwrap();
    let mut buffer = Vec::new();
    encoder
        .write_header(&mut buffer, 7, &vec![1], &vec![2])
        .unwrap();
    // symbol length counts bytes, not characters
    assert_eq!(buffer[2] as usize, "\u{039E}2".len());
    let mut decoder = BinaryFormat::new();
    decoder.read_header(&buffer).unwrap();
    assert_eq!(decoder.assets, assets);
}

#[test]
fn too_many_assets_are_rejected() {
    let assets: Vec<String> = (0..128).map(|i| format!("A{}", i)).collect();
    assert!(matches!(
        BinaryFormat::new().with_assets(assets),
        Err(BinaryFormatError::TooManyAssets)
    ));
}

#[test]
fn empty_and_oversized_symbols_are_rejected() {
    assert!(matches!(
        BinaryFormat::new().with_assets(vec!["".to_string()]),
        Err(BinaryFormatError::InvalidSymbol)
    ));
    let long: String = "X".repeat(256);
    assert!(matches!(
        BinaryFormat::new().with_assets(vec![long]),
        Err(BinaryFormatError::InvalidSymbol)
    ));
}

#[test]
fn encode_of_unknown_symbol_is_rejected() {
    let (mut encoder, _) = header_setup(vec![0, 0, 0]);
    let trade = Trade {
        symbol: "DOGEUSDT".to_string(),
        timestamp: REF_TS,
        price_e5: 1,
        quantity_e5: 1,
        is_buyer_maker: false,
    };
    assert_eq!(encoder.encode(&trade), Err(BinaryFormatError::InvalidSymbol));
}

#[test]
fn mismatched_reference_vectors_are_rejected() {
    let mut encoder = BinaryFormat::new().with_assets(test_assets()).unwrap();
    let mut buffer = Vec::new();
    assert_eq!(
        encoder.write_header(&mut buffer, REF_TS, &vec![1, 2], &vec![1, 2, 3]),
        Err(BinaryFormatError::InvalidHeaderLength)
    );
    assert!(buffer.is_empty());
}

#[test]
fn timestamp_delta_overflow_is_rejected() {
    let assets = vec!["BTCUSDT".to_string()];
    let mut encoder = BinaryFormat::new().with_assets(assets).unwrap();
    let mut buffer = Vec::new();
    // reference timestamp u64::MAX reads as -1 under bit reinterpretation
    encoder
        .write_header(&mut buffer, u64::MAX, &vec![0], &vec![0])
        .unwrap();
    let trade = Trade {
        symbol: "BTCUSDT".to_string(),
        timestamp: i64::MAX as u64, // delta would be 2^63, one past i64::MAX
        price_e5: 0,
        quantity_e5: 0,
        is_buyer_maker: false,
    };
    assert_eq!(encoder.encode(&trade), Err(BinaryFormatError::Overflow));
}

#[test]
fn price_delta_overflow_is_rejected() {
    let assets = vec!["BTCUSDT".to_string()];
    let mut encoder = BinaryFormat::new().with_assets(assets).unwrap();
    let mut buffer = Vec::new();
    encoder
        .write_header(&mut buffer, REF_TS, &vec![i64::MIN], &vec![0])
        .unwrap();
    let trade = Trade {
        symbol: "BTCUSDT".to_string(),
        timestamp: REF_TS,
        price_e5: 1,
        quantity_e5: 0,
        is_buyer_maker: false,
    };
    assert_eq!(encoder.encode(&trade), Err(BinaryFormatError::Overflow));
}

#[test]
fn decode_of_reconstructed_timestamp_overflow_is_rejected() {
    let assets = vec!["BTCUSDT".to_string()];
    let mut encoder = BinaryFormat::new().with_assets(assets).unwrap();
    let mut buffer = Vec::new();
    // last timestamp reads as -1; a delta of i64::MIN leaves the 64-bit range
    encoder
        .write_header(&mut buffer, u64::MAX, &vec![0], &vec![0])
        .unwrap();
    let mut decoder = BinaryFormat::new();
    decoder.read_header(&buffer).unwrap();
    let mut frame = vec![0x00u8];
    encode_signed(i64::MIN, &mut frame);
    encode_signed(0, &mut frame);
    frame.push(0);
    assert_eq!(decoder.decode(&frame), Err(BinaryFormatError::Overflow));
}

#[test]
fn truncated_frame_is_insufficient() {
    let (mut encoder, buffer) = header_setup(vec![0, 0, 0]);
    let trade = Trade {
        symbol: "ETHUSDT".to_string(),
        timestamp: REF_TS + 5,
        price_e5: REF_PRICES[1] + 7,
        quantity_e5: 44,
        is_buyer_maker: false,
    };
    let frame = encoder.encode(&trade).unwrap();
    let mut decoder = BinaryFormat::new();
    decoder.read_header(&buffer).unwrap();
    for cut in 0..frame.len() {
        let short = frame[..cut].to_vec();
        assert_eq!(
            decoder.decode(&short),
            Err(BinaryFormatError::InsufficientData),
            "cut at {}",
            cut
        );
    }
}

#[test]
fn decode_of_underflowing_timestamp_is_rejected() {
    // a delta of -1 against a last timestamp of 0 would underflow the epoch
    let assets = vec!["BTCUSDT".to_string()];
    let mut encoder = BinaryFormat::new().with_assets(assets).unwrap();
    let mut buffer = Vec::new();
    encoder.write_header(&mut buffer, 0, &vec![0], &vec![0]).unwrap();
    let mut decoder = BinaryFormat::new();
    decoder.read_header(&buffer).unwrap();
    let states_before = decoder.states.clone();

    let frame = vec![0x00u8, 0x01, 0x00, 0x00]; // id 0, ts delta -1, price delta 0, qty 0
    assert_eq!(decoder.decode(&frame), Err(BinaryFormatError::Overflow));
    assert_eq!(decoder.states, states_before);
}

#[test]
fn out_of_order_timestamps_round_trip() {
    // trades may arrive slightly out of order: a negative delta whose sum
    // stays in the epoch range decodes exactly
    let (mut encoder, buffer) = header_setup(vec![0, 0, 0]);
    let trade = Trade {
        symbol: "BTCUSDT".to_string(),
        timestamp: REF_TS - 250,
        price_e5: REF_PRICES[0] - 50_000,
        quantity_e5: 75_000,
        is_buyer_maker: false,
    };
    let frame = encoder.encode(&trade).unwrap();
    let mut decoder = BinaryFormat::new();
    decoder.read_header(&buffer).unwrap();
    let decoded = decoder.decode(&frame).unwrap();
    assert_eq!(&decoded, &trade);
    assert_eq!(encoder.states, decoder.states);
}
