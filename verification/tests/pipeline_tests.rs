use perp_signal_hft::binance::{TradeMessage, TradeMessageError, WebSocketTrade};
use perp_signal_hft::cli::{Cli, Comm, DEFAULT_CAPACITY, MAX_ASSETS};
use perp_signal_hft::format::BinaryFormat;
use perp_signal_hft::pipeline::{
    backoff_seconds, encode_trade_frame, frame_unit, initialize_encoder, is_start_frame,
    start_frame,
};
use perp_signal_hft::binance::parse_decimal_e5;
use perp_signal_hft::ring::RingQueue;

fn msg(asset: &str, timestamp: u64, price: &str, quantity: &str, maker: bool) -> TradeMessage {
    TradeMessage {
        timestamp,
        asset: asset.to_string(),
        price: price.to_string(),
        quantity: quantity.to_string(),
        is_buyer_maker: maker,
        received_at: 0,
    }
}

#[test]
fn parse_decimal_e5_exact_values() {
    assert_eq!(parse_decimal_e5("0"), Some(0));
    assert_eq!(parse_decimal_e5("45000"), Some(4_500_000_000));
    assert_eq!(parse_decimal_e5("45000.12345"), Some(4_500_012_345));
    assert_eq!(parse_decimal_e5("2500.5"), Some(250_050_000));
    assert_eq!(parse_decimal_e5("120.75"), Some(12_075_000));
    assert_eq!(parse_decimal_e5("1."), Some(100_000));
    assert_eq!(parse_decimal_e5(".5"), Some(50_000));
    assert_eq!(parse_decimal_e5("0.00001"), Some(1));
    // digits past the fifth decimal place are truncated
    assert_eq!(parse_decimal_e5("1.999999"), Some(199_999));
}

#[test]
fn parse_decimal_e5_rejects_malformed_and_oversized() {
    assert_eq!(parse_decimal_e5(""), None);
    assert_eq!(parse_decimal_e5("."), None);
    assert_eq!(parse_decimal_e5("1.2.3"), None);
    assert_eq!(parse_decimal_e5("12a"), None);
    assert_eq!(parse_decimal_e5("-1"), None);
    assert_eq!(parse_decimal_e5("1e5"), None);
    assert_eq!(parse_decimal_e5("99999999999999999999999"), None);
}

#[test]
fn to_trade_parses_the_decimal_strings() {
    let m = msg("BTCUSDT", 42, "45001.0", "1.5", true);
    let t = m.to_trade().unwrap();
    assert_eq!(t.symbol, "BTCUSDT");
    assert_eq!(t.timestamp, 42);
    assert_eq!(t.price_e5, 4_500_100_000);
    assert_eq!(t.quantity_e5, 150_000);
    assert!(t.is_buyer_maker);

    let bad = msg("BTCUSDT", 42, "not-a-number", "1.5", true);
    assert_eq!(bad.to_trade(), Err(TradeMessageError::InvalidNumber));
}

#[test]
fn from_ws_payload_carries_the_fields_over() {
    let payload = WebSocketTrade {
        timestamp: 7,
        asset: "ETHUSDT".to_string(),
        price: "2500.5".to_string(),
        quantity: "10".to_string(),
        is_buyer_maker: false,
    };
    let m = TradeMessage::from_ws_payload(payload);
    assert_eq!(m.timestamp, 7);
    assert_eq!(m.asset, "ETHUSDT");
    assert_eq!(m.price, "2500.5");
    assert_eq!(m.quantity, "10");
    assert!(!m.is_buyer_maker);
}

#[test]
fn start_frame_is_the_handshake() {
    let f = start_frame();
    assert_eq!(f, b"START".to_vec());
    assert!(is_start_frame(&f));
    assert!(!is_start_frame(&b"HEADER".to_vec()));
    assert!(!is_start_frame(&b"STARt".to_vec()));
}

#[test]
fn frame_unit_prefixes_the_length() {
    let unit = frame_unit(&vec![1, 2, 3]);
    assert_eq!(unit, vec![3, 0, 0, 0, 1, 2, 3]);
    let empty = frame_unit(&Vec::new());
    assert_eq!(empty, vec![0, 0, 0, 0]);
}

#[test]
fn backoff_doubles_then_saturates() {
    assert_eq!(backoff_seconds(0), 1);
    assert_eq!(backoff_seconds(1), 2);
    assert_eq!(backoff_seconds(3), 8);
    assert_eq!(backoff_seconds(63), 1u64 << 63);
    assert_eq!(backoff_seconds(64), u64::MAX);
    assert_eq!(backoff_seconds(100), u64::MAX);
}

#[test]
fn cli_bounds_the_asset_list() {
    let cli = Cli {
        assets: (0..MAX_ASSETS).map(|i| format!("A{}", i)).collect(),
        comm: Comm::Shm { name: "trade_queue".to_string(), capacity: DEFAULT_CAPACITY },
    };
    assert!(cli.assets_ok());
    let cli = Cli {
        assets: (0..MAX_ASSETS + 1).map(|i| format!("A{}", i)).collect(),
        comm: Comm::Tcp { port: 9000 },
    };
    assert!(!cli.assets_ok());
}

#[test]
fn dropped_trades_leave_the_encoder_unchanged() {
    let assets = vec!["BTCUSDT".to_string()];
    let (mut encoder, _header) =
        initialize_encoder(assets, 1_000, &vec![100_000], &vec![0]).unwrap();
    let states_before = encoder.states.clone();
    // malformed number: dropped
    assert_eq!(
        encode_trade_frame(&mut encoder, msg("BTCUSDT", 1_001, "x", "1", false)),
        None
    );
    // unknown symbol: dropped
    assert_eq!(
        encode_trade_frame(&mut encoder, msg("ETHUSDT", 1_001, "1.0", "1", false)),
        None
    );
    assert_eq!(encoder.states, states_before);
    // a good trade goes through and advances the state
    assert!(encode_trade_frame(&mut encoder, msg("BTCUSDT", 1_001, "1.5", "2", true)).is_some());
    assert_eq!(encoder.states[0].last_timestamp, 1_001);
    assert_eq!(encoder.states[0].last_price_e5, 150_000);
    assert_eq!(encoder.states[0].last_quantity_e5, 200_000);
}

#[test]
fn producer_and_consumer_meet_through_the_ring() {
    // the producer writes START, the header, then 100 encoded trades
    let assets = vec![
        "BTCUSDT".to_string(),
        "ETHUSDT".to_string(),
        "SOLUSDT".to_string(),
    ];
    let reference_timestamp = 1_700_000_000_000u64;
    let reference_prices = vec![4_500_000_000i64, 250_050_000, 12_075_000];
    let reference_quantities = vec![0u64, 0, 0];
    let (mut encoder, header) = initialize_encoder(
        assets.clone(),
        reference_timestamp,
        &reference_prices,
        &reference_quantities,
    )
    .unwrap();

    let mut ring = RingQueue::create(1 << 16).unwrap();
    ring.push(&start_frame()).unwrap();
    ring.push(&header).unwrap();

    let mut sent = Vec::new();
    for i in 0..100u64 {
        let idx = (i % 3) as usize;
        let timestamp = reference_timestamp + (i + 1) * 50;
        let price = format!("{}.{}", 45000 + i, i % 10);
        let quantity = format!("0.{:02}", i % 100);
        let maker = i % 2 == 0;
        let frame = encode_trade_frame(
            &mut encoder,
            msg(&assets[idx], timestamp, &price, &quantity, maker),
        )
        .unwrap();
        sent.push(
            msg(&assets[idx], timestamp, &price, &quantity, maker)
                .to_trade()
                .unwrap(),
        );
        ring.push(&frame).unwrap();
    }

    // the consumer spins, validates the handshake, reads the header, then
    // decodes every frame in order
    let first = ring.pop().unwrap();
    assert!(is_start_frame(&first));
    let header_frame = ring.pop().unwrap();
    let mut decoder = BinaryFormat::new();
    decoder.read_header(&header_frame).unwrap();
    assert_eq!(decoder.assets, assets);

    for expected in &sent {
        let frame = ring.pop().unwrap();
        let decoded = decoder.decode(&frame).unwrap();
        assert_eq!(&decoded, expected);
    }
    assert_eq!(ring.pop(), None);
    assert_eq!(encoder.states, decoder.states);
}
