//! A low-latency trade distribution core: a delta-compressed binary trade
//! codec (varint/zigzag primitives, header and per-message frames, per-asset
//! delta state) and a single-producer single-consumer byte ring that carries
//! the encoded frames between a producer and a consumer.

pub mod binance;
pub mod cli;
pub mod format;
pub mod pipeline;
pub mod ring;
pub mod varint;
