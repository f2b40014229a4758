//! Verified core of a streaming market-data client for a derivatives venue.
//!
//! The crate holds the three stateful engines that sit between the wire and
//! the application: the request/response correlation registry (`rpc`), the
//! limit order book (`order_book`), and the OHLCV candle aggregator
//! (`trade_chart`). Prices travel through the engines as exact integer
//! minor units (cents), so that two messages quoting the same price always
//! address the same book row; the surrounding application converts wire
//! floats to cents at the edge.

pub mod order_book;
pub mod rpc;
pub mod trade_chart;
