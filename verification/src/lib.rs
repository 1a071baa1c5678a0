//! Core of a limit-order matching engine: exact fixed-point price keys,
//! price-level (limit) containers with a FIFO fill algorithm, and an
//! order-book/engine layer that routes orders to the correct book and level.

pub mod engine;
pub mod orderbook;
