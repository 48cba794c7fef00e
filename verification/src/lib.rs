//! A limit order book.
pub mod agreement;
pub mod alike;
pub mod amounts;
pub mod book_effects;
pub mod book_laws;
pub mod decimal;
pub mod fixed_amounts;
pub mod fixed_book_laws;
pub mod fixed_effects;
pub mod fixed_orderbook;
pub mod fixed_state;
pub mod grid;
pub mod ladder;
pub mod levels;
pub mod matching;
pub mod order;
pub mod orderbook;
pub mod ring_level;
pub mod runs;
pub mod serving;
pub mod slots;
pub mod splitting;
pub mod types;
