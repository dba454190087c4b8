//! A price-time priority matching engine with an append-only journal.
//!
//! Prices and quantities are fixed-point decimals: an `i64` (or, for sums, an
//! `i128`) that counts billionths. `fixed::UNIT` is one.
pub mod asked;
pub mod audit;
pub mod bridge;
pub mod clock;
pub mod demo;
pub mod depth;
pub mod double;
pub mod engine;
pub mod filters;
pub mod fixed;
pub mod generator;
pub mod history;
pub mod ladder;
pub mod laws;
pub mod levels;
pub mod lookup;
pub mod matching;
pub mod model;
pub mod order;
pub mod orderbook;
pub mod outcome;
pub mod publisher;
pub mod replay;
pub mod rest;
pub mod rounds;
pub mod schema;
pub mod shown;
pub mod taker;
pub mod text;
pub mod timeline;
pub mod validity;
pub mod walk;
pub mod worker;
pub mod ws;
