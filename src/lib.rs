//! A personal currency ledger: named currencies keyed by an identifier, each
//! with a running balance, adjusted by buying and selling and stored as
//! `name|id|amount` lines of text.
//!
//! Balances are fixed-point decimals: an amount is an `i64` count of
//! hundred-millionths of a unit (see [`amount::SCALE`]).

pub mod domain;
pub mod amount;
pub mod repo;
pub mod service;
pub mod text;
pub mod storage;
pub mod ui;
