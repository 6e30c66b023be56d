//! Verified core of the Borobudur risk monitor: who may do what, which rows a
//! figure is taken from, when a limit is breached, and what an import changes.
//!
//! Measured figures cross the border of this crate as bit patterns (see
//! `number`): every rule here compares figures exactly, and none computes one.

pub mod admin;
pub mod auth;
pub mod backtest;
pub mod binary64;
pub mod bizdays;
pub mod breach;
pub mod calendar;
pub mod concentration;
pub mod coupons;
pub mod date;
pub mod drawdown;
pub mod emir;
pub mod flows;
pub mod futures;
pub mod liquidity;
pub mod metrics;
pub mod number;
pub mod order;
pub mod pnl;
pub mod rates;
pub mod repo;
pub mod scoped;
pub mod series;
pub mod settings;
pub mod text;
pub mod var;
