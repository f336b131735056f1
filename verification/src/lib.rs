//! The core of a stock tracker. Raw quotes are put in time order; from the
//! ordered closes come the latest price, the change over the window, the
//! extremes and a trailing simple moving average, packed into one record per
//! ticker. The tracker's options are read here too.
//!
//! Prices are exact integers (ticks of whatever minor unit the caller picks)
//! and quotients are kept as exact fractions, so every contract is an equation.

pub mod opts;
pub mod order;
pub mod stock;
