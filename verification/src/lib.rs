//! Monte Carlo simulation of a stock price under geometric Brownian motion.
pub mod accuracy;
pub mod approximation;
pub mod args;
pub mod arith;
pub mod binary64;
pub mod csv;
pub mod decimal;
pub mod grid;
pub mod interval;
pub mod laws;
pub mod model;
pub mod normal;
pub mod parity;
pub mod path;
pub mod precision;
pub mod pricing;
pub mod report;
pub mod risk;
pub mod round;
pub mod scale;
pub mod seeds;
pub mod shuffle;
pub mod sort;
pub mod stats;
pub mod sums;
pub mod valuation;
