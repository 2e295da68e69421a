//! Browser backtesting: evidence models, width sweeps, comparison rules and
//! report rendering for recreated pages, with their contracts.
pub mod backtest;
pub mod browser;
pub mod digest;
pub mod json;
pub mod keyed;
pub mod oracle;
pub mod order;
pub mod text;
