//! The backtest: records a source page, compares a recreation against it,
//! and reports every difference with the viewport it was found at.
pub mod authored;
pub mod blackbox;
pub mod browser;
pub mod compact;
pub mod compare;
pub mod deadline;
pub mod display;
pub mod fixture;
pub mod focus;
pub mod grouping;
pub mod matched;
pub mod model;
pub mod motion;
pub mod pairing;
pub mod pipeline;
pub mod raster;
pub mod report;
pub mod runtime;
pub mod semantic;
pub mod server;
pub mod sweep;
pub mod swept;
pub mod topology;
pub mod verdict;
