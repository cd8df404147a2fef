pub mod adapters;
pub mod base64;
pub mod cli;
pub mod config;
pub mod data;
pub mod engine;
pub mod error;
pub mod event_curves;
pub mod execution;
pub mod exports;
pub mod fees;
pub mod fit_logistic;
pub mod fixed;
pub mod foreign;
pub mod intmap;
pub mod json;
pub mod latency;
pub mod metrics;
pub mod number;
pub mod optimize;
pub mod orderbook;
pub mod portfolio;
pub mod report;
pub mod rewards;
pub mod settlement;
pub mod slippage;
pub mod strategy;
pub mod strmap;
pub mod text;
pub mod types;
