//! Benchmarks of OpenAI-compatible chat completion endpoints: what is asked of
//! an endpoint, what its answers say, and what is measured and reported.
//!
//! The library holds no connection and reads no clock. Whoever runs a benchmark
//! makes the requests that the library asks for and hands it the answers
//! together with the times at which they arrived.

pub mod client;
pub mod clock;
pub mod config;
pub mod corpus;
pub mod error;
pub mod exact;
pub mod json;
pub mod laws;
pub mod metrics;
pub mod prompt;
pub mod report;
pub mod runner;
pub mod text;

pub use crate::config::Args;
pub use crate::config::BenchmarkConfig;
pub use crate::error::Error;
pub use crate::runner::run;
