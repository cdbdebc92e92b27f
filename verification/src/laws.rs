//! What holds of the library as a whole, told in terms of what goes in and what
//! comes out.

pub mod client;
pub mod config;
pub mod error;
pub mod metrics;
pub mod prompt;
pub mod report;
pub mod runner;
pub mod text;
