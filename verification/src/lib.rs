//! Request-rate statistics for a small HTTP endpoint: request framing, routing, response
//! building and the sharded per-second hit counters behind the dashboard.
pub mod scan;
pub mod request;
pub mod response;
pub mod clock;
pub mod metrics;
pub mod conn;
pub mod config;
