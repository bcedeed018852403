//! Networking core of a multi-protocol reverse proxy: access gate, load
//! balancing, request routing and rewriting, stream upstream selection,
//! realtime metrics aggregation and listener lifecycle.
pub mod access;
pub mod config;
pub mod headers;
pub mod history;
pub mod ip;
pub mod iptext;
pub mod keyed;
pub mod lb;
pub mod lifecycle;
pub mod metrics;
pub mod rate_limit;
pub mod rewrite;
pub mod routing;
pub mod stream;
pub mod text;
