//! The service-discovery core of a data-plane sidecar: per-authority
//! resolution state machines that multiplex local consumers onto one
//! control-plane subscription, reconcile add/remove/no-endpoints updates
//! against a cache, and survive reconnects without spurious churn; plus a
//! composable formatter for exposition-format telemetry.

pub mod cache;
pub mod dst;
pub mod existence;
pub mod labelmap;
pub mod labels;
pub mod laws;
pub mod meta;
pub mod net;
pub mod prom;
pub mod responder;
pub mod wire;
