//! Telemetry core of a service-mesh sidecar proxy: observation hooks for
//! transport and HTTP traffic, a labeled metric registry, a Prometheus
//! text-format scrape serializer with gzip negotiation, and a diagnostic
//! tracer with uptime timestamps, reloadable filtering and span
//! attachment.

pub mod classify;
pub mod labels;
pub mod metrics;
pub mod render;
pub mod resolver;
pub mod telemetry;
pub mod text;
pub mod trace;
