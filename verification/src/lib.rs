//! Verified core of a QUIC tunnel proxy: request sniffing, host
//! canonicalisation and routing, admission control, control-plane
//! configuration snapshots and the validation rules around them.

pub mod text;
pub mod bytes;
pub mod prefix;
pub mod http_utils;
pub mod headers;
pub mod host;
pub mod model;
pub mod collection;
pub mod ctld;
pub mod envelope;
pub mod diff;
pub mod canonical;
pub mod overload;
pub mod buffers;
pub mod snapshot_check;
pub mod config;
pub mod auth;
pub mod login;
pub mod registry;
pub mod admin;
pub mod admin_route;
pub mod assoc;
pub mod idempotency;
pub mod response_cache;
pub mod entry;
pub mod ingress;
pub mod metrics_text;
pub mod revision;
pub mod ctld_app;
pub mod watch;
pub mod dns_cache;
pub mod udp_affinity;
pub mod layer;
pub mod listener_table;
pub mod health;
