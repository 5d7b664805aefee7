//! A TCP/UDP port forwarder with per-user traffic quotas: the rules, the
//! billing, the failover and the parsing, each with a contract that is proved.

pub mod api;
pub mod clock;
pub mod config;
pub mod config_laws;
pub mod dial;
pub mod dns;
pub mod net;
pub mod plan;
pub mod pool;
pub mod pool_laws;
pub mod probe;
pub mod quota;
pub mod quota_laws;
pub mod size;
pub mod size_laws;
pub mod state;
pub mod tcp;
pub mod text;
pub mod udp;
