//! PROXY protocol v2 identity for an Envoy listener: parse the header, turn what
//! it attests into an IPv6 address, and judge that address against an allowlist.

pub mod agg;
pub mod cidr;
pub mod config;
pub mod graph;
pub mod groups;
pub mod identity;
pub mod ip;
pub mod json;
pub mod labels;
pub mod meeting;
pub mod order;
pub mod ppv2;
pub mod prefix;
pub mod raw;
pub mod segments;
pub mod sni;
pub mod stats;
pub mod table;
pub mod tcp;
pub mod text;
pub mod udp;
pub mod validate;

pub use validate::{validate_auth, validate_ppv2, validate_ppv2_auth, validate_table};
