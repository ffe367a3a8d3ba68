//! A dual-mode DNS server core: an authoritative zone store and a recursive
//! forwarder cache, both built over a longest-suffix name index.
//!
//! The crate holds the resolution engine itself: DNS names, record sets and
//! messages, the name-indexed tree used for zone and forwarder lookup, the
//! authoritative zone walk, the TTL-aware message cache, the query statistic
//! counter, and the wire codec. Socket I/O, the admin HTTP surface and the
//! runtime glue live outside the library.

pub mod name;
pub mod rrset;
pub mod domain_tree;
pub mod zone;
pub mod message;
pub mod text;
pub mod zone_content_generator;
pub mod auth;
pub mod entry_key;
pub mod message_cache_entry;
pub mod message_cache;
pub mod cache;
pub mod query_statistic;
pub mod recursor;
pub mod laws;
pub mod codec;
