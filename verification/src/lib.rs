//! Peer-to-peer transport logic: distance buckets, route tables and the
//! push/pull message exchange.
pub mod bytes;
pub mod byte_order;
pub mod buckets;
pub mod route_tab;
pub mod clock;
pub mod lru_cache;
pub mod hashing;
pub mod peer_text;
pub mod transpp;
pub mod transp2p;
