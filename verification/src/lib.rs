//! A distributed cache: an expiring LRU cache, a consistent-hash ring that
//! places keys on nodes, and the decisions of the cache service.
pub mod lru;
pub mod lru_laws;
pub mod text;
pub mod hash_ring;
pub mod ring_laws;
pub mod config;
pub mod service;
