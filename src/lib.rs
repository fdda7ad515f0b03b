//! A validator-only HTTP response cache: it remembers, per request key, the
//! ETag of the last response body seen and when that ETag last changed, in a
//! bounded table that evicts the least recently used key.

pub mod lru_table;
pub mod base64_blake3_body_etag;
pub mod http_date;
pub mod const_lru_provider;
