//! A transactional, content-addressed DAG store over an in-memory
//! key/value backend: immutable chunks referencing one another by content
//! hash, named heads pinning roots, and a commit-time reference-count
//! garbage collector; plus a prolly-map overlay of one leaf chunk and an
//! in-memory pending mutation map, read as one merged ordered iterator.

pub mod bytes;
pub mod codec;
pub mod dag;
pub mod kv;
pub mod prolly;
