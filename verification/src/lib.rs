//! Verified cores of four small TCP services: a price-history server that
//! answers mean-price queries, a chat proxy that rewrites payment addresses,
//! a primality server backed by an incremental sieve, and the wire protocol
//! and bookkeeping of a road speed-camera ticketing service.
//!
//! Networking, JSON (de)serialisation and task plumbing live in the
//! accompanying application crate; this library holds the logic they drive.

pub mod arith;
pub mod mean;
pub mod primes;
pub mod proxy;
pub mod speed;
pub mod wire;
