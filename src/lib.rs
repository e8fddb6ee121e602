//! A quorum-based trust accumulator: signed group claims from untrusted
//! peers are collected per request until enough of them verify against
//! public keys that enough distinct peers have vouched for.
//!
//! - `key_store`: which key each peer vouches a name owns, and which keys
//!   enough distinct peers stand behind.
//! - `selection`: what is gathered for one request, and when it resolves.
//! - `key_sentinel`: the pending requests, bounded and evicted least
//!   recently touched first.

pub mod bytes;
pub mod signature;
pub mod identity;
pub mod key_store;
pub mod lru;
pub mod selection;
pub mod key_sentinel;
