//! A per-entity Markov text model store.
//!
//! Each tracked entity owns a `Chain`: an order-k token transition model
//! trained on that entity's messages, able to generate new text in the same
//! style by weighted random sampling. A `UserChains` store keys one chain per
//! entity, supports filtered ingestion of message history, live incremental
//! feeding, generation on demand, and a byte-level persistence format with a
//! proved round trip.

use vstd::prelude::*;

pub mod chain;
pub mod codec;
pub mod config;
pub mod entropy;
pub mod errors;
pub mod filter;
pub mod laws;
pub mod store;
pub mod token;

verus! {

/// Order used for chains built by the store: each successor is predicted
/// from the single preceding token.
pub const STORE_ORDER: usize = 1;

} // verus!
