//! A payment-gated, deduplicating media-generation service core: routes are
//! paid for through an HTTP-402 challenge/verify/settle protocol, generated
//! artifacts are memoized under a content hash of the normalized prompt,
//! stored durably, and swept once they expire. Every function here carries
//! a contract; the process shell around it only moves bytes.

pub mod amount;
pub mod cleanup;
pub mod config;
pub mod hashing;
pub mod json_tree;
pub mod payment;
pub mod pipeline;
pub mod routes;
pub mod store;
pub mod text;
