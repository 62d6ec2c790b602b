//! An on-chain identity registry: keys tagged with purposes, claims about the
//! identity filed under topics, and validation of a claim's signature against
//! the identity's claim-signer keys.
pub mod crypto;
pub mod error;
pub mod identity;
pub mod index;
pub mod table;
pub mod theorems;
