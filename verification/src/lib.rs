//! Verified core of a client for on-chain lookup-table registries.
//!
//! The library keeps a time-limited cache of registries (one per authority) and
//! chooses, for a set of instructions, the address lookup tables that cover the
//! accounts those instructions use.
pub mod address;
pub mod cache;
pub mod chain;
pub mod client;
pub mod error;
pub mod instruction;
pub mod registry;
pub mod selection;

