//! Core engine of a contract indexer for a Tezos-like blockchain.
//!
//! Given a contract's storage type, the library derives a relational schema
//! (tables, columns, indexes) with stable, collision-free names, emits the
//! matching DDL, and drives the per-level ingestion pipeline: hash-chain
//! integrity checks, reorg rollback, idempotent per-level persistence, and
//! level-floor suppression.  The chain, the external operation index, and the
//! database sink are modelled in memory; network and SQL plumbing live
//! outside the library.

pub mod bcd;
pub mod block;
pub mod config;
pub mod db;
pub mod error;
pub mod executor;
pub mod fetcher;
pub mod names;
pub mod node;
pub mod postgresql_generator;
pub mod processor;
pub mod relational;
pub mod table;
pub mod typing;
