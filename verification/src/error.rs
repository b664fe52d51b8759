//! The error surface of the ingestion pipeline.

use vstd::prelude::*;

use crate::relational::SchemaError;

verus! {

/// A block disagrees with a stored neighbour on the predecessor hash: not
/// fatal, a signal to delete and reprocess the named level.
#[derive(Clone, Copy, Debug, PartialEq, Eq, Structural)]
pub struct BadLevelHash {
    pub level: u32,
}

/// Everything the executor can fail with.
#[derive(Clone, Copy, Debug, PartialEq, Eq, Structural)]
pub enum Error {
    /// A stored neighbour disagrees on the hash chain; recoverable.
    LevelHash(BadLevelHash),
    /// The node has no block at the requested level.
    BlockMissing(u32),
    /// The node has no storage script for the requested contract.
    ScriptMissing,
    /// The node reports an empty chain.
    EmptyChain,
    /// The contract's storage type cannot be mapped to a schema.
    Schema(SchemaError),
    /// The row-id space is exhausted.
    IdSpace,
    /// A contract was processed without being registered first.
    UnknownContract,
    /// A bootstrap pass could not reduce the set of missing levels.
    Stalled,
}

} // verus!
