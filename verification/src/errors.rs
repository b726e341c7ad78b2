//! Errors of the sync manager.
use vstd::prelude::*;

use crate::model::BlockHash;

verus! {

/// Why the sync manager refused a pair of low and high hashes.
#[derive(Clone, Copy, Debug, PartialEq, Eq, Structural)]
pub enum SyncManagerError {
    /// The low hash is not in the selected parent chain.
    BlockNotInSelectedParentChain(BlockHash),
    /// The low hash is higher than the high hash.
    LowHashHigherThanHighHash(BlockHash, BlockHash),
}

/// The result of a sync manager operation.
pub type SyncManagerResult<T> = Result<T, SyncManagerError>;

} // verus!
