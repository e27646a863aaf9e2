//! The beacon node's answers that the rest of the system reads, as plain data.
use vstd::prelude::*;

verus! {

/// Whether a beacon node is still syncing.
#[derive(Clone, Copy, Debug, PartialEq, Eq, Structural)]
pub struct SyncStatus {
    pub is_syncing: bool,
}

#[derive(Clone, Debug)]
pub struct ExecutionPayload {
    pub block_hash: String,
}

#[derive(Clone, Debug)]
pub struct BlockBody {
    pub execution_payload: ExecutionPayload,
}

#[derive(Clone, Debug)]
pub struct BlockMessage {
    pub body: BlockBody,
}

/// A beacon block as the node returns it, down to the execution block hash.
#[derive(Clone, Debug)]
pub struct BlockResponse {
    pub message: BlockMessage,
}

impl BlockResponse {
    /// The hash of the execution block that the beacon block carries.
    pub fn block_hash(&self) -> (r: &String)
        ensures
            *r == self.message.body.execution_payload.block_hash,
    {
        &self.message.body.execution_payload.block_hash
    }
}

} // verus!
