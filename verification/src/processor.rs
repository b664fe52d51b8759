//! The per-block storage processor: allocates one transaction context per
//! operation of a contract in a block, with consecutive ids drawn from the
//! shared id counter, and one root-table row insert per context.

use vstd::prelude::*;

use crate::block::{block_info, spec_tx_count, tx_ctx_info, Block, Insert, TxContext};
use crate::error::Error;

verus! {

/// Carries the next unused row id while a block is processed.
pub struct StorageProcessor {
    next_id: u32,
}

impl StorageProcessor {
    /// The next unused id.
    pub closed spec fn id_view(self) -> u32 {
        self.next_id
    }

    /// Starts from the id after `id`, the last id the sink has used.
    pub fn new(id: u32) -> (r: Self)
        requires
            id < u32::MAX,
        ensures
            r.id_view() == id + 1,
    {
        StorageProcessor { next_id: id + 1 }
    }

    /// The last id given out.
    pub fn get_id_value(&self) -> (r: u32)
        requires
            self.id_view() >= 1,
        ensures
            r == self.id_view() - 1,
    {
        self.next_id - 1
    }

    /// Processes one block for one contract: one transaction context per
    /// operation, ids consecutive from the current counter, and one row
    /// insert into the root table per context.  Fails only when the id
    /// space is exhausted.
    pub fn process_block(
        &mut self,
        block: &Block,
        address: &String,
        name: &String,
    ) -> (r: Result<(Vec<Insert>, Vec<TxContext>, Vec<String>), Error>)
        ensures
            match r {
                Ok(p) => {
                    &&& p.1@.len() == spec_tx_count(block_info(*block), address@)
                    &&& p.0@.len() == p.1@.len()
                    &&& final(self).id_view() == old(self).id_view() + p.1@.len()
                    &&& forall|k: int|
                        0 <= k < p.1@.len() ==> tx_ctx_info(#[trigger] p.1@[k]) == (
                        crate::block::TxCtxInfo {
                            id: (old(self).id_view() + k) as u32,
                            level: block.level,
                            contract: name@,
                        })
                    &&& forall|k: int|
                        0 <= k < p.0@.len() ==> crate::block::insert_info(#[trigger] p.0@[k]) == (
                        crate::block::InsertInfo {
                            table_name: "storage"@,
                            id: (old(self).id_view() + k) as u32,
                            tx_context_id: (old(self).id_view() + k) as u32,
                            level: block.level,
                        })
                    &&& p.2@.len() == 0
                },
                Err(e) => {
                    &&& e == Error::IdSpace
                    &&& old(self).id_view() + spec_tx_count(block_info(*block), address@)
                        > u32::MAX
                    &&& *final(self) == *old(self)
                },
            },
    {
        let count = block.tx_count(address);
        if count as u64 + self.next_id as u64 > u32::MAX as u64 {
            return Err(Error::IdSpace);
        }
        let base = self.next_id;
        let mut txs: Vec<TxContext> = Vec::new();
        let mut inserts: Vec<Insert> = Vec::new();
        let mut k: u32 = 0;
        while k < count
            invariant
                k <= count,
                base + count <= u32::MAX,
                txs@.len() == k,
                inserts@.len() == k,
                forall|j: int|
                    0 <= j < k ==> tx_ctx_info(#[trigger] txs@[j]) == (crate::block::TxCtxInfo {
                        id: (base + j) as u32,
                        level: block.level,
                        contract: name@,
                    }),
                forall|j: int|
                    0 <= j < k ==> crate::block::insert_info(#[trigger] inserts@[j]) == (
                    crate::block::InsertInfo {
                        table_name: "storage"@,
                        id: (base + j) as u32,
                        tx_context_id: (base + j) as u32,
                        level: block.level,
                    }),
            decreases count - k,
        {
            let id = base + k;
            txs.push(TxContext { id, level: block.level, contract: name.clone() });
            inserts.push(
                Insert {
                    table_name: String::from_str("storage"),
                    id,
                    tx_context_id: id,
                    level: block.level,
                },
            );
            k = k + 1;
        }
        self.next_id = base + count;
        Ok((inserts, txs, Vec::new()))
    }
}

} // verus!
