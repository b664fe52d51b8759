//! Per-level data as the ingestion pipeline sees it: block metadata, the
//! activity a block reports per contract, transaction contexts and row
//! inserts.  Each executable type has a spec mirror over plain values.

use vstd::prelude::*;

use crate::names::{clone_opt_string, lemma_string_views_push, string_views};

verus! {

/// Metadata of one block: its level, hash, predecessor hash and bake time.
#[derive(Debug, PartialEq, Eq)]
pub struct LevelMeta {
    pub level: u32,
    pub hash: Option<String>,
    pub prev_hash: Option<String>,
    pub baked_at: Option<u64>,
}

/// The spec mirror of [`LevelMeta`].
pub struct LevelInfo {
    pub level: u32,
    pub hash: Option<Seq<char>>,
    pub prev_hash: Option<Seq<char>>,
    pub baked_at: Option<u64>,
}

/// The spec value of a [`LevelMeta`].
pub open spec fn level_info(m: LevelMeta) -> LevelInfo {
    LevelInfo {
        level: m.level,
        hash: match m.hash {
            Some(h) => Some(h@),
            None => None,
        },
        prev_hash: match m.prev_hash {
            Some(h) => Some(h@),
            None => None,
        },
        baked_at: m.baked_at,
    }
}

impl Clone for LevelMeta {
    fn clone(&self) -> (r: Self)
        ensures
            r == *self,
    {
        LevelMeta {
            level: self.level,
            hash: clone_opt_string(&self.hash),
            prev_hash: clone_opt_string(&self.prev_hash),
            baked_at: self.baked_at,
        }
    }
}

/// One block of the chain: its metadata, the contracts it originates, and
/// per touched contract the number of operations.
#[derive(Debug, PartialEq, Eq)]
pub struct Block {
    pub level: u32,
    pub hash: String,
    pub prev_hash: String,
    pub baked_at: u64,
    pub originations: Vec<String>,
    pub active: Vec<(String, u32)>,
}

/// The spec mirror of [`Block`].
pub struct BlockInfo {
    pub level: u32,
    pub hash: Seq<char>,
    pub prev_hash: Seq<char>,
    pub baked_at: u64,
    pub originations: Seq<Seq<char>>,
    pub active: Seq<(Seq<char>, u32)>,
}

/// The spec value of a [`Block`].
pub open spec fn block_info(b: Block) -> BlockInfo {
    BlockInfo {
        level: b.level,
        hash: b.hash@,
        prev_hash: b.prev_hash@,
        baked_at: b.baked_at,
        originations: b.originations@.map_values(|s: String| s@),
        active: b.active@.map_values(|p: (String, u32)| (p.0@, p.1)),
    }
}

/// Whether the block originates the contract at `address`.
pub open spec fn spec_has_origination(b: BlockInfo, address: Seq<char>) -> bool {
    b.originations.contains(address)
}

/// Whether the block carries operations for the contract at `address`.
pub open spec fn spec_is_active(b: BlockInfo, address: Seq<char>) -> bool {
    exists|i: int| 0 <= i < b.active.len() && (#[trigger] b.active[i]).0 == address
}

/// The number of operations the block carries for `address` (the first
/// activity entry for it).
pub open spec fn spec_tx_count(b: BlockInfo, address: Seq<char>) -> u32 {
    spec_tx_count_in(b.active, address)
}

/// The count in the first entry of `active` for `address`, or `0`.
pub open spec fn spec_tx_count_in(active: Seq<(Seq<char>, u32)>, address: Seq<char>) -> u32
    decreases active.len(),
{
    if active.len() == 0 {
        0u32
    } else if active.first().0 == address {
        active.first().1
    } else {
        spec_tx_count_in(active.drop_first(), address)
    }
}

impl Block {
    /// See [`spec_has_origination`].
    pub fn has_contract_origination(&self, address: &String) -> (r: bool)
        ensures
            r == spec_has_origination(block_info(*self), address@),
    {
        let ghost origs = block_info(*self).originations;
        let n = self.originations.len();
        let mut i: usize = 0;
        while i < n
            invariant
                i <= n,
                n == self.originations.len(),
                origs == block_info(*self).originations,
                forall|j: int| 0 <= j < i ==> origs[j] != address@,
            decreases n - i,
        {
            if self.originations[i].eq(address) {
                proof {
                    assert(origs[i as int] == address@);
                }
                return true;
            }
            i = i + 1;
        }
        false
    }

    /// See [`spec_is_active`].
    pub fn is_contract_active(&self, address: &String) -> (r: bool)
        ensures
            r == spec_is_active(block_info(*self), address@),
    {
        let ghost act = block_info(*self).active;
        let n = self.active.len();
        let mut i: usize = 0;
        while i < n
            invariant
                i <= n,
                n == self.active.len(),
                act == block_info(*self).active,
                forall|j: int| 0 <= j < i ==> (#[trigger] act[j]).0 != address@,
            decreases n - i,
        {
            if self.active[i].0.eq(address) {
                proof {
                    assert(act[i as int].0 == address@);
                }
                return true;
            }
            i = i + 1;
        }
        false
    }

    /// See [`spec_tx_count`].
    pub fn tx_count(&self, address: &String) -> (r: u32)
        ensures
            r == spec_tx_count(block_info(*self), address@),
    {
        let ghost act = block_info(*self).active;
        proof {
            assert(act.skip(0) =~= act);
        }
        let n = self.active.len();
        let mut i: usize = 0;
        while i < n
            invariant
                i <= n,
                n == self.active.len(),
                act == block_info(*self).active,
                spec_tx_count_in(act, address@) == spec_tx_count_in(act.skip(i as int), address@),
            decreases n - i,
        {
            proof {
                assert(act.skip(i as int).drop_first() =~= act.skip(i + 1));
                assert(act.skip(i as int).first() == act[i as int]);
            }
            if self.active[i].0.eq(address) {
                proof {
                    assert(act[i as int].0 == address@);
                }
                return self.active[i].1;
            }
            i = i + 1;
        }
        proof {
            assert(act.skip(n as int).len() == 0);
        }
        0
    }

    /// The addresses the block reports activity for, in order.
    pub fn active_contracts(&self) -> (r: Vec<String>)
        ensures
            string_views(r@) == block_info(*self).active.map_values(|p: (Seq<char>, u32)| p.0),
    {
        let ghost goal = block_info(*self).active.map_values(|p: (Seq<char>, u32)| p.0);
        let mut out: Vec<String> = Vec::new();
        proof {
            assert(string_views(out@) =~= goal.take(0));
        }
        let n = self.active.len();
        let mut i: usize = 0;
        while i < n
            invariant
                i <= n,
                n == self.active.len(),
                goal == block_info(*self).active.map_values(|p: (Seq<char>, u32)| p.0),
                string_views(out@) == goal.take(i as int),
            decreases n - i,
        {
            let ghost prev = out@;
            out.push(self.active[i].0.clone());
            proof {
                lemma_string_views_push(prev, out@, block_info(*self).active[i as int].0);
                assert(goal.take(i + 1) =~= goal.take(i as int).push(goal[i as int]));
            }
            i = i + 1;
        }
        proof {
            assert(goal.take(n as int) =~= goal);
            assert(string_views(out@.take(0)) =~= goal.take(0));
        }
        out
    }

    /// The block's metadata, every field set.
    pub fn meta(&self) -> (r: LevelMeta)
        ensures
            level_info(r) == (LevelInfo {
                level: self.level,
                hash: Some(self.hash@),
                prev_hash: Some(self.prev_hash@),
                baked_at: Some(self.baked_at),
            }),
    {
        LevelMeta {
            level: self.level,
            hash: Some(self.hash.clone()),
            prev_hash: Some(self.prev_hash.clone()),
            baked_at: Some(self.baked_at),
        }
    }
}

/// One operation occurrence at a level, referenced by every row it
/// produced.
#[derive(Debug, PartialEq, Eq)]
pub struct TxContext {
    pub id: u32,
    pub level: u32,
    pub contract: String,
}

/// The spec mirror of [`TxContext`].
pub struct TxCtxInfo {
    pub id: u32,
    pub level: u32,
    pub contract: Seq<char>,
}

/// The spec value of a [`TxContext`].
pub open spec fn tx_ctx_info(t: TxContext) -> TxCtxInfo {
    TxCtxInfo { id: t.id, level: t.level, contract: t.contract@ }
}

impl Clone for TxContext {
    fn clone(&self) -> (r: Self)
        ensures
            r == *self,
    {
        TxContext { id: self.id, level: self.level, contract: self.contract.clone() }
    }
}

/// One row insert produced by the storage parser.
#[derive(Debug, PartialEq, Eq)]
pub struct Insert {
    pub table_name: String,
    pub id: u32,
    pub tx_context_id: u32,
    pub level: u32,
}

/// The spec mirror of [`Insert`].
pub struct InsertInfo {
    pub table_name: Seq<char>,
    pub id: u32,
    pub tx_context_id: u32,
    pub level: u32,
}

/// The spec value of an [`Insert`].
pub open spec fn insert_info(i: Insert) -> InsertInfo {
    InsertInfo { table_name: i.table_name@, id: i.id, tx_context_id: i.tx_context_id, level: i.level }
}

impl Clone for Insert {
    fn clone(&self) -> (r: Self)
        ensures
            r == *self,
    {
        Insert {
            table_name: self.table_name.clone(),
            id: self.id,
            tx_context_id: self.tx_context_id,
            level: self.level,
        }
    }
}

/// A contract with no activity entry has operation count zero.
pub proof fn lemma_inactive_tx_zero(active: Seq<(Seq<char>, u32)>, address: Seq<char>)
    requires
        forall|i: int| 0 <= i < active.len() ==> (#[trigger] active[i]).0 != address,
    ensures
        spec_tx_count_in(active, address) == 0,
    decreases active.len(),
{
    if active.len() > 0 {
        assert(active[0].0 != address);
        assert forall|i: int| 0 <= i < active.drop_first().len() implies (
        #[trigger] active.drop_first()[i]).0 != address by {
            assert(active.drop_first()[i] == active[i + 1]);
        }
        lemma_inactive_tx_zero(active.drop_first(), address);
    }
}

} // verus!
