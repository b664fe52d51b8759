//! The chain as the executor sees it, modelled in memory: blocks by level,
//! storage scripts by contract address, and a log of every level fetched —
//! the trace over which level-floor suppression is stated.

use vstd::prelude::*;

use crate::block::{block_info, Block, BlockInfo, LevelMeta};
use crate::error::Error;
use crate::typing::Ele;

verus! {

/// The block stored for level `l`, if any: the one added last.
pub open spec fn find_block(chain: Seq<BlockInfo>, l: u32) -> Option<BlockInfo>
    decreases chain.len(),
{
    if chain.len() == 0 {
        None
    } else if chain.last().level == l {
        Some(chain.last())
    } else {
        find_block(chain.drop_last(), l)
    }
}

/// The highest level with a block, if any.
pub open spec fn chain_head(chain: Seq<BlockInfo>) -> Option<u32>
    decreases chain.len(),
{
    if chain.len() == 0 {
        None
    } else {
        match chain_head(chain.drop_last()) {
            None => Some(chain.last().level),
            Some(m) => if chain.last().level > m {
                Some(chain.last().level)
            } else {
                Some(m)
            },
        }
    }
}

/// The script stored for `address`, if any: the one set last.
pub open spec fn find_script(scripts: Seq<(Seq<char>, Ele)>, address: Seq<char>) -> Option<Ele>
    decreases scripts.len(),
{
    if scripts.len() == 0 {
        None
    } else if scripts.last().0 == address {
        Some(scripts.last().1)
    } else {
        find_script(scripts.drop_last(), address)
    }
}

/// The node as the executor sees it.
pub struct NodeClient {
    chain: Vec<Block>,
    scripts: Vec<(String, Ele)>,
    fetch_log: Vec<u32>,
}

impl NodeClient {
    /// The blocks the node serves.
    pub closed spec fn chain_view(self) -> Seq<BlockInfo> {
        self.chain@.map_values(|b: Block| block_info(b))
    }

    /// The scripts the node serves.
    pub closed spec fn scripts_view(self) -> Seq<(Seq<char>, Ele)> {
        self.scripts@.map_values(|p: (String, Ele)| (p.0@, p.1))
    }

    /// Every level ever fetched, in order.
    pub closed spec fn fetched(self) -> Seq<u32> {
        self.fetch_log@
    }

    /// An empty node: no blocks, no scripts, nothing fetched.
    pub fn new() -> (r: Self)
        ensures
            r.chain_view() == Seq::<BlockInfo>::empty(),
            r.scripts_view() == Seq::<(Seq<char>, Ele)>::empty(),
            r.fetched() == Seq::<u32>::empty(),
    {
        let r = NodeClient { chain: Vec::new(), scripts: Vec::new(), fetch_log: Vec::new() };
        proof {
            assert(r.chain_view() =~= Seq::<BlockInfo>::empty());
            assert(r.scripts_view() =~= Seq::<(Seq<char>, Ele)>::empty());
        }
        r
    }

    /// Serves `block` for its level (replacing an older block there).
    pub fn add_block(&mut self, block: Block)
        ensures
            final(self).chain_view() == old(self).chain_view().push(block_info(block)),
            final(self).scripts_view() == old(self).scripts_view(),
            final(self).fetched() == old(self).fetched(),
    {
        let ghost pre = self.chain_view();
        self.chain.push(block);
        proof {
            assert(self.chain_view() =~= pre.push(block_info(self.chain@.last())));
        }
    }

    /// Serves `script` as the storage type of `address`.
    pub fn set_script(&mut self, address: String, script: Ele)
        ensures
            final(self).scripts_view() == old(self).scripts_view().push((address@, script)),
            final(self).chain_view() == old(self).chain_view(),
            final(self).fetched() == old(self).fetched(),
    {
        let ghost pre = self.scripts_view();
        let ghost a = address@;
        let ghost sc = script;
        self.scripts.push((address, script));
        proof {
            assert(self.scripts_view() =~= pre.push((a, sc)));
        }
    }

    /// The metadata of the chain head.
    pub fn head(&self) -> (r: Result<LevelMeta, Error>)
        ensures
            match r {
                Ok(m) => {
                    &&& chain_head(self.chain_view()) == Some(m.level)
                    &&& find_block(self.chain_view(), m.level) is Some
                    &&& crate::block::level_info(m) == meta_of(
                        find_block(self.chain_view(), m.level)->Some_0,
                    )
                },
                Err(e) => e == Error::EmptyChain && self.chain_view().len() == 0,
            },
    {
        let ghost ch = self.chain_view();
        let n = self.chain.len();
        if n == 0 {
            return Err(Error::EmptyChain);
        }
        let mut best: usize = 0;
        proof {
            assert(ch.take(1).drop_last() =~= Seq::<BlockInfo>::empty());
            assert(ch.take(1).last() == ch[0]);
            assert(chain_head(Seq::<BlockInfo>::empty()) is None);
            assert(find_block(Seq::<BlockInfo>::empty(), ch[0].level) is None);
            assert(ch.take(1).len() == 1);
            assert(chain_head(ch.take(1)) == Some(ch[0].level));
            assert(find_block(ch.take(1), ch[0].level) == Some(ch[0]));
        }
        let mut i: usize = 1;
        while i < n
            invariant
                best < i <= n,
                n == self.chain.len(),
                ch == self.chain_view(),
                chain_head(ch.take(i as int)) == Some(ch[best as int].level),
                find_block(ch.take(i as int), ch[best as int].level) == Some(ch[best as int]),
            decreases n - i,
        {
            proof {
                assert(ch.take(i + 1).drop_last() =~= ch.take(i as int));
                assert(ch.take(i + 1).last() == ch[i as int]);
            }
            if self.chain[i].level >= self.chain[best].level {
                best = i;
                proof {
                    assert(find_block(ch.take(i + 1), ch[i as int].level) == Some(ch[i as int]));
                }
            } else {
                proof {
                    assert(find_block(ch.take(i + 1), ch[best as int].level) == find_block(
                        ch.take(i as int),
                        ch[best as int].level,
                    ));
                }
            }
            i = i + 1;
        }
        proof {
            assert(ch.take(n as int) =~= ch);
        }
        let b = &self.chain[best];
        Ok(b.meta())
    }

    /// Fetches the block at `level`, recording the fetch.
    pub fn level_json(&mut self, level: u32) -> (r: Result<(LevelMeta, Block), Error>)
        ensures
            final(self).fetched() == old(self).fetched().push(level),
            final(self).chain_view() == old(self).chain_view(),
            final(self).scripts_view() == old(self).scripts_view(),
            match r {
                Ok(p) => {
                    &&& find_block(old(self).chain_view(), level) == Some(block_info(p.1))
                    &&& p.1.level == level
                    &&& crate::block::level_info(p.0) == meta_of(block_info(p.1))
                },
                Err(e) => e == Error::BlockMissing(level) && find_block(
                    old(self).chain_view(),
                    level,
                ) is None,
            },
    {
        let ghost ch = self.chain_view();
        self.fetch_log.push(level);
        let n = self.chain.len();
        proof {
            assert(ch.take(n as int) =~= ch);
        }
        let mut i: usize = n;
        while i > 0
            invariant
                i <= n,
                n == self.chain.len(),
                ch == self.chain_view(),
                self.chain_view() == old(self).chain_view(),
                self.scripts_view() == old(self).scripts_view(),
                self.fetched() == old(self).fetched().push(level),
                find_block(ch, level) == find_block(ch.take(i as int), level),
            decreases i,
        {
            proof {
                assert(ch.take(i as int).drop_last() =~= ch.take(i - 1));
                assert(ch.take(i as int).last() == ch[i - 1]);
            }
            if self.chain[i - 1].level == level {
                let b = Self::clone_block(&self.chain[i - 1]);
                let m = b.meta();
                proof {
                    assert(find_block(ch.take(i as int), level) == Some(ch[i - 1]));
                }
                return Ok((m, b));
            }
            i = i - 1;
        }
        proof {
            assert(ch.take(0) =~= Seq::<BlockInfo>::empty());
        }
        Err(Error::BlockMissing(level))
    }

    /// Fetches the storage type definition of the contract at `address`.
    pub fn get_contract_storage_definition(&self, address: &String) -> (r: Result<Ele, Error>)
        ensures
            match r {
                Ok(e) => find_script(self.scripts_view(), address@) == Some(e),
                Err(e) => e == Error::ScriptMissing && find_script(
                    self.scripts_view(),
                    address@,
                ) is None,
            },
    {
        let ghost sc = self.scripts_view();
        let n = self.scripts.len();
        proof {
            assert(sc.take(n as int) =~= sc);
        }
        let mut i: usize = n;
        while i > 0
            invariant
                i <= n,
                n == self.scripts.len(),
                sc == self.scripts_view(),
                find_script(sc, address@) == find_script(sc.take(i as int), address@),
            decreases i,
        {
            proof {
                assert(sc.take(i as int).drop_last() =~= sc.take(i - 1));
                assert(sc.take(i as int).last() == sc[i - 1]);
            }
            if self.scripts[i - 1].0.eq(address) {
                proof {
                    assert(sc[i - 1].0 == address@);
                }
                return Ok(self.scripts[i - 1].1.clone());
            }
            i = i - 1;
        }
        proof {
            assert(sc.take(0) =~= Seq::<(Seq<char>, Ele)>::empty());
        }
        Err(Error::ScriptMissing)
    }

    /// The levels at which the contract at `address` has operations or its
    /// origination: what the external operation index would answer.
    pub fn operation_levels(&self, address: &String) -> (r: Vec<u32>)
        ensures
            r@ == op_levels(self.chain_view(), address@),
    {
        let ghost ch = self.chain_view();
        let mut out: Vec<u32> = Vec::new();
        proof {
            assert(op_levels(ch.take(0), address@) =~= Seq::<u32>::empty());
            assert(out@ =~= op_levels(ch.take(0), address@));
        }
        let n = self.chain.len();
        let mut i: usize = 0;
        while i < n
            invariant
                i <= n,
                n == self.chain.len(),
                ch == self.chain_view(),
                out@ == op_levels(ch.take(i as int), address@),
            decreases n - i,
        {
            proof {
                assert(ch.take(i + 1).drop_last() =~= ch.take(i as int));
                assert(ch.take(i + 1).last() == ch[i as int]);
            }
            if self.chain[i].is_contract_active(address) || self.chain[i].has_contract_origination(
                address,
            ) {
                out.push(self.chain[i].level);
            }
            proof {
                assert(out@ =~= op_levels(ch.take(i + 1), address@));
            }
            i = i + 1;
        }
        proof {
            assert(ch.take(n as int) =~= ch);
        }
        out
    }


    /// The fetch log as a list.
    pub fn fetched_levels(&self) -> (r: Vec<u32>)
        ensures
            r@ == self.fetched(),
    {
        let mut out: Vec<u32> = Vec::new();
        let n = self.fetch_log.len();
        let mut i: usize = 0;
        while i < n
            invariant
                i <= n,
                n == self.fetch_log.len(),
                out@ == self.fetched().take(i as int),
            decreases n - i,
        {
            out.push(self.fetch_log[i]);
            proof {
                assert(out@ =~= self.fetched().take(i + 1));
            }
            i = i + 1;
        }
        proof {
            assert(self.fetched().take(n as int) =~= self.fetched());
        }
        out
    }

    fn clone_block(b: &Block) -> (r: Block)
        ensures
            block_info(r) == block_info(*b),
            r.level == b.level,
    {
        let mut originations: Vec<String> = Vec::new();
        let ghost ov = block_info(*b).originations;
        proof {
            assert(crate::names::string_views(originations@) =~= ov.take(0));
        }
        let n = b.originations.len();
        let mut i: usize = 0;
        while i < n
            invariant
                i <= n,
                n == b.originations.len(),
                ov == block_info(*b).originations,
                crate::names::string_views(originations@) == ov.take(i as int),
            decreases n - i,
        {
            let ghost prev = originations@;
            originations.push(b.originations[i].clone());
            proof {
                crate::names::lemma_string_views_push(prev, originations@, ov[i as int]);
                assert(ov.take(i + 1) =~= ov.take(i as int).push(ov[i as int]));
            }
            i = i + 1;
        }
        let mut active: Vec<(String, u32)> = Vec::new();
        let ghost av = block_info(*b).active;
        proof {
            assert(ov.take(n as int) =~= ov);
            assert(active@.map_values(|p: (String, u32)| (p.0@, p.1)) =~= av.take(0));
        }
        let m = b.active.len();
        let mut j: usize = 0;
        while j < m
            invariant
                j <= m,
                m == b.active.len(),
                av == block_info(*b).active,
                active@.map_values(|p: (String, u32)| (p.0@, p.1)) == av.take(j as int),
            decreases m - j,
        {
            let ghost prev = active@.map_values(|p: (String, u32)| (p.0@, p.1));
            active.push((b.active[j].0.clone(), b.active[j].1));
            proof {
                assert(active@.map_values(|p: (String, u32)| (p.0@, p.1)) =~= prev.push(
                    av[j as int],
                ));
                assert(av.take(j + 1) =~= av.take(j as int).push(av[j as int]));
            }
            j = j + 1;
        }
        proof {
            assert(av.take(m as int) =~= av);
        }
        let r = Block {
            level: b.level,
            hash: b.hash.clone(),
            prev_hash: b.prev_hash.clone(),
            baked_at: b.baked_at,
            originations,
            active,
        };
        proof {
            assert(block_info(r) == block_info(*b));
        }
        r
    }
}

/// The metadata a block reports for itself.
pub open spec fn meta_of(b: BlockInfo) -> crate::block::LevelInfo {
    crate::block::LevelInfo {
        level: b.level,
        hash: Some(b.hash),
        prev_hash: Some(b.prev_hash),
        baked_at: Some(b.baked_at),
    }
}

/// The levels at which a contract is active or originated, in chain order.
pub open spec fn op_levels(chain: Seq<BlockInfo>, address: Seq<char>) -> Seq<u32>
    decreases chain.len(),
{
    if chain.len() == 0 {
        Seq::<u32>::empty()
    } else {
        let rest = op_levels(chain.drop_last(), address);
        if crate::block::spec_is_active(chain.last(), address) || crate::block::spec_has_origination(
            chain.last(),
            address,
        ) {
            rest.push(chain.last().level)
        } else {
            rest
        }
    }
}

/// A found block reports the level it was found under.
pub proof fn lemma_find_block_meta(chain: Seq<BlockInfo>, l: u32)
    ensures
        find_block(chain, l) matches Some(b) ==> b.level == l,
    decreases chain.len(),
{
    if chain.len() > 0 && chain.last().level != l {
        lemma_find_block_meta(chain.drop_last(), l);
    }
}

} // verus!
