//! The database sink, modelled in memory: the common bookkeeping tables
//! (levels, contract levels, originations, transaction contexts, row
//! inserts, big-map key hashes, contract dependencies) held as plain rows,
//! with one spec view `DbView` over which every method states its effect.

use vstd::prelude::*;

use crate::block::{insert_info, level_info, tx_ctx_info, Insert, InsertInfo, LevelInfo, LevelMeta,
    TxContext, TxCtxInfo};
use crate::config::ContractID;
use crate::relational::RelationalAST;

verus! {

/// The spec view of the whole sink.
pub struct DbView {
    pub levels: Seq<LevelInfo>,
    pub contract_levels: Seq<(Seq<char>, u32)>,
    pub originations: Seq<(Seq<char>, u32)>,
    pub tx_contexts: Seq<TxCtxInfo>,
    pub inserts: Seq<(Seq<char>, InsertInfo)>,
    pub bigmap_keyhashes: Seq<(TxCtxInfo, i32, Seq<char>, Seq<char>)>,
    pub contract_deps: Seq<(u32, Seq<char>, Seq<char>)>,
    pub schemas: Seq<Seq<char>>,
    pub max_id: u32,
    pub derived_rebuilds: u64,
}

/// The row stored for level `l`, if any: the one saved last.
pub open spec fn find_level(levels: Seq<LevelInfo>, l: u32) -> Option<LevelInfo>
    decreases levels.len(),
{
    if levels.len() == 0 {
        None
    } else if levels.last().level == l {
        Some(levels.last())
    } else {
        find_level(levels.drop_last(), l)
    }
}

/// The highest level with a row, if any.
pub open spec fn max_level(levels: Seq<LevelInfo>) -> Option<u32>
    decreases levels.len(),
{
    if levels.len() == 0 {
        None
    } else {
        match max_level(levels.drop_last()) {
            None => Some(levels.last().level),
            Some(m) => if levels.last().level > m {
                Some(levels.last().level)
            } else {
                Some(m)
            },
        }
    }
}

/// Whether a `(contract, level)` row is present.
pub open spec fn has_contract_level(cls: Seq<(Seq<char>, u32)>, name: Seq<char>, l: u32) -> bool {
    exists|i: int| 0 <= i < cls.len() && cls[i] == (name, l)
}

/// The origination level recorded for `name`, if any: the one set last.
pub open spec fn orig_of(origs: Seq<(Seq<char>, u32)>, name: Seq<char>) -> Option<u32>
    decreases origs.len(),
{
    if origs.len() == 0 {
        None
    } else if origs.last().0 == name {
        Some(origs.last().1)
    } else {
        orig_of(origs.drop_last(), name)
    }
}

/// The rows of `levels` except any for level `l`, in order.
pub open spec fn levels_without(levels: Seq<LevelInfo>, l: u32) -> Seq<LevelInfo>
    decreases levels.len(),
{
    if levels.len() == 0 {
        Seq::<LevelInfo>::empty()
    } else {
        let rest = levels_without(levels.drop_last(), l);
        if levels.last().level == l {
            rest
        } else {
            rest.push(levels.last())
        }
    }
}

/// The contract-level rows except any at level `l`.
pub open spec fn cls_without_level(cls: Seq<(Seq<char>, u32)>, l: u32) -> Seq<(Seq<char>, u32)>
    decreases cls.len(),
{
    if cls.len() == 0 {
        Seq::<(Seq<char>, u32)>::empty()
    } else {
        let rest = cls_without_level(cls.drop_last(), l);
        if cls.last().1 == l {
            rest
        } else {
            rest.push(cls.last())
        }
    }
}

/// The contract-level rows except `(name, l)`.
pub open spec fn cls_without(
    cls: Seq<(Seq<char>, u32)>,
    name: Seq<char>,
    l: u32,
) -> Seq<(Seq<char>, u32)>
    decreases cls.len(),
{
    if cls.len() == 0 {
        Seq::<(Seq<char>, u32)>::empty()
    } else {
        let rest = cls_without(cls.drop_last(), name, l);
        if cls.last() == (name, l) {
            rest
        } else {
            rest.push(cls.last())
        }
    }
}

/// The transaction contexts except those at level `l`.
pub open spec fn txs_without(txs: Seq<TxCtxInfo>, l: u32) -> Seq<TxCtxInfo>
    decreases txs.len(),
{
    if txs.len() == 0 {
        Seq::<TxCtxInfo>::empty()
    } else {
        let rest = txs_without(txs.drop_last(), l);
        if txs.last().level == l {
            rest
        } else {
            rest.push(txs.last())
        }
    }
}

/// The inserts except those at level `l`.
pub open spec fn inserts_without(ins: Seq<(Seq<char>, InsertInfo)>, l: u32) -> Seq<
    (Seq<char>, InsertInfo),
>
    decreases ins.len(),
{
    if ins.len() == 0 {
        Seq::<(Seq<char>, InsertInfo)>::empty()
    } else {
        let rest = inserts_without(ins.drop_last(), l);
        if ins.last().1.level == l {
            rest
        } else {
            rest.push(ins.last())
        }
    }
}

/// The big-map key hashes except those at level `l`.
pub open spec fn keyhashes_without(
    khs: Seq<(TxCtxInfo, i32, Seq<char>, Seq<char>)>,
    l: u32,
) -> Seq<(TxCtxInfo, i32, Seq<char>, Seq<char>)>
    decreases khs.len(),
{
    if khs.len() == 0 {
        Seq::<(TxCtxInfo, i32, Seq<char>, Seq<char>)>::empty()
    } else {
        let rest = keyhashes_without(khs.drop_last(), l);
        if khs.last().0.level == l {
            rest
        } else {
            rest.push(khs.last())
        }
    }
}

/// The hash-chain invariant between two neighbouring stored rows.
pub open spec fn link_ok(levels: Seq<LevelInfo>, l: u32) -> bool {
    match (find_level(levels, l), find_level(levels, (l + 1) as u32)) {
        (Some(cur), Some(nxt)) => match (cur.hash, nxt.prev_hash) {
            (Some(h), Some(p)) => p == h,
            _ => true,
        },
        _ => true,
    }
}

/// Every pair of adjacent stored levels agrees on the predecessor hash.
pub open spec fn chain_consistent(levels: Seq<LevelInfo>) -> bool {
    forall|l: u32| l < 0xffffffffu32 ==> #[trigger] link_ok(levels, l)
}


/// After filtering level `l` out, lookups at `l` fail and all others are
/// unchanged.
pub proof fn lemma_levels_without(levels: Seq<LevelInfo>, l: u32)
    ensures
        find_level(levels_without(levels, l), l) is None,
        forall|l2: u32| l2 != l ==> find_level(levels_without(levels, l), l2) == find_level(
            levels,
            l2,
        ),
        max_level(levels) is None ==> max_level(levels_without(levels, l)) is None,
    decreases levels.len(),
{
    if levels.len() > 0 {
        lemma_levels_without(levels.drop_last(), l);
        let w = levels_without(levels, l);
        let wrest = levels_without(levels.drop_last(), l);
        if levels.last().level != l {
            assert(w == wrest.push(levels.last()));
            assert(w.drop_last() =~= wrest);
            assert(w.last() == levels.last());
            assert(find_level(w, l) == find_level(wrest, l));
            assert forall|l2: u32| l2 != l implies find_level(w, l2) == find_level(
                levels,
                l2,
            ) by {
                if levels.last().level == l2 {
                    assert(find_level(w, l2) == Some(w.last()));
                    assert(find_level(levels, l2) == Some(levels.last()));
                } else {
                    assert(find_level(w, l2) == find_level(wrest, l2));
                    assert(find_level(levels, l2) == find_level(levels.drop_last(), l2));
                }
            }
        } else {
            assert(w == wrest);
            assert forall|l2: u32| l2 != l implies find_level(w, l2) == find_level(
                levels,
                l2,
            ) by {
                assert(find_level(levels, l2) == find_level(levels.drop_last(), l2));
            }
        }
    } else {
        assert(levels_without(levels, l) == Seq::<LevelInfo>::empty());
        assert forall|l2: u32| l2 != l implies find_level(levels_without(levels, l), l2)
            == find_level(levels, l2) by {
            assert(find_level(Seq::<LevelInfo>::empty(), l2) is None);
        }
    }
}

/// The contract-level analogue of [`lemma_levels_without`].
pub proof fn lemma_cls_without(cls: Seq<(Seq<char>, u32)>, name: Seq<char>, l: u32)
    ensures
        !has_contract_level(cls_without(cls, name, l), name, l),
        forall|n2: Seq<char>, l2: u32|
            (n2, l2) != (name, l) ==> has_contract_level(cls_without(cls, name, l), n2, l2)
                == has_contract_level(cls, n2, l2),
    decreases cls.len(),
{
    if cls.len() == 0 {
        assert forall|n2: Seq<char>, l2: u32|
            (n2, l2) != (name, l) implies has_contract_level(cls_without(cls, name, l), n2, l2)
            == has_contract_level(cls, n2, l2) by {}
    } else {
        lemma_cls_without(cls.drop_last(), name, l);
        let w = cls_without(cls, name, l);
        let wrest = cls_without(cls.drop_last(), name, l);
        if cls.last() == (name, l) {
            assert(w == wrest);
        } else {
            assert(w == wrest.push(cls.last()));
        }
        assert(!has_contract_level(w, name, l)) by {
            if cls.last() != (name, l) {
                assert forall|i: int| 0 <= i < w.len() implies w[i] != (name, l) by {
                    if i < wrest.len() {
                        assert(w[i] == wrest[i]);
                        assert(!has_contract_level(wrest, name, l));
                    }
                }
            }
        }
        assert forall|n2: Seq<char>, l2: u32|
            (n2, l2) != (name, l) implies has_contract_level(w, n2, l2) == has_contract_level(
            cls,
            n2,
            l2,
        ) by {
            if has_contract_level(w, n2, l2) {
                let i = choose|i: int| 0 <= i < w.len() && w[i] == (n2, l2);
                if cls.last() != (name, l) && i == w.len() - 1 {
                    assert(cls[cls.len() - 1] == (n2, l2));
                } else {
                    assert(wrest[i] == (n2, l2));
                    assert(has_contract_level(cls.drop_last(), n2, l2));
                    let j = choose|j: int|
                        0 <= j < cls.drop_last().len() && cls.drop_last()[j] == (n2, l2);
                    assert(cls[j] == (n2, l2));
                }
            }
            if has_contract_level(cls, n2, l2) {
                let i = choose|i: int| 0 <= i < cls.len() && cls[i] == (n2, l2);
                if i == cls.len() - 1 {
                    if cls.last() == (name, l) {
                    } else {
                        assert(w[w.len() - 1] == (n2, l2));
                    }
                } else {
                    assert(cls.drop_last()[i] == (n2, l2));
                    assert(has_contract_level(cls.drop_last(), n2, l2));
                    assert(has_contract_level(wrest, n2, l2));
                    let j = choose|j: int| 0 <= j < wrest.len() && wrest[j] == (n2, l2);
                    if cls.last() == (name, l) {
                        assert(w[j] == (n2, l2));
                    } else {
                        assert(w[j] == (n2, l2));
                    }
                }
            }
        }
    }
}

/// Deleting one level keeps every other `(contract, level)` row.
pub proof fn lemma_cls_without_level(cls: Seq<(Seq<char>, u32)>, l: u32)
    ensures
        forall|n2: Seq<char>, l2: u32|
            l2 != l ==> has_contract_level(cls_without_level(cls, l), n2, l2)
                == has_contract_level(cls, n2, l2),
        forall|n2: Seq<char>| !has_contract_level(cls_without_level(cls, l), n2, l),
    decreases cls.len(),
{
    if cls.len() == 0 {
    } else {
        lemma_cls_without_level(cls.drop_last(), l);
        let w = cls_without_level(cls, l);
        let wrest = cls_without_level(cls.drop_last(), l);
        if cls.last().1 == l {
            assert(w == wrest);
        } else {
            assert(w == wrest.push(cls.last()));
        }
        assert forall|n2: Seq<char>| !has_contract_level(w, n2, l) by {
            if cls.last().1 != l {
                assert forall|i: int| 0 <= i < w.len() implies w[i] != (n2, l) by {
                    if i < wrest.len() {
                        assert(w[i] == wrest[i]);
                        assert(!has_contract_level(wrest, n2, l));
                    }
                }
            }
        }
        assert forall|n2: Seq<char>, l2: u32|
            l2 != l implies has_contract_level(w, n2, l2) == has_contract_level(cls, n2, l2) by {
            if has_contract_level(w, n2, l2) {
                let i = choose|i: int| 0 <= i < w.len() && w[i] == (n2, l2);
                if cls.last().1 != l && i == w.len() - 1 {
                    assert(cls[cls.len() - 1] == (n2, l2));
                } else {
                    assert(wrest[i] == (n2, l2));
                    assert(has_contract_level(cls.drop_last(), n2, l2));
                    let j = choose|j: int|
                        0 <= j < cls.drop_last().len() && cls.drop_last()[j] == (n2, l2);
                    assert(cls[j] == (n2, l2));
                }
            }
            if has_contract_level(cls, n2, l2) {
                let i = choose|i: int| 0 <= i < cls.len() && cls[i] == (n2, l2);
                if i == cls.len() - 1 {
                    assert(cls.last() == (n2, l2));
                    assert(cls.last().1 != l);
                    assert(w == wrest.push(cls.last()));
                    assert(w[w.len() - 1] == (n2, l2));
                } else {
                    assert(cls.drop_last()[i] == (n2, l2));
                    assert(has_contract_level(cls.drop_last(), n2, l2));
                    assert(has_contract_level(wrest, n2, l2) == has_contract_level(
                        cls.drop_last(),
                        n2,
                        l2,
                    ));
                    let j = choose|j: int| 0 <= j < wrest.len() && wrest[j] == (n2, l2);
                    assert(w[j] == (n2, l2));
                }
            }
        }
    }
}


/// The names of a contract list.
pub open spec fn contract_names(cs: Seq<ContractID>) -> Seq<Seq<char>> {
    cs.map_values(|c: ContractID| c.name@)
}

/// The first level worth storing for a contract: its recorded origination,
/// or 1 when none is known.
pub open spec fn contract_start(v: DbView, name: Seq<char>) -> u32 {
    match orig_of(v.originations, name) {
        Some(f) => f,
        None => 1u32,
    }
}

/// Some registered contract is missing its row at level `l`, at or above its
/// own start.
pub open spec fn missing_at(v: DbView, names: Seq<Seq<char>>, l: u32) -> bool {
    exists|k: int|
        0 <= k < names.len() && contract_start(v, #[trigger] names[k]) <= l && !has_contract_level(
            v.contract_levels,
            names[k],
            l,
        )
}

/// The levels of dependency rows whose dependent schema is registered.
pub open spec fn dep_levels(
    deps: Seq<(u32, Seq<char>, Seq<char>)>,
    names: Seq<Seq<char>>,
) -> Seq<u32>
    decreases deps.len(),
{
    if deps.len() == 0 {
        Seq::<u32>::empty()
    } else {
        let rest = dep_levels(deps.drop_last(), names);
        if names.contains(deps.last().2) {
            rest.push(deps.last().0)
        } else {
            rest
        }
    }
}

/// The source contracts that registered schemas depend on and that are not
/// registered themselves.
pub open spec fn config_deps(
    deps: Seq<(u32, Seq<char>, Seq<char>)>,
    names: Seq<Seq<char>>,
) -> Seq<Seq<char>>
    decreases deps.len(),
{
    if deps.len() == 0 {
        Seq::<Seq<char>>::empty()
    } else {
        let rest = config_deps(deps.drop_last(), names);
        if names.contains(deps.last().2) && !names.contains(deps.last().1) {
            rest.push(deps.last().1)
        } else {
            rest
        }
    }
}


/// A level that occurs in the stored rows is found.
pub proof fn lemma_find_level_present(levels: Seq<LevelInfo>, l: u32)
    requires
        exists|k: int| 0 <= k < levels.len() && levels[k].level == l,
    ensures
        find_level(levels, l) is Some,
    decreases levels.len(),
{
    if levels.last().level == l {
    } else {
        let k = choose|k: int| 0 <= k < levels.len() && levels[k].level == l;
        assert(levels.drop_last()[k] == levels[k]);
        lemma_find_level_present(levels.drop_last(), l);
    }
}

/// No stored level exceeds the maximum.
pub proof fn lemma_max_level_bound(levels: Seq<LevelInfo>)
    ensures
        forall|i: int|
            0 <= i < levels.len() ==> (#[trigger] levels[i]).level <= match max_level(levels) {
                Some(m) => m,
                None => 0u32,
            },
    decreases levels.len(),
{
    if levels.len() > 0 {
        lemma_max_level_bound(levels.drop_last());
        assert forall|i: int|
            0 <= i < levels.len() implies (#[trigger] levels[i]).level <= match max_level(levels) {
            Some(m) => m,
            None => 0u32,
        } by {
            if i < levels.len() - 1 {
                assert(levels.drop_last()[i] == levels[i]);
            }
        }
    }
}

/// Pushing a row makes its lookup true and keeps every other lookup.
pub proof fn lemma_has_after_push(cls: Seq<(Seq<char>, u32)>, name: Seq<char>, l: u32)
    ensures
        has_contract_level(cls.push((name, l)), name, l),
        forall|n2: Seq<char>, l2: u32|
            has_contract_level(cls, n2, l2) ==> has_contract_level(cls.push((name, l)), n2, l2),
{
    let w = cls.push((name, l));
    assert(w[w.len() - 1] == (name, l));
    assert forall|n2: Seq<char>, l2: u32|
        has_contract_level(cls, n2, l2) implies has_contract_level(w, n2, l2) by {
        if has_contract_level(cls, n2, l2) {
            let i = choose|i: int| 0 <= i < cls.len() && cls[i] == (n2, l2);
            assert(w[i] == (n2, l2));
        }
    }
}


/// A pushed row is present, and other lookups see exactly the old rows.
pub proof fn lemma_has_push_iff(cls: Seq<(Seq<char>, u32)>, name: Seq<char>, l: u32)
    ensures
        forall|n2: Seq<char>, l2: u32|
            has_contract_level(cls.push((name, l)), n2, l2) <==> (has_contract_level(cls, n2, l2)
                || (n2, l2) == (name, l)),
{
    let w = cls.push((name, l));
    assert forall|n2: Seq<char>, l2: u32|
        has_contract_level(w, n2, l2) <==> (has_contract_level(cls, n2, l2) || (n2, l2) == (
        name,
        l,
    )) by {
        if has_contract_level(w, n2, l2) {
            let i = choose|i: int| 0 <= i < w.len() && w[i] == (n2, l2);
            if i < cls.len() {
                assert(cls[i] == (n2, l2));
            }
        }
        if has_contract_level(cls, n2, l2) {
            let i = choose|i: int| 0 <= i < cls.len() && cls[i] == (n2, l2);
            assert(w[i] == (n2, l2));
        }
        if (n2, l2) == (name, l) {
            assert(w[w.len() - 1] == (n2, l2));
        }
    }
}

/// Finding after a push: the pushed row for its level, the old rows
/// elsewhere.
pub proof fn lemma_find_level_push(levels: Seq<LevelInfo>, li: LevelInfo)
    ensures
        find_level(levels.push(li), li.level) == Some(li),
        forall|l2: u32|
            l2 != li.level ==> find_level(levels.push(li), l2) == find_level(levels, l2),
{
    let w = levels.push(li);
    assert(w.last() == li);
    assert forall|l2: u32|
        l2 != li.level implies find_level(w, l2) == find_level(levels, l2) by {
        assert(w.drop_last() =~= levels);
    }
}

/// Deleting a level cannot break the hash chain.
pub proof fn lemma_delete_preserves_chain(levels: Seq<LevelInfo>, l: u32)
    requires
        chain_consistent(levels),
    ensures
        chain_consistent(levels_without(levels, l)),
{
    lemma_levels_without(levels, l);
    let w = levels_without(levels, l);
    assert forall|l2: u32| l2 < 0xffffffffu32 implies #[trigger] link_ok(w, l2) by {
        assert(link_ok(levels, l2));
        match (find_level(w, l2), find_level(w, (l2 + 1) as u32)) {
            (Some(cur), Some(nxt)) => {
                assert(l2 != l && (l2 + 1) as u32 != l);
                assert(find_level(levels, l2) == Some(cur));
                assert(find_level(levels, (l2 + 1) as u32) == Some(nxt));
            },
            _ => {},
        }
    }
}

/// Inserting a row that agrees with both stored neighbours keeps the hash
/// chain consistent.
pub proof fn lemma_insert_preserves_chain(
    pre: Seq<LevelInfo>,
    post: Seq<LevelInfo>,
    li: LevelInfo,
)
    requires
        chain_consistent(pre),
        1 <= li.level < 0xffffffffu32,
        find_level(pre, li.level) is None,
        find_level(post, li.level) == Some(li),
        forall|l2: u32| l2 != li.level ==> find_level(post, l2) == find_level(pre, l2),
        match (find_level(pre, (li.level - 1) as u32), li.prev_hash) {
            (Some(p), Some(ph)) => match p.hash {
                Some(h) => h == ph,
                None => true,
            },
            _ => true,
        },
        match (find_level(pre, (li.level + 1) as u32), li.hash) {
            (Some(nx), Some(h)) => match nx.prev_hash {
                Some(ph) => ph == h,
                None => true,
            },
            _ => true,
        },
    ensures
        chain_consistent(post),
{
    assert forall|l2: u32| l2 < 0xffffffffu32 implies #[trigger] link_ok(post, l2) by {
        assert(link_ok(pre, l2));
        if l2 == li.level {
            assert(find_level(post, l2) == Some(li));
            assert(find_level(post, (l2 + 1) as u32) == find_level(pre, (l2 + 1) as u32));
        } else if (l2 + 1) as u32 == li.level {
            assert(find_level(post, l2) == find_level(pre, l2));
            assert(find_level(post, (l2 + 1) as u32) == Some(li));
        } else {
            assert(find_level(post, l2) == find_level(pre, l2));
            assert(find_level(post, (l2 + 1) as u32) == find_level(pre, (l2 + 1) as u32));
        }
    }
}

/// The in-memory database sink.
pub struct DBClient {
    levels: Vec<LevelMeta>,
    contract_levels: Vec<(String, u32)>,
    originations: Vec<(String, u32)>,
    tx_contexts: Vec<TxContext>,
    inserts: Vec<(String, Insert)>,
    bigmap_keyhashes: Vec<(TxContext, i32, String, String)>,
    contract_deps: Vec<(u32, String, String)>,
    schemas: Vec<String>,
    max_id: u32,
    derived_rebuilds: u64,
}

impl DBClient {
    /// The sink's whole state as one spec value.
    pub closed spec fn db(self) -> DbView {
        DbView {
            levels: self.levels@.map_values(|m: LevelMeta| level_info(m)),
            contract_levels: self.contract_levels@.map_values(|p: (String, u32)| (p.0@, p.1)),
            originations: self.originations@.map_values(|p: (String, u32)| (p.0@, p.1)),
            tx_contexts: self.tx_contexts@.map_values(|t: TxContext| tx_ctx_info(t)),
            inserts: self.inserts@.map_values(|p: (String, Insert)| (p.0@, insert_info(p.1))),
            bigmap_keyhashes: self.bigmap_keyhashes@.map_values(
                |p: (TxContext, i32, String, String)| (tx_ctx_info(p.0), p.1, p.2@, p.3@),
            ),
            contract_deps: self.contract_deps@.map_values(
                |p: (u32, String, String)| (p.0, p.1@, p.2@),
            ),
            schemas: self.schemas@.map_values(|s: String| s@),
            max_id: self.max_id,
            derived_rebuilds: self.derived_rebuilds,
        }
    }

    /// A fresh sink: no rows, the id counter at its starting value.
    pub fn new() -> (r: Self)
        ensures
            r.db() == (DbView {
                levels: Seq::<LevelInfo>::empty(),
                contract_levels: Seq::<(Seq<char>, u32)>::empty(),
                originations: Seq::<(Seq<char>, u32)>::empty(),
                tx_contexts: Seq::<TxCtxInfo>::empty(),
                inserts: Seq::<(Seq<char>, InsertInfo)>::empty(),
                bigmap_keyhashes: Seq::<(TxCtxInfo, i32, Seq<char>, Seq<char>)>::empty(),
                contract_deps: Seq::<(u32, Seq<char>, Seq<char>)>::empty(),
                schemas: Seq::<Seq<char>>::empty(),
                max_id: 1u32,
                derived_rebuilds: 0u64,
            }),
    {
        let r = DBClient {
            levels: Vec::new(),
            contract_levels: Vec::new(),
            originations: Vec::new(),
            tx_contexts: Vec::new(),
            inserts: Vec::new(),
            bigmap_keyhashes: Vec::new(),
            contract_deps: Vec::new(),
            schemas: Vec::new(),
            max_id: 1,
            derived_rebuilds: 0,
        };
        proof {
            assert(r.db().levels =~= Seq::<LevelInfo>::empty());
            assert(r.db().contract_levels =~= Seq::<(Seq<char>, u32)>::empty());
            assert(r.db().originations =~= Seq::<(Seq<char>, u32)>::empty());
            assert(r.db().tx_contexts =~= Seq::<TxCtxInfo>::empty());
            assert(r.db().inserts =~= Seq::<(Seq<char>, InsertInfo)>::empty());
            assert(r.db().bigmap_keyhashes =~= Seq::<
                (TxCtxInfo, i32, Seq<char>, Seq<char>),
            >::empty());
            assert(r.db().contract_deps =~= Seq::<(u32, Seq<char>, Seq<char>)>::empty());
            assert(r.db().schemas =~= Seq::<Seq<char>>::empty());
        }
        r
    }

    /// Records that the per-contract tables for `contract_id` were created;
    /// idempotent, returns whether they were new.
    pub fn create_contract_schema(
        &mut self,
        contract_id: &ContractID,
        rel_ast: &RelationalAST,
    ) -> (r: bool)
        ensures
            r == !old(self).db().schemas.contains(contract_id.name@),
            r ==> final(self).db() == (DbView {
                schemas: old(self).db().schemas.push(contract_id.name@),
                ..old(self).db()
            }),
            !r ==> final(self).db() == old(self).db(),
    {
        let ghost pre = self.db();
        let n = self.schemas.len();
        let mut i: usize = 0;
        while i < n
            invariant
                i <= n,
                n == self.schemas.len(),
                *self == *old(self),
                pre == self.db(),
                forall|j: int| 0 <= j < i ==> pre.schemas[j] != contract_id.name@,
            decreases n - i,
        {
            if self.schemas[i].eq(&contract_id.name) {
                proof {
                    assert(pre.schemas[i as int] == contract_id.name@);
                }
                return false;
            }
            i = i + 1;
        }
        self.schemas.push(contract_id.name.clone());
        proof {
            assert(self.db().schemas =~= pre.schemas.push(contract_id.name@));
            assert(self.db() == (DbView { schemas: pre.schemas.push(contract_id.name@), ..pre }));
        }
        true
    }

    /// The row of the highest stored level.
    pub fn get_head(&self) -> (r: Option<LevelMeta>)
        ensures
            match r {
                Some(m) => {
                    &&& max_level(self.db().levels) == Some(m.level)
                    &&& find_level(self.db().levels, m.level) == Some(level_info(m))
                },
                None => max_level(self.db().levels) is None,
            },
    {
        match self.max_level_stored() {
            Some(l) => self.get_level(l),
            None => None,
        }
    }

    /// The highest stored level.
    pub fn max_level_stored(&self) -> (r: Option<u32>)
        ensures
            r == max_level(self.db().levels),
            r matches Some(l) ==> find_level(self.db().levels, l) is Some,
    {
        let ghost lv = self.db().levels;
        let n = self.levels.len();
        let mut best: Option<u32> = None;
        let mut i: usize = 0;
        while i < n
            invariant
                i <= n,
                n == self.levels.len(),
                lv == self.db().levels,
                best == max_level(lv.take(i as int)),
                best matches Some(l) ==> find_level(lv.take(i as int), l) is Some,
            decreases n - i,
        {
            proof {
                assert(lv.take(i + 1).drop_last() =~= lv.take(i as int));
                assert(lv.take(i + 1).last() == lv[i as int]);
            }
            let cur = self.levels[i].level;
            let newbest = match best {
                None => Some(cur),
                Some(b) => if cur > b {
                    Some(cur)
                } else {
                    Some(b)
                },
            };
            proof {
                if newbest != best {
                    assert(find_level(lv.take(i + 1), lv[i as int].level) is Some);
                } else {
                    match best {
                        Some(b) => {
                            if lv[i as int].level == b {
                            } else {
                                assert(find_level(lv.take(i + 1), b) == find_level(
                                    lv.take(i as int),
                                    b,
                                ));
                            }
                        },
                        None => {},
                    }
                }
            }
            best = newbest;
            i = i + 1;
        }
        proof {
            assert(lv.take(n as int) =~= lv);
        }
        best
    }

    /// The stored row for level `l`, if any.
    pub fn get_level(&self, l: u32) -> (r: Option<LevelMeta>)
        ensures
            match r {
                Some(m) => find_level(self.db().levels, l) == Some(level_info(m)) && m.level == l,
                None => find_level(self.db().levels, l) is None,
            },
    {
        let ghost lv = self.db().levels;
        let n = self.levels.len();
        proof {
            assert(lv.take(n as int) =~= lv);
        }
        let mut i: usize = n;
        while i > 0
            invariant
                i <= n,
                n == self.levels.len(),
                lv == self.db().levels,
                find_level(lv, l) == find_level(lv.take(i as int), l),
            decreases i,
        {
            proof {
                assert(lv.take(i as int).drop_last() =~= lv.take(i - 1));
                assert(lv.take(i as int).last() == lv[i - 1]);
            }
            if self.levels[i - 1].level == l {
                let m = self.levels[i - 1].clone();
                proof {
                    assert(find_level(lv.take(i as int), l) == Some(lv[i - 1]));
                }
                return Some(m);
            }
            i = i - 1;
        }
        proof {
            assert(lv.take(0) =~= Seq::<LevelInfo>::empty());
        }
        None
    }

    /// The recorded origination level of `contract_id`, if any.
    pub fn get_origination(&self, contract_id: &ContractID) -> (r: Option<u32>)
        ensures
            r == orig_of(self.db().originations, contract_id.name@),
    {
        let ghost og = self.db().originations;
        let n = self.originations.len();
        proof {
            assert(og.take(n as int) =~= og);
        }
        let mut i: usize = n;
        while i > 0
            invariant
                i <= n,
                n == self.originations.len(),
                og == self.db().originations,
                orig_of(og, contract_id.name@) == orig_of(og.take(i as int), contract_id.name@),
            decreases i,
        {
            proof {
                assert(og.take(i as int).drop_last() =~= og.take(i - 1));
                assert(og.take(i as int).last() == og[i - 1]);
            }
            if self.originations[i - 1].0.eq(&contract_id.name) {
                proof {
                    assert(og[i - 1].0 == contract_id.name@);
                }
                return Some(self.originations[i - 1].1);
            }
            i = i - 1;
        }
        proof {
            assert(og.take(0) =~= Seq::<(Seq<char>, u32)>::empty());
        }
        None
    }

    /// Whether the `(contract, level)` row is present.
    pub fn has_level_row(&self, name: &String, l: u32) -> (r: bool)
        ensures
            r == has_contract_level(self.db().contract_levels, name@, l),
    {
        let ghost cls = self.db().contract_levels;
        let n = self.contract_levels.len();
        let mut i: usize = 0;
        while i < n
            invariant
                i <= n,
                n == self.contract_levels.len(),
                cls == self.db().contract_levels,
                forall|j: int| 0 <= j < i ==> cls[j] != (name@, l),
            decreases n - i,
        {
            if self.contract_levels[i].0.eq(name) && self.contract_levels[i].1 == l {
                proof {
                    assert(cls[i as int] == (name@, l));
                }
                return true;
            }
            i = i + 1;
        }
        false
    }

    /// The current value of the shared row-id counter.
    pub fn get_max_id(&self) -> (r: u32)
        ensures
            r == self.db().max_id,
    {
        self.max_id
    }

    /// Sets the shared row-id counter.
    pub fn set_max_id(&mut self, id: u32)
        ensures
            final(self).db() == (DbView { max_id: id, ..old(self).db() }),
    {
        self.max_id = id;
        proof {
            assert(self.db() == (DbView { max_id: id, ..old(self).db() }));
        }
    }

    /// Stores a level row.
    pub fn save_level(&mut self, meta: &LevelMeta)
        ensures
            final(self).db() == (DbView {
                levels: old(self).db().levels.push(level_info(*meta)),
                ..old(self).db()
            }),
    {
        let ghost pre = self.db();
        self.levels.push(meta.clone());
        proof {
            assert(self.db().levels =~= pre.levels.push(level_info(*meta)));
            assert(self.db() == (DbView { levels: pre.levels.push(level_info(*meta)), ..pre }));
        }
    }

    /// Appends the transaction contexts of a block.
    pub fn save_tx_contexts(&mut self, txs: &Vec<TxContext>)
        ensures
            final(self).db() == (DbView {
                tx_contexts: old(self).db().tx_contexts + txs@.map_values(
                    |t: TxContext| tx_ctx_info(t),
                ),
                ..old(self).db()
            }),
    {
        let ghost pre = self.db();
        let ghost added = txs@.map_values(|t: TxContext| tx_ctx_info(t));
        let n = txs.len();
        let mut i: usize = 0;
        while i < n
            invariant
                i <= n,
                n == txs.len(),
                added == txs@.map_values(|t: TxContext| tx_ctx_info(t)),
                self.db() == (DbView { tx_contexts: pre.tx_contexts + added.take(i as int), ..pre }),
            decreases n - i,
        {
            let ghost mid = self.db();
            self.tx_contexts.push(txs[i].clone());
            proof {
                assert(self.db().tx_contexts =~= mid.tx_contexts.push(added[i as int]));
                assert(pre.tx_contexts + added.take(i + 1) =~= (pre.tx_contexts + added.take(
                    i as int,
                )).push(added[i as int]));
                assert(self.db() == (DbView {
                    tx_contexts: pre.tx_contexts + added.take(i + 1),
                    ..pre
                }));
            }
            i = i + 1;
        }
        proof {
            assert(added.take(n as int) =~= added);
            assert(pre.tx_contexts + added.take(0) =~= pre.tx_contexts);
        }
    }

    /// Applies the row inserts of a block for one contract.
    pub fn apply_inserts(&mut self, contract_id: &ContractID, rows: &Vec<Insert>)
        ensures
            final(self).db() == (DbView {
                inserts: old(self).db().inserts + rows@.map_values(
                    |x: Insert| (contract_id.name@, insert_info(x)),
                ),
                ..old(self).db()
            }),
    {
        let ghost pre = self.db();
        let ghost added = rows@.map_values(|x: Insert| (contract_id.name@, insert_info(x)));
        let n = rows.len();
        let mut i: usize = 0;
        while i < n
            invariant
                i <= n,
                n == rows.len(),
                added == rows@.map_values(|x: Insert| (contract_id.name@, insert_info(x))),
                self.db() == (DbView { inserts: pre.inserts + added.take(i as int), ..pre }),
            decreases n - i,
        {
            let ghost mid = self.db();
            self.inserts.push((contract_id.name.clone(), rows[i].clone()));
            proof {
                assert(self.db().inserts =~= mid.inserts.push(added[i as int]));
                assert(pre.inserts + added.take(i + 1) =~= (pre.inserts + added.take(
                    i as int,
                )).push(added[i as int]));
                assert(self.db() == (DbView { inserts: pre.inserts + added.take(i + 1), ..pre }));
            }
            i = i + 1;
        }
        proof {
            assert(added.take(n as int) =~= added);
            assert(pre.inserts + added.take(0) =~= pre.inserts);
        }
    }

    /// Records which big maps of other contracts a block made this contract
    /// depend on.
    pub fn save_contract_deps(&mut self, level: u32, contract_id: &ContractID, deps: &Vec<String>)
        ensures
            final(self).db() == (DbView {
                contract_deps: old(self).db().contract_deps + deps@.map_values(
                    |d: String| (level, d@, contract_id.name@),
                ),
                ..old(self).db()
            }),
    {
        let ghost pre = self.db();
        let ghost added = deps@.map_values(|d: String| (level, d@, contract_id.name@));
        let n = deps.len();
        let mut i: usize = 0;
        while i < n
            invariant
                i <= n,
                n == deps.len(),
                added == deps@.map_values(|d: String| (level, d@, contract_id.name@)),
                self.db() == (DbView {
                    contract_deps: pre.contract_deps + added.take(i as int),
                    ..pre
                }),
            decreases n - i,
        {
            let ghost mid = self.db();
            self.contract_deps.push((level, deps[i].clone(), contract_id.name.clone()));
            proof {
                assert(self.db().contract_deps =~= mid.contract_deps.push(added[i as int]));
                assert(pre.contract_deps + added.take(i + 1) =~= (pre.contract_deps + added.take(
                    i as int,
                )).push(added[i as int]));
                assert(self.db() == (DbView {
                    contract_deps: pre.contract_deps + added.take(i + 1),
                    ..pre
                }));
            }
            i = i + 1;
        }
        proof {
            assert(added.take(n as int) =~= added);
            assert(pre.contract_deps + added.take(0) =~= pre.contract_deps);
        }
    }

    /// Records the key hashes of big-map updates.
    pub fn save_bigmap_keyhashes(&mut self, rows: Vec<(TxContext, i32, String, String)>)
        ensures
            final(self).db() == (DbView {
                bigmap_keyhashes: old(self).db().bigmap_keyhashes + rows@.map_values(
                    |p: (TxContext, i32, String, String)| (tx_ctx_info(p.0), p.1, p.2@, p.3@),
                ),
                ..old(self).db()
            }),
    {
        let ghost pre = self.db();
        let ghost added = rows@.map_values(
            |p: (TxContext, i32, String, String)| (tx_ctx_info(p.0), p.1, p.2@, p.3@),
        );
        let n = rows.len();
        let mut rows = rows;
        let mut i: usize = 0;
        while i < n
            invariant
                i <= n,
                n == rows.len(),
                added == rows@.map_values(
                    |p: (TxContext, i32, String, String)| (tx_ctx_info(p.0), p.1, p.2@, p.3@),
                ),
                self.db() == (DbView {
                    bigmap_keyhashes: pre.bigmap_keyhashes + added.take(i as int),
                    ..pre
                }),
            decreases n - i,
        {
            let ghost mid = self.db();
            let row = (
                rows[i].0.clone(),
                rows[i].1,
                rows[i].2.clone(),
                rows[i].3.clone(),
            );
            self.bigmap_keyhashes.push(row);
            proof {
                assert(self.db().bigmap_keyhashes =~= mid.bigmap_keyhashes.push(added[i as int]));
                assert(pre.bigmap_keyhashes + added.take(i + 1) =~= (pre.bigmap_keyhashes
                    + added.take(i as int)).push(added[i as int]));
                assert(self.db() == (DbView {
                    bigmap_keyhashes: pre.bigmap_keyhashes + added.take(i + 1),
                    ..pre
                }));
            }
            i = i + 1;
        }
        proof {
            assert(added.take(n as int) =~= added);
            assert(pre.bigmap_keyhashes + added.take(0) =~= pre.bigmap_keyhashes);
        }
    }

    /// Stores a `(contract, level)` row.
    pub fn save_contract_level(&mut self, contract_id: &ContractID, level: u32)
        ensures
            final(self).db() == (DbView {
                contract_levels: old(self).db().contract_levels.push((contract_id.name@, level)),
                ..old(self).db()
            }),
    {
        let ghost pre = self.db();
        self.contract_levels.push((contract_id.name.clone(), level));
        proof {
            assert(self.db().contract_levels =~= pre.contract_levels.push(
                (contract_id.name@, level),
            ));
            assert(self.db() == (DbView {
                contract_levels: pre.contract_levels.push((contract_id.name@, level)),
                ..pre
            }));
        }
    }

    /// Records the origination level of a contract.
    pub fn set_origination(&mut self, contract_id: &ContractID, level: u32)
        ensures
            final(self).db() == (DbView {
                originations: old(self).db().originations.push((contract_id.name@, level)),
                ..old(self).db()
            }),
            orig_of(final(self).db().originations, contract_id.name@) == Some(level),
    {
        let ghost pre = self.db();
        self.originations.push((contract_id.name.clone(), level));
        proof {
            assert(self.db().originations =~= pre.originations.push((contract_id.name@, level)));
            assert(self.db() == (DbView {
                originations: pre.originations.push((contract_id.name@, level)),
                ..pre
            }));
        }
    }


    fn filter_levels(v: &Vec<LevelMeta>, l: u32) -> (r: Vec<LevelMeta>)
        ensures
            r@.map_values(|m: LevelMeta| level_info(m)) == levels_without(
                v@.map_values(|m: LevelMeta| level_info(m)),
                l,
            ),
    {
        let ghost all = v@.map_values(|m: LevelMeta| level_info(m));
        let mut kept: Vec<LevelMeta> = Vec::new();
        proof {
            assert(levels_without(all.take(0), l) =~= Seq::<LevelInfo>::empty());
            assert(kept@.map_values(|m: LevelMeta| level_info(m)) =~= levels_without(
                all.take(0),
                l,
            ));
        }
        let n = v.len();
        let mut i: usize = 0;
        while i < n
            invariant
                i <= n,
                n == v.len(),
                all == v@.map_values(|m: LevelMeta| level_info(m)),
                kept@.map_values(|m: LevelMeta| level_info(m)) == levels_without(
                    all.take(i as int),
                    l,
                ),
            decreases n - i,
        {
            proof {
                assert(all.take(i + 1).drop_last() =~= all.take(i as int));
                assert(all.take(i + 1).last() == all[i as int]);
            }
            let ghost prevk = kept@.map_values(|m: LevelMeta| level_info(m));
            if v[i].level != l {
                kept.push(v[i].clone());
                proof {
                    assert(kept@.map_values(|m: LevelMeta| level_info(m)) =~= prevk.push(
                        all[i as int],
                    ));
                }
            }
            proof {
                assert(kept@.map_values(|m: LevelMeta| level_info(m)) =~= levels_without(
                    all.take(i + 1),
                    l,
                ));
            }
            i = i + 1;
        }
        proof {
            assert(all.take(n as int) =~= all);
        }
        kept
    }

    fn filter_cls_level(v: &Vec<(String, u32)>, l: u32) -> (r: Vec<(String, u32)>)
        ensures
            r@.map_values(|p: (String, u32)| (p.0@, p.1)) == cls_without_level(
                v@.map_values(|p: (String, u32)| (p.0@, p.1)),
                l,
            ),
    {
        let ghost all = v@.map_values(|p: (String, u32)| (p.0@, p.1));
        let mut kept: Vec<(String, u32)> = Vec::new();
        proof {
            assert(cls_without_level(all.take(0), l) =~= Seq::<(Seq<char>, u32)>::empty());
            assert(kept@.map_values(|p: (String, u32)| (p.0@, p.1)) =~= cls_without_level(
                all.take(0),
                l,
            ));
        }
        let n = v.len();
        let mut i: usize = 0;
        while i < n
            invariant
                i <= n,
                n == v.len(),
                all == v@.map_values(|p: (String, u32)| (p.0@, p.1)),
                kept@.map_values(|p: (String, u32)| (p.0@, p.1)) == cls_without_level(
                    all.take(i as int),
                    l,
                ),
            decreases n - i,
        {
            proof {
                assert(all.take(i + 1).drop_last() =~= all.take(i as int));
                assert(all.take(i + 1).last() == all[i as int]);
            }
            let ghost prevk = kept@.map_values(|p: (String, u32)| (p.0@, p.1));
            if v[i].1 != l {
                kept.push((v[i].0.clone(), v[i].1));
                proof {
                    assert(kept@.map_values(|p: (String, u32)| (p.0@, p.1)) =~= prevk.push(
                        all[i as int],
                    ));
                }
            }
            proof {
                assert(kept@.map_values(|p: (String, u32)| (p.0@, p.1)) =~= cls_without_level(
                    all.take(i + 1),
                    l,
                ));
            }
            i = i + 1;
        }
        proof {
            assert(all.take(n as int) =~= all);
        }
        kept
    }

    fn filter_cls_pair(v: &Vec<(String, u32)>, name: &String, l: u32) -> (r: Vec<(String, u32)>)
        ensures
            r@.map_values(|p: (String, u32)| (p.0@, p.1)) == cls_without(
                v@.map_values(|p: (String, u32)| (p.0@, p.1)),
                name@,
                l,
            ),
    {
        let ghost all = v@.map_values(|p: (String, u32)| (p.0@, p.1));
        let mut kept: Vec<(String, u32)> = Vec::new();
        proof {
            assert(cls_without(all.take(0), name@, l) =~= Seq::<(Seq<char>, u32)>::empty());
            assert(kept@.map_values(|p: (String, u32)| (p.0@, p.1)) =~= cls_without(
                all.take(0),
                name@,
                l,
            ));
        }
        let n = v.len();
        let mut i: usize = 0;
        while i < n
            invariant
                i <= n,
                n == v.len(),
                all == v@.map_values(|p: (String, u32)| (p.0@, p.1)),
                kept@.map_values(|p: (String, u32)| (p.0@, p.1)) == cls_without(
                    all.take(i as int),
                    name@,
                    l,
                ),
            decreases n - i,
        {
            proof {
                assert(all.take(i + 1).drop_last() =~= all.take(i as int));
                assert(all.take(i + 1).last() == all[i as int]);
            }
            let ghost prevk = kept@.map_values(|p: (String, u32)| (p.0@, p.1));
            let keep = !(v[i].0.eq(name) && v[i].1 == l);
            proof {
                assert((all[i as int] == (name@, l)) == !keep);
            }
            if keep {
                kept.push((v[i].0.clone(), v[i].1));
                proof {
                    assert(kept@.map_values(|p: (String, u32)| (p.0@, p.1)) =~= prevk.push(
                        all[i as int],
                    ));
                }
            }
            proof {
                assert(kept@.map_values(|p: (String, u32)| (p.0@, p.1)) =~= cls_without(
                    all.take(i + 1),
                    name@,
                    l,
                ));
            }
            i = i + 1;
        }
        proof {
            assert(all.take(n as int) =~= all);
        }
        kept
    }

    fn filter_txs(v: &Vec<TxContext>, l: u32) -> (r: Vec<TxContext>)
        ensures
            r@.map_values(|t: TxContext| tx_ctx_info(t)) == txs_without(
                v@.map_values(|t: TxContext| tx_ctx_info(t)),
                l,
            ),
    {
        let ghost all = v@.map_values(|t: TxContext| tx_ctx_info(t));
        let mut kept: Vec<TxContext> = Vec::new();
        proof {
            assert(txs_without(all.take(0), l) =~= Seq::<TxCtxInfo>::empty());
            assert(kept@.map_values(|t: TxContext| tx_ctx_info(t)) =~= txs_without(
                all.take(0),
                l,
            ));
        }
        let n = v.len();
        let mut i: usize = 0;
        while i < n
            invariant
                i <= n,
                n == v.len(),
                all == v@.map_values(|t: TxContext| tx_ctx_info(t)),
                kept@.map_values(|t: TxContext| tx_ctx_info(t)) == txs_without(
                    all.take(i as int),
                    l,
                ),
            decreases n - i,
        {
            proof {
                assert(all.take(i + 1).drop_last() =~= all.take(i as int));
                assert(all.take(i + 1).last() == all[i as int]);
            }
            let ghost prevk = kept@.map_values(|t: TxContext| tx_ctx_info(t));
            if v[i].level != l {
                kept.push(v[i].clone());
                proof {
                    assert(kept@.map_values(|t: TxContext| tx_ctx_info(t)) =~= prevk.push(
                        all[i as int],
                    ));
                }
            }
            proof {
                assert(kept@.map_values(|t: TxContext| tx_ctx_info(t)) =~= txs_without(
                    all.take(i + 1),
                    l,
                ));
            }
            i = i + 1;
        }
        proof {
            assert(all.take(n as int) =~= all);
        }
        kept
    }

    fn filter_inserts(v: &Vec<(String, Insert)>, l: u32) -> (r: Vec<(String, Insert)>)
        ensures
            r@.map_values(|p: (String, Insert)| (p.0@, insert_info(p.1))) == inserts_without(
                v@.map_values(|p: (String, Insert)| (p.0@, insert_info(p.1))),
                l,
            ),
    {
        let ghost all = v@.map_values(|p: (String, Insert)| (p.0@, insert_info(p.1)));
        let mut kept: Vec<(String, Insert)> = Vec::new();
        proof {
            assert(inserts_without(all.take(0), l) =~= Seq::<(Seq<char>, InsertInfo)>::empty());
            assert(kept@.map_values(|p: (String, Insert)| (p.0@, insert_info(p.1)))
                =~= inserts_without(all.take(0), l));
        }
        let n = v.len();
        let mut i: usize = 0;
        while i < n
            invariant
                i <= n,
                n == v.len(),
                all == v@.map_values(|p: (String, Insert)| (p.0@, insert_info(p.1))),
                kept@.map_values(|p: (String, Insert)| (p.0@, insert_info(p.1)))
                    == inserts_without(all.take(i as int), l),
            decreases n - i,
        {
            proof {
                assert(all.take(i + 1).drop_last() =~= all.take(i as int));
                assert(all.take(i + 1).last() == all[i as int]);
            }
            let ghost prevk = kept@.map_values(|p: (String, Insert)| (p.0@, insert_info(p.1)));
            if v[i].1.level != l {
                kept.push((v[i].0.clone(), v[i].1.clone()));
                proof {
                    assert(kept@.map_values(|p: (String, Insert)| (p.0@, insert_info(p.1)))
                        =~= prevk.push(all[i as int]));
                }
            }
            proof {
                assert(kept@.map_values(|p: (String, Insert)| (p.0@, insert_info(p.1)))
                    =~= inserts_without(all.take(i + 1), l));
            }
            i = i + 1;
        }
        proof {
            assert(all.take(n as int) =~= all);
        }
        kept
    }

    fn filter_keyhashes(v: &Vec<(TxContext, i32, String, String)>, l: u32) -> (r: Vec<
        (TxContext, i32, String, String),
    >)
        ensures
            r@.map_values(
                |p: (TxContext, i32, String, String)| (tx_ctx_info(p.0), p.1, p.2@, p.3@),
            ) == keyhashes_without(
                v@.map_values(
                    |p: (TxContext, i32, String, String)| (tx_ctx_info(p.0), p.1, p.2@, p.3@),
                ),
                l,
            ),
    {
        let ghost all = v@.map_values(
            |p: (TxContext, i32, String, String)| (tx_ctx_info(p.0), p.1, p.2@, p.3@),
        );
        let mut kept: Vec<(TxContext, i32, String, String)> = Vec::new();
        proof {
            assert(keyhashes_without(all.take(0), l) =~= Seq::<
                (TxCtxInfo, i32, Seq<char>, Seq<char>),
            >::empty());
            assert(kept@.map_values(
                |p: (TxContext, i32, String, String)| (tx_ctx_info(p.0), p.1, p.2@, p.3@),
            ) =~= keyhashes_without(all.take(0), l));
        }
        let n = v.len();
        let mut i: usize = 0;
        while i < n
            invariant
                i <= n,
                n == v.len(),
                all == v@.map_values(
                    |p: (TxContext, i32, String, String)| (tx_ctx_info(p.0), p.1, p.2@, p.3@),
                ),
                kept@.map_values(
                    |p: (TxContext, i32, String, String)| (tx_ctx_info(p.0), p.1, p.2@, p.3@),
                ) == keyhashes_without(all.take(i as int), l),
            decreases n - i,
        {
            proof {
                assert(all.take(i + 1).drop_last() =~= all.take(i as int));
                assert(all.take(i + 1).last() == all[i as int]);
            }
            let ghost prevk = kept@.map_values(
                |p: (TxContext, i32, String, String)| (tx_ctx_info(p.0), p.1, p.2@, p.3@),
            );
            if v[i].0.level != l {
                kept.push((v[i].0.clone(), v[i].1, v[i].2.clone(), v[i].3.clone()));
                proof {
                    assert(kept@.map_values(
                        |p: (TxContext, i32, String, String)| (tx_ctx_info(p.0), p.1, p.2@, p.3@),
                    ) =~= prevk.push(all[i as int]));
                }
            }
            proof {
                assert(kept@.map_values(
                    |p: (TxContext, i32, String, String)| (tx_ctx_info(p.0), p.1, p.2@, p.3@),
                ) =~= keyhashes_without(all.take(i + 1), l));
            }
            i = i + 1;
        }
        proof {
            assert(all.take(n as int) =~= all);
        }
        kept
    }

    /// Deletes everything stored for level `l`: its level row, its
    /// contract-level rows, its transaction contexts, its inserts and its
    /// big-map key hashes.
    pub fn delete_level(&mut self, l: u32)
        ensures
            final(self).db() == (DbView {
                levels: levels_without(old(self).db().levels, l),
                contract_levels: cls_without_level(old(self).db().contract_levels, l),
                tx_contexts: txs_without(old(self).db().tx_contexts, l),
                inserts: inserts_without(old(self).db().inserts, l),
                bigmap_keyhashes: keyhashes_without(old(self).db().bigmap_keyhashes, l),
                ..old(self).db()
            }),
            find_level(final(self).db().levels, l) is None,
            forall|l2: u32| l2 != l ==> find_level(final(self).db().levels, l2) == find_level(
                old(self).db().levels,
                l2,
            ),
    {
        let ghost pre = self.db();
        let kept_levels = Self::filter_levels(&self.levels, l);
        let kept_cls = Self::filter_cls_level(&self.contract_levels, l);
        let kept_txs = Self::filter_txs(&self.tx_contexts, l);
        let kept_ins = Self::filter_inserts(&self.inserts, l);
        let kept_khs = Self::filter_keyhashes(&self.bigmap_keyhashes, l);
        self.levels = kept_levels;
        self.contract_levels = kept_cls;
        self.tx_contexts = kept_txs;
        self.inserts = kept_ins;
        self.bigmap_keyhashes = kept_khs;
        proof {
            assert(self.db() == (DbView {
                levels: levels_without(pre.levels, l),
                contract_levels: cls_without_level(pre.contract_levels, l),
                tx_contexts: txs_without(pre.tx_contexts, l),
                inserts: inserts_without(pre.inserts, l),
                bigmap_keyhashes: keyhashes_without(pre.bigmap_keyhashes, l),
                ..pre
            }));
            lemma_levels_without(pre.levels, l);
        }
    }

    /// Deletes the `(contract, level)` row, if present.
    pub fn delete_contract_level(&mut self, contract_id: &ContractID, l: u32)
        ensures
            final(self).db() == (DbView {
                contract_levels: cls_without(
                    old(self).db().contract_levels,
                    contract_id.name@,
                    l,
                ),
                ..old(self).db()
            }),
    {
        let ghost pre = self.db();
        let kept = Self::filter_cls_pair(&self.contract_levels, &contract_id.name, l);
        self.contract_levels = kept;
        proof {
            assert(self.db() == (DbView {
                contract_levels: cls_without(pre.contract_levels, contract_id.name@, l),
                ..pre
            }));
        }
    }


    /// Whether `s` is the name of one of `contracts`.
    pub fn contains_name(contracts: &Vec<ContractID>, s: &String) -> (r: bool)
        ensures
            r == contract_names(contracts@).contains(s@),
    {
        let ghost names = contract_names(contracts@);
        let n = contracts.len();
        let mut i: usize = 0;
        while i < n
            invariant
                i <= n,
                n == contracts.len(),
                names == contract_names(contracts@),
                forall|j: int| 0 <= j < i ==> names[j] != s@,
            decreases n - i,
        {
            if contracts[i].name.eq(s) {
                proof {
                    assert(names[i as int] == s@);
                }
                return true;
            }
            i = i + 1;
        }
        false
    }

    /// See [`missing_at`].
    fn missing_here(&self, contracts: &Vec<ContractID>, l: u32) -> (r: bool)
        ensures
            r == missing_at(self.db(), contract_names(contracts@), l),
    {
        let ghost names = contract_names(contracts@);
        let n = contracts.len();
        let mut i: usize = 0;
        while i < n
            invariant
                i <= n,
                n == contracts.len(),
                names == contract_names(contracts@),
                forall|k: int|
                    0 <= k < i ==> !(contract_start(self.db(), #[trigger] names[k]) <= l
                        && !has_contract_level(self.db().contract_levels, names[k], l)),
            decreases n - i,
        {
            let start = match self.get_origination(&contracts[i]) {
                Some(f) => f,
                None => 1,
            };
            proof {
                assert(names[i as int] == contracts@[i as int].name@);
                assert(start == contract_start(self.db(), names[i as int]));
            }
            if start <= l && !self.has_level_row(&contracts[i].name, l) {
                return true;
            }
            i = i + 1;
        }
        false
    }

    /// The levels up to `upto` that some registered contract is missing, in
    /// ascending order.
    pub fn get_missing_levels(&self, contracts: &Vec<ContractID>, upto: u32) -> (r: Vec<u32>)
        requires
            upto < u32::MAX,
        ensures
            forall|i: int, j: int| 0 <= i < j < r@.len() ==> r@[i] < r@[j],
            forall|l: u32|
                r@.contains(l) <==> (1 <= l <= upto && missing_at(
                    self.db(),
                    contract_names(contracts@),
                    l,
                )),
    {
        let ghost names = contract_names(contracts@);
        let mut out: Vec<u32> = Vec::new();
        let mut l: u32 = 1;
        while l <= upto
            invariant
                1 <= l <= upto + 1,
                upto < u32::MAX,
                names == contract_names(contracts@),
                forall|i: int, j: int| 0 <= i < j < out@.len() ==> out@[i] < out@[j],
                forall|i: int| 0 <= i < out@.len() ==> out@[i] < l,
                forall|l2: u32|
                    out@.contains(l2) <==> (1 <= l2 < l && missing_at(self.db(), names, l2)),
            decreases upto + 1 - l,
        {
            let ghost prev = out@;
            if self.missing_here(contracts, l) {
                out.push(l);
                proof {
                    assert(out@ == prev.push(l));
                    assert forall|l2: u32|
                        out@.contains(l2) <==> (1 <= l2 < l + 1 && missing_at(
                            self.db(),
                            names,
                            l2,
                        )) by {
                        if out@.contains(l2) {
                            let i = choose|i: int| 0 <= i < out@.len() && out@[i] == l2;
                            if i < prev.len() {
                                assert(prev[i] == l2);
                                assert(prev.contains(l2));
                            }
                        }
                        if 1 <= l2 < l + 1 && missing_at(self.db(), names, l2) {
                            if l2 < l {
                                assert(prev.contains(l2));
                                let i = choose|i: int| 0 <= i < prev.len() && prev[i] == l2;
                                assert(out@[i] == l2);
                            } else {
                                assert(out@[out@.len() - 1] == l2);
                            }
                        }
                    }
                }
            } else {
                proof {
                    assert forall|l2: u32|
                        out@.contains(l2) <==> (1 <= l2 < l + 1 && missing_at(
                            self.db(),
                            names,
                            l2,
                        )) by {}
                }
            }
            l = l + 1;
        }
        out
    }

    /// The levels of stored dependency rows whose dependent schema is one
    /// of `contracts`.
    pub fn get_dependent_levels(&self, contracts: &Vec<ContractID>) -> (r: Vec<u32>)
        ensures
            r@ == dep_levels(self.db().contract_deps, contract_names(contracts@)),
    {
        let ghost names = contract_names(contracts@);
        let ghost all = self.db().contract_deps;
        let mut out: Vec<u32> = Vec::new();
        proof {
            assert(dep_levels(all.take(0), names) =~= Seq::<u32>::empty());
            assert(out@ =~= dep_levels(all.take(0), names));
        }
        let n = self.contract_deps.len();
        let mut i: usize = 0;
        while i < n
            invariant
                i <= n,
                n == self.contract_deps.len(),
                names == contract_names(contracts@),
                all == self.db().contract_deps,
                out@ == dep_levels(all.take(i as int), names),
            decreases n - i,
        {
            proof {
                assert(all.take(i + 1).drop_last() =~= all.take(i as int));
                assert(all.take(i + 1).last() == all[i as int]);
            }
            if Self::contains_name(contracts, &self.contract_deps[i].2) {
                out.push(self.contract_deps[i].0);
            }
            proof {
                assert(out@ =~= dep_levels(all.take(i + 1), names));
            }
            i = i + 1;
        }
        proof {
            assert(all.take(n as int) =~= all);
        }
        out
    }

    /// The addresses of unregistered contracts that registered schemas depend on.
    pub fn get_config_deps(&self, contracts: &Vec<ContractID>) -> (r: Vec<String>)
        ensures
            crate::names::string_views(r@) == config_deps(
                self.db().contract_deps,
                contract_names(contracts@),
            ),
    {
        let ghost names = contract_names(contracts@);
        let ghost all = self.db().contract_deps;
        let mut out: Vec<String> = Vec::new();
        proof {
            assert(config_deps(all.take(0), names) =~= Seq::<Seq<char>>::empty());
            assert(crate::names::string_views(out@) =~= config_deps(all.take(0), names));
        }
        let n = self.contract_deps.len();
        let mut i: usize = 0;
        while i < n
            invariant
                i <= n,
                n == self.contract_deps.len(),
                names == contract_names(contracts@),
                all == self.db().contract_deps,
                crate::names::string_views(out@) == config_deps(all.take(i as int), names),
            decreases n - i,
        {
            proof {
                assert(all.take(i + 1).drop_last() =~= all.take(i as int));
                assert(all.take(i + 1).last() == all[i as int]);
            }
            let ghost prev = out@;
            if Self::contains_name(contracts, &self.contract_deps[i].2) && !Self::contains_name(
                contracts,
                &self.contract_deps[i].1,
            ) {
                out.push(self.contract_deps[i].1.clone());
                proof {
                    crate::names::lemma_string_views_push(prev, out@, all[i as int].1);
                }
            }
            proof {
                assert(crate::names::string_views(out@) =~= config_deps(all.take(i + 1), names));
            }
            i = i + 1;
        }
        proof {
            assert(all.take(n as int) =~= all);
        }
        out
    }

    /// The lowest stored level.
    pub fn min_level_stored(&self) -> (r: Option<u32>)
        ensures
            match r {
                Some(l) => {
                    &&& find_level(self.db().levels, l) is Some
                    &&& forall|i: int|
                        0 <= i < self.db().levels.len() ==> l <= #[trigger] self.db().levels[i].level
                },
                None => self.db().levels.len() == 0,
            },
    {
        let ghost lv = self.db().levels;
        let n = self.levels.len();
        let mut best: Option<u32> = None;
        let mut i: usize = 0;
        while i < n
            invariant
                i <= n,
                n == self.levels.len(),
                lv == self.db().levels,
                i > 0 <==> best is Some,
                best matches Some(b) ==> find_level(lv, b) is Some && forall|j: int|
                    0 <= j < i ==> b <= #[trigger] lv[j].level,
            decreases n - i,
        {
            let cur = self.levels[i].level;
            proof {
                assert(exists|k: int| 0 <= k < lv.len() && lv[k].level == cur) by {
                    assert(lv[i as int].level == cur);
                }
                lemma_find_level_present(lv, cur);
            }
            best = match best {
                None => Some(cur),
                Some(b) => if cur < b {
                    Some(cur)
                } else {
                    Some(b)
                },
            };
            i = i + 1;
        }
        best
    }

    /// Marks every level between the lowest and highest stored level as
    /// seen for `contract_id`, filling the gaps with empty rows.
    pub fn fill_in_levels(&mut self, contract_id: &ContractID)
        ensures
            final(self).db().levels == old(self).db().levels,
            final(self).db().originations == old(self).db().originations,
            final(self).db().tx_contexts == old(self).db().tx_contexts,
            final(self).db().inserts == old(self).db().inserts,
            final(self).db().bigmap_keyhashes == old(self).db().bigmap_keyhashes,
            final(self).db().contract_deps == old(self).db().contract_deps,
            final(self).db().schemas == old(self).db().schemas,
            final(self).db().max_id == old(self).db().max_id,
            final(self).db().derived_rebuilds == old(self).db().derived_rebuilds,
            forall|n2: Seq<char>, l2: u32|
                has_contract_level(old(self).db().contract_levels, n2, l2) ==> has_contract_level(
                    final(self).db().contract_levels,
                    n2,
                    l2,
                ),
            forall|i: int, j: int, l2: u32|
                #![trigger old(self).db().levels[i].level, old(self).db().levels[j].level, has_contract_level(final(self).db().contract_levels, contract_id.name@, l2)]
                (0 <= i < old(self).db().levels.len() && 0 <= j < old(self).db().levels.len()
                    && old(self).db().levels[i].level <= l2 <= old(self).db().levels[j].level)
                    ==> has_contract_level(
                    final(self).db().contract_levels,
                    contract_id.name@,
                    l2,
                ),
    {
        let minopt = self.min_level_stored();
        let maxopt = self.max_level_stored();
        let (lo, hi) = match (minopt, maxopt) {
            (Some(a), Some(b)) => (a, b),
            _ => {
                proof {
                    assert(self.db().levels.len() == 0);
                }
                return ;
            },
        };
        proof {
            lemma_max_level_bound(self.db().levels);
        }
        let mut l: u32 = lo;
        while l < hi
            invariant
                lo <= l,
                l <= hi,
                self.db().levels == old(self).db().levels,
                self.db().originations == old(self).db().originations,
                self.db().tx_contexts == old(self).db().tx_contexts,
                self.db().inserts == old(self).db().inserts,
                self.db().bigmap_keyhashes == old(self).db().bigmap_keyhashes,
                self.db().contract_deps == old(self).db().contract_deps,
                self.db().schemas == old(self).db().schemas,
                self.db().max_id == old(self).db().max_id,
                self.db().derived_rebuilds == old(self).db().derived_rebuilds,
                forall|n2: Seq<char>, l2: u32|
                    has_contract_level(old(self).db().contract_levels, n2, l2)
                        ==> has_contract_level(self.db().contract_levels, n2, l2),
                forall|l2: u32|
                    lo <= l2 < l ==> has_contract_level(
                        self.db().contract_levels,
                        contract_id.name@,
                        l2,
                    ),
            decreases hi - l,
        {
            let ghost mid = self.db().contract_levels;
            if !self.has_level_row(&contract_id.name, l) {
                self.save_contract_level(contract_id, l);
                proof {
                    lemma_has_after_push(mid, contract_id.name@, l);
                    assert forall|n2: Seq<char>, l2: u32|
                        has_contract_level(
                            old(self).db().contract_levels,
                            n2,
                            l2,
                        ) implies has_contract_level(self.db().contract_levels, n2, l2) by {
                        assert(has_contract_level(mid, n2, l2));
                    }
                    assert forall|l2: u32|
                        lo <= l2 < l + 1 implies has_contract_level(
                        self.db().contract_levels,
                        contract_id.name@,
                        l2,
                    ) by {
                        if l2 < l {
                            assert(has_contract_level(mid, contract_id.name@, l2));
                        }
                    }
                }
            }
            l = l + 1;
        }
        let ghost mid2 = self.db().contract_levels;
        if !self.has_level_row(&contract_id.name, hi) {
            self.save_contract_level(contract_id, hi);
            proof {
                lemma_has_after_push(mid2, contract_id.name@, hi);
                assert forall|n2: Seq<char>, l2: u32|
                    has_contract_level(
                        old(self).db().contract_levels,
                        n2,
                        l2,
                    ) implies has_contract_level(self.db().contract_levels, n2, l2) by {
                    assert(has_contract_level(mid2, n2, l2));
                }
                assert forall|l2: u32|
                    lo <= l2 <= hi implies has_contract_level(
                    self.db().contract_levels,
                    contract_id.name@,
                    l2,
                ) by {
                    if l2 < hi {
                        assert(has_contract_level(mid2, contract_id.name@, l2));
                    }
                }
            }
        } else {
            proof {
                assert forall|l2: u32|
                    lo <= l2 <= hi implies has_contract_level(
                    self.db().contract_levels,
                    contract_id.name@,
                    l2,
                ) by {}
            }
        }
        proof {
            assert forall|i: int, j: int, l2: u32|
                #![trigger old(self).db().levels[i].level, old(self).db().levels[j].level, has_contract_level(self.db().contract_levels, contract_id.name@, l2)]
                (0 <= i < old(self).db().levels.len() && 0 <= j < old(self).db().levels.len()
                    && old(self).db().levels[i].level <= l2 <= old(
                    self,
                ).db().levels[j].level) implies has_contract_level(
                self.db().contract_levels,
                contract_id.name@,
                l2,
            ) by {
                assert(lo <= old(self).db().levels[i].level);
                assert(old(self).db().levels[j].level <= hi);
            }
        }
    }

    /// Rebuilds the derived `_live` and `_ordered` projections of one
    /// contract from the base tables; visible here as a rebuild count.
    pub fn repopulate_derived_tables(&mut self, contract_id: &ContractID, rel_ast: &RelationalAST)
        ensures
            final(self).db() == (DbView {
                derived_rebuilds: (if old(self).db().derived_rebuilds == u64::MAX {
                    u64::MAX
                } else {
                    (old(self).db().derived_rebuilds + 1) as u64
                }),
                ..old(self).db()
            }),
    {
        if self.derived_rebuilds < u64::MAX {
            self.derived_rebuilds = self.derived_rebuilds + 1;
        }
        proof {
            assert(self.db() == (DbView { derived_rebuilds: self.derived_rebuilds, ..old(self).db() }));
        }
    }
}

} // verus!
