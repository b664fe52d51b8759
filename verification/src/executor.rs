//! The ingestion orchestrator: tracks contracts and their origination
//! floors, derives their schemas, and drives per-level processing with
//! hash-chain checks, reorg rollback and level-floor suppression.

use vstd::prelude::*;

use crate::block::{block_info, level_info, Block, LevelInfo, LevelMeta};
use crate::config::{sort_levels, ContractID};
use crate::db::{chain_consistent, find_level, has_contract_level, orig_of, DBClient, DbView};
use crate::error::{BadLevelHash, Error};
use crate::node::{find_block, find_script, NodeClient};
use crate::processor::StorageProcessor;
use crate::relational::{
    annots_dot_free, emitted_cols, emitted_tables, ASTBuilder, Context, RelationalAST,
};
use crate::typing::Ele;

verus! {

/// What processing one level for one contract produced.
pub struct SaveLevelResult {
    pub level: u32,
    pub contract_id: ContractID,
    pub is_origination: bool,
    pub tx_count: u32,
}

/// The lowest level worth fetching for the current contract set; everything
/// below has nothing to do with what is being indexed.
pub struct LevelFloor {
    f: u32,
}

impl LevelFloor {
    /// The current floor.
    pub closed spec fn floor(self) -> u32 {
        self.f
    }

    /// Sets the floor.
    pub fn set(&mut self, floor: u32)
        ensures
            final(self).floor() == floor,
    {
        self.f = floor;
    }

    /// Reads the floor.
    pub fn get(&self) -> (r: u32)
        ensures
            r == self.floor(),
    {
        self.f
    }
}

/// The spec mirror of a registered contract.
pub struct ContractInfo {
    pub name: Seq<char>,
    pub address: Seq<char>,
    pub floor: Option<u32>,
}

/// The spec value of a registry entry.
pub open spec fn contract_entry_info(e: (ContractID, RelationalAST, Option<u32>)) -> ContractInfo {
    ContractInfo { name: e.0.name@, address: e.0.address@, floor: e.2 }
}

/// The minimum of the registered floors, an unknown floor counting as 0.
pub open spec fn floors_min(s: Seq<ContractInfo>) -> u32
    decreases s.len(),
{
    if s.len() == 0 {
        0u32
    } else {
        let rest = floors_min(s.drop_last());
        let own = match s.last().floor {
            Some(f) => f,
            None => 0u32,
        };
        if s.len() == 1 {
            own
        } else if own < rest {
            own
        } else {
            rest
        }
    }
}

/// `s` with the entry for `c`'s name and address replaced, or `c` appended
/// when there is none.
pub open spec fn upsert(s: Seq<ContractInfo>, c: ContractInfo) -> Seq<ContractInfo>
    decreases s.len(),
{
    if s.len() == 0 {
        seq![c]
    } else if s.first().name == c.name && s.first().address == c.address {
        seq![c] + s.drop_first()
    } else {
        seq![s.first()] + upsert(s.drop_first(), c)
    }
}

/// A name present in the registry stays present through an upsert.
pub proof fn lemma_upsert_keeps_names(s: Seq<ContractInfo>, c: ContractInfo, name: Seq<char>)
    requires
        (exists|i: int| 0 <= i < s.len() && (#[trigger] s[i]).name == name) || c.name == name,
    ensures
        exists|i: int|
            0 <= i < upsert(s, c).len() && (#[trigger] upsert(s, c)[i]).name == name,
    decreases s.len(),
{
    let u = upsert(s, c);
    if s.len() == 0 {
        assert(u[0].name == c.name);
    } else if s.first().name == c.name && s.first().address == c.address {
        if c.name == name {
            assert(u[0].name == name);
        } else {
            let i = choose|i: int| 0 <= i < s.len() && (#[trigger] s[i]).name == name;
            assert(i != 0);
            assert(s.drop_first()[i - 1].name == name);
            assert(u[i].name == name);
        }
    } else {
        if s.first().name == name {
            assert(u[0].name == name);
        } else {
            if c.name != name {
                let i = choose|i: int| 0 <= i < s.len() && (#[trigger] s[i]).name == name;
                assert(s.drop_first()[i - 1].name == name);
            }
            lemma_upsert_keeps_names(s.drop_first(), c, name);
            let j = choose|j: int|
                0 <= j < upsert(s.drop_first(), c).len() && (#[trigger] upsert(
                    s.drop_first(),
                    c,
                )[j]).name == name;
            assert(u[j + 1].name == name);
        }
    }
}

/// The transaction contexts one block appends for the first `k` registered
/// contracts, in order: consecutive ids from `base`, each context carrying
/// the level and its contract's name.
pub open spec fn spec_block_txs(
    bi: crate::block::BlockInfo,
    names: Seq<Seq<char>>,
    addrs: Seq<Seq<char>>,
    level: u32,
    base: int,
    k: int,
) -> Seq<crate::block::TxCtxInfo>
    decreases k,
{
    if k <= 0 {
        Seq::<crate::block::TxCtxInfo>::empty()
    } else {
        spec_block_txs(bi, names, addrs, level, base, k - 1) + Seq::new(
            crate::block::spec_tx_count(bi, addrs[k - 1]) as nat,
            |t: int| crate::block::TxCtxInfo {
                id: (base + spec_ids_for(bi, addrs.take(k - 1)) + t) as u32,
                level: level,
                contract: names[k - 1],
            },
        )
    }
}

/// The root-table row inserts one block appends for the first `k`
/// registered contracts: one per transaction context, under the contract's
/// name, with matching ids.
pub open spec fn spec_block_inserts(
    bi: crate::block::BlockInfo,
    names: Seq<Seq<char>>,
    addrs: Seq<Seq<char>>,
    level: u32,
    base: int,
    k: int,
) -> Seq<(Seq<char>, crate::block::InsertInfo)>
    decreases k,
{
    if k <= 0 {
        Seq::<(Seq<char>, crate::block::InsertInfo)>::empty()
    } else {
        spec_block_inserts(bi, names, addrs, level, base, k - 1) + Seq::new(
            crate::block::spec_tx_count(bi, addrs[k - 1]) as nat,
            |t: int| (
                names[k - 1],
                crate::block::InsertInfo {
                    table_name: "storage"@,
                    id: (base + spec_ids_for(bi, addrs.take(k - 1)) + t) as u32,
                    tx_context_id: (base + spec_ids_for(bi, addrs.take(k - 1)) + t) as u32,
                    level: level,
                },
            ),
        )
    }
}

/// What persisting one block leaves in the sink: the level row, one
/// contract-level row per processed contract, and nothing else at that
/// level; all other levels untouched.
pub open spec fn block_effect(
    pre: DbView,
    post: DbView,
    li: LevelInfo,
    names: Seq<Seq<char>>,
) -> bool {
    &&& find_level(post.levels, li.level) == Some(li)
    &&& forall|l2: u32|
        l2 != li.level ==> find_level(post.levels, l2) == find_level(pre.levels, l2)
    &&& forall|n: Seq<char>|
        has_contract_level(post.contract_levels, n, li.level) <==> names.contains(n)
    &&& forall|n: Seq<char>, l2: u32|
        l2 != li.level ==> has_contract_level(post.contract_levels, n, l2) == has_contract_level(
            pre.contract_levels,
            n,
            l2,
        )
}

/// Idempotent per-level persistence: applying the same block effect twice
/// leaves exactly the state one application leaves, for the level rows and
/// the contract-level rows.
pub proof fn lemma_idempotent_persistence(
    d0: DbView,
    d1: DbView,
    d2: DbView,
    li: LevelInfo,
    names: Seq<Seq<char>>,
)
    requires
        block_effect(d0, d1, li, names),
        block_effect(d1, d2, li, names),
    ensures
        forall|l2: u32| find_level(d2.levels, l2) == find_level(d1.levels, l2),
        forall|n: Seq<char>, l2: u32|
            has_contract_level(d2.contract_levels, n, l2) == has_contract_level(
                d1.contract_levels,
                n,
                l2,
            ),
{
    assert forall|l2: u32| find_level(d2.levels, l2) == find_level(d1.levels, l2) by {
        if l2 == li.level {
            assert(find_level(d2.levels, l2) == Some(li));
            assert(find_level(d1.levels, l2) == Some(li));
        } else {
            assert(find_level(d2.levels, l2) == find_level(d1.levels, l2));
        }
    }
    assert forall|n: Seq<char>, l2: u32|
        has_contract_level(d2.contract_levels, n, l2) == has_contract_level(
        d1.contract_levels,
        n,
        l2,
    ) by {
        if l2 == li.level {
            assert(has_contract_level(d2.contract_levels, n, l2) <==> names.contains(n));
            assert(has_contract_level(d1.contract_levels, n, l2) <==> names.contains(n));
        } else {
            assert(has_contract_level(d2.contract_levels, n, l2) == has_contract_level(
                d1.contract_levels,
                n,
                l2,
            ));
        }
    }
}

/// Derives the relational schema of the contract at `contract_address`
/// from the storage type the node serves for it.  A type with a dotted
/// annotation is rejected: dots structure table names, so a dotted
/// annotation could forge another table's path.
///
/// On success the tree is exactly what [`crate::relational::builds`] pins
/// for the storage type from empty registries, the emitted child-table
/// names are pairwise distinct and distinct from the root table, every
/// `(table, column)` pair is distinct, every child table is a dotted child
/// of the root or of an earlier child table, and every column sits in the
/// root or in an emitted table.
pub fn get_rel_ast(node_cli: &NodeClient, contract_address: &String) -> (r: Result<
    RelationalAST,
    Error,
>)
    ensures
        (r is Ok <==> (find_script(node_cli.scripts_view(), contract_address@) matches Some(ele)
            && crate::relational::rast_ok(ele.expr_type) && annots_dot_free(ele))),
        (r matches Err(e) ==> (e == Error::ScriptMissing || e matches Error::Schema(_))),
        (r matches Err(e) ==> match e {
            Error::ScriptMissing => find_script(node_cli.scripts_view(), contract_address@)
                is None,
            Error::Schema(se) => (find_script(
                node_cli.scripts_view(),
                contract_address@,
            ) matches Some(ele) && (match se {
                crate::relational::SchemaError::DottedAnnotation => !annots_dot_free(ele),
                crate::relational::SchemaError::Unindexable => annots_dot_free(ele)
                    && !crate::relational::rast_ok(ele.expr_type),
            })),
            _ => false,
        }),
        (r matches Ok(rast) ==> {
            let ele = find_script(node_cli.scripts_view(), contract_address@)->Some_0;
            &&& crate::relational::builds(
                Seq::<Seq<char>>::empty(),
                Seq::<(Seq<char>, Seq<char>)>::empty(),
                "storage"@,
                Seq::<char>::empty(),
                ele.expr_type,
                crate::relational::name_view(ele.name),
                rast,
            )
            &&& forall|i: int, j: int|
                0 <= i < j < emitted_tables(rast).len() ==> emitted_tables(rast)[i]
                    != emitted_tables(rast)[j]
            &&& forall|i: int|
                0 <= i < emitted_tables(rast).len() ==> #[trigger] emitted_tables(rast)[i]
                    != "storage"@
            &&& forall|i: int, j: int|
                0 <= i < j < emitted_cols(rast).len() ==> emitted_cols(rast)[i] != emitted_cols(
                    rast,
                )[j]
            &&& crate::relational::tables_linked(emitted_tables(rast), "storage"@)
            &&& crate::relational::cols_located(
                emitted_cols(rast),
                "storage"@,
                emitted_tables(rast),
            )
            &&& (match ele.expr_type {
                crate::typing::ExprTy::ComplexExprTy(
                    crate::typing::ComplexExprTy::OrEnumeration(l, rgt),
                ) => (l.expr_type == crate::typing::ExprTy::SimpleExprTy(
                    crate::typing::SimpleExprTy::Unit,
                ) && rgt.expr_type == crate::typing::ExprTy::SimpleExprTy(
                    crate::typing::SimpleExprTy::Unit,
                )) ==> crate::relational::unit_or_shape(rast, "storage"@, *l, *rgt),
                _ => true,
            })
        }),
{
    let storage_def = match node_cli.get_contract_storage_definition(contract_address) {
        Ok(e) => e,
        Err(e) => {
            return Err(e);
        },
    };
    if !crate::relational::ele_annots_dot_free(&storage_def) {
        return Err(Error::Schema(crate::relational::SchemaError::DottedAnnotation));
    }
    let ctx = Context::init();
    let mut builder = ASTBuilder::new();
    let ghost b0 = builder;
    let res = builder.build_relational_ast(&ctx, &storage_def);
    match res {
        Ok(rast) => {
            proof {
                crate::relational::lemma_storage_dot_free();
                crate::relational::lemma_schema_names_unique(b0, builder, ctx, rast);
                reveal_strlit("");
                assert(ctx.prefix_view() =~= Seq::<char>::empty());
            }
            Ok(rast)
        },
        Err(e) => Err(Error::Schema(e)),
    }
}

/// The ingestion orchestrator.
pub struct Executor {
    node_cli: NodeClient,
    dbcli: DBClient,
    contracts: Vec<(ContractID, RelationalAST, Option<u32>)>,
    all_contracts: bool,
    level_floor: LevelFloor,
    db_url: String,
    db_ssl: bool,
    db_ca_cert: Option<String>,
}

impl Executor {
    /// The registered contracts, in registration order.
    pub closed spec fn registry(self) -> Seq<ContractInfo> {
        self.contracts@.map_values(
            |e: (ContractID, RelationalAST, Option<u32>)| contract_entry_info(e),
        )
    }

    /// The names of the registered contracts.
    pub open spec fn registry_names(self) -> Seq<Seq<char>> {
        self.registry().map_values(|c: ContractInfo| c.name)
    }

    /// The addresses of the registered contracts.
    pub open spec fn registry_addrs(self) -> Seq<Seq<char>> {
        self.registry().map_values(|c: ContractInfo| c.address)
    }

    /// The stored schema trees, in registration order.
    pub closed spec fn registry_rasts(self) -> Seq<RelationalAST> {
        self.contracts@.map_values(|e: (ContractID, RelationalAST, Option<u32>)| e.1)
    }

    /// The sink's state.
    pub closed spec fn db_view(self) -> DbView {
        self.dbcli.db()
    }

    /// The node's chain.
    pub closed spec fn node_chain(self) -> Seq<crate::block::BlockInfo> {
        self.node_cli.chain_view()
    }

    /// The node's scripts.
    pub closed spec fn node_scripts(self) -> Seq<(Seq<char>, Ele)> {
        self.node_cli.scripts_view()
    }

    /// Every level fetched from the node so far, in order.
    pub closed spec fn fetched(self) -> Seq<u32> {
        self.node_cli.fetched()
    }

    /// The current level floor.
    pub closed spec fn floor(self) -> u32 {
        self.level_floor.floor()
    }

    /// Whether every active contract is indexed, not only the configured
    /// ones.
    pub closed spec fn is_all(self) -> bool {
        self.all_contracts
    }

    /// A fresh executor over a node and a sink: nothing registered, floor 0.
    pub fn new(
        node_cli: NodeClient,
        dbcli: DBClient,
        db_url: &str,
        db_ssl: bool,
        db_ca_cert: Option<String>,
    ) -> (r: Self)
        ensures
            r.registry() == Seq::<ContractInfo>::empty(),
            !r.is_all(),
            r.floor() == 0,
            r.node_chain() == node_cli.chain_view(),
            r.node_scripts() == node_cli.scripts_view(),
            r.fetched() == node_cli.fetched(),
            r.db_view() == dbcli.db(),
    {
        let r = Executor {
            node_cli,
            dbcli,
            contracts: Vec::new(),
            all_contracts: false,
            level_floor: LevelFloor { f: 0 },
            db_url: String::from_str(db_url),
            db_ssl,
            db_ca_cert,
        };
        proof {
            assert(r.registry() =~= Seq::<ContractInfo>::empty());
        }
        r
    }

    /// Switches to indexing every contract the chain shows activity for.
    pub fn index_all_contracts(&mut self)
        ensures
            final(self).is_all(),
            final(self).registry() == old(self).registry(),
            final(self).db_view() == old(self).db_view(),
            final(self).fetched() == old(self).fetched(),
    {
        self.all_contracts = true;
    }

    /// The levels fetched from the node so far.
    pub fn fetched_levels(&self) -> (r: Vec<u32>)
        ensures
            r@ == self.fetched(),
    {
        self.node_cli.fetched_levels()
    }

    /// Recomputes the shared floor as the minimum of the registered floors;
    /// in all-contracts mode the floor stays put.
    fn update_level_floor(&mut self)
        ensures
            final(self).is_all() == old(self).is_all(),
            final(self).registry() == old(self).registry(),
            final(self).registry_rasts() == old(self).registry_rasts(),
            final(self).db_view() == old(self).db_view(),
            final(self).fetched() == old(self).fetched(),
            final(self).node_chain() == old(self).node_chain(),
            final(self).node_scripts() == old(self).node_scripts(),
            old(self).is_all() ==> final(self).floor() == old(self).floor(),
            !old(self).is_all() ==> final(self).floor() == floors_min(old(self).registry()),
    {
        if self.all_contracts {
            return ;
        }
        let ghost tr = self.registry();
        let n = self.contracts.len();
        let mut floor: u32 = 0;
        let mut i: usize = 0;
        while i < n
            invariant
                i <= n,
                n == self.contracts.len(),
                tr == self.registry(),
                floor == floors_min(tr.take(i as int)),
            decreases n - i,
        {
            proof {
                assert(tr.take(i + 1).drop_last() =~= tr.take(i as int));
                assert(tr.take(i + 1).last() == tr[i as int]);
            }
            let own = match self.contracts[i].2 {
                Some(f) => f,
                None => 0,
            };
            if i == 0 {
                floor = own;
            } else if own < floor {
                floor = own;
            }
            i = i + 1;
        }
        proof {
            assert(tr.take(n as int) =~= tr);
        }
        self.level_floor.set(floor);
    }

    /// Registers a contract: derives its schema from the node's script and
    /// loads its origination floor from the sink.
    pub fn add_contract(&mut self, contract_id: &ContractID) -> (r: Result<(), Error>)
        ensures
            final(self).is_all() == old(self).is_all(),
            final(self).db_view() == old(self).db_view(),
            final(self).fetched() == old(self).fetched(),
            final(self).node_chain() == old(self).node_chain(),
            final(self).node_scripts() == old(self).node_scripts(),
            (old(self).is_all() || r is Err) ==> final(self).floor() == old(self).floor(),
            (!old(self).is_all() && r is Ok) ==> final(self).floor() == floors_min(
                final(self).registry(),
            ),
            (r is Ok <==> (find_script(
                old(self).node_scripts(),
                contract_id.address@,
            ) matches Some(ele) && crate::relational::rast_ok(ele.expr_type) && annots_dot_free(
                ele,
            ))),
            (r is Ok ==> final(self).registry() == upsert(
                old(self).registry(),
                ContractInfo {
                    name: contract_id.name@,
                    address: contract_id.address@,
                    floor: orig_of(old(self).db_view().originations, contract_id.name@),
                },
            )),
            (r is Ok ==> exists|j: int|
                {
                    &&& 0 <= j < final(self).registry().len()
                    &&& (#[trigger] final(self).registry()[j]).name == contract_id.name@
                    &&& final(self).registry()[j].address == contract_id.address@
                    &&& crate::relational::builds(
                        Seq::<Seq<char>>::empty(),
                        Seq::<(Seq<char>, Seq<char>)>::empty(),
                        "storage"@,
                        Seq::<char>::empty(),
                        find_script(
                            old(self).node_scripts(),
                            contract_id.address@,
                        )->Some_0.expr_type,
                        crate::relational::name_view(
                            find_script(old(self).node_scripts(), contract_id.address@)->Some_0.name,
                        ),
                        final(self).registry_rasts()[j],
                    )
                }),
            (r is Err ==> final(self).registry() == old(self).registry()),
            (r matches Err(e) ==> (e == Error::ScriptMissing || e matches Error::Schema(_))),
            forall|n: Seq<char>|
                old(self).registry_names().contains(n) ==> final(self).registry_names().contains(
                    n,
                ),
            (r is Ok ==> exists|j: int|
                0 <= j < final(self).registry().len() && (#[trigger] final(self).registry()[j]).name
                    == contract_id.name@ && final(self).registry()[j].address
                    == contract_id.address@),
    {
        let rel_ast = match get_rel_ast(&self.node_cli, &contract_id.address) {
            Ok(a) => a,
            Err(e) => {
                return Err(e);
            },
        };
        let ghost rg = rel_ast;
        let contract_floor = self.dbcli.get_origination(contract_id);
        let ghost tr = self.registry();
        let ghost info = ContractInfo {
            name: contract_id.name@,
            address: contract_id.address@,
            floor: contract_floor,
        };
        match self.find_contract(contract_id) {
            Some(i) => {
                self.contracts.set(i, (contract_id.clone(), rel_ast, contract_floor));
                proof {
                    assert(self.registry() =~= tr.update(i as int, info));
                    lemma_upsert_at(tr, info, i as int);
                    assert(self.contracts@[i as int].1 == rg);
                    assert(self.registry_rasts()[i as int] == rg);
                    assert(self.registry()[i as int].name == contract_id.name@);
                    assert(self.registry()[i as int].address == contract_id.address@);
                    assert forall|n2: Seq<char>|
                        old(self).registry_names().contains(n2) implies self.registry_names(
                    ).contains(n2) by {
                        let k = choose|k: int|
                            0 <= k < old(self).registry_names().len() && #[trigger] old(
                                self,
                            ).registry_names()[k] == n2;
                        assert(tr[k].name == n2);
                        lemma_upsert_keeps_names(tr, info, n2);
                        let m = choose|m: int|
                            0 <= m < self.registry().len() && (#[trigger] self.registry()[m]).name
                                == n2;
                        assert(self.registry_names()[m] == n2);
                    }
                }
                self.update_level_floor();
                Ok(())
            },
            None => {
                let ghost n = self.contracts@.len();
                self.contracts.push((contract_id.clone(), rel_ast, contract_floor));
                proof {
                    assert(self.registry() =~= tr.push(info));
                    lemma_upsert_absent(tr, info);
                    assert(self.contracts@[n as int].1 == rg);
                    assert(self.registry_rasts()[n as int] == rg);
                    assert(self.registry()[n as int].name == contract_id.name@);
                    assert(self.registry()[n as int].address == contract_id.address@);
                    assert forall|n2: Seq<char>|
                        old(self).registry_names().contains(n2) implies self.registry_names(
                    ).contains(n2) by {
                        let k = choose|k: int|
                            0 <= k < old(self).registry_names().len() && #[trigger] old(
                                self,
                            ).registry_names()[k] == n2;
                        assert(tr[k].name == n2);
                        lemma_upsert_keeps_names(tr, info, n2);
                        let m = choose|m: int|
                            0 <= m < self.registry().len() && (#[trigger] self.registry()[m]).name
                                == n2;
                        assert(self.registry_names()[m] == n2);
                    }
                }
                self.update_level_floor();
                Ok(())
            },
        }
    }

    /// Registers contracts and creates their schemas in the sink.  On
    /// success every given contract is registered and its schema exists.
    pub fn add_missing_contracts(&mut self, contracts: &Vec<ContractID>) -> (r: Result<(), Error>)
        ensures
            final(self).is_all() == old(self).is_all(),
            final(self).fetched() == old(self).fetched(),
            final(self).node_chain() == old(self).node_chain(),
            final(self).node_scripts() == old(self).node_scripts(),
            final(self).db_view().levels == old(self).db_view().levels,
            final(self).db_view().contract_levels == old(self).db_view().contract_levels,
            final(self).db_view().originations == old(self).db_view().originations,
            (r matches Err(e) ==> (e == Error::ScriptMissing || e matches Error::Schema(_))),
            (r is Ok <==> forall|j: int|
                0 <= j < contracts@.len() ==> (find_script(
                    old(self).node_scripts(),
                    (#[trigger] contracts@[j]).address@,
                ) matches Some(ele) && crate::relational::rast_ok(ele.expr_type)
                    && annots_dot_free(ele))),
            (r is Ok ==> forall|j: int|
                0 <= j < contracts@.len() ==> final(self).registry_names().contains(
                    (#[trigger] contracts@[j]).name@,
                ) && final(self).db_view().schemas.contains(contracts@[j].name@)),
            forall|n2: Seq<char>|
                #[trigger] old(self).registry_names().contains(n2)
                    ==> final(self).registry_names().contains(n2),
            forall|s2: Seq<char>|
                #[trigger] old(self).db_view().schemas.contains(s2)
                    ==> final(self).db_view().schemas.contains(s2),
            final(self).db_view().derived_rebuilds == old(self).db_view().derived_rebuilds,
            final(self).db_view().max_id == old(self).db_view().max_id,
            final(self).db_view().tx_contexts == old(self).db_view().tx_contexts,
    {
        let n = contracts.len();
        let mut i: usize = 0;
        while i < n
            invariant
                i <= n,
                n == contracts.len(),
                self.is_all() == old(self).is_all(),
                self.fetched() == old(self).fetched(),
                self.node_chain() == old(self).node_chain(),
                self.node_scripts() == old(self).node_scripts(),
                self.db_view().levels == old(self).db_view().levels,
                self.db_view().contract_levels == old(self).db_view().contract_levels,
                self.db_view().originations == old(self).db_view().originations,
                self.db_view().derived_rebuilds == old(self).db_view().derived_rebuilds,
                self.db_view().max_id == old(self).db_view().max_id,
                self.db_view().tx_contexts == old(self).db_view().tx_contexts,
                forall|n2: Seq<char>|
                    old(self).registry_names().contains(n2) ==> self.registry_names().contains(n2),
                forall|s2: Seq<char>|
                    old(self).db_view().schemas.contains(s2) ==> self.db_view().schemas.contains(
                        s2,
                    ),
                forall|j: int|
                    0 <= j < i ==> (find_script(
                        old(self).node_scripts(),
                        (#[trigger] contracts@[j]).address@,
                    ) matches Some(ele) && crate::relational::rast_ok(ele.expr_type)
                        && annots_dot_free(ele)),
                forall|j: int|
                    0 <= j < i ==> (exists|k: int|
                        0 <= k < self.registry().len() && (#[trigger] self.registry()[k]).name == (
                        #[trigger] contracts@[j]).name@) && self.db_view().schemas.contains(
                        contracts@[j].name@,
                    ),
            decreases n - i,
        {
            let ghost pre_reg = self.registry();
            match self.add_contract(&contracts[i]) {
                Ok(()) => {},
                Err(e) => {
                    proof {
                        assert(match find_script(
                            old(self).node_scripts(),
                            contracts@[i as int].address@,
                        ) {
                            Some(ele) => !(crate::relational::rast_ok(ele.expr_type)
                                && annots_dot_free(ele)),
                            None => true,
                        });
                    }
                    return Err(e);
                },
            }
            proof {
                let info = ContractInfo {
                    name: contracts@[i as int].name@,
                    address: contracts@[i as int].address@,
                    floor: orig_of(self.db_view().originations, contracts@[i as int].name@),
                };
                assert forall|j: int| 0 <= j < i + 1 implies (exists|k: int|
                    0 <= k < self.registry().len() && (#[trigger] self.registry()[k]).name == (
                    #[trigger] contracts@[j]).name@) by {
                    lemma_upsert_keeps_names(pre_reg, info, contracts@[j].name@);
                }
            }
            let idx = match self.find_contract(&contracts[i]) {
                Some(j) => j,
                None => {
                    proof {
                        assert(false);
                    }
                    return Err(Error::UnknownContract);
                },
            };
            let ghost pre_schemas = self.db_view().schemas;
            let created = self.dbcli.create_contract_schema(
                &self.contracts[idx].0,
                &self.contracts[idx].1,
            );
            proof {
                assert(self.registry()[idx as int] == contract_entry_info(
                    self.contracts@[idx as int],
                ));
                assert(self.contracts@[idx as int].0.name@ == contracts@[i as int].name@);
                if created {
                    assert(self.db_view().schemas[pre_schemas.len() as int] == contracts@[i
                        as int].name@);
                    assert forall|s: Seq<char>| pre_schemas.contains(s) implies self.db_view(
                    ).schemas.contains(s) by {
                        let j = choose|j: int| 0 <= j < pre_schemas.len() && pre_schemas[j] == s;
                        assert(self.db_view().schemas[j] == s);
                    }
                } else {
                    assert(self.db_view().schemas.contains(contracts@[i as int].name@));
                }
            }
            i = i + 1;
        }
        proof {
            assert forall|j: int| 0 <= j < n implies self.registry_names().contains(
                (#[trigger] contracts@[j]).name@,
            ) by {
                let k = choose|k: int|
                    0 <= k < self.registry().len() && (#[trigger] self.registry()[k]).name
                        == contracts@[j].name@;
                assert(self.registry_names()[k] == contracts@[j].name@);
            }
        }
        Ok(())
    }

    /// The registry index of `contract_id`, when registered.
    fn find_contract(&self, contract_id: &ContractID) -> (r: Option<usize>)
        ensures
            match r {
                Some(j) => j < self.registry().len() && self.registry()[j as int].name
                    == contract_id.name@ && self.registry()[j as int].address
                    == contract_id.address@ && forall|k: int|
                    0 <= k < j ==> !((#[trigger] self.registry()[k]).name == contract_id.name@
                        && self.registry()[k].address == contract_id.address@),
                None => forall|j: int|
                    0 <= j < self.registry().len() ==> !((#[trigger] self.registry()[j]).name
                        == contract_id.name@ && self.registry()[j].address
                        == contract_id.address@),
            },
    {
        let ghost tr = self.registry();
        let n = self.contracts.len();
        let mut i: usize = 0;
        while i < n
            invariant
                i <= n,
                n == self.contracts.len(),
                tr == self.registry(),
                forall|j: int|
                    0 <= j < i ==> !((#[trigger] tr[j]).name == contract_id.name@ && tr[j].address
                        == contract_id.address@),
            decreases n - i,
        {
            if self.contracts[i].0.name.eq(&contract_id.name) && self.contracts[i].0.address.eq(
                &contract_id.address,
            ) {
                proof {
                    assert(tr[i as int].name == contract_id.name@);
                }
                return Some(i);
            }
            i = i + 1;
        }
        None
    }

    /// Creates the schema of every registered contract in the sink; returns
    /// the contracts whose schemas were new.  On return every registered
    /// contract's schema exists, and the returned contracts are exactly
    /// those whose schemas did not exist before.
    pub fn create_contract_schemas(&mut self) -> (r: Result<Vec<ContractID>, Error>)
        ensures
            final(self).is_all() == old(self).is_all(),
            final(self).registry() == old(self).registry(),
            final(self).fetched() == old(self).fetched(),
            final(self).node_chain() == old(self).node_chain(),
            final(self).node_scripts() == old(self).node_scripts(),
            final(self).floor() == old(self).floor(),
            final(self).db_view().levels == old(self).db_view().levels,
            final(self).db_view().contract_levels == old(self).db_view().contract_levels,
            final(self).db_view().originations == old(self).db_view().originations,
            r matches Ok(new) ==> final(self).db_view().schemas.len() == old(
                self,
            ).db_view().schemas.len() + new@.len(),
            r matches Ok(new) ==> {
                &&& forall|j: int|
                    0 <= j < final(self).registry().len()
                        ==> final(self).db_view().schemas.contains(
                        (#[trigger] final(self).registry()[j]).name,
                    )
                &&& forall|j: int|
                    0 <= j < new@.len() ==> !old(self).db_view().schemas.contains(
                        (#[trigger] new@[j]).name@,
                    ) && final(self).registry_names().contains(new@[j].name@)
                &&& forall|s: Seq<char>|
                    final(self).db_view().schemas.contains(s) <==> (old(
                        self,
                    ).db_view().schemas.contains(s) || crate::db::contract_names(new@).contains(s))
            },
            forall|s: Seq<char>|
                old(self).db_view().schemas.contains(s) ==> final(self).db_view().schemas.contains(
                    s,
                ),
            r is Ok,
            ((forall|j: int|
                0 <= j < old(self).registry().len() ==> old(self).db_view().schemas.contains(
                    (#[trigger] old(self).registry()[j]).name,
                )) ==> r->Ok_0@.len() == 0),
    {
        let ghost tr = self.registry();
        let mut new_contracts: Vec<ContractID> = Vec::new();
        let n = self.contracts.len();
        let mut i: usize = 0;
        while i < n
            invariant
                i <= n,
                n == self.contracts.len(),
                tr == self.registry(),
                self.registry() == old(self).registry(),
                self.is_all() == old(self).is_all(),
                self.fetched() == old(self).fetched(),
                self.node_chain() == old(self).node_chain(),
                self.node_scripts() == old(self).node_scripts(),
                self.floor() == old(self).floor(),
                self.db_view().levels == old(self).db_view().levels,
                self.db_view().contract_levels == old(self).db_view().contract_levels,
                self.db_view().originations == old(self).db_view().originations,
                self.db_view().schemas.len() == old(self).db_view().schemas.len()
                    + new_contracts@.len(),
                forall|s: Seq<char>|
                    old(self).db_view().schemas.contains(s) ==> self.db_view().schemas.contains(s),
                forall|j: int|
                    0 <= j < i ==> self.db_view().schemas.contains((#[trigger] tr[j]).name),
                forall|j: int|
                    0 <= j < new_contracts@.len() ==> !old(self).db_view().schemas.contains(
                        (#[trigger] new_contracts@[j]).name@,
                    ) && self.registry_names().contains(new_contracts@[j].name@)
                        && self.db_view().schemas.contains(new_contracts@[j].name@),
                forall|s: Seq<char>|
                    self.db_view().schemas.contains(s) <==> (old(self).db_view().schemas.contains(
                        s,
                    ) || crate::db::contract_names(new_contracts@).contains(s)),
                ((forall|j: int|
                    0 <= j < tr.len() ==> old(self).db_view().schemas.contains(
                        (#[trigger] tr[j]).name,
                    )) ==> new_contracts@.len() == 0),
            decreases n - i,
        {
            let ghost pre = self.db_view().schemas;
            proof {
                assert(self.registry()[i as int] == contract_entry_info(self.contracts@[i as int]));
            }
            let cid = self.contracts[i].0.clone();
            let created = self.dbcli.create_contract_schema(&cid, &self.contracts[i].1);
            proof {
                if created {
                    assert(self.db_view().schemas == pre.push(cid.name@));
                    assert(self.db_view().schemas.last() == cid.name@);
                    assert forall|s: Seq<char>| pre.contains(s) implies self.db_view(
                    ).schemas.contains(s) by {
                        let j = choose|j: int| 0 <= j < pre.len() && pre[j] == s;
                        assert(self.db_view().schemas[j] == s);
                    }
                    assert(self.registry_names()[i as int] == tr[i as int].name);
                } else {
                    assert(self.db_view().schemas.contains(cid.name@));
                }
            }
            let ghost prev_new = new_contracts@;
            if created {
                new_contracts.push(cid);
            }
            proof {
                if created {
                    assert(new_contracts@ =~= prev_new.push(
                        new_contracts@[prev_new.len() as int],
                    ));
                    assert(new_contracts@[prev_new.len() as int].name@ == cid.name@);
                    assert forall|s: Seq<char>|
                        self.db_view().schemas.contains(s) <==> (old(
                        self,
                    ).db_view().schemas.contains(s) || crate::db::contract_names(
                        new_contracts@,
                    ).contains(s)) by {
                        let names1 = crate::db::contract_names(new_contracts@);
                        let names0 = crate::db::contract_names(prev_new);
                        assert(names1 =~= names0.push(cid.name@));
                        assert(pre.contains(s) <==> (old(self).db_view().schemas.contains(s)
                            || names0.contains(s)));
                        assert(names1[prev_new.len() as int] == cid.name@);
                        if self.db_view().schemas.contains(s) {
                            let j = choose|j: int|
                                0 <= j < self.db_view().schemas.len()
                                    && self.db_view().schemas[j] == s;
                            if j < pre.len() {
                                assert(pre[j] == s);
                                assert(pre.contains(s));
                                if !old(self).db_view().schemas.contains(s) {
                                    let k = choose|k: int|
                                        0 <= k < names0.len() && #[trigger] names0[k] == s;
                                    assert(names1[k] == s);
                                }
                            } else {
                                assert(s == cid.name@);
                                assert(names1[prev_new.len() as int] == s);
                            }
                        }
                        if old(self).db_view().schemas.contains(s) {
                            assert(pre.contains(s));
                            let j = choose|j: int| 0 <= j < pre.len() && pre[j] == s;
                            assert(self.db_view().schemas[j] == s);
                        }
                        if names1.contains(s) {
                            let k = choose|k: int|
                                0 <= k < names1.len() && #[trigger] names1[k] == s;
                            if k < prev_new.len() {
                                assert(names0[k] == s);
                                assert(names0.contains(s));
                                assert(pre.contains(s));
                                let j = choose|j: int| 0 <= j < pre.len() && pre[j] == s;
                                assert(self.db_view().schemas[j] == s);
                            } else {
                                assert(s == cid.name@);
                                assert(self.db_view().schemas.last() == s);
                            }
                        }
                    }
                }
            }
            i = i + 1;
        }
        Ok(new_contracts)
    }

    /// The derived schema of a registered contract.
    pub fn get_contract_rel_ast(&self, contract_id: &ContractID) -> (r: Option<&RelationalAST>)
        ensures
            r is Some <==> exists|j: int|
                0 <= j < self.registry().len() && (#[trigger] self.registry()[j]).name
                    == contract_id.name@ && self.registry()[j].address == contract_id.address@,
            (r matches Some(rast) ==> exists|j: int|
                0 <= j < self.registry().len() && (#[trigger] self.registry()[j]).name
                    == contract_id.name@ && self.registry()[j].address == contract_id.address@
                    && *rast == self.registry_rasts()[j]),
    {
        match self.find_contract(contract_id) {
            Some(j) => {
                proof {
                    assert(self.registry()[j as int].name == contract_id.name@);
                    assert(self.registry_rasts()[j as int] == self.contracts@[j as int].1);
                }
                Some(&self.contracts[j].1)
            },
            None => None,
        }
    }

    /// The registered contracts, as configured.
    pub fn get_config(&self) -> (r: Vec<ContractID>)
        ensures
            r@.len() == self.registry().len(),
            forall|j: int|
                0 <= j < r@.len() ==> (#[trigger] r@[j]).name@ == self.registry()[j].name
                    && r@[j].address@ == self.registry()[j].address,
    {
        let ghost tr = self.registry();
        let mut out: Vec<ContractID> = Vec::new();
        let n = self.contracts.len();
        let mut i: usize = 0;
        while i < n
            invariant
                i <= n,
                n == self.contracts.len(),
                tr == self.registry(),
                out@.len() == i,
                forall|j: int|
                    0 <= j < i ==> (#[trigger] out@[j]).name@ == tr[j].name && out@[j].address@
                        == tr[j].address,
            decreases n - i,
        {
            out.push(self.contracts[i].0.clone());
            i = i + 1;
        }
        out
    }
}

/// `upsert` at a found index is an update.
proof fn lemma_upsert_at(s: Seq<ContractInfo>, c: ContractInfo, i: int)
    requires
        0 <= i < s.len(),
        s[i].name == c.name && s[i].address == c.address,
        forall|j: int| 0 <= j < i ==> !((#[trigger] s[j]).name == c.name && s[j].address == c.address),
    ensures
        upsert(s, c) == s.update(i, c),
    decreases s.len(),
{
    if i == 0 {
        assert(upsert(s, c) == seq![c] + s.drop_first());
        assert(seq![c] + s.drop_first() =~= s.update(0, c));
    } else {
        assert(s.drop_first()[i - 1] == s[i]);
        assert forall|j: int|
            0 <= j < i - 1 implies !((#[trigger] s.drop_first()[j]).name == c.name
            && s.drop_first()[j].address == c.address) by {
            assert(s.drop_first()[j] == s[j + 1]);
        }
        lemma_upsert_at(s.drop_first(), c, i - 1);
        assert(upsert(s, c) == seq![s.first()] + upsert(s.drop_first(), c));
        assert(seq![s.first()] + s.drop_first().update(i - 1, c) =~= s.update(i, c));
    }
}

/// `upsert` of an absent key is a push.
proof fn lemma_upsert_absent(s: Seq<ContractInfo>, c: ContractInfo)
    requires
        forall|j: int|
            0 <= j < s.len() ==> !((#[trigger] s[j]).name == c.name && s[j].address == c.address),
    ensures
        upsert(s, c) == s.push(c),
    decreases s.len(),
{
    if s.len() == 0 {
        assert(upsert(s, c) =~= s.push(c));
    } else {
        assert forall|j: int|
            0 <= j < s.drop_first().len() implies !((#[trigger] s.drop_first()[j]).name == c.name
            && s.drop_first()[j].address == c.address) by {
            assert(s.drop_first()[j] == s[j + 1]);
        }
        lemma_upsert_absent(s.drop_first(), c);
        assert(upsert(s, c) == seq![s.first()] + s.drop_first().push(c));
        assert(seq![s.first()] + s.drop_first().push(c) =~= s.push(c));
    }
}

/// The stored predecessor's hash, if any, agrees with `prev_hash`.
pub open spec fn prev_ok(v: DbView, level: u32, prev_hash: Seq<char>) -> bool {
    match find_level(v.levels, (level - 1) as u32) {
        Some(p) => match p.hash {
            Some(h) => h == prev_hash,
            None => true,
        },
        None => true,
    }
}

/// The stored successor's predecessor hash, if any, agrees with `hash`.
pub open spec fn next_ok(v: DbView, level: u32, hash: Seq<char>) -> bool {
    match find_level(v.levels, (level + 1) as u32) {
        Some(nx) => match nx.prev_hash {
            Some(ph) => ph == hash,
            None => true,
        },
        None => true,
    }
}

impl Executor {
    /// Checks the hash chain around `level` against the stored neighbours:
    /// the predecessor's hash against `prev_hash`, then the successor's
    /// recorded predecessor hash against `hash`.  A mismatch names the
    /// offending stored level.
    pub fn ensure_level_hash(&self, level: u32, hash: &String, prev_hash: &String) -> (r: Result<
        (),
        Error,
    >)
        requires
            1 <= level < u32::MAX,
        ensures
            match r {
                Ok(()) => prev_ok(self.db_view(), level, prev_hash@) && next_ok(
                    self.db_view(),
                    level,
                    hash@,
                ),
                Err(e) => match e {
                    Error::LevelHash(b) => (b.level == level - 1 && !prev_ok(
                        self.db_view(),
                        level,
                        prev_hash@,
                    )) || (b.level == level + 1 && prev_ok(self.db_view(), level, prev_hash@)
                        && !next_ok(self.db_view(), level, hash@)),
                    _ => false,
                },
            },
    {
        match self.dbcli.get_level(level - 1) {
            Some(prev) => match &prev.hash {
                Some(db_prev_hash) => {
                    if !db_prev_hash.eq(prev_hash) {
                        return Err(Error::LevelHash(BadLevelHash { level: level - 1 }));
                    }
                },
                None => {},
            },
            None => {},
        }
        match self.dbcli.get_level(level + 1) {
            Some(next) => match &next.prev_hash {
                Some(db_next_prev_hash) => {
                    if !db_next_prev_hash.eq(hash) {
                        return Err(Error::LevelHash(BadLevelHash { level: level + 1 }));
                    }
                },
                None => {},
            },
            None => {},
        }
        Ok(())
    }

    /// A processor starting from the sink's id counter.
    pub fn get_storage_processor(&self) -> (r: Result<StorageProcessor, Error>)
        ensures
            match r {
                Ok(sp) => sp.id_view() == self.db_view().max_id + 1 && self.db_view().max_id
                    < u32::MAX,
                Err(e) => e == Error::IdSpace && self.db_view().max_id == u32::MAX,
            },
    {
        let id = self.dbcli.get_max_id();
        if id == u32::MAX {
            return Err(Error::IdSpace);
        }
        Ok(StorageProcessor::new(id))
    }

    /// Marks a level as seen but empty for a contract.
    fn mark_level_empty(dbcli: &mut DBClient, meta: &LevelMeta, contract_id: &ContractID)
        ensures
            has_contract_level(final(dbcli).db().contract_levels, contract_id.name@, meta.level),
            forall|n2: Seq<char>, l2: u32|
                (n2, l2) != (contract_id.name@, meta.level) ==> has_contract_level(
                    final(dbcli).db().contract_levels,
                    n2,
                    l2,
                ) == has_contract_level(old(dbcli).db().contract_levels, n2, l2),
            final(dbcli).db() == (DbView {
                contract_levels: final(dbcli).db().contract_levels,
                ..old(dbcli).db()
            }),
    {
        let ghost pre = dbcli.db().contract_levels;
        dbcli.delete_contract_level(contract_id, meta.level);
        let ghost mid = dbcli.db().contract_levels;
        dbcli.save_contract_level(contract_id, meta.level);
        proof {
            crate::db::lemma_cls_without(pre, contract_id.name@, meta.level);
            crate::db::lemma_has_push_iff(mid, contract_id.name@, meta.level);
        }
    }

    /// Marks a level as the contract's origination.
    fn mark_level_contract_origination(
        dbcli: &mut DBClient,
        meta: &LevelMeta,
        contract_id: &ContractID,
    )
        ensures
            orig_of(final(dbcli).db().originations, contract_id.name@) == Some(meta.level),
            forall|n2: Seq<char>|
                n2 != contract_id.name@ ==> orig_of(final(dbcli).db().originations, n2) == orig_of(
                    old(dbcli).db().originations,
                    n2,
                ),
            final(dbcli).db() == (DbView {
                originations: final(dbcli).db().originations,
                ..old(dbcli).db()
            }),
    {
        let ghost pre = dbcli.db().originations;
        dbcli.set_origination(contract_id, meta.level);
        proof {
            assert forall|n2: Seq<char>|
                n2 != contract_id.name@ implies orig_of(dbcli.db().originations, n2) == orig_of(
                pre,
                n2,
            ) by {
                assert(dbcli.db().originations.drop_last() =~= pre);
            }
        }
    }

    /// Persists one processed block for one contract: its level row, its
    /// transaction contexts, its inserts, its dependencies and key hashes.
    fn save_level_processed_contract(
        dbcli: &mut DBClient,
        meta: &LevelMeta,
        contract_id: &ContractID,
        inserts: &Vec<crate::block::Insert>,
        tx_contexts: &Vec<crate::block::TxContext>,
        bigmap_contract_deps: &Vec<String>,
        bigmap_keyhashes: Vec<(crate::block::TxContext, i32, String, String)>,
    )
        ensures
            has_contract_level(final(dbcli).db().contract_levels, contract_id.name@, meta.level),
            forall|n2: Seq<char>, l2: u32|
                (n2, l2) != (contract_id.name@, meta.level) ==> has_contract_level(
                    final(dbcli).db().contract_levels,
                    n2,
                    l2,
                ) == has_contract_level(old(dbcli).db().contract_levels, n2, l2),
            final(dbcli).db().levels == old(dbcli).db().levels,
            final(dbcli).db().originations == old(dbcli).db().originations,
            final(dbcli).db().schemas == old(dbcli).db().schemas,
            final(dbcli).db().max_id == old(dbcli).db().max_id,
            final(dbcli).db().derived_rebuilds == old(dbcli).db().derived_rebuilds,
            final(dbcli).db().tx_contexts == old(dbcli).db().tx_contexts + tx_contexts@.map_values(
                |t: crate::block::TxContext| crate::block::tx_ctx_info(t),
            ),
            final(dbcli).db().inserts == old(dbcli).db().inserts + inserts@.map_values(
                |x: crate::block::Insert| (contract_id.name@, crate::block::insert_info(x)),
            ),
            final(dbcli).db().contract_deps == old(dbcli).db().contract_deps
                + bigmap_contract_deps@.map_values(
                |d: String| (meta.level, d@, contract_id.name@),
            ),
            final(dbcli).db().bigmap_keyhashes == old(dbcli).db().bigmap_keyhashes
                + bigmap_keyhashes@.map_values(
                |p: (crate::block::TxContext, i32, String, String)| (
                    crate::block::tx_ctx_info(p.0),
                    p.1,
                    p.2@,
                    p.3@,
                ),
            ),
    {
        let ghost pre = dbcli.db().contract_levels;
        dbcli.delete_contract_level(contract_id, meta.level);
        let ghost mid = dbcli.db().contract_levels;
        dbcli.save_contract_level(contract_id, meta.level);
        proof {
            crate::db::lemma_cls_without(pre, contract_id.name@, meta.level);
            crate::db::lemma_has_push_iff(mid, contract_id.name@, meta.level);
        }
        dbcli.save_tx_contexts(tx_contexts);
        dbcli.apply_inserts(contract_id, inserts);
        dbcli.save_contract_deps(meta.level, contract_id, bigmap_contract_deps);
        dbcli.save_bigmap_keyhashes(bigmap_keyhashes);
    }

    /// Computes one contract's share of a block, persisting nothing: `None`
    /// when the block has neither activity nor an origination for it, else
    /// the origination flag with the parsed inserts, transaction contexts
    /// and dependencies.  Fails exactly when the id space cannot hold the
    /// contract's operations.
    fn compute_for_block_contract(
        block: &Block,
        storage_processor: &mut StorageProcessor,
        contract_id: &ContractID,
    ) -> (r: Result<
        Option<(bool, Vec<crate::block::Insert>, Vec<crate::block::TxContext>, Vec<String>)>,
        Error,
    >)
        ensures
            match r {
                Ok(c) => match c {
                    Some(p) => {
                        &&& p.0 == crate::block::spec_has_origination(
                            block_info(*block),
                            contract_id.address@,
                        )
                        &&& p.2@.len() == crate::block::spec_tx_count(
                            block_info(*block),
                            contract_id.address@,
                        )
                        &&& p.1@.len() == p.2@.len()
                        &&& p.3@.len() == 0
                        &&& final(storage_processor).id_view() == old(
                            storage_processor,
                        ).id_view() + p.2@.len()
                        &&& forall|t: int|
                            0 <= t < p.2@.len() ==> crate::block::tx_ctx_info(
                                #[trigger] p.2@[t],
                            ) == (crate::block::TxCtxInfo {
                                id: (old(storage_processor).id_view() + t) as u32,
                                level: block.level,
                                contract: contract_id.name@,
                            })
                        &&& forall|t: int|
                            0 <= t < p.1@.len() ==> crate::block::insert_info(
                                #[trigger] p.1@[t],
                            ) == (crate::block::InsertInfo {
                                table_name: "storage"@,
                                id: (old(storage_processor).id_view() + t) as u32,
                                tx_context_id: (old(storage_processor).id_view() + t) as u32,
                                level: block.level,
                            })
                    },
                    None => {
                        &&& !crate::block::spec_has_origination(
                            block_info(*block),
                            contract_id.address@,
                        )
                        &&& !crate::block::spec_is_active(block_info(*block), contract_id.address@)
                        &&& crate::block::spec_tx_count(block_info(*block), contract_id.address@)
                            == 0
                        &&& *final(storage_processor) == *old(storage_processor)
                    },
                },
                Err(e) => {
                    &&& e == Error::IdSpace
                    &&& old(storage_processor).id_view() + crate::block::spec_tx_count(
                        block_info(*block),
                        contract_id.address@,
                    ) > u32::MAX
                    &&& *final(storage_processor) == *old(storage_processor)
                },
            },
    {
        let is_origination = block.has_contract_origination(&contract_id.address);
        let is_active = block.is_contract_active(&contract_id.address);
        if !is_origination && !is_active {
            proof {
                crate::block::lemma_inactive_tx_zero(
                    block_info(*block).active,
                    contract_id.address@,
                );
            }
            return Ok(None);
        }
        let processed = match storage_processor.process_block(
            block,
            &contract_id.address,
            &contract_id.name,
        ) {
            Ok(t) => t,
            Err(e) => {
                return Err(e);
            },
        };
        let (inserts, tx_contexts, bigmap_contract_deps) = processed;
        Ok(Some((is_origination, inserts, tx_contexts, bigmap_contract_deps)))
    }

    /// Persists one contract's computed share of a block: an empty share
    /// only marks the level seen; a parsed one is stored with its
    /// transaction contexts and dependencies, and an origination recorded.
    /// This cannot fail: everything fallible happened in the compute pass.
    fn persist_for_block_contract(
        dbcli: &mut DBClient,
        meta: &LevelMeta,
        contract_id: &ContractID,
        computed: &Option<(bool, Vec<crate::block::Insert>, Vec<crate::block::TxContext>, Vec<
            String,
        >)>,
        rel_ast: &RelationalAST,
        update_derived_tables: bool,
    ) -> (slr: SaveLevelResult)
        requires
            (computed matches Some(p) ==> p.2@.len() <= u32::MAX),
        ensures
            slr.level == meta.level,
            slr.contract_id.name@ == contract_id.name@,
            slr.contract_id.address@ == contract_id.address@,
            slr.is_origination == (match computed {
                Some(p) => p.0,
                None => false,
            }),
            slr.tx_count as int == (match computed {
                Some(p) => p.2@.len() as int,
                None => 0int,
            }),
            has_contract_level(final(dbcli).db().contract_levels, contract_id.name@, meta.level),
            forall|n2: Seq<char>, l2: u32|
                (n2, l2) != (contract_id.name@, meta.level) ==> has_contract_level(
                    final(dbcli).db().contract_levels,
                    n2,
                    l2,
                ) == has_contract_level(old(dbcli).db().contract_levels, n2, l2),
            final(dbcli).db().levels == old(dbcli).db().levels,
            final(dbcli).db().schemas == old(dbcli).db().schemas,
            final(dbcli).db().max_id == old(dbcli).db().max_id,
            (!update_derived_tables ==> final(dbcli).db().derived_rebuilds == old(
                dbcli,
            ).db().derived_rebuilds),
            final(dbcli).db().tx_contexts == old(dbcli).db().tx_contexts + (match computed {
                Some(p) => p.2@.map_values(
                    |t: crate::block::TxContext| crate::block::tx_ctx_info(t),
                ),
                None => Seq::<crate::block::TxCtxInfo>::empty(),
            }),
            final(dbcli).db().inserts == old(dbcli).db().inserts + (match computed {
                Some(p) => p.1@.map_values(
                    |x: crate::block::Insert| (contract_id.name@, crate::block::insert_info(x)),
                ),
                None => Seq::<(Seq<char>, crate::block::InsertInfo)>::empty(),
            }),
            (slr.is_origination ==> orig_of(final(dbcli).db().originations, contract_id.name@)
                == Some(meta.level)),
            forall|n2: Seq<char>|
                n2 != contract_id.name@ ==> orig_of(final(dbcli).db().originations, n2) == orig_of(
                    old(dbcli).db().originations,
                    n2,
                ),
            (!slr.is_origination ==> final(dbcli).db().originations == old(
                dbcli,
            ).db().originations),
    {
        match computed {
            None => {
                Self::mark_level_empty(dbcli, meta, contract_id);
                proof {
                    assert(dbcli.db().tx_contexts =~= old(dbcli).db().tx_contexts + Seq::<
                        crate::block::TxCtxInfo,
                    >::empty());
                    assert(dbcli.db().inserts =~= old(dbcli).db().inserts + Seq::<
                        (Seq<char>, crate::block::InsertInfo),
                    >::empty());
                }
                SaveLevelResult {
                    level: meta.level,
                    contract_id: contract_id.clone(),
                    is_origination: false,
                    tx_count: 0,
                }
            },
            Some(p) => {
                let (is_origination, inserts, tx_contexts, bigmap_contract_deps) = p;
                let tx_count_us = tx_contexts.len();
                Self::save_level_processed_contract(
                    dbcli,
                    meta,
                    contract_id,
                    inserts,
                    tx_contexts,
                    bigmap_contract_deps,
                    Vec::new(),
                );
                if update_derived_tables {
                    dbcli.repopulate_derived_tables(contract_id, rel_ast);
                }
                if *is_origination {
                    Self::mark_level_contract_origination(dbcli, meta, contract_id);
                }
                SaveLevelResult {
                    level: meta.level,
                    contract_id: contract_id.clone(),
                    is_origination: *is_origination,
                    tx_count: tx_count_us as u32,
                }
            },
        }
    }
}

/// Every stored level row is exactly the metadata of the node's block at
/// that level: the sink and the chain agree wherever the sink holds a row.
pub open spec fn db_matches_chain(v: DbView, chain: Seq<crate::block::BlockInfo>) -> bool {
    forall|l: u32|
        (#[trigger] find_level(v.levels, l)) matches Some(li) ==> (find_block(chain, l) matches Some(
            b,
        ) && li == crate::node::meta_of(b))
}

/// Adjacent blocks of the chain agree on the predecessor hash.
pub open spec fn chain_linked(chain: Seq<crate::block::BlockInfo>) -> bool {
    forall|l: u32|
        l < u32::MAX ==> (match (find_block(chain, l), #[trigger] find_block(
            chain,
            (l + 1) as u32,
        )) {
            (Some(b1), Some(b2)) => b2.prev_hash == b1.hash,
            _ => true,
        })
}

/// Against a sink aligned with a linked chain, the chain's own block always
/// passes the neighbour checks.
proof fn lemma_aligned_neighbors(
    v: DbView,
    chain: Seq<crate::block::BlockInfo>,
    l: u32,
    b: crate::block::BlockInfo,
)
    requires
        1 <= l < u32::MAX,
        db_matches_chain(v, chain),
        chain_linked(chain),
        find_block(chain, l) == Some(b),
    ensures
        prev_ok(v, l, b.prev_hash),
        next_ok(v, l, b.hash),
{
    match find_level(v.levels, (l - 1) as u32) {
        Some(p) => {
            assert(find_block(chain, (l - 1) as u32) matches Some(b0) && p
                == crate::node::meta_of(b0));
            assert(find_block(chain, ((l - 1) + 1) as u32) == Some(b));
        },
        None => {},
    }
    match find_level(v.levels, (l + 1) as u32) {
        Some(nx) => {
            assert(find_block(chain, (l + 1) as u32) matches Some(b2) && nx
                == crate::node::meta_of(b2));
        },
        None => {},
    }
}

/// The number of row ids a run over `ls` needs: the per-block demand of
/// each level's block, summed (absent blocks counting zero).
pub open spec fn spec_ids_for_levels(
    chain: Seq<crate::block::BlockInfo>,
    addrs: Seq<Seq<char>>,
    ls: Seq<u32>,
) -> int
    decreases ls.len(),
{
    if ls.len() == 0 {
        0int
    } else {
        spec_ids_for_levels(chain, addrs, ls.drop_last()) + (match find_block(chain, ls.last()) {
            Some(b) => spec_ids_for(b, addrs),
            None => 0int,
        })
    }
}

/// The node serves a block for every listed level.
pub open spec fn blocks_available(chain: Seq<crate::block::BlockInfo>, ls: Seq<u32>) -> bool {
    forall|k: int| 0 <= k < ls.len() ==> find_block(chain, #[trigger] ls[k]) is Some
}

/// One more level adds its block's own demand.
proof fn lemma_ids_levels_take_step(
    chain: Seq<crate::block::BlockInfo>,
    addrs: Seq<Seq<char>>,
    ls: Seq<u32>,
    i: int,
)
    requires
        0 <= i < ls.len(),
    ensures
        spec_ids_for_levels(chain, addrs, ls.take(i + 1)) == spec_ids_for_levels(
            chain,
            addrs,
            ls.take(i),
        ) + (match find_block(chain, ls[i]) {
            Some(b) => spec_ids_for(b, addrs),
            None => 0int,
        }),
{
    assert(ls.take(i + 1).drop_last() =~= ls.take(i));
    assert(ls.take(i + 1).last() == ls[i]);
}

/// The level-run demand is never negative.
proof fn lemma_ids_levels_nonneg(
    chain: Seq<crate::block::BlockInfo>,
    addrs: Seq<Seq<char>>,
    ls: Seq<u32>,
)
    ensures
        spec_ids_for_levels(chain, addrs, ls) >= 0,
    decreases ls.len(),
{
    if ls.len() > 0 {
        lemma_ids_levels_nonneg(chain, addrs, ls.drop_last());
        match find_block(chain, ls.last()) {
            Some(b) => {
                lemma_ids_nonneg(b, addrs);
            },
            None => {},
        }
    }
}

/// A prefix of the levels demands no more than all of them.
proof fn lemma_ids_levels_mono(
    chain: Seq<crate::block::BlockInfo>,
    addrs: Seq<Seq<char>>,
    ls: Seq<u32>,
    i: int,
)
    requires
        0 <= i <= ls.len(),
    ensures
        spec_ids_for_levels(chain, addrs, ls.take(i)) <= spec_ids_for_levels(chain, addrs, ls),
    decreases ls.len() - i,
{
    if i == ls.len() {
        assert(ls.take(i) =~= ls);
    } else {
        lemma_ids_levels_take_step(chain, addrs, ls, i);
        match find_block(chain, ls[i]) {
            Some(b) => {
                lemma_ids_nonneg(b, addrs);
            },
            None => {},
        }
        lemma_ids_levels_mono(chain, addrs, ls, i + 1);
    }
}

/// The number of row ids a block needs over the given contract addresses:
/// the sum of its per-contract operation counts.
pub open spec fn spec_ids_for(bi: crate::block::BlockInfo, addrs: Seq<Seq<char>>) -> int
    decreases addrs.len(),
{
    if addrs.len() == 0 {
        0int
    } else {
        spec_ids_for(bi, addrs.drop_last()) + crate::block::spec_tx_count(bi, addrs.last())
    }
}

/// One more address adds its own count.
proof fn lemma_ids_take_step(bi: crate::block::BlockInfo, addrs: Seq<Seq<char>>, i: int)
    requires
        0 <= i < addrs.len(),
    ensures
        spec_ids_for(bi, addrs.take(i + 1)) == spec_ids_for(bi, addrs.take(i))
            + crate::block::spec_tx_count(bi, addrs[i]),
{
    assert(addrs.take(i + 1).drop_last() =~= addrs.take(i));
    assert(addrs.take(i + 1).last() == addrs[i]);
}

/// The id demand is never negative.
proof fn lemma_ids_nonneg(bi: crate::block::BlockInfo, addrs: Seq<Seq<char>>)
    ensures
        spec_ids_for(bi, addrs) >= 0,
    decreases addrs.len(),
{
    if addrs.len() > 0 {
        lemma_ids_nonneg(bi, addrs.drop_last());
    }
}

/// A prefix of the addresses demands no more than all of them.
proof fn lemma_ids_mono(bi: crate::block::BlockInfo, addrs: Seq<Seq<char>>, i: int)
    requires
        0 <= i <= addrs.len(),
    ensures
        spec_ids_for(bi, addrs.take(i)) <= spec_ids_for(bi, addrs),
    decreases addrs.len() - i,
{
    if i == addrs.len() {
        assert(addrs.take(i) =~= addrs);
    } else {
        lemma_ids_take_step(bi, addrs, i);
        lemma_ids_mono(bi, addrs, i + 1);
    }
}

impl Executor {
    /// Persists one block: checks the hash chain against the stored
    /// neighbours, computes every registered contract's share of the block
    /// (in all-contracts mode, first registering the block's active
    /// contracts), and only then writes: the old rows for the level go, the
    /// level row and one row per contract are saved.  The write phase
    /// cannot fail, so a failed call leaves the sink as it was: no partial
    /// block is ever persisted.
    ///
    /// On success outside all-contracts mode the sink carries exactly this
    /// block's effect at this level: the level row, the per-contract rows,
    /// the transaction contexts and inserts with consecutive ids, and the
    /// advanced id counter; nothing else changed at other levels; a
    /// consistent hash chain stays consistent; the results report each
    /// registered contract's origination and operation count in order, each
    /// origination lifts that contract's floor to this level, and the
    /// shared floor is the recomputed minimum.  Success is owed whenever
    /// the neighbours agree on the hash chain and the id space can hold the
    /// block's operations.
    #[verifier::rlimit(100)]
    pub fn exec_for_block(
        &mut self,
        meta: &LevelMeta,
        block: &Block,
        update_derived_tables: bool,
    ) -> (r: Result<Vec<SaveLevelResult>, Error>)
        requires
            1 <= meta.level < u32::MAX,
            meta.level == block.level,
            meta.hash is Some,
            meta.prev_hash is Some,
        ensures
            final(self).is_all() == old(self).is_all(),
            final(self).node_chain() == old(self).node_chain(),
            final(self).node_scripts() == old(self).node_scripts(),
            final(self).fetched() == old(self).fetched(),
            (!old(self).is_all() ==> final(self).registry_names() == old(self).registry_names()),
            (!old(self).is_all() ==> final(self).registry_addrs() == old(self).registry_addrs()),
            forall|n2: Seq<char>|
                #[trigger] old(self).registry_names().contains(n2)
                    ==> final(self).registry_names().contains(n2),
            forall|s2: Seq<char>|
                #[trigger] old(self).db_view().schemas.contains(s2)
                    ==> final(self).db_view().schemas.contains(s2),
            (!update_derived_tables ==> final(self).db_view().derived_rebuilds == old(
                self,
            ).db_view().derived_rebuilds),
            ((!old(self).is_all() && prev_ok(
                old(self).db_view(),
                meta.level,
                meta.prev_hash->Some_0@,
            ) && next_ok(old(self).db_view(), meta.level, meta.hash->Some_0@) && old(
                self,
            ).db_view().max_id + spec_ids_for(block_info(*block), old(self).registry_addrs())
                < u32::MAX) ==> r is Ok),
            match r {
                Ok(res) => {
                    &&& prev_ok(old(self).db_view(), meta.level, meta.prev_hash->Some_0@)
                    &&& next_ok(old(self).db_view(), meta.level, meta.hash->Some_0@)
                    &&& find_level(final(self).db_view().levels, meta.level) == Some(
                        level_info(*meta),
                    )
                    &&& forall|l2: u32|
                        l2 != meta.level ==> find_level(final(self).db_view().levels, l2)
                            == find_level(old(self).db_view().levels, l2)
                    &&& (!old(self).is_all() ==> block_effect(
                        old(self).db_view(),
                        final(self).db_view(),
                        level_info(*meta),
                        old(self).registry_names(),
                    ))
                    &&& (chain_consistent(old(self).db_view().levels) ==> chain_consistent(
                        final(self).db_view().levels,
                    ))
                    &&& (!old(self).is_all() ==> final(self).db_view().schemas == old(
                        self,
                    ).db_view().schemas)
                    &&& (!old(self).is_all() ==> final(self).db_view().max_id as int == old(
                        self,
                    ).db_view().max_id + spec_ids_for(
                        block_info(*block),
                        old(self).registry_addrs(),
                    ))
                    &&& (!old(self).is_all() ==> final(self).db_view().tx_contexts
                        == crate::db::txs_without(old(self).db_view().tx_contexts, meta.level)
                        + spec_block_txs(
                        block_info(*block),
                        old(self).registry_names(),
                        old(self).registry_addrs(),
                        meta.level,
                        old(self).db_view().max_id + 1,
                        old(self).registry().len() as int,
                    ))
                    &&& (!old(self).is_all() ==> final(self).db_view().inserts
                        == crate::db::inserts_without(old(self).db_view().inserts, meta.level)
                        + spec_block_inserts(
                        block_info(*block),
                        old(self).registry_names(),
                        old(self).registry_addrs(),
                        meta.level,
                        old(self).db_view().max_id + 1,
                        old(self).registry().len() as int,
                    ))
                    &&& (!old(self).is_all() ==> {
                        &&& (forall|j: int|
                            0 <= j < old(self).registry().len()
                                && crate::block::spec_has_origination(
                                block_info(*block),
                                (#[trigger] old(self).registry()[j]).address,
                            ) ==> exists|m: int|
                                0 <= m < final(self).registry().len()
                                    && (#[trigger] final(self).registry()[m]).name == old(
                                    self,
                                ).registry()[j].name && final(self).registry()[m].address == old(
                                    self,
                                ).registry()[j].address && final(self).registry()[m].floor == Some(
                                    meta.level,
                                ))
                        &&& ((exists|j: int|
                            0 <= j < old(self).registry().len()
                                && crate::block::spec_has_origination(
                                block_info(*block),
                                (#[trigger] old(self).registry()[j]).address,
                            )) ==> final(self).floor() == floors_min(final(self).registry()))
                        &&& (!(exists|j: int|
                            0 <= j < old(self).registry().len()
                                && crate::block::spec_has_origination(
                                block_info(*block),
                                (#[trigger] old(self).registry()[j]).address,
                            )) ==> (final(self).registry() == old(self).registry()
                            && final(self).floor() == old(self).floor()))
                    })
                    &&& (!old(self).is_all() ==> {
                        &&& res@.len() == old(self).registry().len()
                        &&& forall|j: int|
                            0 <= j < res@.len() ==> {
                                &&& (#[trigger] res@[j]).level == meta.level
                                &&& res@[j].contract_id.name@ == old(self).registry()[j].name
                                &&& res@[j].contract_id.address@ == old(self).registry()[j].address
                                &&& res@[j].is_origination == crate::block::spec_has_origination(
                                    block_info(*block),
                                    old(self).registry()[j].address,
                                )
                                &&& res@[j].tx_count == crate::block::spec_tx_count(
                                    block_info(*block),
                                    old(self).registry()[j].address,
                                )
                            }
                    })
                },
                Err(e) => {
                    &&& (!old(self).is_all() ==> {
                        &&& final(self).db_view() == old(self).db_view()
                        &&& final(self).registry() == old(self).registry()
                        &&& match e {
                            Error::LevelHash(b) => (b.level == meta.level - 1 && !prev_ok(
                                old(self).db_view(),
                                meta.level,
                                meta.prev_hash->Some_0@,
                            )) || (b.level == meta.level + 1 && prev_ok(
                                old(self).db_view(),
                                meta.level,
                                meta.prev_hash->Some_0@,
                            ) && !next_ok(old(self).db_view(), meta.level, meta.hash->Some_0@)),
                            Error::IdSpace => prev_ok(
                                old(self).db_view(),
                                meta.level,
                                meta.prev_hash->Some_0@,
                            ) && next_ok(old(self).db_view(), meta.level, meta.hash->Some_0@)
                                && old(self).db_view().max_id + spec_ids_for(
                                block_info(*block),
                                old(self).registry_addrs(),
                            ) >= u32::MAX,
                            _ => false,
                        }
                    })
                    &&& (old(self).is_all() ==> match e {
                        Error::LevelHash(b) => ((b.level == meta.level - 1 && !prev_ok(
                            old(self).db_view(),
                            meta.level,
                            meta.prev_hash->Some_0@,
                        )) || (b.level == meta.level + 1 && !next_ok(
                            old(self).db_view(),
                            meta.level,
                            meta.hash->Some_0@,
                        ))) && final(self).db_view() == old(self).db_view(),
                        Error::BlockMissing(_) => false,
                        _ => true,
                    })
                },
            },
    {
        let ghost bi = block_info(*block);
        let (hash, prev_hash) = match (&meta.hash, &meta.prev_hash) {
            (Some(h), Some(p)) => (h, p),
            _ => {
                proof {
                    assert(false);
                }
                return Err(Error::EmptyChain);
            },
        };
        match self.ensure_level_hash(meta.level, hash, prev_hash) {
            Ok(()) => {},
            Err(e) => {
                return Err(e);
            },
        }
        if self.all_contracts {
            let actives = block.active_contracts();
            let mut unknown: Vec<ContractID> = Vec::new();
            let mut k: usize = 0;
            let na = actives.len();
            while k < na
                invariant
                    k <= na,
                    na == actives.len(),
                    self.is_all() == old(self).is_all(),
                    self.node_chain() == old(self).node_chain(),
                    self.node_scripts() == old(self).node_scripts(),
                    self.fetched() == old(self).fetched(),
                    self.db_view() == old(self).db_view(),
                    old(self).is_all(),
                decreases na - k,
            {
                let cid = ContractID {
                    name: actives[k].clone(),
                    address: actives[k].clone(),
                };
                if self.find_contract(&cid).is_none() {
                    unknown.push(cid);
                }
                k = k + 1;
            }
            if unknown.len() > 0 {
                match self.add_missing_contracts(&unknown) {
                    Ok(()) => {},
                    Err(e) => {
                        return Err(e);
                    },
                }
            }
        }
        let ghost addrs = self.registry_addrs();
        let ghost names0 = self.registry_names();
        let ghost maxid0 = self.db_view().max_id;
        proof {
            assert forall|n2: Seq<char>|
                old(self).registry_names().contains(n2) implies self.registry_names().contains(
                n2,
            ) by {}
        }
        let mut storage_processor = match self.get_storage_processor() {
            Ok(sp) => sp,
            Err(e) => {
                proof {
                    lemma_ids_nonneg(bi, addrs);
                }
                return Err(e);
            },
        };
        let n = self.contracts.len();
        let ghost s1 = *self;
        let mut computed: Vec<
            Option<(bool, Vec<crate::block::Insert>, Vec<crate::block::TxContext>, Vec<String>)>,
        > = Vec::new();
        proof {
            assert(addrs.take(0) =~= Seq::<Seq<char>>::empty());
        }
        let mut i: usize = 0;
        while i < n
            invariant
                i <= n,
                n == self.contracts.len(),
                *self == s1,
                bi == block_info(*block),
                meta.hash is Some,
                meta.prev_hash is Some,
                1 <= meta.level < u32::MAX,
                addrs == self.registry_addrs(),
                maxid0 == self.db_view().max_id,
                maxid0 < u32::MAX,
                addrs.len() == n,
                self.is_all() == old(self).is_all(),
                self.node_chain() == old(self).node_chain(),
                self.node_scripts() == old(self).node_scripts(),
                self.fetched() == old(self).fetched(),
                prev_ok(old(self).db_view(), meta.level, meta.prev_hash->Some_0@),
                next_ok(old(self).db_view(), meta.level, meta.hash->Some_0@),
                (!old(self).is_all() ==> self.db_view() == old(self).db_view() && self.registry()
                    == old(self).registry()),
                self.db_view().derived_rebuilds == old(self).db_view().derived_rebuilds,
                forall|n2: Seq<char>|
                    old(self).registry_names().contains(n2) ==> self.registry_names().contains(n2),
                forall|s2: Seq<char>|
                    old(self).db_view().schemas.contains(s2) ==> self.db_view().schemas.contains(
                        s2,
                    ),
                computed@.len() == i,
                storage_processor.id_view() as int == maxid0 + 1 + spec_ids_for(
                    bi,
                    addrs.take(i as int),
                ),
                forall|j: int|
                    0 <= j < i ==> (match #[trigger] computed@[j] {
                        Some(p) => {
                            &&& p.0 == crate::block::spec_has_origination(bi, addrs[j])
                            &&& p.2@.len() == crate::block::spec_tx_count(bi, addrs[j])
                            &&& p.1@.len() == p.2@.len()
                            &&& forall|t: int|
                                0 <= t < p.2@.len() ==> crate::block::tx_ctx_info(
                                    #[trigger] p.2@[t],
                                ) == (crate::block::TxCtxInfo {
                                    id: (maxid0 + 1 + spec_ids_for(bi, addrs.take(j)) + t) as u32,
                                    level: block.level,
                                    contract: names0[j],
                                })
                            &&& forall|t: int|
                                0 <= t < p.1@.len() ==> crate::block::insert_info(
                                    #[trigger] p.1@[t],
                                ) == (crate::block::InsertInfo {
                                    table_name: "storage"@,
                                    id: (maxid0 + 1 + spec_ids_for(bi, addrs.take(j)) + t) as u32,
                                    tx_context_id: (maxid0 + 1 + spec_ids_for(bi, addrs.take(j))
                                        + t) as u32,
                                    level: block.level,
                                })
                        },
                        None => !crate::block::spec_has_origination(bi, addrs[j])
                            && crate::block::spec_tx_count(bi, addrs[j]) == 0,
                    }),
                names0 == self.registry_names(),
            decreases n - i,
        {
            proof {
                assert(self.registry()[i as int] == contract_entry_info(self.contracts@[i as int]));
                assert(addrs[i as int] == self.contracts@[i as int].0.address@);
                assert(names0[i as int] == self.contracts@[i as int].0.name@);
            }
            let cid = self.contracts[i].0.clone();
            let c = match Self::compute_for_block_contract(block, &mut storage_processor, &cid) {
                Ok(c) => c,
                Err(e) => {
                    proof {
                        lemma_ids_take_step(bi, addrs, i as int);
                        lemma_ids_mono(bi, addrs, i + 1);
                    }
                    return Err(e);
                },
            };
            computed.push(c);
            proof {
                lemma_ids_take_step(bi, addrs, i as int);
            }
            i = i + 1;
        }
        proof {
            assert(addrs.take(n as int) =~= addrs);
            lemma_ids_nonneg(bi, addrs);
            assert(storage_processor.id_view() >= 1);
        }
        let ghost db0 = self.db_view();
        let ghost li = level_info(*meta);
        self.dbcli.delete_level(meta.level);
        let ghost db1 = self.db_view();
        self.dbcli.save_level(meta);
        let ghost db2 = self.db_view();
        proof {
            crate::db::lemma_levels_without(db0.levels, meta.level);
            crate::db::lemma_find_level_push(db1.levels, li);
            crate::db::lemma_cls_without_level(db0.contract_levels, meta.level);
            assert(self.db_view().tx_contexts =~= crate::db::txs_without(
                db0.tx_contexts,
                meta.level,
            ) + spec_block_txs(bi, names0, addrs, meta.level, maxid0 + 1, 0));
            assert(self.db_view().inserts =~= crate::db::inserts_without(
                db0.inserts,
                meta.level,
            ) + spec_block_inserts(bi, names0, addrs, meta.level, maxid0 + 1, 0));
        }
        let ghost names = self.registry_names();
        let mut contract_results: Vec<SaveLevelResult> = Vec::new();
        let mut k: usize = 0;
        while k < n
            invariant
                k <= n,
                n == self.contracts.len(),
                n == computed@.len(),
                n == addrs.len(),
                names == self.registry_names(),
                addrs == self.registry_addrs(),
                self.registry() == s1.registry(),
                bi == block_info(*block),
                meta.level == block.level,
                1 <= meta.level < u32::MAX,
                li == level_info(*meta),
                self.is_all() == old(self).is_all(),
                self.node_chain() == old(self).node_chain(),
                self.node_scripts() == old(self).node_scripts(),
                self.fetched() == old(self).fetched(),
                (!old(self).is_all() ==> names == old(self).registry_names() && addrs == old(
                    self,
                ).registry_addrs() && db0 == old(self).db_view() && self.registry() == old(
                    self,
                ).registry()),
                prev_ok(old(self).db_view(), meta.level, meta.prev_hash->Some_0@),
                next_ok(old(self).db_view(), meta.level, meta.hash->Some_0@),
                self.db_view().schemas == db0.schemas,
                names == names0,
                maxid0 == db0.max_id,
                self.db_view().tx_contexts == crate::db::txs_without(db0.tx_contexts, meta.level)
                    + spec_block_txs(bi, names0, addrs, meta.level, maxid0 + 1, k as int),
                self.db_view().inserts == crate::db::inserts_without(db0.inserts, meta.level)
                    + spec_block_inserts(bi, names0, addrs, meta.level, maxid0 + 1, k as int),
                (!update_derived_tables ==> self.db_view().derived_rebuilds == old(
                    self,
                ).db_view().derived_rebuilds),
                (!old(self).is_all() ==> self.floor() == old(self).floor()),
                forall|n2: Seq<char>|
                    old(self).registry_names().contains(n2) ==> self.registry_names().contains(n2),
                forall|s2: Seq<char>|
                    old(self).db_view().schemas.contains(s2) ==> self.db_view().schemas.contains(
                        s2,
                    ),
                contract_results@.len() == k,
                find_level(self.db_view().levels, meta.level) == Some(li),
                self.db_view().max_id == db0.max_id,
                forall|l2: u32|
                    l2 != meta.level ==> find_level(self.db_view().levels, l2) == find_level(
                        db0.levels,
                        l2,
                    ),
                forall|nm: Seq<char>|
                    has_contract_level(self.db_view().contract_levels, nm, meta.level)
                        <==> names.take(k as int).contains(nm),
                forall|nm: Seq<char>, l2: u32|
                    l2 != meta.level ==> has_contract_level(self.db_view().contract_levels, nm, l2)
                        == has_contract_level(db0.contract_levels, nm, l2),
                forall|j: int|
                    0 <= j < n ==> (match #[trigger] computed@[j] {
                        Some(p) => {
                            &&& p.0 == crate::block::spec_has_origination(bi, addrs[j])
                            &&& p.2@.len() == crate::block::spec_tx_count(bi, addrs[j])
                            &&& p.1@.len() == p.2@.len()
                            &&& forall|t: int|
                                0 <= t < p.2@.len() ==> crate::block::tx_ctx_info(
                                    #[trigger] p.2@[t],
                                ) == (crate::block::TxCtxInfo {
                                    id: (maxid0 + 1 + spec_ids_for(bi, addrs.take(j)) + t) as u32,
                                    level: meta.level,
                                    contract: names0[j],
                                })
                            &&& forall|t: int|
                                0 <= t < p.1@.len() ==> crate::block::insert_info(
                                    #[trigger] p.1@[t],
                                ) == (crate::block::InsertInfo {
                                    table_name: "storage"@,
                                    id: (maxid0 + 1 + spec_ids_for(bi, addrs.take(j)) + t) as u32,
                                    tx_context_id: (maxid0 + 1 + spec_ids_for(bi, addrs.take(j))
                                        + t) as u32,
                                    level: meta.level,
                                })
                        },
                        None => !crate::block::spec_has_origination(bi, addrs[j])
                            && crate::block::spec_tx_count(bi, addrs[j]) == 0,
                    }),
                forall|j: int|
                    0 <= j < k ==> {
                        &&& (#[trigger] contract_results@[j]).level == meta.level
                        &&& contract_results@[j].contract_id.name@ == names[j]
                        &&& contract_results@[j].contract_id.address@ == addrs[j]
                        &&& contract_results@[j].is_origination
                            == crate::block::spec_has_origination(bi, addrs[j])
                        &&& contract_results@[j].tx_count == crate::block::spec_tx_count(
                            bi,
                            addrs[j],
                        )
                    },
            decreases n - k,
        {
            proof {
                assert(self.registry()[k as int] == contract_entry_info(self.contracts@[k as int]));
                assert(names[k as int] == self.contracts@[k as int].0.name@);
                assert(addrs[k as int] == self.contracts@[k as int].0.address@);
                assert(match computed@[k as int] {
                    Some(p) => p.2@.len() <= u32::MAX,
                    None => true,
                });
            }
            let cid = self.contracts[k].0.clone();
            let ghost clsb = self.db_view().contract_levels;
            let slr = Self::persist_for_block_contract(
                &mut self.dbcli,
                meta,
                &cid,
                &computed[k],
                &self.contracts[k].1,
                update_derived_tables,
            );
            contract_results.push(slr);
            proof {
                assert(names[k as int] == cid.name@);
                assert forall|nm: Seq<char>|
                    has_contract_level(self.db_view().contract_levels, nm, meta.level)
                        <==> names.take(k + 1).contains(nm) by {
                    assert(names.take(k + 1).drop_last() =~= names.take(k as int));
                    if nm == cid.name@ {
                        assert(names.take(k + 1)[k as int] == nm);
                    } else {
                        assert(has_contract_level(self.db_view().contract_levels, nm, meta.level)
                            == has_contract_level(clsb, nm, meta.level));
                        if names.take(k + 1).contains(nm) {
                            let j = choose|j: int|
                                0 <= j < names.take(k + 1).len() && #[trigger] names.take(k + 1)[j]
                                    == nm;
                            assert(names.take(k as int)[j] == nm);
                        }
                        if names.take(k as int).contains(nm) {
                            let j = choose|j: int|
                                0 <= j < names.take(k as int).len() && #[trigger] names.take(
                                    k as int,
                                )[j] == nm;
                            assert(names.take(k + 1)[j] == nm);
                        }
                    }
                }
                let txs_add = (match computed@[k as int] {
                    Some(p) => p.2@.map_values(
                        |t: crate::block::TxContext| crate::block::tx_ctx_info(t),
                    ),
                    None => Seq::<crate::block::TxCtxInfo>::empty(),
                });
                let ins_add = (match computed@[k as int] {
                    Some(p) => p.1@.map_values(
                        |x: crate::block::Insert| (cid.name@, crate::block::insert_info(x)),
                    ),
                    None => Seq::<(Seq<char>, crate::block::InsertInfo)>::empty(),
                });
                assert(txs_add =~= Seq::new(
                    crate::block::spec_tx_count(bi, addrs[k as int]) as nat,
                    |t: int| crate::block::TxCtxInfo {
                        id: (maxid0 + 1 + spec_ids_for(bi, addrs.take(k as int)) + t) as u32,
                        level: meta.level,
                        contract: names0[k as int],
                    },
                ));
                assert(ins_add =~= Seq::new(
                    crate::block::spec_tx_count(bi, addrs[k as int]) as nat,
                    |t: int| (
                        names0[k as int],
                        crate::block::InsertInfo {
                            table_name: "storage"@,
                            id: (maxid0 + 1 + spec_ids_for(bi, addrs.take(k as int)) + t) as u32,
                            tx_context_id: (maxid0 + 1 + spec_ids_for(bi, addrs.take(k as int))
                                + t) as u32,
                            level: meta.level,
                        },
                    ),
                ));
                assert(self.db_view().tx_contexts =~= crate::db::txs_without(
                    db0.tx_contexts,
                    meta.level,
                ) + spec_block_txs(bi, names0, addrs, meta.level, maxid0 + 1, k + 1));
                assert(self.db_view().inserts =~= crate::db::inserts_without(
                    db0.inserts,
                    meta.level,
                ) + spec_block_inserts(bi, names0, addrs, meta.level, maxid0 + 1, k + 1));
            }
            k = k + 1;
        }
        let id_value = storage_processor.get_id_value();
        self.dbcli.set_max_id(id_value);
        let ghost db3 = self.db_view();
        let ghost s2 = *self;
        let nr = contract_results.len();
        let mut updated: bool = false;
        let mut j: usize = 0;
        while j < nr
            invariant
                j <= nr,
                nr == contract_results@.len(),
                nr == self.registry().len(),
                nr == names.len(),
                nr == addrs.len(),
                bi == block_info(*block),
                1 <= meta.level < u32::MAX,
                self.is_all() == old(self).is_all(),
                self.node_chain() == old(self).node_chain(),
                self.node_scripts() == old(self).node_scripts(),
                self.fetched() == old(self).fetched(),
                self.registry_names() == names,
                self.registry_addrs() == addrs,
                self.db_view() == db3,
                (!old(self).is_all() ==> s2.registry() == old(self).registry() && s2.floor()
                    == old(self).floor()),
                s2.registry_names() == names,
                forall|t: int|
                    0 <= t < nr ==> {
                        &&& (#[trigger] contract_results@[t]).level == meta.level
                        &&& contract_results@[t].contract_id.name@ == names[t]
                        &&& contract_results@[t].contract_id.address@ == addrs[t]
                        &&& contract_results@[t].is_origination
                            == crate::block::spec_has_origination(bi, addrs[t])
                    },
                (!updated ==> *self == s2),
                (updated ==> (!old(self).is_all() ==> self.floor() == floors_min(
                    self.registry(),
                ))),
                (updated ==> exists|t: int|
                    0 <= t < j && (#[trigger] contract_results@[t]).is_origination),
                ((exists|t: int|
                    0 <= t < j && (#[trigger] contract_results@[t]).is_origination) ==> updated),
                forall|t: int|
                    0 <= t < j && (#[trigger] contract_results@[t]).is_origination ==> exists|
                        m: int,
                    |
                        0 <= m < self.registry().len() && (#[trigger] self.registry()[m]).name
                            == contract_results@[t].contract_id.name@ && self.registry()[m].address
                            == contract_results@[t].contract_id.address@
                            && self.registry()[m].floor == Some(meta.level),
            decreases nr - j,
        {
            if contract_results[j].is_origination {
                let cidj = contract_results[j].contract_id.clone();
                let lvl = contract_results[j].level;
                let ghost pre_reg = self.registry();
                proof {
                    assert(self.registry_names()[j as int] == names[j as int]);
                    assert(self.registry_addrs()[j as int] == addrs[j as int]);
                    assert(pre_reg[j as int].name == cidj.name@);
                    assert(pre_reg[j as int].address == cidj.address@);
                }
                self.update_contract_floor(&cidj, lvl);
                updated = true;
                proof {
                    assert(self.registry_names() =~= names);
                    assert(self.registry_addrs() =~= addrs);
                    assert forall|t: int|
                        0 <= t < j + 1 && (#[trigger] contract_results@[t]).is_origination implies
                        exists|m: int|
                            0 <= m < self.registry().len() && (#[trigger] self.registry()[m]).name
                                == contract_results@[t].contract_id.name@
                                && self.registry()[m].address
                                == contract_results@[t].contract_id.address@
                                && self.registry()[m].floor == Some(meta.level) by {
                        if t < j {
                            let m0 = choose|m0: int|
                                0 <= m0 < pre_reg.len() && (#[trigger] pre_reg[m0]).name
                                    == contract_results@[t].contract_id.name@
                                    && pre_reg[m0].address
                                    == contract_results@[t].contract_id.address@
                                    && pre_reg[m0].floor == Some(meta.level);
                            assert(self.registry()[m0].name == pre_reg[m0].name);
                            assert(self.registry()[m0].address == pre_reg[m0].address);
                            assert(self.registry()[m0].floor == pre_reg[m0].floor
                                || self.registry()[m0].floor == Some(meta.level));
                        }
                    }
                }
            }
            j = j + 1;
        }
        proof {
            assert(names.take(n as int) =~= names);
            if !old(self).is_all() {
                assert(n == old(self).registry().len());
                assert forall|j2: int|
                    0 <= j2 < old(self).registry().len() && crate::block::spec_has_origination(
                        bi,
                        (#[trigger] old(self).registry()[j2]).address,
                    ) implies exists|m: int|
                        0 <= m < self.registry().len() && (#[trigger] self.registry()[m]).name
                            == old(self).registry()[j2].name && self.registry()[m].address == old(
                            self,
                        ).registry()[j2].address && self.registry()[m].floor == Some(
                            meta.level,
                        ) by {
                    assert(addrs[j2] == old(self).registry()[j2].address);
                    assert(names[j2] == old(self).registry()[j2].name);
                    assert(contract_results@[j2].is_origination);
                }
                if (exists|j2: int|
                    0 <= j2 < old(self).registry().len() && crate::block::spec_has_origination(
                        bi,
                        (#[trigger] old(self).registry()[j2]).address,
                    )) {
                    let j2 = choose|j2: int|
                        0 <= j2 < old(self).registry().len() && crate::block::spec_has_origination(
                            bi,
                            (#[trigger] old(self).registry()[j2]).address,
                        );
                    assert(contract_results@[j2].is_origination);
                    assert(updated);
                } else {
                    if updated {
                        let t = choose|t: int|
                            0 <= t < nr && (#[trigger] contract_results@[t]).is_origination;
                        assert(crate::block::spec_has_origination(bi, addrs[t]));
                        assert(old(self).registry()[t].address == addrs[t]);
                        assert(false);
                    }
                    assert(*self == s2);
                }
            }
            if chain_consistent(db0.levels) {
                crate::db::lemma_delete_preserves_chain(db0.levels, meta.level);
                crate::db::lemma_insert_preserves_chain(db1.levels, db2.levels, li);
                assert forall|l2: u32|
                    l2 < 0xffffffffu32 implies #[trigger] crate::db::link_ok(
                    self.db_view().levels,
                    l2,
                ) by {
                    assert(crate::db::link_ok(db2.levels, l2));
                    if l2 == meta.level {
                        assert(find_level(self.db_view().levels, l2) == Some(li));
                        assert(find_level(db2.levels, l2) == Some(li));
                    } else {
                        assert(find_level(self.db_view().levels, l2) == find_level(db0.levels, l2));
                        assert(find_level(db2.levels, l2) == find_level(db1.levels, l2));
                        assert(find_level(db1.levels, l2) == find_level(db0.levels, l2));
                    }
                    let l3 = (l2 + 1) as u32;
                    if l3 == meta.level {
                        assert(find_level(self.db_view().levels, l3) == Some(li));
                        assert(find_level(db2.levels, l3) == Some(li));
                    } else {
                        assert(find_level(self.db_view().levels, l3) == find_level(db0.levels, l3));
                        assert(find_level(db2.levels, l3) == find_level(db1.levels, l3));
                        assert(find_level(db1.levels, l3) == find_level(db0.levels, l3));
                    }
                }
            }
        }
        Ok(contract_results)
    }

    /// Moves a contract's floor to its observed origination level and
    /// recomputes the shared floor.
    /// Moves a contract's floor to its observed origination level, then
    /// recomputes the shared floor as the minimum over the registry.
    fn update_contract_floor(&mut self, contract_id: &ContractID, level: u32)
        ensures
            final(self).is_all() == old(self).is_all(),
            final(self).node_chain() == old(self).node_chain(),
            final(self).node_scripts() == old(self).node_scripts(),
            final(self).fetched() == old(self).fetched(),
            final(self).db_view() == old(self).db_view(),
            final(self).registry_names() == old(self).registry_names(),
            final(self).registry_rasts() == old(self).registry_rasts(),
            final(self).registry().len() == old(self).registry().len(),
            forall|k: int|
                0 <= k < old(self).registry().len() ==> (#[trigger] final(self).registry()[k]).name
                    == old(self).registry()[k].name && final(self).registry()[k].address == old(
                    self,
                ).registry()[k].address,
            forall|k: int|
                0 <= k < old(self).registry().len() ==> ((#[trigger] final(self).registry()[k]).floor
                    == old(self).registry()[k].floor || (old(self).registry()[k].name
                    == contract_id.name@ && old(self).registry()[k].address == contract_id.address@
                    && final(self).registry()[k].floor == Some(level))),
            ((exists|i: int|
                0 <= i < old(self).registry().len() && (#[trigger] old(self).registry()[i]).name
                    == contract_id.name@ && old(self).registry()[i].address
                    == contract_id.address@) ==> exists|i: int|
                0 <= i < final(self).registry().len() && (#[trigger] final(self).registry()[i]).name
                    == contract_id.name@ && final(self).registry()[i].address
                    == contract_id.address@ && final(self).registry()[i].floor == Some(level)),
            (!old(self).is_all() ==> final(self).floor() == floors_min(final(self).registry())),
            (old(self).is_all() ==> final(self).floor() == old(self).floor()),
    {
        let ghost tr = self.registry();
        let n = self.contracts.len();
        let mut i: usize = 0;
        while i < n
            invariant
                i <= n,
                n == self.contracts.len(),
                *self == *old(self),
                tr == self.registry(),
                forall|j: int|
                    0 <= j < i ==> !((#[trigger] tr[j]).name == contract_id.name@ && tr[j].address
                        == contract_id.address@),
            decreases n - i,
        {
            if self.contracts[i].0.name.eq(&contract_id.name) && self.contracts[i].0.address.eq(
                &contract_id.address,
            ) {
                let ghost rasts0 = self.registry_rasts();
                let entry = self.contracts.remove(i);
                let (cid, rel_ast, _) = entry;
                self.contracts.insert(i, (cid, rel_ast, Some(level)));
                proof {
                    assert(self.registry() =~= tr.update(
                        i as int,
                        ContractInfo {
                            name: tr[i as int].name,
                            address: tr[i as int].address,
                            floor: Some(level),
                        },
                    ));
                    assert(self.registry_names() =~= old(self).registry_names());
                    assert(self.registry_rasts() =~= rasts0);
                    assert(tr[i as int].name == contract_id.name@);
                    assert(tr[i as int].address == contract_id.address@);
                    assert(self.registry()[i as int].floor == Some(level));
                }
                self.update_level_floor();
                proof {
                    assert(self.registry_names() =~= old(self).registry_names());
                }
                return ;
            }
            i = i + 1;
        }
        self.update_level_floor();
    }
}

impl Executor {
    /// Fetches and persists one level.  On a hash-chain mismatch with
    /// `cleanup_on_reorg` set, deletes the offending stored level and this
    /// one, reprocesses the offending level from the node, then retries
    /// this one; a second mismatch is returned to the caller.
    ///
    /// The requested level is always the first level fetched.  A
    /// `BlockMissing` error names a level the node has no block for, and
    /// success is owed when the node serves the block, the stored
    /// neighbours agree with it, and the id space can hold its operations.
    pub fn exec_level(
        &mut self,
        level_height: u32,
        cleanup_on_reorg: bool,
        update_derived_tables: bool,
    ) -> (r: Result<Vec<SaveLevelResult>, Error>)
        requires
            1 <= level_height < u32::MAX,
        ensures
            final(self).is_all() == old(self).is_all(),
            final(self).node_chain() == old(self).node_chain(),
            final(self).node_scripts() == old(self).node_scripts(),
            old(self).fetched().is_prefix_of(final(self).fetched()),
            final(self).fetched().len() > old(self).fetched().len(),
            final(self).fetched()[old(self).fetched().len() as int] == level_height,
            (!old(self).is_all() ==> final(self).registry_names() == old(self).registry_names()),
            forall|k: int|
                old(self).fetched().len() <= k < final(self).fetched().len() ==> level_height - 1
                    <= #[trigger] final(self).fetched()[k] <= level_height + 1,
            (r is Ok ==> find_block(old(self).node_chain(), level_height) is Some
                && find_level(final(self).db_view().levels, level_height) is Some),
            (r is Ok && chain_consistent(old(self).db_view().levels) ==> chain_consistent(
                final(self).db_view().levels,
            )),
            (r matches Err(Error::BlockMissing(l)) ==> find_block(
                old(self).node_chain(),
                l,
            ) is None),
            ((!old(self).is_all() && (find_block(
                old(self).node_chain(),
                level_height,
            ) matches Some(b) && prev_ok(old(self).db_view(), level_height, b.prev_hash) && next_ok(
                old(self).db_view(),
                level_height,
                b.hash,
            ) && old(self).db_view().max_id + spec_ids_for(b, old(self).registry_addrs())
                < u32::MAX)) ==> r is Ok),
            forall|n2: Seq<char>|
                #[trigger] old(self).registry_names().contains(n2)
                    ==> final(self).registry_names().contains(n2),
            forall|s2: Seq<char>|
                #[trigger] old(self).db_view().schemas.contains(s2)
                    ==> final(self).db_view().schemas.contains(s2),
            (!old(self).is_all() ==> final(self).db_view().schemas == old(self).db_view().schemas),
            (!old(self).is_all() ==> final(self).registry_addrs() == old(self).registry_addrs()),
            (!update_derived_tables ==> final(self).db_view().derived_rebuilds == old(
                self,
            ).db_view().derived_rebuilds),
            (!old(self).is_all() ==> (db_matches_chain(old(self).db_view(), old(self).node_chain())
                ==> (chain_linked(old(self).node_chain()) ==> (find_block(
                old(self).node_chain(),
                level_height,
            ) matches Some(b) ==> ((old(self).db_view().max_id + spec_ids_for(
                b,
                old(self).registry_addrs(),
            ) < u32::MAX) ==> (r is Ok && db_matches_chain(
                final(self).db_view(),
                old(self).node_chain(),
            ) && final(self).db_view().max_id as int == old(self).db_view().max_id + spec_ids_for(
                b,
                old(self).registry_addrs(),
            ))))))),
    {
        let ghost f0 = self.fetched();
        let fetched = self.node_cli.level_json(level_height);
        proof {
            assert(self.fetched() =~= f0 + seq![level_height]);
            assert(self.db_view() == old(self).db_view());
            assert(self.registry() == old(self).registry());
            assert(self.registry_names() == old(self).registry_names());
            assert(self.registry_addrs() == old(self).registry_addrs());
        }
        let (meta, block) = match fetched {
            Ok(p) => p,
            Err(e) => {
                proof {
                    assert(f0 =~= self.fetched().subrange(0, f0.len() as int));
                }
                return Err(e);
            },
        };
        proof {
            crate::node::lemma_find_block_meta(old(self).node_chain(), level_height);
            match find_block(old(self).node_chain(), level_height) {
                Some(b) => {
                    assert(b == block_info(block));
                    assert(level_info(meta) == crate::node::meta_of(b));
                    assert(meta.level == level_height);
                    assert(meta.prev_hash->Some_0@ == b.prev_hash);
                    assert(meta.hash->Some_0@ == b.hash);
                    if !old(self).is_all() && db_matches_chain(
                        old(self).db_view(),
                        old(self).node_chain(),
                    ) && chain_linked(old(self).node_chain()) {
                        lemma_aligned_neighbors(
                            old(self).db_view(),
                            old(self).node_chain(),
                            level_height,
                            b,
                        );
                    }
                },
                None => {
                    assert(false);
                },
            }
        }
        let res = self.exec_for_block(&meta, &block, update_derived_tables);
        match res {
            Ok(r) => {
                proof {
                    assert(f0 =~= self.fetched().subrange(0, f0.len() as int));
                    if !old(self).is_all() && db_matches_chain(
                        old(self).db_view(),
                        old(self).node_chain(),
                    ) && chain_linked(old(self).node_chain()) {
                        let b = find_block(old(self).node_chain(), level_height)->Some_0;
                        assert forall|l2: u32|
                            (#[trigger] find_level(self.db_view().levels, l2)) is Some implies (
                        find_block(old(self).node_chain(), l2) is Some && find_level(
                            self.db_view().levels,
                            l2,
                        )->Some_0 == crate::node::meta_of(
                            find_block(old(self).node_chain(), l2)->Some_0,
                        )) by {
                            if l2 == meta.level {
                                assert(find_level(self.db_view().levels, l2) == Some(
                                    level_info(meta),
                                ));
                            } else {
                                assert(find_level(self.db_view().levels, l2) == find_level(
                                    old(self).db_view().levels,
                                    l2,
                                ));
                            }
                        }
                        assert(db_matches_chain(self.db_view(), old(self).node_chain()));
                    }
                }
                Ok(r)
            },
            Err(e) => {
                let ghost s_a = *self;
                let bad = match e {
                    Error::LevelHash(b) => b,
                    other => {
                        proof {
                            assert(f0 =~= self.fetched().subrange(0, f0.len() as int));
                        }
                        return Err(other);
                    },
                };
                if !cleanup_on_reorg || bad.level < 1 || bad.level == u32::MAX {
                    proof {
                        assert(f0 =~= self.fetched().subrange(0, f0.len() as int));
                    }
                    return Err(Error::LevelHash(bad));
                }
                self.dbcli.delete_level(bad.level);
                self.dbcli.delete_level(level_height);
                proof {
                    if chain_consistent(old(self).db_view().levels) {
                        crate::db::lemma_delete_preserves_chain(
                            old(self).db_view().levels,
                            bad.level,
                        );
                        crate::db::lemma_delete_preserves_chain(
                            crate::db::levels_without(old(self).db_view().levels, bad.level),
                            level_height,
                        );
                    }
                }
                let refetched = self.node_cli.level_json(bad.level);
                proof {
                    assert(self.fetched() =~= f0 + seq![level_height, bad.level]);
                    assert(self.registry() == s_a.registry());
                    assert(self.registry_names() == s_a.registry_names());
                    assert(self.db_view().schemas == s_a.db_view().schemas);
                    assert(self.db_view().derived_rebuilds == s_a.db_view().derived_rebuilds);
                }
                let (m2, b2) = match refetched {
                    Ok(p) => p,
                    Err(e2) => {
                        proof {
                            assert(f0 =~= self.fetched().subrange(0, f0.len() as int));
                        }
                        return Err(e2);
                    },
                };
                match self.exec_for_block(&m2, &b2, update_derived_tables) {
                    Ok(_) => {},
                    Err(e2) => {
                        proof {
                            assert(f0 =~= self.fetched().subrange(0, f0.len() as int));
                        }
                        return Err(e2);
                    },
                }
                let r2 = self.exec_for_block(&meta, &block, update_derived_tables);
                proof {
                    assert(f0 =~= self.fetched().subrange(0, f0.len() as int));
                }
                r2
            },
        }
    }

    /// The levels of `levels` that pass the floor: everything at or above
    /// the current floor, or everything in all-contracts mode.  Order is
    /// kept.  No level below the floor is ever handed to the fetchers.
    pub fn levels_to_fetch(&self, levels: &Vec<u32>) -> (r: Vec<u32>)
        ensures
            r@ == spec_levels_to_fetch(levels@, self.floor(), self.is_all()),
            forall|k: int|
                0 <= k < r@.len() ==> (!self.is_all() ==> #[trigger] r@[k] >= self.floor()),
            forall|l: u32| levels@.contains(l) && (self.is_all() || l >= self.floor())
                ==> r@.contains(l),
    {
        let have_floor = !self.all_contracts;
        let floor = self.level_floor.get();
        let ghost all = levels@;
        let mut out: Vec<u32> = Vec::new();
        proof {
            assert(out@ =~= spec_levels_to_fetch(all.take(0), self.floor(), self.is_all()));
        }
        let n = levels.len();
        let mut i: usize = 0;
        while i < n
            invariant
                i <= n,
                n == levels.len(),
                all == levels@,
                have_floor == !self.is_all(),
                floor == self.floor(),
                out@ == spec_levels_to_fetch(all.take(i as int), floor, !have_floor),
                forall|k: int| 0 <= k < out@.len() ==> (have_floor ==> #[trigger] out@[k] >= floor),
                forall|j: int|
                    0 <= j < i && (!have_floor || all[j] >= floor) ==> out@.contains(
                        #[trigger] all[j],
                    ),
            decreases n - i,
        {
            proof {
                assert(all.take(i + 1).drop_last() =~= all.take(i as int));
                assert(all.take(i + 1).last() == all[i as int]);
            }
            let ghost prev = out@;
            let l = levels[i];
            if !(have_floor && l < floor) {
                out.push(l);
                proof {
                    assert(out@[out@.len() - 1] == all[i as int]);
                }
            }
            proof {
                assert(out@ =~= spec_levels_to_fetch(all.take(i + 1), floor, !have_floor));
                assert forall|j: int|
                    0 <= j < i + 1 && (!have_floor || all[j] >= floor) implies out@.contains(
                    #[trigger] all[j],
                ) by {
                    if j < i {
                        assert(prev.contains(all[j]));
                        let k = choose|k: int| 0 <= k < prev.len() && prev[k] == all[j];
                        assert(out@[k] == all[j]);
                    }
                }
            }
            i = i + 1;
        }
        proof {
            assert(all.take(n as int) =~= all);
        }
        out
    }

    /// Processes the given levels: each level at or above the floor is
    /// fetched and persisted (with reorg cleanup), everything below the
    /// floor is dropped; the derived tables are then rebuilt.
    ///
    /// On success the kept levels were each fetched, in list order; in any
    /// case nothing outside one level of a kept level is ever fetched, so
    /// no level below `floor - 1` ever reaches the node.
    pub fn exec_levels(&mut self, num_getters: usize, levels: Vec<u32>) -> (r: Result<(), Error>)
        requires
            forall|j: int| 0 <= j < levels@.len() ==> 1 <= #[trigger] levels@[j] < u32::MAX,
        ensures
            final(self).is_all() == old(self).is_all(),
            final(self).node_chain() == old(self).node_chain(),
            final(self).node_scripts() == old(self).node_scripts(),
            old(self).fetched().is_prefix_of(final(self).fetched()),
            fetch_within(
                old(self).fetched(),
                final(self).fetched(),
                spec_levels_to_fetch(levels@, old(self).floor(), old(self).is_all()),
            ),
            (r is Ok ==> subseq_of(
                spec_levels_to_fetch(levels@, old(self).floor(), old(self).is_all()),
                final(self).fetched().skip(old(self).fetched().len() as int),
            )),
            (r is Ok ==> forall|l: u32|
                spec_levels_to_fetch(levels@, old(self).floor(), old(self).is_all()).contains(l)
                    ==> final(self).fetched().contains(l)),
            forall|n2: Seq<char>|
                #[trigger] old(self).registry_names().contains(n2)
                    ==> final(self).registry_names().contains(n2),
            forall|s2: Seq<char>|
                #[trigger] old(self).db_view().schemas.contains(s2)
                    ==> final(self).db_view().schemas.contains(s2),
            (!old(self).is_all() ==> final(self).db_view().schemas == old(self).db_view().schemas),
            (!old(self).is_all() ==> final(self).registry_names() == old(self).registry_names()),
            (!old(self).is_all() ==> final(self).registry_addrs() == old(self).registry_addrs()),
            ((r is Ok && !old(self).is_all() && old(self).db_view().derived_rebuilds + old(
                self,
            ).registry().len() <= u64::MAX) ==> final(self).db_view().derived_rebuilds == old(
                self,
            ).db_view().derived_rebuilds + old(self).registry().len()),
            (!old(self).is_all() ==> (db_matches_chain(old(self).db_view(), old(self).node_chain())
                ==> (chain_linked(old(self).node_chain()) ==> ((blocks_available(
                old(self).node_chain(),
                spec_levels_to_fetch(levels@, old(self).floor(), old(self).is_all()),
            ) && old(self).db_view().max_id + spec_ids_for_levels(
                old(self).node_chain(),
                old(self).registry_addrs(),
                spec_levels_to_fetch(levels@, old(self).floor(), old(self).is_all()),
            ) < u32::MAX) ==> r is Ok)))),
    {
        let kept = self.levels_to_fetch(&levels);
        let ghost keptv = kept@;
        let ghost f0 = self.fetched();
        let ghost floor0 = self.floor();
        let ghost all0 = self.is_all();
        let ghost chain0 = self.node_chain();
        let ghost addrs0 = self.registry_addrs();
        let ghost maxid0 = self.db_view().max_id;
        let ghost alignedc = !all0 && db_matches_chain(self.db_view(), chain0) && chain_linked(
            chain0,
        ) && blocks_available(chain0, keptv) && maxid0 + spec_ids_for_levels(chain0, addrs0, keptv)
            < u32::MAX;
        proof {
            assert(keptv.take(0) =~= Seq::<u32>::empty());
        }
        let n = kept.len();
        let mut i: usize = 0;
        while i < n
            invariant
                i <= n,
                n == kept@.len(),
                keptv == kept@,
                keptv == spec_levels_to_fetch(levels@, floor0, all0),
                f0 == old(self).fetched(),
                floor0 == old(self).floor(),
                all0 == old(self).is_all(),
                forall|j: int| 0 <= j < levels@.len() ==> 1 <= #[trigger] levels@[j] < u32::MAX,
                self.is_all() == old(self).is_all(),
                self.node_chain() == old(self).node_chain(),
                self.node_scripts() == old(self).node_scripts(),
                f0.is_prefix_of(self.fetched()),
                fetch_within(f0, self.fetched(), keptv),
                subseq_of(keptv.take(i as int), self.fetched().skip(f0.len() as int)),
                chain0 == old(self).node_chain(),
                addrs0 == old(self).registry_addrs(),
                maxid0 == old(self).db_view().max_id,
                alignedc == (!all0 && db_matches_chain(old(self).db_view(), chain0) && chain_linked(
                    chain0,
                ) && blocks_available(chain0, keptv) && maxid0 + spec_ids_for_levels(
                    chain0,
                    addrs0,
                    keptv,
                ) < u32::MAX),
                forall|n2: Seq<char>|
                    #[trigger] old(self).registry_names().contains(n2)
                        ==> self.registry_names().contains(n2),
                forall|s2: Seq<char>|
                    #[trigger] old(self).db_view().schemas.contains(s2)
                        ==> self.db_view().schemas.contains(s2),
                (!old(self).is_all() ==> self.db_view().schemas == old(self).db_view().schemas),
                (!old(self).is_all() ==> self.registry_names() == old(self).registry_names()),
                (!old(self).is_all() ==> self.registry_addrs() == old(self).registry_addrs()),
                self.db_view().derived_rebuilds == old(self).db_view().derived_rebuilds,
                (alignedc ==> (db_matches_chain(self.db_view(), chain0) && self.db_view().max_id
                    as int == maxid0 + spec_ids_for_levels(chain0, addrs0, keptv.take(i as int)))),
            decreases n - i,
        {
            let l = kept[i];
            let ghost f1 = self.fetched();
            proof {
                lemma_kept_levels_bounds(levels@, floor0, all0, keptv, i as int);
                if alignedc {
                    assert(find_block(chain0, keptv[i as int]) is Some);
                    lemma_ids_levels_take_step(chain0, addrs0, keptv, i as int);
                    lemma_ids_levels_mono(chain0, addrs0, keptv, i + 1);
                    lemma_ids_levels_nonneg(chain0, addrs0, keptv.take(i as int));
                    match find_block(chain0, keptv[i as int]) {
                        Some(b) => {
                            lemma_ids_nonneg(b, addrs0);
                        },
                        None => {},
                    }
                }
            }
            let step = self.exec_level(l, true, false);
            proof {
                assert(f0 =~= self.fetched().subrange(0, f0.len() as int));
                assert forall|k: int|
                    f0.len() <= k < self.fetched().len() implies exists|x: u32|
                    keptv.contains(x) && x - 1 <= #[trigger] self.fetched()[k] <= x + 1 by {
                    if k < f1.len() {
                        assert(f1[k] == self.fetched()[k]);
                    } else {
                        assert(l - 1 <= self.fetched()[k] <= l + 1);
                        assert(keptv.contains(l) && l - 1 <= self.fetched()[k] <= l + 1);
                    }
                }
                assert(fetch_within(f0, self.fetched(), keptv));
                let seg0 = f1.skip(f0.len() as int);
                let seg1 = self.fetched().skip(f0.len() as int);
                lemma_subseq_push(keptv.take(i as int), seg0, l);
                lemma_subseq_extend(
                    keptv.take(i as int).push(l),
                    seg0.push(l),
                    self.fetched().skip(f1.len() as int + 1),
                );
                assert(self.fetched()[f1.len() as int] == l);
                assert(seg0.push(l) + self.fetched().skip(f1.len() as int + 1) =~= seg1);
                assert(keptv.take(i as int).push(l) =~= keptv.take(i + 1));
                if alignedc {
                    lemma_ids_levels_take_step(chain0, addrs0, keptv, i as int);
                    assert(step is Ok);
                    assert(db_matches_chain(self.db_view(), chain0));
                    assert(self.db_view().max_id as int == maxid0 + spec_ids_for_levels(
                        chain0,
                        addrs0,
                        keptv.take(i + 1),
                    ));
                }
            }
            match step {
                Ok(_) => {},
                Err(e) => {
                    proof {
                        assert(fetch_within(
                            f0,
                            self.fetched(),
                            spec_levels_to_fetch(levels@, floor0, all0),
                        ));
                        if alignedc {
                            assert(false);
                        }
                    }
                    return Err(e);
                },
            }
            i = i + 1;
        }
        proof {
            if !old(self).is_all() {
                assert(self.registry().len() == old(self).registry().len());
            }
        }
        self.repopulate_derived_tables();
        proof {
            assert(fetch_within(f0, self.fetched(), spec_levels_to_fetch(levels@, floor0, all0)));
            assert(keptv.take(n as int) =~= keptv);
            assert forall|l: u32| keptv.contains(l) implies self.fetched().contains(l) by {
                lemma_subseq_contains(keptv, self.fetched().skip(f0.len() as int), l);
                let j = choose|j: int|
                    0 <= j < self.fetched().skip(f0.len() as int).len() && self.fetched().skip(
                        f0.len() as int,
                    )[j] == l;
                assert(self.fetched()[j + f0.len()] == l);
            }
        }
        Ok(())
    }

    /// Rebuilds the derived projections of every registered contract: the
    /// sink's rebuild count advances once per registered contract.
    pub fn repopulate_derived_tables(&mut self)
        ensures
            final(self).is_all() == old(self).is_all(),
            final(self).node_chain() == old(self).node_chain(),
            final(self).node_scripts() == old(self).node_scripts(),
            final(self).fetched() == old(self).fetched(),
            final(self).registry() == old(self).registry(),
            final(self).db_view().levels == old(self).db_view().levels,
            final(self).db_view().contract_levels == old(self).db_view().contract_levels,
            final(self).db_view().originations == old(self).db_view().originations,
            final(self).db_view().schemas == old(self).db_view().schemas,
            final(self).db_view().max_id == old(self).db_view().max_id,
            final(self).db_view().tx_contexts == old(self).db_view().tx_contexts,
            final(self).db_view().derived_rebuilds >= old(self).db_view().derived_rebuilds,
            (old(self).db_view().derived_rebuilds + old(self).registry().len() <= u64::MAX
                ==> final(self).db_view().derived_rebuilds == old(self).db_view().derived_rebuilds
                + old(self).registry().len()),
    {
        let n = self.contracts.len();
        proof {
            assert(self.registry().len() == n);
        }
        let mut i: usize = 0;
        while i < n
            invariant
                i <= n,
                n == self.contracts.len(),
                n == old(self).registry().len(),
                self.is_all() == old(self).is_all(),
                self.node_chain() == old(self).node_chain(),
                self.node_scripts() == old(self).node_scripts(),
                self.fetched() == old(self).fetched(),
                self.registry() == old(self).registry(),
                self.db_view().levels == old(self).db_view().levels,
                self.db_view().contract_levels == old(self).db_view().contract_levels,
                self.db_view().originations == old(self).db_view().originations,
                self.db_view().schemas == old(self).db_view().schemas,
                self.db_view().max_id == old(self).db_view().max_id,
                self.db_view().tx_contexts == old(self).db_view().tx_contexts,
                self.db_view().derived_rebuilds >= old(self).db_view().derived_rebuilds,
                self.db_view().derived_rebuilds <= old(self).db_view().derived_rebuilds + i,
                (old(self).db_view().derived_rebuilds + i <= u64::MAX ==> self.db_view(
                ).derived_rebuilds == old(self).db_view().derived_rebuilds + i),
            decreases n - i,
        {
            let cid = self.contracts[i].0.clone();
            self.dbcli.repopulate_derived_tables(&cid, &self.contracts[i].1);
            i = i + 1;
        }
    }

    /// Marks as seen, for `contract_id`, every level between the lowest and
    /// highest level in the sink: afterwards the contract's seen levels
    /// have no gap inside the stored level range.
    pub fn fill_in_levels(&mut self, contract_id: &ContractID) -> (r: Result<(), Error>)
        ensures
            r is Ok,
            final(self).is_all() == old(self).is_all(),
            final(self).node_chain() == old(self).node_chain(),
            final(self).node_scripts() == old(self).node_scripts(),
            final(self).fetched() == old(self).fetched(),
            final(self).registry() == old(self).registry(),
            final(self).floor() == old(self).floor(),
            final(self).db_view().schemas == old(self).db_view().schemas,
            final(self).db_view().levels == old(self).db_view().levels,
            forall|n2: Seq<char>, l2: u32|
                has_contract_level(old(self).db_view().contract_levels, n2, l2)
                    ==> has_contract_level(final(self).db_view().contract_levels, n2, l2),
            forall|i: int, j: int, l2: u32|
                #![trigger old(self).db_view().levels[i].level, old(self).db_view().levels[j].level, has_contract_level(final(self).db_view().contract_levels, contract_id.name@, l2)]
                (0 <= i < old(self).db_view().levels.len() && 0 <= j < old(
                    self,
                ).db_view().levels.len() && old(self).db_view().levels[i].level <= l2 <= old(
                    self,
                ).db_view().levels[j].level) ==> has_contract_level(
                    final(self).db_view().contract_levels,
                    contract_id.name@,
                    l2,
                ),
    {
        self.dbcli.fill_in_levels(contract_id);
        Ok(())
    }
}

/// An element of the filtered level list is a kept level.
proof fn lemma_kept_levels_bounds(
    levels: Seq<u32>,
    floor: u32,
    all: bool,
    kept: Seq<u32>,
    i: int,
)
    requires
        kept == spec_levels_to_fetch(levels, floor, all),
        0 <= i < kept.len(),
        forall|j: int| 0 <= j < levels.len() ==> 1 <= #[trigger] levels[j] < u32::MAX,
    ensures
        1 <= kept[i] < u32::MAX,
        kept.contains(kept[i]),
    decreases levels.len(),
{
    if levels.len() > 0 {
        let rest = spec_levels_to_fetch(levels.drop_last(), floor, all);
        assert forall|j: int|
            0 <= j < levels.drop_last().len() implies 1 <= #[trigger] levels.drop_last()[j]
            < u32::MAX by {
            assert(levels.drop_last()[j] == levels[j]);
        }
        if !all && levels.last() < floor {
            lemma_kept_levels_bounds(levels.drop_last(), floor, all, rest, i);
        } else {
            if i < rest.len() {
                lemma_kept_levels_bounds(levels.drop_last(), floor, all, rest, i);
            } else {
                assert(kept[i] == levels.last());
                assert(levels[levels.len() - 1] == levels.last());
            }
        }
    }
}

/// `a` occurs inside `b` in order (not necessarily contiguously).
pub open spec fn subseq_of(a: Seq<u32>, b: Seq<u32>) -> bool
    decreases a.len() + b.len(),
{
    if a.len() == 0 {
        true
    } else if b.len() == 0 {
        false
    } else if a.first() == b.first() {
        subseq_of(a.drop_first(), b.drop_first())
    } else {
        subseq_of(a, b.drop_first())
    }
}

/// A subsequence stays one under any extension at the back.
pub proof fn lemma_subseq_extend(a: Seq<u32>, b: Seq<u32>, c: Seq<u32>)
    requires
        subseq_of(a, b),
    ensures
        subseq_of(a, b + c),
    decreases a.len() + b.len(),
{
    if a.len() == 0 {
        assert(subseq_of(a, b + c));
    } else if b.len() == 0 {
        assert(false);
    } else {
        assert((b + c).first() == b.first());
        assert((b + c).drop_first() =~= b.drop_first() + c);
        if a.first() == b.first() {
            lemma_subseq_extend(a.drop_first(), b.drop_first(), c);
        } else {
            lemma_subseq_extend(a, b.drop_first(), c);
        }
    }
}

/// Appending the same element to both sides keeps a subsequence.
pub proof fn lemma_subseq_push(a: Seq<u32>, b: Seq<u32>, x: u32)
    requires
        subseq_of(a, b),
    ensures
        subseq_of(a.push(x), b.push(x)),
    decreases a.len() + b.len(),
{
    if a.len() == 0 {
        assert(a.push(x).drop_first() =~= Seq::<u32>::empty());
        if b.len() == 0 {
            assert(b.push(x).first() == x);
            assert(a.push(x).first() == x);
            assert(subseq_of(a.push(x).drop_first(), b.push(x).drop_first()));
            assert(subseq_of(a.push(x), b.push(x)));
        } else if x == b.first() {
            assert(b.push(x).first() == b.first());
            assert(a.push(x).first() == x);
            assert(subseq_of(a.push(x).drop_first(), b.push(x).drop_first()));
            assert(subseq_of(a.push(x), b.push(x)));
        } else {
            lemma_subseq_push(a, b.drop_first(), x);
            assert(b.push(x).drop_first() =~= b.drop_first().push(x));
            assert(subseq_of(a.push(x), b.push(x)));
        }
    } else {
        assert(a.push(x).first() == a.first());
        assert(b.push(x).first() == b.first());
        assert(a.push(x).drop_first() =~= a.drop_first().push(x));
        assert(b.push(x).drop_first() =~= b.drop_first().push(x));
        if a.first() == b.first() {
            lemma_subseq_push(a.drop_first(), b.drop_first(), x);
        } else {
            lemma_subseq_push(a, b.drop_first(), x);
        }
    }
}

/// Whatever a subsequence holds, the full sequence holds.
pub proof fn lemma_subseq_contains(a: Seq<u32>, b: Seq<u32>, x: u32)
    requires
        subseq_of(a, b),
        a.contains(x),
    ensures
        b.contains(x),
    decreases a.len() + b.len(),
{
    if a.len() > 0 && b.len() > 0 {
        if a.first() == b.first() {
            if a.first() == x {
                assert(b[0] == x);
            } else {
                let i = choose|i: int| 0 <= i < a.len() && a[i] == x;
                assert(a.drop_first()[i - 1] == x);
                lemma_subseq_contains(a.drop_first(), b.drop_first(), x);
                let j = choose|j: int| 0 <= j < b.drop_first().len() && b.drop_first()[j] == x;
                assert(b[j + 1] == x);
            }
        } else {
            lemma_subseq_contains(a, b.drop_first(), x);
            let j = choose|j: int| 0 <= j < b.drop_first().len() && b.drop_first()[j] == x;
            assert(b[j + 1] == x);
        }
    }
}

/// Every level fetched beyond `pre` lies within one level of some kept
/// level.
pub open spec fn fetch_within(pre: Seq<u32>, post: Seq<u32>, kept: Seq<u32>) -> bool {
    forall|k: int|
        pre.len() <= k < post.len() ==> exists|x: u32|
            kept.contains(x) && x - 1 <= #[trigger] post[k] <= x + 1
}

/// The sublist of `levels` at or above `floor` (everything, in
/// all-contracts mode), in order.
pub open spec fn spec_levels_to_fetch(levels: Seq<u32>, floor: u32, all: bool) -> Seq<u32>
    decreases levels.len(),
{
    if levels.len() == 0 {
        Seq::<u32>::empty()
    } else {
        let rest = spec_levels_to_fetch(levels.drop_last(), floor, all);
        if !all && levels.last() < floor {
            rest
        } else {
            rest.push(levels.last())
        }
    }
}

/// A listed level that passes the floor is kept.
pub proof fn lemma_kept_contains(levels: Seq<u32>, floor: u32, all: bool, l: u32)
    requires
        levels.contains(l),
        all || l >= floor,
    ensures
        spec_levels_to_fetch(levels, floor, all).contains(l),
    decreases levels.len(),
{
    let kept = spec_levels_to_fetch(levels, floor, all);
    let rest = spec_levels_to_fetch(levels.drop_last(), floor, all);
    if levels.last() == l {
        assert(kept == rest.push(l));
        assert(kept.last() == l);
    } else {
        let i = choose|i: int| 0 <= i < levels.len() && levels[i] == l;
        assert(levels.drop_last()[i] == l);
        lemma_kept_contains(levels.drop_last(), floor, all, l);
        let j = choose|j: int| 0 <= j < rest.len() && rest[j] == l;
        if !all && levels.last() < floor {
            assert(kept[j] == l);
        } else {
            assert(kept[j] == l);
        }
    }
}

impl Executor {
    /// Registers every contract the stored dependency rows point at.  On
    /// success every stored dependency of a registered schema is itself
    /// registered.
    pub fn add_dependency_contracts(&mut self) -> (r: Result<(), Error>)
        ensures
            final(self).is_all() == old(self).is_all(),
            final(self).fetched() == old(self).fetched(),
            final(self).node_chain() == old(self).node_chain(),
            final(self).node_scripts() == old(self).node_scripts(),
            final(self).db_view() == old(self).db_view(),
            (r is Ok ==> forall|n2: Seq<char>|
                crate::db::config_deps(
                    old(self).db_view().contract_deps,
                    old(self).registry_names(),
                ).contains(n2) ==> final(self).registry_names().contains(n2)),
            (crate::db::config_deps(
                old(self).db_view().contract_deps,
                old(self).registry_names(),
            ).len() == 0 ==> (r is Ok && final(self).registry() == old(self).registry()
                && final(self).floor() == old(self).floor())),
            forall|n2: Seq<char>|
                #[trigger] old(self).registry_names().contains(n2)
                    ==> final(self).registry_names().contains(n2),
            ((forall|n2: Seq<char>|
                crate::db::config_deps(
                    old(self).db_view().contract_deps,
                    old(self).registry_names(),
                ).contains(n2) ==> (find_script(old(self).node_scripts(), n2) matches Some(ele)
                    && crate::relational::rast_ok(ele.expr_type) && annots_dot_free(ele)))
                ==> r is Ok),
    {
        let config = self.get_config();
        let ghost depsv = crate::db::config_deps(
            self.db_view().contract_deps,
            self.registry_names(),
        );
        proof {
            assert(crate::db::contract_names(config@) =~= self.registry_names());
        }
        let deps = self.dbcli.get_config_deps(&config);
        let n = deps.len();
        let mut i: usize = 0;
        while i < n
            invariant
                i <= n,
                n == deps.len(),
                crate::names::string_views(deps@) == depsv,
                self.is_all() == old(self).is_all(),
                self.fetched() == old(self).fetched(),
                self.node_chain() == old(self).node_chain(),
                self.node_scripts() == old(self).node_scripts(),
                self.db_view() == old(self).db_view(),
                depsv == crate::db::config_deps(
                    old(self).db_view().contract_deps,
                    old(self).registry_names(),
                ),
                (depsv.len() == 0 ==> *self == *old(self)),
                forall|n2: Seq<char>|
                    #[trigger] old(self).registry_names().contains(n2)
                        ==> self.registry_names().contains(n2),
                forall|j: int|
                    0 <= j < i ==> exists|k: int|
                        0 <= k < self.registry().len() && (#[trigger] self.registry()[k]).name == (
                        #[trigger] depsv[j]),
            decreases n - i,
        {
            let cid = ContractID { name: deps[i].clone(), address: deps[i].clone() };
            let ghost pre_reg = self.registry();
            match self.add_contract(&cid) {
                Ok(()) => {},
                Err(e) => {
                    proof {
                        assert(crate::names::string_views(deps@)[i as int] == deps@[i as int]@);
                        assert(depsv.len() == deps@.len());
                        assert(crate::db::config_deps(
                            old(self).db_view().contract_deps,
                            old(self).registry_names(),
                        ).contains(depsv[i as int]));
                        assert(match find_script(old(self).node_scripts(), depsv[i as int]) {
                            Some(ele) => !(crate::relational::rast_ok(ele.expr_type)
                                && annots_dot_free(ele)),
                            None => true,
                        });
                    }
                    return Err(e);
                },
            }
            proof {
                let info = ContractInfo {
                    name: cid.name@,
                    address: cid.address@,
                    floor: orig_of(self.db_view().originations, cid.name@),
                };
                assert(crate::names::string_views(deps@)[i as int] == deps@[i as int]@);
                assert(cid.name@ == depsv[i as int]);
                assert forall|j: int| 0 <= j < i + 1 implies exists|k: int|
                    0 <= k < self.registry().len() && (#[trigger] self.registry()[k]).name == (
                    #[trigger] depsv[j]) by {
                    lemma_upsert_keeps_names(pre_reg, info, depsv[j]);
                }
            }
            i = i + 1;
        }
        proof {
            assert forall|n2: Seq<char>| depsv.contains(n2) implies self.registry_names().contains(
                n2,
            ) by {
                let j = choose|j: int| 0 <= j < depsv.len() && depsv[j] == n2;
                let k = choose|k: int|
                    0 <= k < self.registry().len() && (#[trigger] self.registry()[k]).name
                        == depsv[j];
                assert(self.registry_names()[k] == n2);
            }
        }
        Ok(())
    }

    /// Reprocesses the levels whose big-map copies now have fully known
    /// keys: exactly the stored dependent levels, deduplicated, sorted
    /// ascending, each in-range one that passes the floor fetched in that
    /// order.  An empty dependent set succeeds at once and changes nothing.
    pub fn exec_dependents(&mut self) -> (r: Result<(), Error>)
        ensures
            final(self).is_all() == old(self).is_all(),
            final(self).node_chain() == old(self).node_chain(),
            final(self).node_scripts() == old(self).node_scripts(),
            old(self).fetched().is_prefix_of(final(self).fetched()),
            (r is Ok ==> forall|l: u32|
                crate::db::dep_levels(
                    old(self).db_view().contract_deps,
                    old(self).registry_names(),
                ).contains(l) && 1 <= l < u32::MAX && (old(self).is_all() || l >= old(self).floor())
                    ==> final(self).fetched().contains(l)),
            (crate::db::dep_levels(
                old(self).db_view().contract_deps,
                old(self).registry_names(),
            ).len() == 0 ==> (r is Ok && final(self).db_view() == old(self).db_view()
                && final(self).registry() == old(self).registry() && final(self).fetched() == old(
                self,
            ).fetched() && final(self).floor() == old(self).floor())),
            forall|n2: Seq<char>|
                #[trigger] old(self).registry_names().contains(n2)
                    ==> final(self).registry_names().contains(n2),
            forall|s2: Seq<char>|
                #[trigger] old(self).db_view().schemas.contains(s2)
                    ==> final(self).db_view().schemas.contains(s2),
            (!old(self).is_all() ==> final(self).db_view().schemas == old(self).db_view().schemas),
            (!old(self).is_all() ==> final(self).registry_names() == old(self).registry_names()),
            (r is Ok ==> exists|s: Seq<u32>|
                {
                    &&& crate::config::sorted_ascending(s)
                    &&& (forall|l: u32|
                        #[trigger] s.contains(l) <==> (crate::db::dep_levels(
                            old(self).db_view().contract_deps,
                            old(self).registry_names(),
                        ).contains(l) && 1 <= l < u32::MAX))
                    &&& subseq_of(
                        spec_levels_to_fetch(s, old(self).floor(), old(self).is_all()),
                        final(self).fetched().skip(old(self).fetched().len() as int),
                    )
                }),
    {
        let config = self.get_config();
        proof {
            assert(crate::db::contract_names(config@) =~= self.registry_names());
        }
        let levels = self.dbcli.get_dependent_levels(&config);
        let ghost depsv = crate::db::dep_levels(
            self.db_view().contract_deps,
            self.registry_names(),
        );
        if levels.len() == 0 {
            proof {
                assert(self.fetched() =~= self.fetched().subrange(
                    0,
                    self.fetched().len() as int,
                ));
                let s0 = Seq::<u32>::empty();
                assert(crate::config::sorted_ascending(s0));
                assert(spec_levels_to_fetch(s0, self.floor(), self.is_all()) =~= Seq::<
                    u32,
                >::empty());
                assert(subseq_of(
                    spec_levels_to_fetch(s0, self.floor(), self.is_all()),
                    self.fetched().skip(self.fetched().len() as int),
                ));
            }
            return Ok(());
        }
        let ghost lv = levels@;
        let sorted = sort_levels(levels);
        proof {
            lv.to_multiset_ensures();
            sorted@.to_multiset_ensures();
        }
        let ghost sv = sorted@;
        let mut in_range: Vec<u32> = Vec::new();
        let n = sorted.len();
        let mut i: usize = 0;
        while i < n
            invariant
                i <= n,
                n == sorted.len(),
                sv == sorted@,
                *self == *old(self),
                crate::config::sorted_ascending(sv),
                forall|j: int| 0 <= j < in_range@.len() ==> 1 <= #[trigger] in_range@[j] < u32::MAX,
                forall|j: int|
                    0 <= j < i && 1 <= sv[j] < u32::MAX ==> in_range@.contains(#[trigger] sv[j]),
                forall|a: int|
                    0 <= a < in_range@.len() ==> exists|j: int|
                        0 <= j < i && #[trigger] in_range@[a] == sv[j],
                crate::config::sorted_ascending(in_range@),
            decreases n - i,
        {
            let ghost prev = in_range@;
            let l = sorted[i];
            if 1 <= l && l < u32::MAX {
                in_range.push(l);
            }
            proof {
                assert forall|j: int| 0 <= j < i + 1 && 1 <= sv[j] < u32::MAX implies in_range@.contains(
                    #[trigger] sv[j],
                ) by {
                    if j < i {
                        let k = choose|k: int| 0 <= k < prev.len() && prev[k] == sv[j];
                        assert(in_range@[k] == sv[j]);
                    } else {
                        assert(in_range@.last() == sv[j]);
                    }
                }
                assert forall|a: int| 0 <= a < in_range@.len() implies exists|j: int|
                    0 <= j < i + 1 && #[trigger] in_range@[a] == sv[j] by {
                    if a < prev.len() {
                        let j0 = choose|j0: int| 0 <= j0 < i && #[trigger] prev[a] == sv[j0];
                        assert(in_range@[a] == sv[j0]);
                    } else {
                        assert(in_range@[a] == sv[i as int]);
                    }
                }
                assert forall|a: int, b: int|
                    0 <= a < b < in_range@.len() implies in_range@[a] <= in_range@[b] by {
                    if b < prev.len() {
                        assert(prev[a] <= prev[b]);
                    } else if a < prev.len() && b == prev.len() {
                        let j0 = choose|j0: int| 0 <= j0 < i && #[trigger] prev[a] == sv[j0];
                        assert(sv[j0] <= sv[i as int]);
                    }
                }
            }
            i = i + 1;
        }
        proof {
            assert(self.fetched() =~= self.fetched().subrange(0, self.fetched().len() as int));
        }
        let ghost floor0 = self.floor();
        let ghost all0 = self.is_all();
        let ghost irv = in_range@;
        let res = self.exec_levels(1, in_range);
        proof {
            if res is Ok {
                assert forall|l: u32|
                    depsv.contains(l) && 1 <= l < u32::MAX && (all0 || l
                        >= floor0) implies self.fetched().contains(l) by {
                    assert(lv.contains(l));
                    assert(lv.to_multiset().count(l) > 0);
                    assert(sv.to_multiset().count(l) > 0);
                    assert(sv.contains(l));
                    let j = choose|j: int| 0 <= j < sv.len() && sv[j] == l;
                    assert(irv.contains(l));
                    lemma_kept_contains(irv, floor0, all0, l);
                }
                assert forall|l: u32| #[trigger] irv.contains(l) <==> (depsv.contains(l) && 1 <= l
                    < u32::MAX) by {
                    if irv.contains(l) {
                        let a = choose|a: int| 0 <= a < irv.len() && irv[a] == l;
                        let j0 = choose|j0: int| 0 <= j0 < sv.len() && #[trigger] irv[a] == sv[j0];
                        assert(sv.contains(l));
                        assert(sv.to_multiset().count(l) > 0);
                        assert(lv.to_multiset().count(l) > 0);
                        assert(lv.contains(l));
                    }
                    if depsv.contains(l) && 1 <= l < u32::MAX {
                        assert(lv.contains(l));
                        assert(lv.to_multiset().count(l) > 0);
                        assert(sv.to_multiset().count(l) > 0);
                        assert(sv.contains(l));
                        let j = choose|j: int| 0 <= j < sv.len() && sv[j] == l;
                        assert(irv.contains(l));
                    }
                }
                assert({
                    &&& crate::config::sorted_ascending(irv)
                    &&& (forall|l: u32|
                        #[trigger] irv.contains(l) <==> (crate::db::dep_levels(
                            old(self).db_view().contract_deps,
                            old(self).registry_names(),
                        ).contains(l) && 1 <= l < u32::MAX))
                    &&& subseq_of(
                        spec_levels_to_fetch(irv, old(self).floor(), old(self).is_all()),
                        self.fetched().skip(old(self).fetched().len() as int),
                    )
                });
            }
        }
        res
    }

    /// Processes levels until no registered contract is missing one up to
    /// the chain head, then reprocesses dependent levels.  A node error is
    /// surfaced; a pass that cannot reduce the missing set stops with
    /// [`Error::Stalled`] rather than silently short.  On success no level
    /// up to the chain head is missing for any registered contract, and
    /// success is owed when nothing is missing and no dependent levels are
    /// stored.
    pub fn exec_missing_levels(&mut self, num_getters: usize) -> (r: Result<(), Error>)
        ensures
            final(self).is_all() == old(self).is_all(),
            final(self).node_chain() == old(self).node_chain(),
            final(self).node_scripts() == old(self).node_scripts(),
            old(self).fetched().is_prefix_of(final(self).fetched()),
            (r is Ok ==> (crate::node::chain_head(final(self).node_chain()) matches Some(h)
                && forall|l: u32|
                1 <= l <= h ==> !crate::db::missing_at(
                    final(self).db_view(),
                    final(self).registry_names(),
                    l,
                ))),
            forall|n2: Seq<char>|
                #[trigger] old(self).registry_names().contains(n2)
                    ==> final(self).registry_names().contains(n2),
            forall|s2: Seq<char>|
                #[trigger] old(self).db_view().schemas.contains(s2)
                    ==> final(self).db_view().schemas.contains(s2),
            (!old(self).is_all() ==> final(self).db_view().schemas == old(self).db_view().schemas),
            (!old(self).is_all() ==> final(self).registry_names() == old(self).registry_names()),
            ((crate::node::chain_head(old(self).node_chain()) matches Some(h) && h < u32::MAX && (
            forall|l: u32|
                1 <= l <= h ==> !crate::db::missing_at(
                    old(self).db_view(),
                    old(self).registry_names(),
                    l,
                )) && crate::db::dep_levels(
                old(self).db_view().contract_deps,
                old(self).registry_names(),
            ).len() == 0) ==> r is Ok),
    {
        let ghost f0 = self.fetched();
        let ghost ch = crate::node::chain_head(old(self).node_chain());
        let ghost cond = ch is Some && ch->Some_0 < u32::MAX && (forall|l: u32|
            1 <= l <= ch->Some_0 ==> !crate::db::missing_at(
                old(self).db_view(),
                old(self).registry_names(),
                l,
            )) && crate::db::dep_levels(
            old(self).db_view().contract_deps,
            old(self).registry_names(),
        ).len() == 0;
        let ghost mut iters: int = 0;
        proof {
            assert(f0 =~= self.fetched().subrange(0, f0.len() as int));
        }
        let mut last: usize = usize::MAX;
        loop
            invariant
                self.is_all() == old(self).is_all(),
                self.node_chain() == old(self).node_chain(),
                self.node_scripts() == old(self).node_scripts(),
                f0 == old(self).fetched(),
                f0.is_prefix_of(self.fetched()),
                ch == crate::node::chain_head(old(self).node_chain()),
                cond == (ch is Some && ch->Some_0 < u32::MAX && (forall|l: u32|
                    1 <= l <= ch->Some_0 ==> !crate::db::missing_at(
                        old(self).db_view(),
                        old(self).registry_names(),
                        l,
                    )) && crate::db::dep_levels(
                    old(self).db_view().contract_deps,
                    old(self).registry_names(),
                ).len() == 0),
                iters >= 0,
                (iters > 0 ==> !cond),
                (iters == 0 ==> self.db_view() == old(self).db_view() && self.registry() == old(
                    self,
                ).registry()),
                forall|n2: Seq<char>|
                    #[trigger] old(self).registry_names().contains(n2)
                        ==> self.registry_names().contains(n2),
                forall|s2: Seq<char>|
                    #[trigger] old(self).db_view().schemas.contains(s2)
                        ==> self.db_view().schemas.contains(s2),
                (!old(self).is_all() ==> self.db_view().schemas == old(self).db_view().schemas),
                (!old(self).is_all() ==> self.registry_names() == old(self).registry_names()),
            decreases last,
        {
            let head = match self.node_cli.head() {
                Ok(m) => m,
                Err(e) => {
                    proof {
                        if cond {
                            assert(old(self).node_chain().len() == 0);
                            assert(false);
                        }
                    }
                    return Err(e);
                },
            };
            if head.level == u32::MAX {
                proof {
                    if cond {
                        assert(crate::node::chain_head(self.node_chain()) == Some(head.level));
                        assert(false);
                    }
                }
                return Err(Error::Stalled);
            }
            let config = self.get_config();
            let missing = self.dbcli.get_missing_levels(&config, head.level);
            proof {
                assert(crate::db::contract_names(config@) =~= self.registry_names());
                if cond && iters == 0 && missing@.len() > 0 {
                    assert(missing@.contains(missing@[0]));
                    assert(crate::node::chain_head(self.node_chain()) == Some(head.level));
                    assert(false);
                }
            }
            if missing.len() == 0 {
                match self.exec_dependents() {
                    Ok(()) => {},
                    Err(e) => {
                        proof {
                            if cond && iters == 0 {
                                assert(false);
                            }
                        }
                        return Err(e);
                    },
                }
                proof {
                    lemma_prefix_trans(f0, self.fetched());
                }
                let head2 = match self.node_cli.head() {
                    Ok(m) => m,
                    Err(e) => {
                        proof {
                            if cond {
                                assert(old(self).node_chain().len() == 0);
                                assert(false);
                            }
                        }
                        return Err(e);
                    },
                };
                if head2.level == u32::MAX {
                    proof {
                        if cond {
                            assert(crate::node::chain_head(self.node_chain()) == Some(
                                head2.level,
                            ));
                            assert(false);
                        }
                    }
                    return Err(Error::Stalled);
                }
                let config2 = self.get_config();
                let missing2 = self.dbcli.get_missing_levels(&config2, head2.level);
                proof {
                    assert(crate::db::contract_names(config2@) =~= self.registry_names());
                    if cond && iters == 0 && missing2@.len() > 0 {
                        assert(missing2@.contains(missing2@[0]));
                        assert(crate::node::chain_head(self.node_chain()) == Some(head2.level));
                        assert(false);
                    }
                }
                if missing2.len() == 0 {
                    proof {
                        assert forall|l: u32| 1 <= l <= head2.level implies !crate::db::missing_at(
                            self.db_view(),
                            self.registry_names(),
                            l,
                        ) by {
                            assert(!missing2@.contains(l));
                        }
                    }
                    return Ok(());
                }
                if missing2.len() >= last {
                    proof {
                        if cond {
                            assert(false);
                        }
                    }
                    return Err(Error::Stalled);
                }
                last = missing2.len();
                proof {
                    if cond {
                        assert(false);
                    }
                    iters = iters + 1;
                }
                continue ;
            }
            if missing.len() >= last {
                proof {
                    if cond {
                        assert(false);
                    }
                }
                return Err(Error::Stalled);
            }
            last = missing.len();
            proof {
                if cond {
                    assert(false);
                }
                iters = iters + 1;
            }
            let mut in_range: Vec<u32> = Vec::new();
            let nm = missing.len();
            let mut i: usize = 0;
            while i < nm
                invariant
                    i <= nm,
                    nm == missing.len(),
                    forall|j: int|
                        0 <= j < in_range@.len() ==> 1 <= #[trigger] in_range@[j] < u32::MAX,
                decreases nm - i,
            {
                let l = missing[i];
                if 1 <= l && l < u32::MAX {
                    in_range.push(l);
                }
                i = i + 1;
            }
            let ghost fa = self.fetched();
            match self.exec_levels(num_getters, in_range) {
                Ok(()) => {},
                Err(e) => {
                    return Err(e);
                },
            }
            proof {
                lemma_prefix_trans(f0, self.fetched());
            }
        }
    }

    /// Bootstraps newly configured contracts historically: registers
    /// dependency contracts, creates new schemas, and for each new contract
    /// processes the levels the operation index reports (or every missing
    /// level when no index is configured), filling the gaps as empty.
    ///
    /// On success the result is exactly the contracts whose schemas were
    /// newly created across the passes, every one of them registered and
    /// with its schema in the sink; every stored dependency of the starting
    /// configuration is registered; and every registered contract's schema
    /// exists.  Success is owed when there is nothing to do: no stored
    /// dependencies and every registered schema already created.
    pub fn exec_new_contracts_historically(
        &mut self,
        bcd_settings: Option<(String, String)>,
        num_getters: usize,
    ) -> (r: Result<Vec<ContractID>, Error>)
        ensures
            final(self).is_all() == old(self).is_all(),
            final(self).node_chain() == old(self).node_chain(),
            final(self).node_scripts() == old(self).node_scripts(),
            old(self).fetched().is_prefix_of(final(self).fetched()),
            (r is Ok ==> forall|j: int|
                0 <= j < final(self).registry().len() ==> final(self).db_view().schemas.contains(
                    (#[trigger] final(self).registry()[j]).name,
                )),
            (r matches Ok(cs) ==> forall|j: int|
                0 <= j < cs@.len() ==> !old(self).db_view().schemas.contains(
                    (#[trigger] cs@[j]).name@,
                ) && final(self).db_view().schemas.contains(cs@[j].name@)
                    && final(self).registry_names().contains(cs@[j].name@)),
            (r matches Ok(cs) ==> (!old(self).is_all() ==> forall|s2: Seq<char>|
                #[trigger] final(self).db_view().schemas.contains(s2) <==> (old(
                    self,
                ).db_view().schemas.contains(s2) || crate::db::contract_names(cs@).contains(s2)))),
            (r is Ok ==> forall|n2: Seq<char>|
                crate::db::config_deps(
                    old(self).db_view().contract_deps,
                    old(self).registry_names(),
                ).contains(n2) ==> final(self).registry_names().contains(n2)),
            ((crate::db::config_deps(
                old(self).db_view().contract_deps,
                old(self).registry_names(),
            ).len() == 0 && (forall|j: int|
                0 <= j < old(self).registry().len() ==> old(self).db_view().schemas.contains(
                    (#[trigger] old(self).registry()[j]).name,
                ))) ==> r is Ok),
    {
        let ghost f0 = self.fetched();
        let ghost all0 = old(self).is_all();
        let ghost owedcond = crate::db::config_deps(
            old(self).db_view().contract_deps,
            old(self).registry_names(),
        ).len() == 0 && (forall|j: int|
            0 <= j < old(self).registry().len() ==> old(self).db_view().schemas.contains(
                (#[trigger] old(self).registry()[j]).name,
            ));
        let ghost mut passes: int = 0;
        proof {
            assert(f0 =~= self.fetched().subrange(0, f0.len() as int));
        }
        let use_index = bcd_settings.is_some();
        let mut res: Vec<ContractID> = Vec::new();
        let mut budget: usize = usize::MAX;
        loop
            invariant_except_break
                (passes == 0 ==> *self == *old(self)),
            invariant
                self.is_all() == old(self).is_all(),
                self.node_chain() == old(self).node_chain(),
                self.node_scripts() == old(self).node_scripts(),
                f0 == old(self).fetched(),
                f0.is_prefix_of(self.fetched()),
                all0 == old(self).is_all(),
                owedcond == (crate::db::config_deps(
                    old(self).db_view().contract_deps,
                    old(self).registry_names(),
                ).len() == 0 && (forall|j: int|
                    0 <= j < old(self).registry().len() ==> old(self).db_view().schemas.contains(
                        (#[trigger] old(self).registry()[j]).name,
                    ))),
                passes >= 0,
                (passes > 0 ==> !owedcond),
                (passes > 0 ==> forall|n2: Seq<char>|
                    crate::db::config_deps(
                        old(self).db_view().contract_deps,
                        old(self).registry_names(),
                    ).contains(n2) ==> self.registry_names().contains(n2)),
                (owedcond ==> res@.len() == 0),
                forall|n2: Seq<char>|
                    #[trigger] old(self).registry_names().contains(n2)
                        ==> self.registry_names().contains(n2),
                forall|s2: Seq<char>|
                    #[trigger] old(self).db_view().schemas.contains(s2)
                        ==> self.db_view().schemas.contains(s2),
                forall|j: int|
                    0 <= j < res@.len() ==> !old(self).db_view().schemas.contains(
                        (#[trigger] res@[j]).name@,
                    ) && self.db_view().schemas.contains(res@[j].name@)
                        && self.registry_names().contains(res@[j].name@),
                (!all0 ==> forall|s2: Seq<char>|
                    #[trigger] self.db_view().schemas.contains(s2) <==> (old(
                        self,
                    ).db_view().schemas.contains(s2) || crate::db::contract_names(res@).contains(
                        s2,
                    ))),
            ensures
                forall|n2: Seq<char>|
                    crate::db::config_deps(
                        old(self).db_view().contract_deps,
                        old(self).registry_names(),
                    ).contains(n2) ==> self.registry_names().contains(n2),
                forall|j: int|
                    0 <= j < self.registry().len() ==> self.db_view().schemas.contains(
                        (#[trigger] self.registry()[j]).name,
                    ),
            decreases budget,
        {
            let ghost pre_reg = self.registry();
            let ghost pre_names = self.registry_names();
            match self.add_dependency_contracts() {
                Ok(()) => {},
                Err(e) => {
                    proof {
                        if owedcond && passes == 0 {
                            assert(false);
                        }
                    }
                    return Err(e);
                },
            }
            let new_contracts = match self.create_contract_schemas() {
                Ok(v) => v,
                Err(e) => {
                    return Err(e);
                },
            };
            proof {
                assert forall|n2: Seq<char>|
                    crate::db::config_deps(
                        old(self).db_view().contract_deps,
                        old(self).registry_names(),
                    ).contains(n2) implies self.registry_names().contains(n2) by {
                    if passes > 0 {
                        assert(pre_names.contains(n2));
                    }
                }
                if owedcond && passes == 0 {
                    assert(new_contracts@.len() == 0);
                }
            }
            if new_contracts.len() == 0 {
                proof {
                    assert(crate::db::contract_names(new_contracts@).len() == 0);
                    if !all0 {
                        assert forall|s2: Seq<char>|
                            #[trigger] self.db_view().schemas.contains(s2) <==> (old(
                            self,
                        ).db_view().schemas.contains(s2) || crate::db::contract_names(
                            res@,
                        ).contains(s2)) by {
                            if crate::db::contract_names(new_contracts@).contains(s2) {
                                let q = choose|q: int|
                                    0 <= q < crate::db::contract_names(new_contracts@).len()
                                        && crate::db::contract_names(new_contracts@)[q] == s2;
                            }
                        }
                    }
                }
                break ;
            }
            proof {
                if owedcond {
                    assert(false);
                }
                passes = passes + 1;
            }
            let ghost res_pre = res@;
            let nn = new_contracts.len();
            let mut k2: usize = 0;
            while k2 < nn
                invariant
                    k2 <= nn,
                    nn == new_contracts.len(),
                    res@ == res_pre + new_contracts@.take(k2 as int),
                decreases nn - k2,
            {
                res.push(new_contracts[k2].clone());
                proof {
                    assert(res@ =~= res_pre + new_contracts@.take(k2 + 1));
                }
                k2 = k2 + 1;
            }
            proof {
                assert(new_contracts@.take(nn as int) =~= new_contracts@);
                assert(res@ == res_pre + new_contracts@);
                lemma_contract_names_concat(res_pre, new_contracts@);
                assert forall|j: int|
                    0 <= j < res@.len() implies !old(self).db_view().schemas.contains(
                    (#[trigger] res@[j]).name@,
                ) && self.db_view().schemas.contains(res@[j].name@)
                    && self.registry_names().contains(res@[j].name@) by {
                    if j < res_pre.len() {
                        assert(res@[j] == res_pre[j]);
                    } else {
                        assert(res@[j] == new_contracts@[j - res_pre.len()]);
                        assert(self.registry_names().contains(res@[j].name@));
                        let m = choose|m: int|
                            0 <= m < self.registry().len() && (#[trigger] self.registry()[m]).name
                                == res@[j].name@;
                        assert(self.db_view().schemas.contains(res@[j].name@));
                    }
                }
                if !all0 {
                    assert forall|s2: Seq<char>|
                        #[trigger] self.db_view().schemas.contains(s2) <==> (old(
                        self,
                    ).db_view().schemas.contains(s2) || crate::db::contract_names(res@).contains(
                        s2,
                    )) by {
                        lemma_seq_contains_split(
                            crate::db::contract_names(res_pre),
                            crate::db::contract_names(new_contracts@),
                            s2,
                        );
                    }
                }
            }
            if budget == 0 {
                break ;
            }
            budget = budget - 1;
            let ghost res_snapshot = res@;
            let mut i: usize = 0;
            while i < nn
                invariant
                    i <= nn,
                    nn == new_contracts.len(),
                    res@ == res_snapshot,
                    !owedcond,
                    owedcond == (crate::db::config_deps(
                        old(self).db_view().contract_deps,
                        old(self).registry_names(),
                    ).len() == 0 && (forall|j: int|
                        0 <= j < old(self).registry().len()
                            ==> old(self).db_view().schemas.contains(
                            (#[trigger] old(self).registry()[j]).name,
                        ))),
                    all0 == old(self).is_all(),
                    self.is_all() == old(self).is_all(),
                    self.node_chain() == old(self).node_chain(),
                    self.node_scripts() == old(self).node_scripts(),
                    f0 == old(self).fetched(),
                    f0.is_prefix_of(self.fetched()),
                    forall|n2: Seq<char>|
                        #[trigger] old(self).registry_names().contains(n2)
                            ==> self.registry_names().contains(n2),
                    forall|s2: Seq<char>|
                        #[trigger] old(self).db_view().schemas.contains(s2)
                            ==> self.db_view().schemas.contains(s2),
                    forall|j: int|
                        0 <= j < res@.len() ==> !old(self).db_view().schemas.contains(
                            (#[trigger] res@[j]).name@,
                        ) && self.db_view().schemas.contains(res@[j].name@)
                            && self.registry_names().contains(res@[j].name@),
                    (!all0 ==> forall|s2: Seq<char>|
                        #[trigger] self.db_view().schemas.contains(s2) <==> (old(
                            self,
                        ).db_view().schemas.contains(s2) || crate::db::contract_names(
                            res@,
                        ).contains(s2))),
                    forall|n2: Seq<char>|
                        pre_names.contains(n2) ==> self.registry_names().contains(n2),
                    forall|n2: Seq<char>|
                        crate::db::config_deps(
                            old(self).db_view().contract_deps,
                            old(self).registry_names(),
                        ).contains(n2) ==> self.registry_names().contains(n2),
                decreases nn - i,
            {
                let ghost names_h = self.registry_names();
                let cid = new_contracts[i].clone();
                if use_index {
                    let op_levels = self.node_cli.operation_levels(&cid.address);
                    let mut in_range: Vec<u32> = Vec::new();
                    let no = op_levels.len();
                    let mut k: usize = 0;
                    while k < no
                        invariant
                            k <= no,
                            no == op_levels.len(),
                            forall|j: int|
                                0 <= j < in_range@.len() ==> 1 <= #[trigger] in_range@[j]
                                    < u32::MAX,
                        decreases no - k,
                    {
                        let l = op_levels[k];
                        if 1 <= l && l < u32::MAX {
                            in_range.push(l);
                        }
                        k = k + 1;
                    }
                    let ghost fa = self.fetched();
                    match self.exec_levels(num_getters, in_range) {
                        Ok(()) => {},
                        Err(e) => {
                            return Err(e);
                        },
                    }
                    proof {
                        lemma_prefix_trans(f0, self.fetched());
                    }
                    match self.fill_in_levels(&cid) {
                        Ok(()) => {},
                        Err(e) => {
                            return Err(e);
                        },
                    }
                } else {
                    match self.exec_missing_levels(num_getters) {
                        Ok(()) => {},
                        Err(e) => {
                            return Err(e);
                        },
                    }
                    proof {
                        lemma_prefix_trans(f0, self.fetched());
                    }
                }
                proof {
                    assert forall|n2: Seq<char>|
                        crate::db::config_deps(
                            old(self).db_view().contract_deps,
                            old(self).registry_names(),
                        ).contains(n2) implies self.registry_names().contains(n2) by {
                        assert(names_h.contains(n2));
                    }
                    assert forall|n2: Seq<char>| pre_names.contains(
                        n2,
                    ) implies self.registry_names().contains(n2) by {
                        assert(names_h.contains(n2));
                    }
                }
                i = i + 1;
            }
        }
        let ghost s_exit = *self;
        if res.len() > 0 {
            match self.exec_dependents() {
                Ok(()) => {},
                Err(e) => {
                    proof {
                        if owedcond {
                            assert(false);
                        }
                    }
                    return Err(e);
                },
            }
            proof {
                lemma_prefix_trans(f0, self.fetched());
            }
        }
        proof {
            if !all0 {
                assert(self.registry_names() == s_exit.registry_names());
                assert(self.db_view().schemas == s_exit.db_view().schemas);
                assert(self.registry().len() == s_exit.registry().len());
                assert forall|j: int|
                    0 <= j < self.registry().len() implies self.db_view().schemas.contains(
                    (#[trigger] self.registry()[j]).name,
                ) by {
                    assert(self.registry_names()[j] == self.registry()[j].name);
                    assert(s_exit.registry_names()[j] == s_exit.registry()[j].name);
                    assert(s_exit.db_view().schemas.contains(s_exit.registry()[j].name));
                }
            }
            assert forall|n2: Seq<char>|
                crate::db::config_deps(
                    old(self).db_view().contract_deps,
                    old(self).registry_names(),
                ).contains(n2) implies self.registry_names().contains(n2) by {
                assert(s_exit.registry_names().contains(n2));
            }
        }
        match self.create_contract_schemas() {
            Ok(final_new) => {
                proof {
                    if !all0 {
                        assert(final_new@.len() == 0);
                        assert(crate::db::contract_names(final_new@).len() == 0);
                        assert forall|s2: Seq<char>|
                            #[trigger] self.db_view().schemas.contains(s2) <==> (old(
                            self,
                        ).db_view().schemas.contains(s2) || crate::db::contract_names(
                            res@,
                        ).contains(s2)) by {
                            if crate::db::contract_names(final_new@).contains(s2) {
                                let q = choose|q: int|
                                    0 <= q < crate::db::contract_names(final_new@).len()
                                        && crate::db::contract_names(final_new@)[q] == s2;
                            }
                        }
                    }
                }
            },
            Err(e) => {
                return Err(e);
            },
        }
        Ok(res)
    }

    /// One status line for a processed level: the level and the total
    /// number of contract calls seen in it.
    pub fn print_status(level: u32, contract_results: &Vec<SaveLevelResult>) -> (r: String)
        requires
            contract_results@.len() < 0x1_0000_0000,
        ensures
            r@ == "level "@ + crate::names::spec_digits(level as nat) + ": "@
                + crate::names::spec_digits(spec_total_txs(contract_results@) as nat)
                + " contract calls"@,
    {
        let ghost rs = contract_results@;
        let mut total: u64 = 0;
        let n = contract_results.len();
        let mut i: usize = 0;
        while i < n
            invariant
                i <= n,
                n == contract_results@.len(),
                n < 0x1_0000_0000,
                rs == contract_results@,
                total == spec_total_txs(rs.take(i as int)),
                total <= (i as int) * 0x1_0000_0000,
            decreases n - i,
        {
            proof {
                assert(rs.take(i + 1).drop_last() =~= rs.take(i as int));
                assert(rs.take(i + 1).last() == rs[i as int]);
                assert(rs[i as int].tx_count <= 0xffff_ffffu64) by {};
                assert(total + rs[i as int].tx_count <= (i + 1) * 0x1_0000_0000) by (nonlinear_arith)
                    requires
                        total <= (i as int) * 0x1_0000_0000,
                        rs[i as int].tx_count <= 0x1_0000_0000,
                ;
                assert(((i + 1) as int) * 0x1_0000_0000 <= 0x1_0000_0000 * 0x1_0000_0000)
                    by (nonlinear_arith)
                    requires
                        i + 1 <= 0x1_0000_0000,
                ;
            }
            total = total + contract_results[i].tx_count as u64;
            i = i + 1;
        }
        proof {
            assert(rs.take(n as int) =~= rs);
        }
        let mut out = String::from_str("level ");
        let d1 = crate::names::u64_string(level as u64);
        out.append(d1.as_str());
        out.append(": ");
        let d2 = crate::names::u64_string(total);
        out.append(d2.as_str());
        out.append(" contract calls");
        proof {
            assert(out@ =~= "level "@ + crate::names::spec_digits(level as nat) + ": "@
                + crate::names::spec_digits(spec_total_txs(rs) as nat) + " contract calls"@);
        }
        out
    }
}

/// The total operation count over a level's per-contract results.
pub open spec fn spec_total_txs(rs: Seq<SaveLevelResult>) -> int
    decreases rs.len(),
{
    if rs.len() == 0 {
        0int
    } else {
        spec_total_txs(rs.drop_last()) + rs.last().tx_count
    }
}

/// Concatenation holds an element exactly when one side does.
proof fn lemma_seq_contains_split(a: Seq<Seq<char>>, b: Seq<Seq<char>>, x: Seq<char>)
    ensures
        (a + b).contains(x) <==> (a.contains(x) || b.contains(x)),
{
    if (a + b).contains(x) {
        let i = choose|i: int| 0 <= i < (a + b).len() && (a + b)[i] == x;
        if i < a.len() {
            assert(a[i] == x);
        } else {
            assert(b[i - a.len()] == x);
        }
    }
    if a.contains(x) {
        let i = choose|i: int| 0 <= i < a.len() && a[i] == x;
        assert((a + b)[i] == x);
    }
    if b.contains(x) {
        let i = choose|i: int| 0 <= i < b.len() && b[i] == x;
        assert((a + b)[a.len() + i] == x);
    }
}

/// The names of concatenated contract lists are the concatenated names.
proof fn lemma_contract_names_concat(a: Seq<ContractID>, b: Seq<ContractID>)
    ensures
        crate::db::contract_names(a + b) == crate::db::contract_names(a)
            + crate::db::contract_names(b),
{
    assert(crate::db::contract_names(a + b) =~= crate::db::contract_names(a)
        + crate::db::contract_names(b));
}

/// Prefix-of is transitive through any midpoint already related.
proof fn lemma_prefix_trans(a: Seq<u32>, c: Seq<u32>)
    requires
        exists|b: Seq<u32>| a.is_prefix_of(b) && (#[trigger] b.is_prefix_of(c)),
    ensures
        a.is_prefix_of(c),
{
    let b = choose|b: Seq<u32>| a.is_prefix_of(b) && (#[trigger] b.is_prefix_of(c));
    assert(a =~= c.subrange(0, a.len() as int));
}

impl Executor {
    /// The stored row for a level, as the sink holds it.
    pub fn get_db_level(&self, level: u32) -> (r: Option<LevelMeta>)
        ensures
            match r {
                Some(m) => find_level(self.db_view().levels, level) == Some(level_info(m)),
                None => find_level(self.db_view().levels, level) is None,
            },
    {
        self.dbcli.get_level(level)
    }

    /// Whether the sink marks `level` as seen for the contract `name`.
    pub fn has_db_contract_level(&self, name: &String, level: u32) -> (r: bool)
        ensures
            r == has_contract_level(self.db_view().contract_levels, name@, level),
    {
        self.dbcli.has_level_row(name, level)
    }
}

/// What the continuous loop does after one poll of the node's head.
#[derive(Clone, Copy, Debug, PartialEq, Eq, Structural)]
pub enum HeadAction {
    /// The chain is ahead: process the levels `from..=upto`, oldest first.
    Process { from: u32, upto: u32 },
    /// The stored head sits at the chain head's level but disagrees on the
    /// hash: delete it and rebuild the derived tables, then look again.
    RollbackHead { level: u32 },
    /// The chain is not ahead of the sink: wait for the next block.
    Wait,
}

/// The continuous-mode decision for one poll of the node's head against the
/// stored head: a chain that is ahead means processing the levels in
/// between, oldest first; equal heights with different hashes mean rolling
/// the stored head back; anything else means waiting.
pub fn continuous_step(chain_head: &LevelMeta, db_head: &LevelMeta) -> (r: HeadAction)
    ensures
        chain_head.level > db_head.level ==> r == (HeadAction::Process {
            from: (db_head.level + 1) as u32,
            upto: chain_head.level,
        }),
        (chain_head.level == db_head.level && level_info(*chain_head).hash != level_info(
            *db_head,
        ).hash) ==> r == (HeadAction::RollbackHead { level: db_head.level }),
        (chain_head.level == db_head.level && level_info(*chain_head).hash == level_info(
            *db_head,
        ).hash) ==> r == HeadAction::Wait,
        chain_head.level < db_head.level ==> r == HeadAction::Wait,
{
    if chain_head.level > db_head.level {
        HeadAction::Process { from: db_head.level + 1, upto: chain_head.level }
    } else if chain_head.level == db_head.level {
        let same = match (&chain_head.hash, &db_head.hash) {
            (Some(a), Some(b)) => a.eq(b),
            (None, None) => true,
            _ => false,
        };
        if same {
            HeadAction::Wait
        } else {
            HeadAction::RollbackHead { level: db_head.level }
        }
    } else {
        HeadAction::Wait
    }
}

impl Executor {
    /// The sink's stored head: the row of the highest stored level.
    pub fn get_db_head(&self) -> (r: Option<LevelMeta>)
        ensures
            match r {
                Some(m) => crate::db::max_level(self.db_view().levels) == Some(m.level)
                    && find_level(self.db_view().levels, m.level) == Some(level_info(m)),
                None => crate::db::max_level(self.db_view().levels) is None,
            },
    {
        self.dbcli.get_head()
    }

    /// The node's head metadata.
    pub fn get_chain_head(&self) -> (r: Result<LevelMeta, Error>)
        ensures
            match r {
                Ok(m) => crate::node::chain_head(self.node_chain()) == Some(m.level),
                Err(e) => e == Error::EmptyChain && self.node_chain().len() == 0,
            },
    {
        self.node_cli.head()
    }

    /// Rolls the stored head back after a reorg at equal height: deletes
    /// the level's row and rebuilds every contract's derived tables.
    pub fn rollback_db_level(&mut self, level: u32)
        ensures
            final(self).is_all() == old(self).is_all(),
            final(self).node_chain() == old(self).node_chain(),
            final(self).node_scripts() == old(self).node_scripts(),
            final(self).fetched() == old(self).fetched(),
            final(self).registry() == old(self).registry(),
            find_level(final(self).db_view().levels, level) is None,
            forall|l2: u32|
                l2 != level ==> find_level(final(self).db_view().levels, l2) == find_level(
                    old(self).db_view().levels,
                    l2,
                ),
            (chain_consistent(old(self).db_view().levels) ==> chain_consistent(
                final(self).db_view().levels,
            )),
            final(self).db_view().schemas == old(self).db_view().schemas,
            final(self).db_view().derived_rebuilds >= old(self).db_view().derived_rebuilds,
            (old(self).db_view().derived_rebuilds + old(self).registry().len() <= u64::MAX
                ==> final(self).db_view().derived_rebuilds == old(self).db_view().derived_rebuilds
                + old(self).registry().len()),
    {
        self.dbcli.delete_level(level);
        proof {
            crate::db::lemma_levels_without(old(self).db_view().levels, level);
            if chain_consistent(old(self).db_view().levels) {
                crate::db::lemma_delete_preserves_chain(old(self).db_view().levels, level);
            }
        }
        self.repopulate_derived_tables();
    }
}

impl Executor {
    /// The chain grew or reorganized: the node now serves `block` for its
    /// level.
    pub fn node_add_block(&mut self, block: Block)
        ensures
            final(self).node_chain() == old(self).node_chain().push(block_info(block)),
            final(self).node_scripts() == old(self).node_scripts(),
            final(self).fetched() == old(self).fetched(),
            final(self).db_view() == old(self).db_view(),
            final(self).registry() == old(self).registry(),
            final(self).is_all() == old(self).is_all(),
            final(self).floor() == old(self).floor(),
    {
        self.node_cli.add_block(block);
    }
}

} // verus!
