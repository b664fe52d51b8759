use tzindexer::bcd::{bcd_page_step, dedup_levels, select_network_level, BCDClient};
use tzindexer::block::{Block, LevelMeta};
use tzindexer::config::{parse_u32, range, sort_levels, ContractID};
use tzindexer::db::DBClient;
use tzindexer::executor::{continuous_step, Executor, HeadAction, SaveLevelResult};
use tzindexer::fetcher::FetcherPool;
use tzindexer::node::NodeClient;
use tzindexer::postgresql_generator::PostgresqlGenerator;
use tzindexer::relational::{
    ASTBuilder, Context, RelationalAST, RelationalEntry, SchemaError,
};
use tzindexer::table::{Column, Table};
use tzindexer::typing::{ComplexExprTy, Ele, ExprTy, SimpleExprTy};

fn simple(n: Option<String>, t: SimpleExprTy) -> Ele {
    Ele { expr_type: ExprTy::SimpleExprTy(t), name: n }
}

fn or(n: Option<String>, l: Ele, r: Ele) -> Ele {
    Ele {
        expr_type: ExprTy::ComplexExprTy(ComplexExprTy::OrEnumeration(Box::new(l), Box::new(r))),
        name: n,
    }
}

fn pair(n: Option<String>, l: Ele, r: Ele) -> Ele {
    Ele {
        expr_type: ExprTy::ComplexExprTy(ComplexExprTy::Pair(Box::new(l), Box::new(r))),
        name: n,
    }
}

fn big_map(n: Option<String>, k: Ele, v: Ele) -> Ele {
    Ele {
        expr_type: ExprTy::ComplexExprTy(ComplexExprTy::BigMap(Box::new(k), Box::new(v))),
        name: n,
    }
}

fn block(level: u32, hash: &str, prev_hash: &str, origs: Vec<&str>, active: Vec<(&str, u32)>) -> Block {
    Block {
        level,
        hash: hash.to_string(),
        prev_hash: prev_hash.to_string(),
        baked_at: 1000 + level as u64,
        originations: origs.into_iter().map(|s| s.to_string()).collect(),
        active: active.into_iter().map(|(s, c)| (s.to_string(), c)).collect(),
    }
}

#[test]
fn test_storage() {}

#[test]
fn test_relational_ast_builder() {
    struct TestCase {
        name: String,
        ele: Ele,
        exp: Option<RelationalAST>,
    }
    let tests: Vec<TestCase> = vec![
        TestCase {
            name: "simple type with name".to_string(),
            ele: simple(Some("contract_owner".to_string()), SimpleExprTy::String),
            exp: Some(RelationalAST::Leaf {
                rel_entry: RelationalEntry {
                    table_name: "storage".to_string(),
                    column_name: "contract_owner".to_string(),
                    column_type: ExprTy::SimpleExprTy(SimpleExprTy::String),
                    value: None,
                    is_index: false,
                },
            }),
        },
        TestCase {
            name: "simple type without name (resulting column name is generated based on type: string)".to_string(),
            ele: simple(None, SimpleExprTy::String),
            exp: Some(RelationalAST::Leaf {
                rel_entry: RelationalEntry {
                    table_name: "storage".to_string(),
                    column_name: "string".to_string(),
                    column_type: ExprTy::SimpleExprTy(SimpleExprTy::String),
                    value: None,
                    is_index: false,
                },
            }),
        },
        TestCase {
            name: "simple type without name (resulting column name is generated based on type: mutez)".to_string(),
            ele: simple(None, SimpleExprTy::Mutez),
            exp: Some(RelationalAST::Leaf {
                rel_entry: RelationalEntry {
                    table_name: "storage".to_string(),
                    column_name: "mutez".to_string(),
                    column_type: ExprTy::SimpleExprTy(SimpleExprTy::Mutez),
                    value: None,
                    is_index: false,
                },
            }),
        },
        TestCase {
            name: "OrEnumeration containing Units stays in parent table".to_string(),
            ele: or(None, simple(None, SimpleExprTy::Unit), simple(None, SimpleExprTy::Unit)),
            exp: Some(RelationalAST::OrEnumeration {
                or_unfold: Some(RelationalEntry {
                    table_name: "storage".to_string(),
                    column_name: "noname".to_string(),
                    column_type: ExprTy::SimpleExprTy(SimpleExprTy::String),
                    value: None,
                    is_index: false,
                }),
                left_table: None,
                left_ast: Box::new(RelationalAST::Leaf {rel_entry: RelationalEntry {
                    table_name: "storage".to_string(),
                    column_name: "noname_1".to_string(),
                    column_type: ExprTy::SimpleExprTy(SimpleExprTy::Unit),
                    value: None,
                    is_index: false,
                }}),
                right_table: None,
                right_ast: Box::new(RelationalAST::Leaf {rel_entry: RelationalEntry {
                    table_name: "storage".to_string(),
                    column_name: "noname_2".to_string(),
                    column_type: ExprTy::SimpleExprTy(SimpleExprTy::Unit),
                    value: None,
                    is_index: false,
                }}),
            }),
        },
        TestCase {
            name: "OrEnumeration containing non units creates child tables".to_string(),
            ele: or(None, simple(None, SimpleExprTy::Unit), simple(None, SimpleExprTy::Nat)),
            exp: Some(RelationalAST::OrEnumeration {
                or_unfold: Some(RelationalEntry {
                    table_name: "storage".to_string(),
                    column_name: "noname".to_string(),
                    column_type: ExprTy::SimpleExprTy(SimpleExprTy::String),
                    value: None,
                    is_index: false,
                }),
                left_table: None,
                left_ast: Box::new(RelationalAST::Leaf {rel_entry: RelationalEntry {
                    table_name: "storage".to_string(),
                    column_name: "noname_1".to_string(),
                    column_type: ExprTy::SimpleExprTy(SimpleExprTy::Unit),
                    value: None,
                    is_index: false,
                }}),
                right_table: Some("storage.nat".to_string()),
                right_ast: Box::new(RelationalAST::Leaf {rel_entry: RelationalEntry {
                    table_name: "storage.nat".to_string(),
                    column_name: "nat".to_string(),
                    column_type: ExprTy::SimpleExprTy(SimpleExprTy::Nat),
                    value: None,
                    is_index: false,
                }}),
            }),
        },
    ];

    for tc in tests {
        println!("test case: {}", tc.name);

        let got = ASTBuilder::new().build_relational_ast(&Context::init(), &tc.ele);
        if tc.exp.is_none() {
            assert!(got.is_err());
            continue;
        }
        assert_eq!(tc.exp.unwrap(), got.unwrap());
    }
}

#[test]
fn scenario_pair_of_leaves() {
    // pair (nat %balance) (address %owner): one table, two columns
    let ele = pair(
        None,
        simple(Some("balance".to_string()), SimpleExprTy::Nat),
        simple(Some("owner".to_string()), SimpleExprTy::Address),
    );
    let got = ASTBuilder::new()
        .build_relational_ast(&Context::init(), &ele)
        .unwrap();
    match got {
        RelationalAST::Pair { left_ast, right_ast } => {
            match *left_ast {
                RelationalAST::Leaf { rel_entry } => {
                    assert_eq!(rel_entry.table_name, "storage");
                    assert_eq!(rel_entry.column_name, "balance");
                },
                other => panic!("left is not a leaf: {:?}", other),
            }
            match *right_ast {
                RelationalAST::Leaf { rel_entry } => {
                    assert_eq!(rel_entry.table_name, "storage");
                    assert_eq!(rel_entry.column_name, "owner");
                },
                other => panic!("right is not a leaf: {:?}", other),
            }
        },
        other => panic!("not a pair: {:?}", other),
    }
    let gen = PostgresqlGenerator::new();
    let balance = gen
        .create_sql(Column { name: "balance".to_string(), column_type: SimpleExprTy::Nat })
        .unwrap();
    assert_eq!(balance, "\"balance\" NUMERIC(64) NULL");
    let owner = gen
        .create_sql(Column { name: "owner".to_string(), column_type: SimpleExprTy::Address })
        .unwrap();
    assert_eq!(owner, "\"owner\" VARCHAR(127) NULL");
}

#[test]
fn scenario_big_map_child_table() {
    // big_map (address %holder) (nat): child table storage.noname with an
    // indexed key column idx_holder
    let ele = big_map(
        None,
        simple(Some("holder".to_string()), SimpleExprTy::Address),
        simple(None, SimpleExprTy::Nat),
    );
    let got = ASTBuilder::new()
        .build_relational_ast(&Context::init(), &ele)
        .unwrap();
    match got {
        RelationalAST::BigMap { table, key_ast, value_ast } => {
            assert_eq!(table, "storage.noname");
            match *key_ast {
                RelationalAST::Leaf { rel_entry } => {
                    assert_eq!(rel_entry.table_name, "storage.noname");
                    assert_eq!(rel_entry.column_name, "idx_holder");
                    assert!(rel_entry.is_index);
                },
                other => panic!("key is not a leaf: {:?}", other),
            }
            match *value_ast {
                RelationalAST::Leaf { rel_entry } => {
                    assert_eq!(rel_entry.column_name, "nat");
                    assert!(!rel_entry.is_index);
                },
                other => panic!("value is not a leaf: {:?}", other),
            }
        },
        other => panic!("not a big map: {:?}", other),
    }
}

#[test]
fn scenario_unit_only_enumeration() {
    // or (unit %mint) (unit %burn): one tag column, no child tables, each
    // arm carrying its annotation as the fixed discriminator value
    let ele = or(
        None,
        simple(Some("mint".to_string()), SimpleExprTy::Unit),
        simple(Some("burn".to_string()), SimpleExprTy::Unit),
    );
    let got = ASTBuilder::new()
        .build_relational_ast(&Context::init(), &ele)
        .unwrap();
    match got {
        RelationalAST::OrEnumeration { or_unfold, left_table, left_ast, right_table, right_ast } => {
            let tag = or_unfold.unwrap();
            assert_eq!(tag.table_name, "storage");
            assert_eq!(tag.column_name, "noname");
            assert_eq!(tag.column_type, ExprTy::SimpleExprTy(SimpleExprTy::String));
            assert!(left_table.is_none());
            assert!(right_table.is_none());
            match *left_ast {
                RelationalAST::Leaf { rel_entry } => {
                    assert_eq!(rel_entry.value, Some("mint".to_string()));
                },
                other => panic!("left is not a leaf: {:?}", other),
            }
            match *right_ast {
                RelationalAST::Leaf { rel_entry } => {
                    assert_eq!(rel_entry.value, Some("burn".to_string()));
                },
                other => panic!("right is not a leaf: {:?}", other),
            }
        },
        other => panic!("not an enumeration: {:?}", other),
    }
}

#[test]
fn unindexable_key_is_a_schema_error() {
    // a list cannot key a big map
    let listkey = Ele {
        expr_type: ExprTy::ComplexExprTy(ComplexExprTy::List(
            false,
            Box::new(simple(None, SimpleExprTy::Nat)),
        )),
        name: None,
    };
    let got = ASTBuilder::new().build_index(&Context::init(), &listkey);
    assert_eq!(got.unwrap_err(), SchemaError::Unindexable);
}

fn executor_with_contract(origination: Option<u32>) -> (Executor, ContractID) {
    let cid = ContractID { address: "KT1aaa".to_string(), name: "main".to_string() };
    let mut node = NodeClient::new();
    node.set_script(
        "KT1aaa".to_string(),
        simple(Some("owner".to_string()), SimpleExprTy::Address),
    );
    node.add_block(block(132091, "h91", "h90", vec!["KT1aaa"], vec![("KT1aaa", 1)]));
    node.add_block(block(132100, "h100", "h99", vec![], vec![("KT1aaa", 2)]));
    let mut db = DBClient::new();
    if let Some(l) = origination {
        db.set_origination(&cid, l);
    }
    let ex = Executor::new(node, db, "postgres://localhost/db", false, None);
    (ex, cid)
}

#[test]
fn scenario_floor_suppression() {
    // registering a contract originated at 132091 keeps levels below its
    // floor away from the fetchers
    let (mut ex, cid) = executor_with_contract(Some(132091));
    ex.add_contract(&cid).unwrap();
    ex.exec_levels(2, vec![132000, 132091, 132100]).unwrap();
    assert_eq!(ex.fetched_levels(), vec![132091, 132100]);
}

#[test]
fn scenario_no_floor_without_origination() {
    let (mut ex, cid) = executor_with_contract(None);
    ex.add_contract(&cid).unwrap();
    let kept = ex.levels_to_fetch(&vec![132000, 132091, 132100]);
    assert_eq!(kept, vec![132000, 132091, 132100]);
}

fn chain_node() -> NodeClient {
    let mut node = NodeClient::new();
    node.set_script("KT1bbb".to_string(), simple(None, SimpleExprTy::Nat));
    node.add_block(block(100, "h100", "h99", vec![], vec![("KT1bbb", 1)]));
    node.add_block(block(101, "h101", "h100", vec![], vec![]));
    node.add_block(block(102, "h102", "h101", vec![], vec![("KT1bbb", 3)]));
    node
}

#[test]
fn scenario_out_of_order_ingestion_keeps_chain() {
    // ingesting 100..102 in arbitrary arrival order leaves a consistent
    // predecessor-hash chain
    let cid = ContractID { address: "KT1bbb".to_string(), name: "c".to_string() };
    let mut ex = Executor::new(chain_node(), DBClient::new(), "", false, None);
    ex.add_contract(&cid).unwrap();
    ex.exec_levels(2, vec![101, 100, 102]).unwrap();
    let l100 = ex.get_db_level(100).unwrap();
    let l101 = ex.get_db_level(101).unwrap();
    let l102 = ex.get_db_level(102).unwrap();
    assert_eq!(l101.prev_hash, l100.hash);
    assert_eq!(l102.prev_hash, l101.hash);
    assert!(ex.has_db_contract_level(&"c".to_string(), 100));
    assert!(ex.has_db_contract_level(&"c".to_string(), 101));
    assert!(ex.has_db_contract_level(&"c".to_string(), 102));
}

#[test]
fn scenario_idempotent_per_level_persistence() {
    // processing the same level twice leaves what one processing leaves
    let cid = ContractID { address: "KT1bbb".to_string(), name: "c".to_string() };
    let mut ex = Executor::new(chain_node(), DBClient::new(), "", false, None);
    ex.add_contract(&cid).unwrap();
    ex.exec_levels(1, vec![100]).unwrap();
    let once = ex.get_db_level(100).unwrap();
    ex.exec_levels(1, vec![100]).unwrap();
    let twice = ex.get_db_level(100).unwrap();
    assert_eq!(once, twice);
    assert!(ex.has_db_contract_level(&"c".to_string(), 100));
}

#[test]
fn scenario_reorg_recovery() {
    // the db holds the old chain; the node reorganized levels 100 and 101
    // (101 keeps its hash, so 102 still matches).  Re-ingesting 101 trips
    // on the stored 100, which is deleted and reprocessed; afterwards the
    // predecessor-hash invariant holds again.
    let cid = ContractID { address: "KT1bbb".to_string(), name: "c".to_string() };
    let mut ex = Executor::new(chain_node(), DBClient::new(), "", false, None);
    ex.add_contract(&cid).unwrap();
    ex.exec_levels(1, vec![100, 101, 102]).unwrap();
    assert_eq!(ex.get_db_level(100).unwrap().hash, Some("h100".to_string()));
    ex.node_add_block(block(100, "h100b", "h99", vec![], vec![]));
    ex.node_add_block(block(101, "h101", "h100b", vec![], vec![]));
    let res = ex.exec_level(101, true, false);
    assert!(res.is_ok());
    let l100 = ex.get_db_level(100).unwrap();
    let l101 = ex.get_db_level(101).unwrap();
    let l102 = ex.get_db_level(102).unwrap();
    assert_eq!(l100.hash, Some("h100b".to_string()));
    assert_eq!(l101.prev_hash, l100.hash);
    assert_eq!(l102.prev_hash, l101.hash);
}

#[test]
fn print_status_formats_totals() {
    let cid = ContractID { address: "KT1x".to_string(), name: "x".to_string() };
    let results = vec![
        SaveLevelResult { level: 7, contract_id: cid, is_origination: false, tx_count: 5 },
    ];
    let s = Executor::print_status(7, &results);
    assert_eq!(s, "level 7: 5 contract calls");
}

#[test]
fn generator_quoting_and_columns() {
    assert_eq!(PostgresqlGenerator::quote_id("a"), "\"a\"");
    let gen = PostgresqlGenerator::new();
    assert!(gen
        .create_sql(Column { name: "x".to_string(), column_type: SimpleExprTy::Stop })
        .is_none());
    assert_eq!(
        gen.create_sql(Column { name: "ts".to_string(), column_type: SimpleExprTy::Timestamp })
            .unwrap(),
        "\"ts\" TIMESTAMP WITH TIME ZONE NULL"
    );
}

#[test]
fn generator_parent_linkage() {
    // a dotted table declares its parent's key and a foreign key to it
    let gen = PostgresqlGenerator::new();
    let t = Table {
        name: "storage.ledger".to_string(),
        columns: vec![Column { name: "nat".to_string(), column_type: SimpleExprTy::Nat }],
        indices: vec!["\"idx_owner\"".to_string()],
        has_uniqueness: true,
    };
    assert_eq!(PostgresqlGenerator::parent_name("storage.ledger"), Some("storage".to_string()));
    assert_eq!(PostgresqlGenerator::parent_name("storage"), None);
    let cols = gen.create_columns(&t);
    assert_eq!(cols[0], "\"storage_id\" INTEGER");
    assert_eq!(
        gen.create_foreign_key_constraint(&t).unwrap(),
        "FOREIGN KEY (\"storage_id\") REFERENCES \"storage\"(id)"
    );
    assert_eq!(
        gen.create_index(&t),
        "CREATE UNIQUE INDEX ON \"storage.ledger\"(\"idx_owner\", \"storage_id\");\n"
    );
    let ddl = gen.create_table_definition(&t);
    assert!(ddl.starts_with("CREATE TABLE \"storage.ledger\" ("));
    assert!(ddl.contains("\"nat\" NUMERIC(64) NULL"));
    assert!(ddl.contains("FOREIGN KEY (\"storage_id\") REFERENCES \"storage\"(id)"));
}

#[test]
fn generator_views() {
    let gen = PostgresqlGenerator::new();
    let root = Table {
        name: "storage".to_string(),
        columns: vec![],
        indices: vec![],
        has_uniqueness: false,
    };
    assert_eq!(gen.create_view_definition(&root), "");
    let child = Table {
        name: "storage.x".to_string(),
        columns: vec![Column { name: "nat".to_string(), column_type: SimpleExprTy::Nat }],
        indices: vec![],
        has_uniqueness: false,
    };
    let view = gen.create_view_definition(&child);
    assert!(view.contains("CREATE VIEW \"storage.x_live\""));
    assert!(view.contains("\"nat\", \"storage_id\""));
}

#[test]
fn generator_escape_doubles_quotes_and_backslashes() {
    assert_eq!(PostgresqlGenerator::escape("a'b\\c"), "a''b\\\\c");
    assert_eq!(PostgresqlGenerator::escape(""), "");
    assert_eq!(PostgresqlGenerator::escape("plain"), "plain");
}

#[test]
fn backpressure_never_exceeds_twice_the_workers() {
    let mut p = FetcherPool::new(2);
    let mut max_in_flight = 0usize;
    // drive the pool: queue and fetch as greedily as possible
    for _ in 0..20 {
        p.send_level();
        p.send_level();
        p.start_fetch();
        p.start_fetch();
        p.finish_fetch();
        let in_flight = p.fetching + p.ready;
        if in_flight > max_in_flight {
            max_in_flight = in_flight;
        }
    }
    assert!(max_in_flight <= 4);
    // drain
    while p.consume() {}
    assert_eq!(p.ready, 0);
}

#[test]
fn bcd_client_and_paging_helpers() {
    let c = BCDClient::new(
        "https://api".to_string(),
        "mainnet".to_string(),
        "KT1zzz".to_string(),
    );
    assert_eq!(c.timeout_secs, 20);
    assert_eq!(c.network, "mainnet");
    assert_eq!(dedup_levels(&vec![5, 5, 6, 6, 6, 7, 5]), vec![5, 6, 7, 5]);
    let head = vec![
        ("ghostnet".to_string(), 11u32),
        ("mainnet".to_string(), 22u32),
    ];
    assert_eq!(select_network_level(&head, &"mainnet".to_string()), Some(22));
    assert_eq!(select_network_level(&head, &"other".to_string()), None);
}

#[test]
fn level_list_parsing() {
    assert_eq!(parse_u32("0"), Some(0));
    assert_eq!(parse_u32("4294967295"), Some(u32::MAX));
    assert_eq!(parse_u32("4294967296"), None);
    assert_eq!(parse_u32(""), None);
    assert_eq!(parse_u32("12a"), None);
    assert_eq!(range("1,2,3"), Some(vec![1, 2, 3]));
    assert_eq!(range("1-3"), Some(vec![1, 2, 3]));
    assert_eq!(range("5,1-3,4"), Some(vec![1, 2, 3, 4, 5]));
    assert_eq!(range("3-1"), Some(vec![]));
    assert_eq!(range("x"), None);
    assert_eq!(sort_levels(vec![3, 1, 2, 1]), vec![1, 1, 2, 3]);
}

#[test]
fn missing_script_is_reported() {
    let cid = ContractID { address: "KT1nope".to_string(), name: "n".to_string() };
    let mut ex = Executor::new(NodeClient::new(), DBClient::new(), "", false, None);
    assert_eq!(ex.add_contract(&cid).unwrap_err(), tzindexer::error::Error::ScriptMissing);
}

#[test]
fn unindexable_script_is_reported() {
    let cid = ContractID { address: "KT1bad".to_string(), name: "b".to_string() };
    let mut node = NodeClient::new();
    // a big map keyed by a list cannot be mapped to a schema
    let bad = big_map(
        None,
        Ele {
            expr_type: ExprTy::ComplexExprTy(ComplexExprTy::List(
                false,
                Box::new(simple(None, SimpleExprTy::Nat)),
            )),
            name: None,
        },
        simple(None, SimpleExprTy::Nat),
    );
    node.set_script("KT1bad".to_string(), bad);
    let mut ex = Executor::new(node, DBClient::new(), "", false, None);
    assert_eq!(
        ex.add_contract(&cid).unwrap_err(),
        tzindexer::error::Error::Schema(SchemaError::Unindexable)
    );
}

#[test]
fn duplicate_annotations_get_numeric_suffixes() {
    // two big maps annotated the same way get distinct table names
    let ele = pair(
        None,
        big_map(
            Some("ledger".to_string()),
            simple(Some("k".to_string()), SimpleExprTy::Address),
            simple(None, SimpleExprTy::Nat),
        ),
        big_map(
            Some("ledger".to_string()),
            simple(Some("k".to_string()), SimpleExprTy::Address),
            simple(None, SimpleExprTy::Nat),
        ),
    );
    let got = ASTBuilder::new()
        .build_relational_ast(&Context::init(), &ele)
        .unwrap();
    match got {
        RelationalAST::Pair { left_ast, right_ast } => {
            let lt = left_ast.table_entry().unwrap();
            let rt = right_ast.table_entry().unwrap();
            assert_eq!(lt, "storage.ledger");
            assert_eq!(rt, "storage.ledger_1");
        },
        other => panic!("not a pair: {:?}", other),
    }
}

#[test]
fn common_tables_cover_the_bookkeeping_surface() {
    let gen = PostgresqlGenerator::new();
    let sql = gen.create_common_tables();
    for table in [
        "CREATE TABLE levels",
        "CREATE TABLE contracts",
        "CREATE TABLE contract_levels",
        "CREATE TABLE tx_contexts",
        "CREATE TABLE max_id",
        "CREATE TABLE bigmap_keyhashes",
        "CREATE TABLE bigmap_contract_deps",
    ] {
        assert!(sql.contains(table), "missing {}", table);
    }
}

#[test]
fn block_activity_queries() {
    let b = block(7, "h", "p", vec!["KT1o"], vec![("KT1a", 2), ("KT1b", 0)]);
    assert!(b.has_contract_origination(&"KT1o".to_string()));
    assert!(!b.has_contract_origination(&"KT1a".to_string()));
    assert!(b.is_contract_active(&"KT1a".to_string()));
    assert!(!b.is_contract_active(&"KT1o".to_string()));
    assert_eq!(b.tx_count(&"KT1a".to_string()), 2);
    assert_eq!(b.tx_count(&"KT1z".to_string()), 0);
    assert_eq!(b.active_contracts(), vec!["KT1a".to_string(), "KT1b".to_string()]);
    let m: LevelMeta = b.meta();
    assert_eq!(m.level, 7);
    assert_eq!(m.hash, Some("h".to_string()));
}

#[test]
fn origination_updates_floor_and_db() {
    // processing the origination level records the origination and lifts
    // the contract's floor
    let (mut ex, cid) = executor_with_contract(None);
    ex.add_contract(&cid).unwrap();
    ex.exec_levels(1, vec![132091]).unwrap();
    assert!(ex.has_db_contract_level(&"main".to_string(), 132091));
    // after the origination was observed, lower levels are suppressed
    ex.exec_levels(1, vec![132000]).unwrap();
    assert_eq!(ex.fetched_levels(), vec![132091]);
}

#[test]
fn contract_list_validation() {
    let a = ContractID { address: "KT1a".to_string(), name: "one".to_string() };
    let b = ContractID { address: "KT1b".to_string(), name: "two".to_string() };
    let b2 = ContractID { address: "KT1c".to_string(), name: "two".to_string() };
    assert!(!tzindexer::config::validate_contracts(&vec![]));
    assert!(tzindexer::config::validate_contracts(&vec![a.clone()]));
    assert!(tzindexer::config::validate_contracts(&vec![a.clone(), b.clone()]));
    // two contracts under one name clash
    assert!(!tzindexer::config::validate_contracts(&vec![a, b, b2]));
}

fn meta(level: u32, hash: &str) -> LevelMeta {
    LevelMeta {
        level,
        hash: Some(hash.to_string()),
        prev_hash: Some("p".to_string()),
        baked_at: Some(0),
    }
}

#[test]
fn continuous_decisions() {
    // chain ahead: process the gap, oldest first
    assert_eq!(
        continuous_step(&meta(105, "h105"), &meta(102, "h102")),
        HeadAction::Process { from: 103, upto: 105 }
    );
    // equal heights, equal hashes: wait
    assert_eq!(continuous_step(&meta(102, "h102"), &meta(102, "h102")), HeadAction::Wait);
    // equal heights, different hashes: roll the stored head back
    assert_eq!(
        continuous_step(&meta(102, "other"), &meta(102, "h102")),
        HeadAction::RollbackHead { level: 102 }
    );
    // chain behind: wait
    assert_eq!(continuous_step(&meta(101, "h101"), &meta(102, "h102")), HeadAction::Wait);
}

#[test]
fn bcd_paging_step() {
    let (levels, done) = bcd_page_step(&vec![9, 9, 7, 7, 7, 5]);
    assert_eq!(levels, vec![9, 7, 5]);
    assert!(!done);
    let (empty, done2) = bcd_page_step(&vec![]);
    assert_eq!(empty, Vec::<u32>::new());
    assert!(done2);
}

#[test]
fn dotted_annotations_are_rejected() {
    // a dotted annotation could forge another table's dotted path
    let cid = ContractID { address: "KT1dot".to_string(), name: "dot".to_string() };
    let mut node = NodeClient::new();
    node.set_script(
        "KT1dot".to_string(),
        big_map(
            Some("a.b".to_string()),
            simple(Some("k".to_string()), SimpleExprTy::Address),
            simple(None, SimpleExprTy::Nat),
        ),
    );
    let mut ex = Executor::new(node, DBClient::new(), "", false, None);
    assert_eq!(
        ex.add_contract(&cid).unwrap_err(),
        tzindexer::error::Error::Schema(SchemaError::DottedAnnotation)
    );
}

#[test]
fn head_rollback_deletes_the_level() {
    let mut ex = Executor::new(chain_node(), DBClient::new(), "", false, None);
    let cid = ContractID { address: "KT1bbb".to_string(), name: "bbb".to_string() };
    ex.add_contract(&cid).unwrap();
    ex.exec_levels(1, vec![100, 101]).unwrap();
    assert_eq!(ex.get_db_head().unwrap().level, 101);
    ex.rollback_db_level(101);
    assert_eq!(ex.get_db_head().unwrap().level, 100);
    assert!(ex.get_db_level(101).is_none());
}

#[test]
fn missing_levels_complete_the_range() {
    // the bootstrap keeps going until no level up to the head is missing
    let cid = ContractID { address: "KT1bbb".to_string(), name: "bbb".to_string() };
    let mut db = DBClient::new();
    db.set_origination(&cid, 100);
    let mut ex = Executor::new(chain_node(), db, "", false, None);
    ex.add_contract(&cid).unwrap();
    ex.exec_missing_levels(1).unwrap();
    for l in [100u32, 101, 102] {
        assert!(ex.has_db_contract_level(&"bbb".to_string(), l));
    }
}

#[test]
fn range_denotes_exactly_the_listed_levels() {
    assert_eq!(range("7"), Some(vec![7]));
    assert_eq!(range("2-2,1"), Some(vec![1, 2]));
    assert_eq!(range("1-2-3"), None);
    assert_eq!(range(""), None);
    assert_eq!(range("1,,2"), None);
    assert_eq!(range("4294967295"), Some(vec![u32::MAX]));
    // an inclusive range cannot end at the largest level
    assert_eq!(range("4294967294-4294967295"), None);
}

#[test]
fn historical_bootstrap_reports_new_schemas() {
    // the first bootstrap creates the contract's schema and processes its
    // levels; a second run finds nothing new and changes nothing
    let cid = ContractID { address: "KT1bbb".to_string(), name: "bbb".to_string() };
    let mut db = DBClient::new();
    db.set_origination(&cid, 100);
    let mut ex = Executor::new(chain_node(), db, "", false, None);
    ex.add_contract(&cid).unwrap();
    let new1 = ex.exec_new_contracts_historically(None, 1).unwrap();
    assert_eq!(new1.len(), 1);
    assert_eq!(new1[0].name, "bbb".to_string());
    for l in [100u32, 101, 102] {
        assert!(ex.has_db_contract_level(&"bbb".to_string(), l));
    }
    let new2 = ex.exec_new_contracts_historically(None, 1).unwrap();
    assert_eq!(new2.len(), 0);
}

#[test]
fn empty_contract_list_fails_registration() {
    // a missing script is the only way registration fails; the error names it
    let cid = ContractID { address: "KT1zzz".to_string(), name: "zzz".to_string() };
    let mut ex = Executor::new(NodeClient::new(), DBClient::new(), "", false, None);
    assert_eq!(
        ex.add_missing_contracts(&vec![cid]).unwrap_err(),
        tzindexer::error::Error::ScriptMissing
    );
}
