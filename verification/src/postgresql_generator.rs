//! Renders the derived schema as PostgreSQL DDL: one `CREATE TABLE` with a
//! parent foreign key and an index per table, a `_live` view per non-root
//! table, and the fixed set of common bookkeeping tables.

use vstd::prelude::*;
use vstd::string::StringExecFns;

use crate::names::{
    find_last_dot, has_parent, join_strings, lemma_concat_push, lemma_string_views_push,
    parent_seg, spec_join, str_equal, string_views,
};
use crate::table::{Column, Table};
use crate::typing::SimpleExprTy;

verus! {

/// Relies on `String::push`: appends exactly the given character.
pub assume_specification[ std::string::String::push ](s: &mut std::string::String, c: char)
    ensures
        final(s)@ == old(s)@.push(c),
;

/// Emits PostgreSQL DDL for tables of the derived schema.
#[derive(Clone, Debug)]
pub struct PostgresqlGenerator {}

/// `s` wrapped in double quotes.
pub open spec fn spec_quote_id(s: Seq<char>) -> Seq<char> {
    seq!['"'] + s + seq!['"']
}

/// The SQL column definition for a column, by its leaf type; `Stop`
/// columns are not materialized.
pub open spec fn spec_create_sql(c: Column) -> Option<Seq<char>> {
    let name = spec_quote_id(c.name@);
    match c.column_type {
        SimpleExprTy::Address => Some(name + " VARCHAR(127) NULL"@),
        SimpleExprTy::Bool => Some(name + " BOOLEAN NULL"@),
        SimpleExprTy::Bytes => Some(name + " TEXT NULL"@),
        SimpleExprTy::Int => Some(name + " NUMERIC(64) NULL"@),
        SimpleExprTy::KeyHash => Some(name + " TEXT NULL"@),
        SimpleExprTy::Mutez => Some(name + " NUMERIC(64) NULL"@),
        SimpleExprTy::Nat => Some(name + " NUMERIC(64) NULL"@),
        SimpleExprTy::Stop => None,
        SimpleExprTy::String => Some(name + " TEXT NULL"@),
        SimpleExprTy::Signature => Some(name + " TEXT NULL"@),
        SimpleExprTy::Contract => Some(name + " TEXT NULL"@),
        SimpleExprTy::Timestamp => Some(name + " TIMESTAMP WITH TIME ZONE NULL"@),
        SimpleExprTy::Unit => Some(name + " VARCHAR(128) NULL"@),
    }
}

/// The column definitions of `cs`, in order, `Stop` columns dropped.
pub open spec fn spec_column_sqls(cs: Seq<Column>) -> Seq<Seq<char>>
    decreases cs.len(),
{
    if cs.len() == 0 {
        Seq::<Seq<char>>::empty()
    } else {
        let rest = spec_column_sqls(cs.drop_last());
        match spec_create_sql(cs.last()) {
            Some(sql) => rest.push(sql),
            None => rest,
        }
    }
}

/// The names of the materialized columns of `cs`, in order.
pub open spec fn spec_column_names(cs: Seq<Column>) -> Seq<Seq<char>>
    decreases cs.len(),
{
    if cs.len() == 0 {
        Seq::<Seq<char>>::empty()
    } else {
        let rest = spec_column_names(cs.drop_last());
        if spec_create_sql(cs.last()) is Some {
            rest.push(cs.last().name@)
        } else {
            rest
        }
    }
}

/// Each name wrapped in double quotes.
pub open spec fn quoted_views(xs: Seq<Seq<char>>) -> Seq<Seq<char>> {
    xs.map_values(|c: Seq<char>| spec_quote_id(c))
}

/// `s` with every single quote doubled and every backslash doubled, for a
/// SQL string literal.
pub open spec fn spec_escaped(s: Seq<char>) -> Seq<char>
    decreases s.len(),
{
    if s.len() == 0 {
        Seq::<char>::empty()
    } else {
        spec_escaped(s.drop_last()) + (if s.last() == '\'' {
            seq!['\'', '\'']
        } else if s.last() == '\\' {
            seq!['\\', '\\']
        } else {
            seq![s.last()]
        })
    }
}

impl PostgresqlGenerator {
    pub fn new() -> (r: Self)
        ensures
            r == (PostgresqlGenerator {  }),
    {
        Self {  }
    }

    /// See [`spec_create_sql`].
    pub fn create_sql(&self, column: Column) -> (r: Option<String>)
        ensures
            match r {
                Some(s) => spec_create_sql(column) == Some(s@),
                None => spec_create_sql(column) is None && column.column_type
                    == SimpleExprTy::Stop,
            },
    {
        let name = Self::quote_id(column.name.as_str());
        match column.column_type {
            SimpleExprTy::Address => Some(self.address(&name)),
            SimpleExprTy::Bool => Some(self.bool(&name)),
            SimpleExprTy::Bytes => Some(self.bytes(&name)),
            SimpleExprTy::Int => Some(self.int_col(&name)),
            SimpleExprTy::KeyHash => Some(self.string(&name)),
            SimpleExprTy::Mutez => Some(self.numeric(&name)),
            SimpleExprTy::Nat => Some(self.nat_col(&name)),
            SimpleExprTy::Stop => None,
            SimpleExprTy::String => Some(self.string(&name)),
            SimpleExprTy::Signature => Some(self.string(&name)),
            SimpleExprTy::Contract => Some(self.string(&name)),
            SimpleExprTy::Timestamp => Some(self.timestamp(&name)),
            SimpleExprTy::Unit => Some(self.unit(&name)),
        }
    }

    /// See [`spec_quote_id`].
    pub fn quote_id(s: &str) -> (r: String)
        ensures
            r@ == spec_quote_id(s@),
    {
        let mut q = String::from_str("\"");
        q.append(s);
        q.append("\"");
        proof {
            reveal_strlit("\"");
            assert(q@ =~= spec_quote_id(s@));
        }
        q
    }

    pub fn address(&self, name: &String) -> (r: String)
        ensures
            r@ == name@ + " VARCHAR(127) NULL"@,
    {
        let mut s = name.clone();
        s.append(" VARCHAR(127) NULL");
        s
    }

    pub fn bool(&self, name: &String) -> (r: String)
        ensures
            r@ == name@ + " BOOLEAN NULL"@,
    {
        let mut s = name.clone();
        s.append(" BOOLEAN NULL");
        s
    }

    pub fn bytes(&self, name: &String) -> (r: String)
        ensures
            r@ == name@ + " TEXT NULL"@,
    {
        let mut s = name.clone();
        s.append(" TEXT NULL");
        s
    }

    pub fn int_col(&self, name: &String) -> (r: String)
        ensures
            r@ == name@ + " NUMERIC(64) NULL"@,
    {
        let mut s = name.clone();
        s.append(" NUMERIC(64) NULL");
        s
    }

    pub fn nat_col(&self, name: &String) -> (r: String)
        ensures
            r@ == name@ + " NUMERIC(64) NULL"@,
    {
        let mut s = name.clone();
        s.append(" NUMERIC(64) NULL");
        s
    }

    pub fn numeric(&self, name: &String) -> (r: String)
        ensures
            r@ == name@ + " NUMERIC(64) NULL"@,
    {
        let mut s = name.clone();
        s.append(" NUMERIC(64) NULL");
        s
    }

    pub fn string(&self, name: &String) -> (r: String)
        ensures
            r@ == name@ + " TEXT NULL"@,
    {
        let mut s = name.clone();
        s.append(" TEXT NULL");
        s
    }

    pub fn timestamp(&self, name: &String) -> (r: String)
        ensures
            r@ == name@ + " TIMESTAMP WITH TIME ZONE NULL"@,
    {
        let mut s = name.clone();
        s.append(" TIMESTAMP WITH TIME ZONE NULL");
        s
    }

    pub fn unit(&self, name: &String) -> (r: String)
        ensures
            r@ == name@ + " VARCHAR(128) NULL"@,
    {
        let mut s = name.clone();
        s.append(" VARCHAR(128) NULL");
        s
    }

    /// Opens the `CREATE TABLE` statement for `name`.
    pub fn start_table(&self, name: &str) -> (r: String)
        ensures
            r@ == "CREATE TABLE "@ + spec_quote_id(name@) + " ("@,
    {
        let mut s = String::from_str("CREATE TABLE ");
        let q = Self::quote_id(name);
        s.append(q.as_str());
        s.append(" (");
        proof {
            assert(s@ =~= "CREATE TABLE "@ + spec_quote_id(name@) + " ("@);
        }
        s
    }

    /// Closes a `CREATE TABLE` statement: the implicit row id and
    /// transaction context key every table carries.
    pub fn end_table(&self) -> (r: String)
        ensures
            r@ == "\tid SERIAL PRIMARY KEY,\n\ttx_context_id INTEGER NOT NULL\n);"@,
    {
        String::from_str("\tid SERIAL PRIMARY KEY,\n\ttx_context_id INTEGER NOT NULL\n);")
    }

    /// The column definitions of `table`: the parent's foreign-key column
    /// first (for a non-root table), then each materialized column.
    #[verifier::loop_isolation(false)]
    pub fn create_columns(&self, table: &Table) -> (r: Vec<String>)
        ensures
            string_views(r@) == (match Self::spec_parent_name(table.name@) {
                Some(p) => seq![spec_quote_id(p + "_id"@) + " INTEGER"@],
                None => Seq::<Seq<char>>::empty(),
            }) + spec_column_sqls(table.columns@),
    {
        let ghost pcols: Seq<Seq<char>> = match Self::spec_parent_name(table.name@) {
            Some(p) => seq![spec_quote_id(p + "_id"@) + " INTEGER"@],
            None => Seq::<Seq<char>>::empty(),
        };
        let mut cols: Vec<String> = Vec::new();
        match Self::parent_name(table.name.as_str()) {
            Some(x) => {
                let mut idc = x;
                idc.append("_id");
                let mut c = Self::quote_id(idc.as_str());
                c.append(" INTEGER");
                cols.push(c);
                proof {
                    assert(string_views(cols@) =~= pcols);
                }
            },
            None => {
                proof {
                    assert(string_views(cols@) =~= pcols);
                }
            },
        }
        proof {
            assert(spec_column_sqls(table.columns@.take(0)) =~= Seq::<Seq<char>>::empty());
            assert(pcols + spec_column_sqls(table.columns@.take(0)) =~= pcols);
        }
        let n = table.columns.len();
        let mut i: usize = 0;
        while i < n
            invariant
                i <= n,
                n == table.columns.len(),
                string_views(cols@) == pcols + spec_column_sqls(
                    table.columns@.take(i as int),
                ),
            decreases n - i,
        {
            let col = table.columns[i].clone();
            let got = self.create_sql(col);
            proof {
                let ghost cs1 = table.columns@.take(i + 1);
                assert(cs1.drop_last() =~= table.columns@.take(i as int));
                assert(cs1.last() == table.columns@[i as int]);
                assert(spec_column_sqls(cs1) == (match spec_create_sql(cs1.last()) {
                    Some(sql) => spec_column_sqls(cs1.drop_last()).push(sql),
                    None => spec_column_sqls(cs1.drop_last()),
                }));
            }
            let ghost prev = cols@;
            if let Some(val) = got {
                cols.push(val);
            }
            proof {
                if spec_create_sql(table.columns@[i as int]) is Some {
                    lemma_string_views_push(
                        prev,
                        cols@,
                        spec_create_sql(table.columns@[i as int])->Some_0,
                    );
                    lemma_concat_push(
                        pcols,
                        spec_column_sqls(table.columns@.take(i as int)),
                        spec_create_sql(table.columns@[i as int])->Some_0,
                    );
                }
                assert(string_views(cols@) == pcols + spec_column_sqls(table.columns@.take(i + 1)));
            }
            i = i + 1;
        }
        proof {
            assert(table.columns@.take(n as int) =~= table.columns@);
        }
        cols
    }

    /// The quoted names of the materialized columns, the parent key last.
    #[verifier::loop_isolation(false)]
    pub fn table_sql_columns(&self, table: &Table) -> (r: Vec<String>)
        ensures
            string_views(r@) == quoted_views(
                spec_column_names(table.columns@) + (match Self::spec_parent_name(table.name@) {
                    Some(p) => seq![p + "_id"@],
                    None => Seq::<Seq<char>>::empty(),
                }),
            ),
    {
        let mut cols: Vec<String> = Vec::new();
        proof {
            assert(spec_column_names(table.columns@.take(0)) =~= Seq::<Seq<char>>::empty());
            assert(string_views(cols@) =~= quoted_views(spec_column_names(table.columns@.take(0))));
        }
        let n = table.columns.len();
        let mut i: usize = 0;
        while i < n
            invariant
                i <= n,
                n == table.columns.len(),
                string_views(cols@) == quoted_views(
                    spec_column_names(table.columns@.take(i as int)),
                ),
            decreases n - i,
        {
            let col = table.columns[i].clone();
            let keep = self.create_sql(col).is_some();
            proof {
                let ghost cs1 = table.columns@.take(i + 1);
                assert(cs1.drop_last() =~= table.columns@.take(i as int));
                assert(cs1.last() == table.columns@[i as int]);
                assert(spec_column_names(cs1) == (if spec_create_sql(cs1.last()) is Some {
                    spec_column_names(cs1.drop_last()).push(cs1.last().name@)
                } else {
                    spec_column_names(cs1.drop_last())
                }));
            }
            let ghost prev = cols@;
            if keep {
                cols.push(Self::quote_id(table.columns[i].name.as_str()));
            }
            proof {
                if spec_create_sql(table.columns@[i as int]) is Some {
                    lemma_string_views_push(
                        prev,
                        cols@,
                        spec_quote_id(table.columns@[i as int].name@),
                    );
                    assert(quoted_views(spec_column_names(table.columns@.take(i + 1)))
                        =~= quoted_views(spec_column_names(table.columns@.take(i as int))).push(
                        spec_quote_id(table.columns@[i as int].name@),
                    ));
                }
                assert(string_views(cols@) == quoted_views(
                    spec_column_names(table.columns@.take(i + 1)),
                ));
            }
            i = i + 1;
        }
        proof {
            assert(table.columns@.take(n as int) =~= table.columns@);
        }
        let ghost prev2 = cols@;
        match Self::parent_name(table.name.as_str()) {
            Some(x) => {
                let mut idc = x;
                idc.append("_id");
                cols.push(Self::quote_id(idc.as_str()));
                proof {
                    let ghost p = Self::spec_parent_name(table.name@)->Some_0;
                    lemma_string_views_push(prev2, cols@, spec_quote_id(p + "_id"@));
                    assert(string_views(cols@) =~= quoted_views(
                        spec_column_names(table.columns@) + seq![p + "_id"@],
                    ));
                }
            },
            None => {
                proof {
                    assert(spec_column_names(table.columns@) + Seq::<Seq<char>>::empty()
                        =~= spec_column_names(table.columns@));
                }
            },
        }
        cols
    }

    /// The index columns of `table`: its own, then the parent key.
    #[verifier::loop_isolation(false)]
    pub fn indices(&self, table: &Table) -> (r: Vec<String>)
        ensures
            string_views(r@) == string_views(table.indices@) + (
            match Self::spec_parent_name(table.name@) {
                Some(p) => seq![spec_quote_id(p + "_id"@)],
                None => Seq::<Seq<char>>::empty(),
            }),
    {
        let mut indices: Vec<String> = Vec::new();
        let n = table.indices.len();
        let mut i: usize = 0;
        while i < n
            invariant
                i <= n,
                n == table.indices.len(),
                string_views(indices@) == string_views(table.indices@.take(i as int)),
            decreases n - i,
        {
            let ghost prev = indices@;
            indices.push(table.indices[i].clone());
            proof {
                lemma_string_views_push(prev, indices@, table.indices@[i as int]@);
                assert(string_views(table.indices@.take(i + 1)) =~= string_views(
                    table.indices@.take(i as int),
                ).push(table.indices@[i as int]@));
            }
            i = i + 1;
        }
        proof {
            assert(table.indices@.take(n as int) =~= table.indices@);
        }
        match self.parent_key(table) {
            Some(parent_key) => {
                indices.push(parent_key);
            },
            None => {},
        }
        proof {
            assert(string_views(indices@) =~= string_views(table.indices@) + (
            match Self::spec_parent_name(table.name@) {
                Some(p) => seq![spec_quote_id(p + "_id"@)],
                None => Seq::<Seq<char>>::empty(),
            }));
        }
        indices
    }

    /// The index statement over [`Self::indices`], `UNIQUE` when the table
    /// has a uniqueness constraint.
    pub fn create_index(&self, table: &Table) -> (r: String)
        ensures
            r@ == "CREATE "@ + (if table.has_uniqueness {
                "UNIQUE"@
            } else {
                ""@
            }) + " INDEX ON "@ + spec_quote_id(table.name@) + "("@ + spec_join(
                string_views(table.indices@) + (match Self::spec_parent_name(
                    table.name@,
                ) {
                    Some(p) => seq![spec_quote_id(p + "_id"@)],
                    None => Seq::<Seq<char>>::empty(),
                }),
                ", "@,
            ) + ");\n"@,
    {
        let uniqueness_constraint = if table.has_uniqueness {
            "UNIQUE"
        } else {
            ""
        };
        let idx = self.indices(table);
        let joined = join_strings(&idx, ", ");
        let mut s = String::from_str("CREATE ");
        s.append(uniqueness_constraint);
        s.append(" INDEX ON ");
        let q = Self::quote_id(table.name.as_str());
        s.append(q.as_str());
        s.append("(");
        s.append(joined.as_str());
        s.append(");\n");
        proof {
            assert(s@ =~= "CREATE "@ + (if table.has_uniqueness {
                "UNIQUE"@
            } else {
                ""@
            }) + " INDEX ON "@ + spec_quote_id(table.name@) + "("@ + spec_join(
                string_views(table.indices@) + (match Self::spec_parent_name(
                    table.name@,
                ) {
                    Some(p) => seq![spec_quote_id(p + "_id"@)],
                    None => Seq::<Seq<char>>::empty(),
                }),
                ", "@,
            ) + ");\n"@);
        }
        s
    }

    /// The parent of a dotted table name: everything before the last dot.
    pub open spec fn spec_parent_name(name: Seq<char>) -> Option<Seq<char>> {
        if has_parent(name) {
            Some(parent_seg(name))
        } else {
            None
        }
    }

    /// See [`Self::spec_parent_name`].
    pub fn parent_name(name: &str) -> (r: Option<String>)
        ensures
            match r {
                Some(p) => Self::spec_parent_name(name@) == Some(p@),
                None => Self::spec_parent_name(name@) is None,
            },
    {
        match find_last_dot(name) {
            Some(pos) => Some(String::from_str(name.substring_char(0, pos))),
            None => None,
        }
    }

    /// The quoted foreign-key column referencing the parent table.
    pub fn parent_key(&self, table: &Table) -> (r: Option<String>)
        ensures
            match r {
                Some(k) => Self::spec_parent_name(table.name@) matches Some(p) && k@
                    == spec_quote_id(p + "_id"@),
                None => Self::spec_parent_name(table.name@) is None,
            },
    {
        match Self::parent_name(table.name.as_str()) {
            Some(parent) => {
                let mut idc = parent;
                idc.append("_id");
                Some(Self::quote_id(idc.as_str()))
            },
            None => None,
        }
    }

    /// The `FOREIGN KEY` clause binding a child table to its parent.
    pub fn create_foreign_key_constraint(&self, table: &Table) -> (r: Option<String>)
        ensures
            match r {
                Some(fk) => Self::spec_parent_name(table.name@) matches Some(p) && fk@
                    == "FOREIGN KEY ("@ + spec_quote_id(p + "_id"@) + ") REFERENCES "@
                    + spec_quote_id(p) + "(id)"@,
                None => Self::spec_parent_name(table.name@) is None,
            },
    {
        match Self::parent_name(table.name.as_str()) {
            Some(parent) => {
                let mut idc = parent.clone();
                idc.append("_id");
                let mut s = String::from_str("FOREIGN KEY (");
                let qk = Self::quote_id(idc.as_str());
                s.append(qk.as_str());
                s.append(") REFERENCES ");
                let qp = Self::quote_id(parent.as_str());
                s.append(qp.as_str());
                s.append("(id)");
                proof {
                    assert(s@ =~= "FOREIGN KEY ("@ + spec_quote_id(parent@ + "_id"@)
                        + ") REFERENCES "@ + spec_quote_id(parent@) + "(id)"@);
                }
                Some(s)
            },
            None => None,
        }
    }

    /// The fixed bookkeeping tables every deployment shares.
    pub open spec fn common_tables_sql() -> Seq<char> {
        "CREATE TABLE levels (\n\tlevel INTEGER PRIMARY KEY,\n\thash VARCHAR(60),\n\tprev_hash VARCHAR(60),\n\tbaked_at TIMESTAMP WITH TIME ZONE\n);\nCREATE TABLE contracts (\n\tname TEXT PRIMARY KEY,\n\taddress VARCHAR(127) NOT NULL,\n\torigination_level INTEGER\n);\nCREATE TABLE contract_levels (\n\tcontract TEXT NOT NULL REFERENCES contracts(name),\n\tlevel INTEGER NOT NULL REFERENCES levels(level),\n\tis_origination BOOLEAN NOT NULL DEFAULT FALSE,\n\tPRIMARY KEY (contract, level)\n);\nCREATE TABLE tx_contexts (\n\tid INTEGER PRIMARY KEY,\n\tlevel INTEGER NOT NULL REFERENCES levels(level),\n\tcontract TEXT NOT NULL,\n\toperation_hash TEXT NOT NULL,\n\toperation_group_number INTEGER NOT NULL,\n\toperation_number INTEGER NOT NULL,\n\tcontent_number INTEGER NOT NULL,\n\tinternal_number INTEGER,\n\tsource TEXT,\n\tdestination TEXT,\n\tentrypoint TEXT\n);\nCREATE TABLE max_id (\n\tmax_id INTEGER\n);\nINSERT INTO max_id (max_id) VALUES (1);\nCREATE TABLE bigmap_keyhashes (\n\ttx_context_id INTEGER NOT NULL REFERENCES tx_contexts(id),\n\tbigmap_id INTEGER NOT NULL,\n\tkey_hash TEXT NOT NULL,\n\tkey TEXT NOT NULL,\n\tPRIMARY KEY (bigmap_id, tx_context_id, key_hash)\n);\nCREATE TABLE bigmap_contract_deps (\n\tlevel INTEGER NOT NULL,\n\tcontract_name TEXT NOT NULL,\n\tbigmap_id INTEGER NOT NULL,\n\tPRIMARY KEY (level, contract_name, bigmap_id)\n);\n"@
    }

    /// See [`Self::common_tables_sql`].
    pub fn create_common_tables(&self) -> (r: String)
        ensures
            r@ == Self::common_tables_sql(),
    {
        String::from_str(
            "CREATE TABLE levels (\n\tlevel INTEGER PRIMARY KEY,\n\thash VARCHAR(60),\n\tprev_hash VARCHAR(60),\n\tbaked_at TIMESTAMP WITH TIME ZONE\n);\nCREATE TABLE contracts (\n\tname TEXT PRIMARY KEY,\n\taddress VARCHAR(127) NOT NULL,\n\torigination_level INTEGER\n);\nCREATE TABLE contract_levels (\n\tcontract TEXT NOT NULL REFERENCES contracts(name),\n\tlevel INTEGER NOT NULL REFERENCES levels(level),\n\tis_origination BOOLEAN NOT NULL DEFAULT FALSE,\n\tPRIMARY KEY (contract, level)\n);\nCREATE TABLE tx_contexts (\n\tid INTEGER PRIMARY KEY,\n\tlevel INTEGER NOT NULL REFERENCES levels(level),\n\tcontract TEXT NOT NULL,\n\toperation_hash TEXT NOT NULL,\n\toperation_group_number INTEGER NOT NULL,\n\toperation_number INTEGER NOT NULL,\n\tcontent_number INTEGER NOT NULL,\n\tinternal_number INTEGER,\n\tsource TEXT,\n\tdestination TEXT,\n\tentrypoint TEXT\n);\nCREATE TABLE max_id (\n\tmax_id INTEGER\n);\nINSERT INTO max_id (max_id) VALUES (1);\nCREATE TABLE bigmap_keyhashes (\n\ttx_context_id INTEGER NOT NULL REFERENCES tx_contexts(id),\n\tbigmap_id INTEGER NOT NULL,\n\tkey_hash TEXT NOT NULL,\n\tkey TEXT NOT NULL,\n\tPRIMARY KEY (bigmap_id, tx_context_id, key_hash)\n);\nCREATE TABLE bigmap_contract_deps (\n\tlevel INTEGER NOT NULL,\n\tcontract_name TEXT NOT NULL,\n\tbigmap_id INTEGER NOT NULL,\n\tPRIMARY KEY (level, contract_name, bigmap_id)\n);\n",
        )
    }

    /// The whole `CREATE TABLE` statement for `table`: header, columns,
    /// foreign key, footer and index, joined by newlines.  A non-root table
    /// always declares its `<parent>_id` column and the `FOREIGN KEY`
    /// clause referencing its parent.
    pub fn create_table_definition(&self, table: &Table) -> (r: String)
        ensures
            r@ == "CREATE TABLE "@ + spec_quote_id(table.name@) + " ("@ + "\n"@ + "\t"@
                + spec_join(
                (match Self::spec_parent_name(table.name@) {
                    Some(p) => seq![spec_quote_id(p + "_id"@) + " INTEGER"@],
                    None => Seq::<Seq<char>>::empty(),
                }) + spec_column_sqls(table.columns@) + (match Self::spec_parent_name(table.name@) {
                    Some(p) => seq![
                        "FOREIGN KEY ("@ + spec_quote_id(p + "_id"@) + ") REFERENCES "@
                            + spec_quote_id(p) + "(id)"@,
                    ],
                    None => Seq::<Seq<char>>::empty(),
                }),
                ",\n\t"@,
            ) + ",\n\t"@ + "\n"@ + "\tid SERIAL PRIMARY KEY,\n\ttx_context_id INTEGER NOT NULL\n);"@
                + "\n"@ + ("CREATE "@ + (if table.has_uniqueness {
                "UNIQUE"@
            } else {
                ""@
            }) + " INDEX ON "@ + spec_quote_id(table.name@) + "("@ + spec_join(
                string_views(table.indices@) + (match Self::spec_parent_name(
                    table.name@,
                ) {
                    Some(p) => seq![spec_quote_id(p + "_id"@)],
                    None => Seq::<Seq<char>>::empty(),
                }),
                ", "@,
            ) + ");\n"@),
    {
        let mut columns: Vec<String> = self.create_columns(table);
        match self.create_foreign_key_constraint(table) {
            Some(fk) => {
                columns.push(fk);
            },
            None => {},
        }
        proof {
            assert(string_views(columns@) =~= (match Self::spec_parent_name(
                table.name@,
            ) {
                Some(p) => seq![spec_quote_id(p + "_id"@) + " INTEGER"@],
                None => Seq::<Seq<char>>::empty(),
            }) + spec_column_sqls(table.columns@) + (match Self::spec_parent_name(table.name@) {
                Some(p) => seq![
                    "FOREIGN KEY ("@ + spec_quote_id(p + "_id"@) + ") REFERENCES "@
                        + spec_quote_id(p) + "(id)"@,
                ],
                None => Seq::<Seq<char>>::empty(),
            }));
        }
        let body = join_strings(&columns, ",\n\t");
        let mut s = self.start_table(table.name.as_str());
        s.append("\n");
        s.append("\t");
        s.append(body.as_str());
        s.append(",\n\t");
        s.append("\n");
        let footer = self.end_table();
        s.append(footer.as_str());
        s.append("\n");
        let index = self.create_index(table);
        s.append(index.as_str());
        s
    }

    /// The `_live` view of a non-root table: its columns at the latest
    /// transaction context level.  The root `storage` table has no view.
    pub fn create_view_definition(&self, table: &Table) -> (r: String)
        ensures
            table.name@ == "storage"@ ==> r@ == ""@,
            table.name@ != "storage"@ ==> r@ == "\nCREATE VIEW "@ + spec_quote_id(
                table.name@ + "_live"@,
            ) + " AS (\n    SELECT\n        "@ + spec_join(
                (spec_column_names(table.columns@) + (match Self::spec_parent_name(table.name@) {
                    Some(p) => seq![p + "_id"@],
                    None => Seq::<Seq<char>>::empty(),
                })).map_values(|c: Seq<char>| spec_quote_id(c)),
                ", "@,
            ) + "\n    FROM "@ + spec_quote_id(table.name@)
                + " t1\n    JOIN tx_contexts ctx\n      ON  ctx.id = t1.tx_context_id\n      AND ctx.level = (\n            SELECT\n                MAX(ctx.level) AS _level\n            FROM "@
                + spec_quote_id(table.name@)
                + " custom_table\n            JOIN tx_contexts ctx ON custom_table.tx_context_id = ctx.id\n        )\n);\n"@,
    {
        if str_equal(table.name.as_str(), "storage") {
            String::from_str("")
        } else {
            let columns = self.table_sql_columns(table);
            let joined = join_strings(&columns, ", ");
            let mut vname = table.name.clone();
            vname.append("_live");
            let mut s = String::from_str("\nCREATE VIEW ");
            let qv = Self::quote_id(vname.as_str());
            s.append(qv.as_str());
            s.append(" AS (\n    SELECT\n        ");
            s.append(joined.as_str());
            s.append("\n    FROM ");
            let qt = Self::quote_id(table.name.as_str());
            s.append(qt.as_str());
            s.append(
                " t1\n    JOIN tx_contexts ctx\n      ON  ctx.id = t1.tx_context_id\n      AND ctx.level = (\n            SELECT\n                MAX(ctx.level) AS _level\n            FROM ",
            );
            s.append(qt.as_str());
            s.append(
                " custom_table\n            JOIN tx_contexts ctx ON custom_table.tx_context_id = ctx.id\n        )\n);\n",
            );
            s
        }
    }

    /// See [`spec_escaped`].
    #[verifier::loop_isolation(false)]
    pub fn escape(s: &str) -> (r: String)
        ensures
            r@ == spec_escaped(s@),
    {
        let n = s.unicode_len();
        let mut acc = String::new();
        let mut i: usize = 0;
        while i < n
            invariant
                i <= n,
                n == s@.len(),
                acc@ == spec_escaped(s@.take(i as int)),
            decreases n - i,
        {
            let c = s.get_char(i);
            if c == '\'' {
                acc.push('\'');
                acc.push('\'');
            } else if c == '\\' {
                acc.push('\\');
                acc.push('\\');
            } else {
                acc.push(c);
            }
            proof {
                assert(s@.take(i + 1).drop_last() =~= s@.take(i as int));
                assert(s@.take(i + 1).last() == s@[i as int]);
                assert(acc@ =~= spec_escaped(s@.take(i + 1)));
            }
            i = i + 1;
        }
        proof {
            assert(s@.take(n as int) =~= s@);
        }
        acc
    }
}

impl Default for PostgresqlGenerator {
    fn default() -> (r: Self)
        ensures
            r == (PostgresqlGenerator {  }),
    {
        Self::new()
    }
}

} // verus!
