//! Derives a relational schema from a storage type tree: a `RelationalAST`
//! of tables and columns with stable, collision-free names.
//!
//! Table names are dotted paths (`storage.ledger.balances`); the segment
//! after the last dot is registered in a global registry and suffixed with
//! `_1`, `_2`, ... in first-seen order on collision.  Column names are
//! registered per table the same way.

use vstd::prelude::*;
use vstd::string::StringExecFns;

use crate::names::{
    clone_opt_string, dot_free, find_last_dot, has_parent, last_seg,
    lemma_push_fresh_keeps_distinct, lemma_suffixed_pairs_bounded, lemma_suffixes_bounded,
    parent_seg, spec_suffixed, str_equal, suffixed_name,
};
use crate::typing::{get_column_name, spec_type_column_name, ComplexExprTy, Ele, ExprTy,
    SimpleExprTy};

verus! {

/// A schema cannot be derived: an index position holds a type that cannot
/// be used as a key (not simple, not a pair, not an or-enumeration), or an
/// annotation contains a dot, which would forge another table's dotted
/// path.
#[derive(Clone, Copy, Debug, PartialEq, Eq, Structural)]
pub enum SchemaError {
    Unindexable,
    DottedAnnotation,
}

/// Where the builder currently stands: the table being filled and the
/// column-name prefix accumulated inside pairs and options.
#[derive(Debug)]
pub struct Context {
    pub table_name: String,
    pub prefix: String,
}

/// `prefix + '_' + name` (or `name` alone under an empty prefix), with the
/// reserved view columns `level` and `level_timestamp` pushed aside by a
/// leading dot.
pub open spec fn spec_apply_prefix(prefix: Seq<char>, name: Seq<char>) -> Seq<char> {
    let joined = if prefix.len() == 0 {
        name
    } else {
        prefix + seq!['_'] + name
    };
    if joined == "level"@ || joined == "level_timestamp"@ {
        seq!['.'] + joined
    } else {
        joined
    }
}

impl Clone for Context {
    fn clone(&self) -> (r: Self)
        ensures
            r == *self,
    {
        Context { table_name: self.table_name.clone(), prefix: self.prefix.clone() }
    }
}

impl Context {
    /// The accumulated column-name prefix.
    pub open spec fn prefix_view(self) -> Seq<char> {
        self.prefix@
    }

    /// The starting context: the root table `storage`, no prefix.
    pub fn init() -> (r: Self)
        ensures
            r.table_name@ == "storage"@,
            r.prefix_view() == ""@,
    {
        Context { table_name: String::from_str("storage"), prefix: String::from_str("") }
    }

    /// See [`spec_apply_prefix`].
    pub fn apply_prefix(&self, name: &String) -> (r: String)
        ensures
            r@ == spec_apply_prefix(self.prefix_view(), name@),
    {
        let mut res: String;
        if self.prefix.as_str().is_empty() {
            res = name.clone();
        } else {
            res = self.prefix.clone();
            res.append("_");
            res.append(name.as_str());
            proof {
                reveal_strlit("_");
                assert(res@ =~= self.prefix@ + seq!['_'] + name@);
            }
        }
        let reserved = str_equal(res.as_str(), "level") || str_equal(
            res.as_str(),
            "level_timestamp",
        );
        if reserved {
            let mut guarded = String::from_str(".");
            guarded.append(res.as_str());
            proof {
                reveal_strlit(".");
                assert(guarded@ =~= seq!['.'] + res@);
            }
            guarded
        } else {
            res
        }
    }

    /// The next context for a sibling position: unchanged.
    pub fn next(&self) -> (r: Self)
        ensures
            r == *self,
    {
        self.clone()
    }

    /// The next context, with the prefix replaced when one is given.
    pub fn next_with_prefix(&self, prefix: Option<String>) -> (r: Self)
        ensures
            r.table_name@ == self.table_name@,
            match prefix {
                Some(p) => r.prefix_view() == p@,
                None => r.prefix_view() == self.prefix_view(),
            },
    {
        let mut c = self.next();
        if let Some(pre) = prefix {
            c.prefix = pre;
        }
        c
    }

    /// Enters the child table `<self.table_name>.<name>`.
    pub fn start_table(&self, name: String) -> (r: Self)
        ensures
            r.table_name@ == self.table_name@ + seq!['.'] + name@,
            r.prefix_view() == self.prefix_view(),
    {
        let mut c = self.next();
        let mut t = self.table_name.clone();
        t.append(".");
        t.append(name.as_str());
        proof {
            reveal_strlit(".");
            assert(t@ =~= self.table_name@ + seq!['.'] + name@);
        }
        c.table_name = t;
        c
    }

    /// The segment of the table name after its last dot; the whole name for
    /// the root table.
    pub fn table_leaf_name(&self) -> (r: String)
        ensures
            r@ == last_seg(self.table_name@),
    {
        let s = self.table_name.as_str();
        match find_last_dot(s) {
            Some(pos) => {
                let n = s.unicode_len();
                let sub = s.substring_char(pos + 1, n);
                String::from_str(sub)
            },
            None => {
                proof {
                    assert(last_seg(self.table_name@) =~= self.table_name@);
                }
                self.table_name.clone()
            },
        }
    }
}

/// One column of the derived schema.  `value` carries the fixed
/// discriminator string of a unit arm of an or-enumeration.
#[derive(Debug, PartialEq, Eq)]
pub struct RelationalEntry {
    pub table_name: String,
    pub column_name: String,
    pub column_type: ExprTy,
    pub value: Option<String>,
    pub is_index: bool,
}

impl Clone for RelationalEntry {
    fn clone(&self) -> (r: Self)
        ensures
            r == *self,
    {
        RelationalEntry {
            table_name: self.table_name.clone(),
            column_name: self.column_name.clone(),
            column_type: self.column_type.clone(),
            value: match &self.value {
                Some(v) => Some(v.clone()),
                None => None,
            },
            is_index: self.is_index,
        }
    }
}

/// The derived schema tree.  `Mapping`, `BigMap` and `List` introduce child
/// tables; `OrEnumeration` introduces a discriminator column and, for each
/// non-unit arm, a child table.
#[derive(Debug, PartialEq, Eq)]
pub enum RelationalAST {
    Optional { elem_ast: Box<RelationalAST> },
    Pair { left_ast: Box<RelationalAST>, right_ast: Box<RelationalAST> },
    OrEnumeration {
        or_unfold: Option<RelationalEntry>,
        left_table: Option<String>,
        left_ast: Box<RelationalAST>,
        right_table: Option<String>,
        right_ast: Box<RelationalAST>,
    },
    Mapping { table: String, key_ast: Box<RelationalAST>, value_ast: Box<RelationalAST> },
    BigMap { table: String, key_ast: Box<RelationalAST>, value_ast: Box<RelationalAST> },
    List { table: String, elems_unique: bool, elems_ast: Box<RelationalAST> },
    Leaf { rel_entry: RelationalEntry },
}

/// The child table introduced directly at this node, if any.
pub open spec fn spec_table_entry(r: RelationalAST) -> Option<Seq<char>> {
    match r {
        RelationalAST::Mapping { table, .. } => Some(table@),
        RelationalAST::BigMap { table, .. } => Some(table@),
        RelationalAST::List { table, .. } => Some(table@),
        _ => None,
    }
}

impl RelationalAST {
    /// See [`spec_table_entry`].
    pub fn table_entry(&self) -> (r: Option<String>)
        ensures
            match r {
                Some(t) => spec_table_entry(*self) == Some(t@),
                None => spec_table_entry(*self) is None,
            },
    {
        match self {
            RelationalAST::BigMap { table, .. } => Some(table.clone()),
            RelationalAST::Mapping { table, .. } => Some(table.clone()),
            RelationalAST::List { table, .. } => Some(table.clone()),
            _ => None,
        }
    }
}

/// All child-table names the subtree introduces, in the order the builder
/// registered them.
pub open spec fn emitted_tables(r: RelationalAST) -> Seq<Seq<char>>
    decreases r,
{
    match r {
        RelationalAST::Leaf { .. } => Seq::<Seq<char>>::empty(),
        RelationalAST::Optional { elem_ast } => emitted_tables(*elem_ast),
        RelationalAST::Pair { left_ast, right_ast } => emitted_tables(*left_ast) + emitted_tables(
            *right_ast,
        ),
        RelationalAST::OrEnumeration { left_table, left_ast, right_table, right_ast, .. } => (
        match left_table {
            Some(t) => seq![t@],
            None => Seq::<Seq<char>>::empty(),
        }) + emitted_tables(*left_ast) + (match right_table {
            Some(t) => seq![t@],
            None => Seq::<Seq<char>>::empty(),
        }) + emitted_tables(*right_ast),
        RelationalAST::Mapping { table, key_ast, value_ast } => seq![table@] + emitted_tables(
            *key_ast,
        ) + emitted_tables(*value_ast),
        RelationalAST::BigMap { table, key_ast, value_ast } => seq![table@] + emitted_tables(
            *key_ast,
        ) + emitted_tables(*value_ast),
        RelationalAST::List { table, elems_ast, .. } => seq![table@] + emitted_tables(*elems_ast),
    }
}

/// All `(table, column)` pairs the subtree introduces, in registration
/// order.
pub open spec fn emitted_cols(r: RelationalAST) -> Seq<(Seq<char>, Seq<char>)>
    decreases r,
{
    match r {
        RelationalAST::Leaf { rel_entry } => seq![(rel_entry.table_name@, rel_entry.column_name@)],
        RelationalAST::Optional { elem_ast } => emitted_cols(*elem_ast),
        RelationalAST::Pair { left_ast, right_ast } => emitted_cols(*left_ast) + emitted_cols(
            *right_ast,
        ),
        RelationalAST::OrEnumeration { or_unfold, left_ast, right_ast, .. } => (match or_unfold {
            Some(e) => seq![(e.table_name@, e.column_name@)],
            None => Seq::<(Seq<char>, Seq<char>)>::empty(),
        }) + emitted_cols(*left_ast) + emitted_cols(*right_ast),
        RelationalAST::Mapping { key_ast, value_ast, .. } => emitted_cols(*key_ast) + emitted_cols(
            *value_ast,
        ),
        RelationalAST::BigMap { key_ast, value_ast, .. } => emitted_cols(*key_ast) + emitted_cols(
            *value_ast,
        ),
        RelationalAST::List { elems_ast, .. } => emitted_cols(*elems_ast),
    }
}

/// The table-name preference of a node: its annotation, or `noname`.
pub open spec fn spec_base_table_name(ele: Ele) -> Seq<char> {
    match ele.name {
        Some(s) => s@,
        None => "noname"@,
    }
}

/// The view of an optional annotation.
pub open spec fn name_view(n: Option<String>) -> Option<Seq<char>> {
    match n {
        Some(s) => Some(s@),
        None => None,
    }
}

/// `r` is the table leaf segment the registry gives out for `base`: `base`
/// itself when unused, else the first unused suffixed variant.
pub open spec fn picks_fresh_table(tabs: Seq<Seq<char>>, base: Seq<char>, r: Seq<char>) -> bool {
    if !tabs.contains(base) {
        r == base
    } else {
        exists|k: nat|
            1 <= k && r == #[trigger] spec_suffixed(base, k) && !tabs.contains(
                spec_suffixed(base, k),
            ) && forall|j: nat| 1 <= j < k ==> tabs.contains(#[trigger] spec_suffixed(base, j))
    }
}

/// `r` is the column name the registry gives out for `base` in table `t`.
pub open spec fn picks_fresh_col(
    cols: Seq<(Seq<char>, Seq<char>)>,
    t: Seq<char>,
    base: Seq<char>,
    r: Seq<char>,
) -> bool {
    if !cols.contains((t, base)) {
        r == base
    } else {
        exists|k: nat|
            1 <= k && r == #[trigger] spec_suffixed(base, k) && !cols.contains(
                (t, spec_suffixed(base, k)),
            ) && forall|j: nat| 1 <= j < k ==> cols.contains((t, #[trigger] spec_suffixed(base, j)))
    }
}

/// No annotation on a child node contains a dot.
pub open spec fn ty_annots_dot_free(t: ExprTy) -> bool
    decreases t,
{
    match t {
        ExprTy::SimpleExprTy(_) => true,
        ExprTy::ComplexExprTy(c) => match c {
            ComplexExprTy::Pair(l, r) => annots_dot_free(*l) && annots_dot_free(*r),
            ComplexExprTy::List(_, e) => annots_dot_free(*e),
            ComplexExprTy::BigMap(k, v) => annots_dot_free(*k) && annots_dot_free(*v),
            ComplexExprTy::Mapping(k, v) => annots_dot_free(*k) && annots_dot_free(*v),
            ComplexExprTy::Optional(e) => annots_dot_free(*e),
            ComplexExprTy::OrEnumeration(l, r) => annots_dot_free(*l) && annots_dot_free(*r),
        },
    }
}

/// No annotation anywhere in the tree contains a dot.  Dots structure table
/// names, so dotted annotations could forge another table's name.
pub open spec fn annots_dot_free(ele: Ele) -> bool
    decreases ele,
{
    let own = match ele.name {
        Some(s) => dot_free(s@),
        None => true,
    };
    own && ty_annots_dot_free(ele.expr_type)
}

/// The number of type nodes below `t`; the builder's recursion shrinks it.
pub open spec fn ty_size(t: ExprTy) -> nat
    decreases t,
{
    match t {
        ExprTy::SimpleExprTy(_) => 1,
        ExprTy::ComplexExprTy(c) => match c {
            ComplexExprTy::Pair(l, r) => 1 + ty_size(l.expr_type) + ty_size(r.expr_type),
            ComplexExprTy::List(_, e) => 1 + ty_size(e.expr_type),
            ComplexExprTy::BigMap(k, v) => 1 + ty_size(k.expr_type) + ty_size(v.expr_type),
            ComplexExprTy::Mapping(k, v) => 1 + ty_size(k.expr_type) + ty_size(v.expr_type),
            ComplexExprTy::Optional(e) => 1 + ty_size(e.expr_type),
            ComplexExprTy::OrEnumeration(l, r) => 1 + ty_size(l.expr_type) + ty_size(
                r.expr_type,
            ),
        },
    }
}

/// Whether a schema can be derived for `t` in value position.
pub open spec fn rast_ok(t: ExprTy) -> bool
    decreases ty_size(t), 0int,
{
    match t {
        ExprTy::SimpleExprTy(_) => true,
        ExprTy::ComplexExprTy(c) => match c {
            ComplexExprTy::Pair(l, r) => rast_ok(l.expr_type) && rast_ok(r.expr_type),
            ComplexExprTy::List(u, e) => if u {
                idx_ok(e.expr_type)
            } else {
                rast_ok(e.expr_type)
            },
            ComplexExprTy::BigMap(k, v) => idx_ok(k.expr_type) && rast_ok(v.expr_type),
            ComplexExprTy::Mapping(k, v) => idx_ok(k.expr_type) && rast_ok(v.expr_type),
            ComplexExprTy::Optional(e) => rast_ok(e.expr_type),
            ComplexExprTy::OrEnumeration(l, r) => or_arm_ok(l.expr_type, false) && or_arm_ok(
                r.expr_type,
                false,
            ),
        },
    }
}

/// Whether a schema can be derived for `t` in index (key) position: simple
/// types, pairs of keys, and or-enumerations only.
pub open spec fn idx_ok(t: ExprTy) -> bool
    decreases ty_size(t), 0int,
{
    match t {
        ExprTy::SimpleExprTy(_) => true,
        ExprTy::ComplexExprTy(c) => match c {
            ComplexExprTy::Pair(l, r) => idx_ok(l.expr_type) && idx_ok(r.expr_type),
            ComplexExprTy::OrEnumeration(l, r) => or_arm_ok(l.expr_type, false) && or_arm_ok(
                r.expr_type,
                false,
            ),
            _ => false,
        },
    }
}

/// Whether a schema can be derived for an arm of an or-enumeration.
/// `is_index` matters only for the outermost arm of an index position.
pub open spec fn or_arm_ok(t: ExprTy, is_index: bool) -> bool
    decreases ty_size(t), 1int,
{
    match t {
        ExprTy::ComplexExprTy(ComplexExprTy::OrEnumeration(l, r)) => or_arm_ok(
            l.expr_type,
            false,
        ) && or_arm_ok(r.expr_type, false),
        _ => if is_index {
            idx_ok(t)
        } else {
            rast_ok(t)
        },
    }
}

/// Orders the builder's mutually recursive functions on one type node: an
/// or-enumeration passes through the enumeration builders before recursing.
pub open spec fn or_rank(t: ExprTy) -> int {
    match t {
        ExprTy::ComplexExprTy(ComplexExprTy::OrEnumeration(_, _)) => 3int,
        _ => 0int,
    }
}

/// One registry holds another's entries as its first elements.
pub open spec fn builder_extends(ob: ASTBuilder, nb: ASTBuilder) -> bool {
    &&& ob.tables().is_prefix_of(nb.tables())
    &&& ob.columns().is_prefix_of(nb.columns())
}

/// Table leaf segments registered between two builder states.
pub open spec fn new_tables(ob: ASTBuilder, nb: ASTBuilder) -> Seq<Seq<char>> {
    nb.tables().skip(ob.tables().len() as int)
}

/// Column pairs registered between two builder states.
pub open spec fn new_cols(ob: ASTBuilder, nb: ASTBuilder) -> Seq<(Seq<char>, Seq<char>)> {
    nb.columns().skip(ob.columns().len() as int)
}

/// Every column lives in the current table or in one of the subtree's own
/// child tables.
pub open spec fn cols_located(
    cols: Seq<(Seq<char>, Seq<char>)>,
    root: Seq<char>,
    tables: Seq<Seq<char>>,
) -> bool {
    forall|i: int|
        0 <= i < cols.len() ==> (#[trigger] cols[i]).0 == root || tables.contains(cols[i].0)
}

/// Every table in `ts` is a dotted child of `root` or of an earlier table
/// in `ts`, with a dot-free leaf segment.
pub open spec fn tables_linked(ts: Seq<Seq<char>>, root: Seq<char>) -> bool {
    forall|i: int|
        0 <= i < ts.len() ==> {
            &&& has_parent(#[trigger] ts[i])
            &&& dot_free(last_seg(ts[i]))
            &&& (parent_seg(ts[i]) == root || exists|j: int| 0 <= j < i && ts[j] == parent_seg(ts[i]))
        }
}

/// The leaf segment of each table name, in order.
pub open spec fn leaf_segs(ts: Seq<Seq<char>>) -> Seq<Seq<char>> {
    ts.map_values(|t: Seq<char>| last_seg(t))
}

/// What a successful build guarantees: the registries only grew; the new
/// column pairs are exactly the subtree's columns, each in a live table;
/// and, for dot-free annotations, the new table registrations are exactly
/// the subtree's child tables' leaf segments, each table parent-linked.
pub open spec fn build_post(
    ob: ASTBuilder,
    nb: ASTBuilder,
    ctx: Context,
    rast: RelationalAST,
    df: bool,
) -> bool {
    &&& builder_extends(ob, nb)
    &&& new_cols(ob, nb) == emitted_cols(rast)
    &&& cols_located(emitted_cols(rast), ctx.table_name@, emitted_tables(rast))
    &&& (df ==> {
        &&& leaf_segs(emitted_tables(rast)) == new_tables(ob, nb)
        &&& tables_linked(emitted_tables(rast), ctx.table_name@)
    })
}

/// The tables an or-enumeration arm contributes: the arm's own child table
/// (when one was opened) followed by the tables inside it.
pub open spec fn arm_tables(t: Seq<char>, rast: RelationalAST, ctx_table: Seq<char>) -> Seq<
    Seq<char>,
> {
    if t == ctx_table {
        emitted_tables(rast)
    } else {
        seq![t] + emitted_tables(rast)
    }
}

/// [`build_post`] for an or-enumeration arm, whose own child table is
/// recorded by the parent node rather than inside `rast`.
pub open spec fn or_arm_post(
    ob: ASTBuilder,
    nb: ASTBuilder,
    ctx: Context,
    rast: RelationalAST,
    t: Seq<char>,
    df: bool,
) -> bool {
    let em = arm_tables(t, rast, ctx.table_name@);
    &&& builder_extends(ob, nb)
    &&& new_cols(ob, nb) == emitted_cols(rast)
    &&& cols_located(emitted_cols(rast), ctx.table_name@, em)
    &&& (df ==> {
        &&& leaf_segs(em) == new_tables(ob, nb)
        &&& tables_linked(em, ctx.table_name@)
    })
}

proof fn lemma_contains_concat<A>(a: Seq<A>, b: Seq<A>, x: A)
    requires
        a.contains(x) || b.contains(x),
    ensures
        (a + b).contains(x),
{
    if a.contains(x) {
        let i = choose|i: int| 0 <= i < a.len() && a[i] == x;
        assert((a + b)[i] == x);
    } else {
        let i = choose|i: int| 0 <= i < b.len() && b[i] == x;
        assert((a + b)[i + a.len()] == x);
    }
}

proof fn lemma_prefix_skip<A>(a: Seq<A>, b: Seq<A>, c: Seq<A>)
    requires
        a.is_prefix_of(b),
        b.is_prefix_of(c),
    ensures
        a.is_prefix_of(c),
        c.skip(a.len() as int) == b.skip(a.len() as int) + c.skip(b.len() as int),
{
    assert(a =~= c.subrange(0, a.len() as int));
    assert(c.skip(a.len() as int) =~= b.skip(a.len() as int) + c.skip(b.len() as int));
}

proof fn lemma_located_superset(
    cols: Seq<(Seq<char>, Seq<char>)>,
    root: Seq<char>,
    ts: Seq<Seq<char>>,
    ts2: Seq<Seq<char>>,
)
    requires
        cols_located(cols, root, ts),
        forall|x: Seq<char>| ts.contains(x) ==> ts2.contains(x),
    ensures
        cols_located(cols, root, ts2),
{
}

proof fn lemma_located_concat(
    c1: Seq<(Seq<char>, Seq<char>)>,
    c2: Seq<(Seq<char>, Seq<char>)>,
    root: Seq<char>,
    ts: Seq<Seq<char>>,
)
    requires
        cols_located(c1, root, ts),
        cols_located(c2, root, ts),
    ensures
        cols_located(c1 + c2, root, ts),
{
    assert forall|i: int|
        0 <= i < (c1 + c2).len() implies ((c1 + c2)[i].0 == root || ts.contains(
        (c1 + c2)[i].0,
    )) by {
        if i < c1.len() {
            assert((c1 + c2)[i] == c1[i]);
        } else {
            assert((c1 + c2)[i] == c2[i - c1.len()]);
        }
    }
}

/// Columns located under a child table `t` are located under the parent
/// once `t` heads the table list.
proof fn lemma_located_into(
    cols: Seq<(Seq<char>, Seq<char>)>,
    t: Seq<char>,
    ts: Seq<Seq<char>>,
    root: Seq<char>,
)
    requires
        cols_located(cols, t, ts),
    ensures
        cols_located(cols, root, seq![t] + ts),
{
    assert forall|i: int|
        0 <= i < cols.len() implies (cols[i].0 == root || (seq![t] + ts).contains(cols[i].0)) by {
        if cols[i].0 == t {
            assert((seq![t] + ts)[0] == t);
        } else {
            let j = choose|j: int| 0 <= j < ts.len() && ts[j] == cols[i].0;
            assert((seq![t] + ts)[j + 1] == cols[i].0);
        }
    }
}

proof fn lemma_linked_concat(t1: Seq<Seq<char>>, t2: Seq<Seq<char>>, root: Seq<char>)
    requires
        tables_linked(t1, root),
        tables_linked(t2, root),
    ensures
        tables_linked(t1 + t2, root),
{
    let ts = t1 + t2;
    assert forall|i: int|
        0 <= i < ts.len() implies {
        &&& has_parent(#[trigger] ts[i])
        &&& dot_free(last_seg(ts[i]))
        &&& (parent_seg(ts[i]) == root || exists|j: int| 0 <= j < i && ts[j] == parent_seg(ts[i]))
    } by {
        if i < t1.len() {
            assert(ts[i] == t1[i]);
            if parent_seg(t1[i]) != root {
                let j = choose|j: int| 0 <= j < i && t1[j] == parent_seg(t1[i]);
                assert(ts[j] == parent_seg(ts[i]));
            }
        } else {
            let i2 = i - t1.len();
            assert(ts[i] == t2[i2]);
            if parent_seg(t2[i2]) != root {
                let j = choose|j: int| 0 <= j < i2 && t2[j] == parent_seg(t2[i2]);
                assert(ts[j + t1.len()] == parent_seg(ts[i]));
            }
        }
    }
}

/// Tables linked under a child table `t` of `root` are linked under `root`
/// once `t` heads the list.
proof fn lemma_linked_under(t: Seq<char>, sub: Seq<Seq<char>>, root: Seq<char>, leaf: Seq<char>)
    requires
        tables_linked(sub, t),
        t == root + seq!['.'] + leaf,
        dot_free(leaf),
    ensures
        tables_linked(seq![t] + sub, root),
{
    crate::names::lemma_split_join(root, leaf);
    let ts = seq![t] + sub;
    assert forall|i: int|
        0 <= i < ts.len() implies {
        &&& has_parent(#[trigger] ts[i])
        &&& dot_free(last_seg(ts[i]))
        &&& (parent_seg(ts[i]) == root || exists|j: int| 0 <= j < i && ts[j] == parent_seg(ts[i]))
    } by {
        if i == 0 {
            assert(ts[0] == t);
        } else {
            let i2 = i - 1;
            assert(ts[i] == sub[i2]);
            if parent_seg(sub[i2]) == t {
                assert(ts[0] == parent_seg(ts[i]));
            } else {
                let j = choose|j: int| 0 <= j < i2 && sub[j] == parent_seg(sub[i2]);
                assert(ts[j + 1] == parent_seg(ts[i]));
            }
        }
    }
}


/// The column pair a tag entry occupies, when there is one.
pub open spec fn or_pref(o: Option<RelationalEntry>) -> Seq<(Seq<char>, Seq<char>)> {
    match o {
        Some(e) => seq![(e.table_name@, e.column_name@)],
        None => Seq::<(Seq<char>, Seq<char>)>::empty(),
    }
}

/// The leaf a unit arm of an or-enumeration produces: a column of the
/// current table whose fixed `value` is the arm's annotation.
pub open spec fn unit_leaf_shape(
    rast: RelationalAST,
    ctx_table: Seq<char>,
    arm: Ele,
    is_index: bool,
) -> bool {
    match rast {
        RelationalAST::Leaf { rel_entry } => {
            &&& rel_entry.table_name@ == ctx_table
            &&& rel_entry.value == arm.name
            &&& rel_entry.column_type == arm.expr_type
            &&& rel_entry.is_index == is_index
        },
        _ => false,
    }
}

/// The node an or-enumeration produces: the given tag entry, and for each
/// unit arm no child table, only the arm's inline leaf.
pub open spec fn or_node_post(
    rast: RelationalAST,
    tag: Option<RelationalEntry>,
    ctx_table: Seq<char>,
    l: Ele,
    r: Ele,
) -> bool {
    match rast {
        RelationalAST::OrEnumeration { or_unfold, left_table, left_ast, right_table, right_ast } => {
            &&& or_unfold == tag
            &&& (l.expr_type == ExprTy::SimpleExprTy(SimpleExprTy::Unit) ==> left_table is None
                && unit_leaf_shape(*left_ast, ctx_table, l, false))
            &&& (r.expr_type == ExprTy::SimpleExprTy(SimpleExprTy::Unit) ==> right_table is None
                && unit_leaf_shape(*right_ast, ctx_table, r, false))
        },
        _ => false,
    }
}

/// An or-enumeration over two unit arms: one string tag column in the
/// current table, no child tables, each arm an inline leaf carrying its
/// annotation as the discriminator value.
pub open spec fn unit_or_shape(rast: RelationalAST, ctx_table: Seq<char>, l: Ele, r: Ele) -> bool {
    match rast {
        RelationalAST::OrEnumeration { or_unfold, left_table, left_ast, right_table, right_ast } => {
            &&& (match or_unfold {
                Some(e) => e.table_name@ == ctx_table && e.column_type == ExprTy::SimpleExprTy(
                    SimpleExprTy::String,
                ) && e.value is None,
                None => false,
            })
            &&& left_table is None
            &&& right_table is None
            &&& unit_leaf_shape(*left_ast, ctx_table, l, false)
            &&& unit_leaf_shape(*right_ast, ctx_table, r, false)
        },
        _ => false,
    }
}

/// What a successful arm build guarantees; the arm's own child table `t`
/// (when one was opened) is recorded by the parent node, so it stands
/// beside `rast`'s own tables here.
pub open spec fn or_internal_post(
    ob: ASTBuilder,
    nb: ASTBuilder,
    ctx: Context,
    ele: Ele,
    is_index: bool,
    tag: Option<RelationalEntry>,
    rast: RelationalAST,
    t: Seq<char>,
) -> bool {
    let em = arm_tables(t, rast, ctx.table_name@);
    &&& builder_extends(ob, nb)
    &&& emitted_cols(rast) == or_pref(tag) + new_cols(ob, nb)
    &&& cols_located(emitted_cols(rast), ctx.table_name@, em)
    &&& (annots_dot_free(ele) ==> {
        &&& leaf_segs(em) == new_tables(ob, nb)
        &&& tables_linked(em, ctx.table_name@)
    })
    &&& (ele.expr_type == ExprTy::SimpleExprTy(SimpleExprTy::Unit) ==> t == ctx.table_name@
        && unit_leaf_shape(rast, ctx.table_name@, ele, is_index))
    &&& (match ele.expr_type {
        ExprTy::ComplexExprTy(ComplexExprTy::OrEnumeration(l, r)) => t == ctx.table_name@
            && or_node_post(rast, tag, ctx.table_name@, *l, *r),
        _ => true,
    })
}

/// The annotation, or the table fallback `noname`.
pub open spec fn base_of(nm: Option<Seq<char>>) -> Seq<char> {
    match nm {
        Some(s) => s,
        None => "noname"@,
    }
}

/// The column-name preference of a node of type `ty` annotated `nm`.
pub open spec fn spec_leaf_base(
    prefix: Seq<char>,
    ty: ExprTy,
    nm: Option<Seq<char>>,
    is_index: bool,
) -> Seq<char> {
    let n0 = match nm {
        Some(s) => s,
        None => spec_type_column_name(ty),
    };
    let n1 = spec_apply_prefix(prefix, n0);
    if is_index {
        "idx_"@ + n1
    } else {
        n1
    }
}

/// The child-table base name of an or-enumeration arm: its annotation, the
/// type-derived name when one exists, else `noname`.
pub open spec fn or_arm_base(ty: ExprTy, nm: Option<Seq<char>>) -> Seq<char> {
    match nm {
        Some(s) => s,
        None => if spec_type_column_name(ty).len() > 0 {
            spec_type_column_name(ty)
        } else {
            "noname"@
        },
    }
}

/// The table an or-enumeration node records for one arm.
pub open spec fn stored_arm_table(t: Option<String>, ctx_table: Seq<char>) -> Seq<char> {
    match t {
        Some(s) => s@,
        None => ctx_table,
    }
}

/// The column name and index mark of a tag entry.
pub open spec fn tag_view(o: Option<RelationalEntry>) -> Option<(Seq<char>, bool)> {
    match o {
        Some(e) => Some((e.column_name@, e.is_index)),
        None => None,
    }
}

/// `rast` is exactly the tree the builder derives for a node of type `ty`
/// annotated `nm`, in value position in table `tname` under column prefix
/// `prefix`, starting from the registries `tabs` and `cols`.  The builder
/// is deterministic, so with dot-free annotations this pins the returned
/// tree, every chosen table name and every chosen column name.
pub open spec fn builds(
    tabs: Seq<Seq<char>>,
    cols: Seq<(Seq<char>, Seq<char>)>,
    tname: Seq<char>,
    prefix: Seq<char>,
    ty: ExprTy,
    nm: Option<Seq<char>>,
    rast: RelationalAST,
) -> bool
    decreases ty_size(ty), or_rank(ty),
{
    match ty {
        ExprTy::SimpleExprTy(_) => match rast {
            RelationalAST::Leaf { rel_entry } => {
                &&& rel_entry.table_name@ == tname
                &&& picks_fresh_col(
                    cols,
                    tname,
                    spec_leaf_base(prefix, ty, nm, false),
                    rel_entry.column_name@,
                )
                &&& rel_entry.column_type == ty
                &&& rel_entry.value is None
                &&& rel_entry.is_index == false
            },
            _ => false,
        },
        ExprTy::ComplexExprTy(c) => match c {
            ComplexExprTy::Pair(l, r) => match rast {
                RelationalAST::Pair { left_ast, right_ast } => {
                    let p2 = match nm {
                        Some(s) => s,
                        None => prefix,
                    };
                    &&& builds(tabs, cols, tname, p2, l.expr_type, name_view(l.name), *left_ast)
                    &&& builds(
                        tabs + leaf_segs(emitted_tables(*left_ast)),
                        cols + emitted_cols(*left_ast),
                        tname,
                        p2,
                        r.expr_type,
                        name_view(r.name),
                        *right_ast,
                    )
                },
                _ => false,
            },
            ComplexExprTy::List(u, e) => match rast {
                RelationalAST::List { table, elems_unique, elems_ast } => {
                    &&& elems_unique == u
                    &&& exists|leaf: Seq<char>|
                        {
                            &&& #[trigger] picks_fresh_table(tabs, base_of(nm), leaf)
                            &&& table@ == tname + seq!['.'] + leaf
                            &&& if u {
                                builds_index(
                                    tabs.push(leaf),
                                    cols,
                                    table@,
                                    prefix,
                                    e.expr_type,
                                    name_view(e.name),
                                    *elems_ast,
                                )
                            } else {
                                builds(
                                    tabs.push(leaf),
                                    cols,
                                    table@,
                                    prefix,
                                    e.expr_type,
                                    name_view(e.name),
                                    *elems_ast,
                                )
                            }
                        }
                },
                _ => false,
            },
            ComplexExprTy::BigMap(k, v) => match rast {
                RelationalAST::BigMap { table, key_ast, value_ast } => exists|leaf: Seq<char>|
                    {
                        &&& #[trigger] picks_fresh_table(tabs, base_of(nm), leaf)
                        &&& table@ == tname + seq!['.'] + leaf
                        &&& builds_index(
                            tabs.push(leaf),
                            cols,
                            table@,
                            prefix,
                            k.expr_type,
                            name_view(k.name),
                            *key_ast,
                        )
                        &&& builds(
                            tabs.push(leaf) + leaf_segs(emitted_tables(*key_ast)),
                            cols + emitted_cols(*key_ast),
                            table@,
                            prefix,
                            v.expr_type,
                            name_view(v.name),
                            *value_ast,
                        )
                    },
                _ => false,
            },
            ComplexExprTy::Mapping(k, v) => match rast {
                RelationalAST::Mapping { table, key_ast, value_ast } => exists|leaf: Seq<char>|
                    {
                        &&& #[trigger] picks_fresh_table(tabs, base_of(nm), leaf)
                        &&& table@ == tname + seq!['.'] + leaf
                        &&& builds_index(
                            tabs.push(leaf),
                            cols,
                            table@,
                            prefix,
                            k.expr_type,
                            name_view(k.name),
                            *key_ast,
                        )
                        &&& builds(
                            tabs.push(leaf) + leaf_segs(emitted_tables(*key_ast)),
                            cols + emitted_cols(*key_ast),
                            table@,
                            prefix,
                            v.expr_type,
                            name_view(v.name),
                            *value_ast,
                        )
                    },
                _ => false,
            },
            ComplexExprTy::Optional(e) => match rast {
                RelationalAST::Optional { elem_ast } => builds(
                    tabs,
                    cols,
                    tname,
                    prefix,
                    e.expr_type,
                    (if e.name is Some {
                        name_view(e.name)
                    } else {
                        nm
                    }),
                    *elem_ast,
                ),
                _ => false,
            },
            ComplexExprTy::OrEnumeration(_, _) => or_builds(
                tabs,
                cols,
                tname,
                prefix,
                ty,
                nm,
                false,
                rast,
            ),
        },
    }
}

/// [`builds`] for index (key) position.
pub open spec fn builds_index(
    tabs: Seq<Seq<char>>,
    cols: Seq<(Seq<char>, Seq<char>)>,
    tname: Seq<char>,
    prefix: Seq<char>,
    ty: ExprTy,
    nm: Option<Seq<char>>,
    rast: RelationalAST,
) -> bool
    decreases ty_size(ty), or_rank(ty),
{
    match ty {
        ExprTy::SimpleExprTy(_) => match rast {
            RelationalAST::Leaf { rel_entry } => {
                &&& rel_entry.table_name@ == tname
                &&& picks_fresh_col(
                    cols,
                    tname,
                    spec_leaf_base(prefix, ty, nm, true),
                    rel_entry.column_name@,
                )
                &&& rel_entry.column_type == ty
                &&& rel_entry.value is None
                &&& rel_entry.is_index == true
            },
            _ => false,
        },
        ExprTy::ComplexExprTy(c) => match c {
            ComplexExprTy::Pair(l, r) => match rast {
                RelationalAST::Pair { left_ast, right_ast } => {
                    let p2 = match nm {
                        Some(s) => s,
                        None => prefix,
                    };
                    &&& builds_index(
                        tabs,
                        cols,
                        tname,
                        p2,
                        l.expr_type,
                        name_view(l.name),
                        *left_ast,
                    )
                    &&& builds_index(
                        tabs + leaf_segs(emitted_tables(*left_ast)),
                        cols + emitted_cols(*left_ast),
                        tname,
                        p2,
                        r.expr_type,
                        name_view(r.name),
                        *right_ast,
                    )
                },
                _ => false,
            },
            ComplexExprTy::OrEnumeration(_, _) => or_builds(
                tabs,
                cols,
                tname,
                prefix,
                ty,
                nm,
                true,
                rast,
            ),
            _ => false,
        },
    }
}

/// [`builds`] for a whole or-enumeration: the tag column is registered in
/// the current table first, then the arms are built.
pub open spec fn or_builds(
    tabs: Seq<Seq<char>>,
    cols: Seq<(Seq<char>, Seq<char>)>,
    tname: Seq<char>,
    prefix: Seq<char>,
    ty: ExprTy,
    nm: Option<Seq<char>>,
    is_index: bool,
    rast: RelationalAST,
) -> bool
    decreases ty_size(ty), 2int,
{
    exists|tagc: Seq<char>|
        {
            &&& #[trigger] picks_fresh_col(
                cols,
                tname,
                spec_apply_prefix(prefix, base_of(nm)),
                tagc,
            )
            &&& or_arm_builds(
                tabs,
                cols.push((tname, tagc)),
                tname,
                prefix,
                ty,
                nm,
                base_of(nm),
                is_index,
                Some((tagc, is_index)),
                rast,
                tname,
            )
        }
}

/// [`builds`] for one arm of an or-enumeration (or for the whole node once
/// its tag column exists): `rtable` is the table the arm reports upward,
/// and `tag_col` the tag entry the node carries, when it carries one.
pub open spec fn or_arm_builds(
    tabs: Seq<Seq<char>>,
    cols: Seq<(Seq<char>, Seq<char>)>,
    tname: Seq<char>,
    prefix: Seq<char>,
    ty: ExprTy,
    nm: Option<Seq<char>>,
    colname: Seq<char>,
    is_index: bool,
    tag_col: Option<(Seq<char>, bool)>,
    rast: RelationalAST,
    rtable: Seq<char>,
) -> bool
    decreases ty_size(ty), 1int,
{
    match ty {
        ExprTy::ComplexExprTy(ComplexExprTy::OrEnumeration(l, r)) => {
            &&& rtable == tname
            &&& match rast {
                RelationalAST::OrEnumeration {
                    or_unfold,
                    left_table,
                    left_ast,
                    right_table,
                    right_ast,
                } => {
                    &&& (match (or_unfold, tag_col) {
                        (Some(e), Some(tc)) => e.table_name@ == tname && e.column_name@ == tc.0
                            && e.column_type == ExprTy::SimpleExprTy(SimpleExprTy::String)
                            && e.value is None && e.is_index == tc.1,
                        (None, None) => true,
                        _ => false,
                    })
                    &&& (left_table matches Some(t) ==> t@ != tname)
                    &&& (right_table matches Some(t) ==> t@ != tname)
                    &&& or_arm_builds(
                        tabs,
                        cols,
                        tname,
                        prefix,
                        l.expr_type,
                        name_view(l.name),
                        colname,
                        false,
                        None,
                        *left_ast,
                        stored_arm_table(left_table, tname),
                    )
                    &&& or_arm_builds(
                        tabs + leaf_segs(
                            arm_tables(stored_arm_table(left_table, tname), *left_ast, tname),
                        ),
                        cols + emitted_cols(*left_ast),
                        tname,
                        prefix,
                        r.expr_type,
                        name_view(r.name),
                        colname,
                        false,
                        None,
                        *right_ast,
                        stored_arm_table(right_table, tname),
                    )
                },
                _ => false,
            }
        },
        ExprTy::SimpleExprTy(SimpleExprTy::Unit) => {
            &&& rtable == tname
            &&& match rast {
                RelationalAST::Leaf { rel_entry } => {
                    &&& rel_entry.table_name@ == tname
                    &&& picks_fresh_col(
                        cols,
                        tname,
                        spec_apply_prefix(prefix, colname),
                        rel_entry.column_name@,
                    )
                    &&& rel_entry.column_type == ty
                    &&& name_view(rel_entry.value) == nm
                    &&& rel_entry.is_index == is_index
                },
                _ => false,
            }
        },
        _ => exists|leaf: Seq<char>|
            {
                &&& #[trigger] picks_fresh_table(tabs, or_arm_base(ty, nm), leaf)
                &&& rtable == tname + seq!['.'] + leaf
                &&& if is_index {
                    builds_index(tabs.push(leaf), cols, rtable, prefix, ty, Some(leaf), rast)
                } else {
                    builds(tabs.push(leaf), cols, rtable, prefix, ty, Some(leaf), rast)
                }
            },
    }
}

proof fn lemma_extends_refl(a: ASTBuilder)
    ensures
        builder_extends(a, a),
        new_tables(a, a) == Seq::<Seq<char>>::empty(),
        new_cols(a, a) == Seq::<(Seq<char>, Seq<char>)>::empty(),
{
    assert(a.tables() =~= a.tables().subrange(0, a.tables().len() as int));
    assert(a.columns() =~= a.columns().subrange(0, a.columns().len() as int));
    assert(new_tables(a, a) =~= Seq::<Seq<char>>::empty());
    assert(new_cols(a, a) =~= Seq::<(Seq<char>, Seq<char>)>::empty());
}

proof fn lemma_extends_trans(a: ASTBuilder, b: ASTBuilder, c: ASTBuilder)
    requires
        builder_extends(a, b),
        builder_extends(b, c),
    ensures
        builder_extends(a, c),
        new_tables(a, c) == new_tables(a, b) + new_tables(b, c),
        new_cols(a, c) == new_cols(a, b) + new_cols(b, c),
{
    lemma_prefix_skip(a.tables(), b.tables(), c.tables());
    lemma_prefix_skip(a.columns(), b.columns(), c.columns());
}

proof fn lemma_leaf_segs_concat(a: Seq<Seq<char>>, b: Seq<Seq<char>>)
    ensures
        leaf_segs(a + b) == leaf_segs(a) + leaf_segs(b),
{
    assert(leaf_segs(a + b) =~= leaf_segs(a) + leaf_segs(b));
}

/// The no-annotation fallback name.
pub proof fn lemma_noname_dot_free()
    ensures
        dot_free("noname"@),
{
    reveal_strlit("noname");
}

/// The root table name has no dot.
pub proof fn lemma_storage_dot_free()
    ensures
        dot_free("storage"@),
{
    reveal_strlit("storage");
}

/// Type-derived default column names have no dot.
pub proof fn lemma_type_names_dot_free(t: ExprTy)
    ensures
        dot_free(spec_type_column_name(t)),
{
    reveal_strlit("");
    reveal_strlit("address");
    reveal_strlit("bool");
    reveal_strlit("bytes");
    reveal_strlit("int");
    reveal_strlit("nat");
    reveal_strlit("mutez");
    reveal_strlit("string");
    reveal_strlit("keyhash");
    reveal_strlit("signature");
    reveal_strlit("contract");
    reveal_strlit("timestamp");
    reveal_strlit("unit");
    reveal_strlit("stop");
}

/// The registry of names already given out: table leaf segments globally,
/// column names per table.
pub struct ASTBuilder {
    table_names: Vec<String>,
    column_names: Vec<(String, String)>,
}

impl ASTBuilder {
    /// Table leaf segments given out so far, oldest first.
    pub closed spec fn tables(self) -> Seq<Seq<char>> {
        self.table_names@.map_values(|s: String| s@)
    }

    /// `(table, column)` pairs given out so far, oldest first.
    pub closed spec fn columns(self) -> Seq<(Seq<char>, Seq<char>)> {
        self.column_names@.map_values(|p: (String, String)| (p.0@, p.1@))
    }

    /// Both registries are duplicate-free.
    pub open spec fn wf(self) -> bool {
        &&& forall|i: int, j: int|
            0 <= i < j < self.tables().len() ==> self.tables()[i] != self.tables()[j]
        &&& forall|i: int, j: int|
            0 <= i < j < self.columns().len() ==> self.columns()[i] != self.columns()[j]
    }

    pub fn new() -> (r: Self)
        ensures
            r.tables() == Seq::<Seq<char>>::empty(),
            r.columns() == Seq::<(Seq<char>, Seq<char>)>::empty(),
            r.wf(),
    {
        let r = ASTBuilder { table_names: Vec::new(), column_names: Vec::new() };
        proof {
            assert(r.tables() =~= Seq::<Seq<char>>::empty());
            assert(r.columns() =~= Seq::<(Seq<char>, Seq<char>)>::empty());
        }
        r
    }

    fn table_name_used(&self, name: &String) -> (r: bool)
        ensures
            r == self.tables().contains(name@),
    {
        let n = self.table_names.len();
        let mut i: usize = 0;
        while i < n
            invariant
                i <= n,
                n == self.table_names.len(),
                forall|j: int| 0 <= j < i ==> self.tables()[j] != name@,
            decreases n - i,
        {
            if self.table_names[i].eq(name) {
                assert(self.tables()[i as int] == name@);
                return true;
            }
            i = i + 1;
        }
        false
    }

    fn column_name_used(&self, table: &String, column: &String) -> (r: bool)
        ensures
            r == self.columns().contains((table@, column@)),
    {
        let n = self.column_names.len();
        let mut i: usize = 0;
        while i < n
            invariant
                i <= n,
                n == self.column_names.len(),
                forall|j: int| 0 <= j < i ==> self.columns()[j] != (table@, column@),
            decreases n - i,
        {
            if self.column_names[i].0.eq(table) && self.column_names[i].1.eq(column) {
                assert(self.columns()[i as int] == (table@, column@));
                return true;
            }
            i = i + 1;
        }
        false
    }

    /// Picks a fresh variant of `base`: `base` itself when unused, else
    /// `base_1`, `base_2`, ... in order.
    fn fresh_table_name(&mut self, base: String) -> (r: String)
        ensures
            !old(self).tables().contains(r@),
            final(self).tables() == old(self).tables().push(r@),
            final(self).columns() == old(self).columns(),
            old(self).wf() ==> final(self).wf(),
            dot_free(base@) ==> dot_free(r@),
            !old(self).tables().contains(base@) ==> r@ == base@,
            picks_fresh_table(old(self).tables(), base@, r@),
    {
        let ghost oldt = self.tables();
        if !self.table_name_used(&base) {
            let name = base.clone();
            self.table_names.push(base);
            proof {
                assert(self.tables() =~= oldt.push(name@));
                if old(self).wf() {
                    lemma_push_fresh_keeps_distinct(oldt, name@);
                }
            }
            return name;
        }
        let n = self.table_names.len();
        let mut k: usize = 0;
        while k < n
            invariant
                k <= n,
                *self == *old(self),
                oldt == self.tables(),
                n == self.table_names.len(),
                self.tables().contains(base@),
                forall|c: nat|
                    1 <= c <= k ==> self.tables().contains(#[trigger] spec_suffixed(base@, c)),
            decreases n - k,
        {
            let cand = suffixed_name(&base, (k + 1) as u64);
            if !self.table_name_used(&cand) {
                proof {
                    if dot_free(base@) {
                        crate::names::lemma_suffixed_dot_free(base@, (k + 1) as nat);
                    }
                }
                let name = cand.clone();
                self.table_names.push(cand);
                proof {
                    assert(self.tables() =~= oldt.push(name@));
                    let kk = (k + 1) as nat;
                    assert(name@ == spec_suffixed(base@, kk));
                    assert forall|j: nat| 1 <= j < kk implies oldt.contains(
                        #[trigger] spec_suffixed(base@, j),
                    ) by {
                        assert((j as int) as nat == j);
                        assert(1 <= j as int <= k);
                        assert(oldt.contains(spec_suffixed(base@, (j as int) as nat)));
                    }
                    assert(picks_fresh_table(oldt, base@, name@));
                    if old(self).wf() {
                        lemma_push_fresh_keeps_distinct(oldt, name@);
                        assert(self.columns() == old(self).columns());
                        assert(forall|i: int, j: int|
                            0 <= i < j < self.columns().len() ==> self.columns()[i]
                                != self.columns()[j]);
                        assert(self.tables() == oldt.push(name@));
                        assert(forall|i: int, j: int|
                            0 <= i < j < self.tables().len() ==> self.tables()[i]
                                != self.tables()[j]);
                        assert(self.wf());
                    }
                }
                return name;
            }
            k = k + 1;
        }
        proof {
            lemma_suffixes_bounded(base@, self.tables(), n as int);
            assert(false);
        }
        base
    }

    /// Picks a fresh variant of `base` among the columns of `table`.
    fn fresh_column_name(&mut self, table: &String, base: String) -> (r: String)
        ensures
            !old(self).columns().contains((table@, r@)),
            final(self).columns() == old(self).columns().push((table@, r@)),
            final(self).tables() == old(self).tables(),
            old(self).wf() ==> final(self).wf(),
            !old(self).columns().contains((table@, base@)) ==> r@ == base@,
            picks_fresh_col(old(self).columns(), table@, base@, r@),
    {
        let ghost oldc = self.columns();
        if !self.column_name_used(table, &base) {
            let name = base.clone();
            self.column_names.push((table.clone(), base));
            proof {
                assert(self.columns() =~= oldc.push((table@, name@)));
                if old(self).wf() {
                    lemma_push_fresh_keeps_distinct(oldc, (table@, name@));
                }
            }
            return name;
        }
        let n = self.column_names.len();
        let mut k: usize = 0;
        while k < n
            invariant
                k <= n,
                *self == *old(self),
                oldc == self.columns(),
                n == self.column_names.len(),
                self.columns().contains((table@, base@)),
                forall|c: nat|
                    1 <= c <= k ==> self.columns().contains(
                        (table@, #[trigger] spec_suffixed(base@, c)),
                    ),
            decreases n - k,
        {
            let cand = suffixed_name(&base, (k + 1) as u64);
            if !self.column_name_used(table, &cand) {
                let name = cand.clone();
                self.column_names.push((table.clone(), cand));
                proof {
                    assert(self.columns() =~= oldc.push((table@, name@)));
                    let kk = (k + 1) as nat;
                    assert(name@ == spec_suffixed(base@, kk));
                    assert forall|j: nat| 1 <= j < kk implies oldc.contains(
                        (table@, #[trigger] spec_suffixed(base@, j)),
                    ) by {
                        assert((j as int) as nat == j);
                        assert(1 <= j as int <= k);
                        assert(oldc.contains((table@, spec_suffixed(base@, (j as int) as nat))));
                    }
                    assert(picks_fresh_col(oldc, table@, base@, name@));
                    if old(self).wf() {
                        lemma_push_fresh_keeps_distinct(oldc, (table@, name@));
                        assert(self.tables() == old(self).tables());
                        assert(forall|i: int, j: int|
                            0 <= i < j < self.tables().len() ==> self.tables()[i]
                                != self.tables()[j]);
                        assert(self.columns() == oldc.push((table@, name@)));
                        assert(forall|i: int, j: int|
                            0 <= i < j < self.columns().len() ==> self.columns()[i]
                                != self.columns()[j]);
                        assert(self.wf());
                    }
                }
                return name;
            }
            k = k + 1;
        }
        proof {
            lemma_suffixed_pairs_bounded(table@, base@, self.columns(), n as int);
            assert(false);
        }
        base
    }

    /// Opens a child table for `ele`, named after its annotation (or
    /// `noname`), deduplicated against every leaf segment given out so far.
    fn start_table(&mut self, ctx: &Context, ele: &Ele) -> (c: Context)
        ensures
            final(self).columns() == old(self).columns(),
            old(self).wf() ==> final(self).wf(),
            final(self).tables().len() == old(self).tables().len() + 1,
            final(self).tables() == old(self).tables().push(final(self).tables().last()),
            !old(self).tables().contains(final(self).tables().last()),
            c.table_name@ == ctx.table_name@ + seq!['.'] + final(self).tables().last(),
            c.prefix_view() == ctx.prefix_view(),
            dot_free(spec_base_table_name(*ele)) ==> dot_free(final(self).tables().last()),
            !old(self).tables().contains(spec_base_table_name(*ele)) ==> final(self).tables().last()
                == spec_base_table_name(*ele),
            picks_fresh_table(
                old(self).tables(),
                spec_base_table_name(*ele),
                final(self).tables().last(),
            ),
    {
        let base = match &ele.name {
            Some(s) => s.clone(),
            None => String::from_str("noname"),
        };
        let name = self.fresh_table_name(base);
        ctx.start_table(name)
    }

    /// The column-name preference of `ele` in `ctx`: annotation or
    /// type-derived default, prefixed, `idx_`-marked for index columns.
    pub open spec fn spec_column_base(ctx: Context, ele: Ele, is_index: bool) -> Seq<char> {
        let n0 = match ele.name {
            Some(s) => s@,
            None => spec_type_column_name(ele.expr_type),
        };
        let n1 = spec_apply_prefix(ctx.prefix_view(), n0);
        if is_index {
            "idx_"@ + n1
        } else {
            n1
        }
    }

    /// Picks the column name for `ele` in `ctx`, deduplicated against the
    /// columns of the current table.
    fn column_name(&mut self, ctx: &Context, ele: &Ele, is_index: bool) -> (r: String)
        ensures
            final(self).tables() == old(self).tables(),
            old(self).wf() ==> final(self).wf(),
            !old(self).columns().contains((ctx.table_name@, r@)),
            final(self).columns() == old(self).columns().push((ctx.table_name@, r@)),
            !old(self).columns().contains(
                (ctx.table_name@, Self::spec_column_base(*ctx, *ele, is_index)),
            ) ==> r@ == Self::spec_column_base(*ctx, *ele, is_index),
            picks_fresh_col(
                old(self).columns(),
                ctx.table_name@,
                Self::spec_column_base(*ctx, *ele, is_index),
                r@,
            ),
    {
        let base0 = match &ele.name {
            Some(x) => x.clone(),
            None => String::from_str(get_column_name(&ele.expr_type)),
        };
        let mut name = ctx.apply_prefix(&base0);
        if is_index {
            let mut pre = String::from_str("idx_");
            pre.append(name.as_str());
            proof {
                assert(pre@ =~= "idx_"@ + name@);
            }
            name = pre;
        }
        self.fresh_column_name(&ctx.table_name, name)
    }

    /// Derives the relational schema for `ele` in value position.
    ///
    /// On success the newly registered column pairs are exactly the
    /// subtree's columns and (for dot-free annotations) the newly
    /// registered table leaf segments are exactly its child tables', each
    /// table a dotted child of the current one or of an earlier sibling.
    /// An or-enumeration over two unit arms stays inline: one tag column,
    /// no child tables.
    #[verifier::rlimit(50)]
    pub fn build_relational_ast(&mut self, ctx: &Context, ele: &Ele) -> (r: Result<
        RelationalAST,
        SchemaError,
    >)
        ensures
            old(self).wf() ==> final(self).wf(),
            builder_extends(*old(self), *final(self)),
            r is Ok <==> rast_ok(ele.expr_type),
            (r matches Err(e) ==> e == SchemaError::Unindexable),
            (r matches Ok(rast) ==> build_post(
                *old(self),
                *final(self),
                *ctx,
                rast,
                annots_dot_free(*ele),
            )),
            (match ele.expr_type {
                ExprTy::ComplexExprTy(ComplexExprTy::OrEnumeration(l, rgt)) => (r matches Ok(rast)
                    && l.expr_type == ExprTy::SimpleExprTy(SimpleExprTy::Unit) && rgt.expr_type
                    == ExprTy::SimpleExprTy(SimpleExprTy::Unit)) ==> unit_or_shape(
                    r->Ok_0,
                    ctx.table_name@,
                    *l,
                    *rgt,
                ),
                _ => true,
            }),
            (r matches Ok(rast) ==> (annots_dot_free(*ele) ==> builds(
                old(self).tables(),
                old(self).columns(),
                ctx.table_name@,
                ctx.prefix_view(),
                ele.expr_type,
                name_view(ele.name),
                rast,
            ))),
        decreases ty_size(ele.expr_type), or_rank(ele.expr_type),
    {
        let ghost b0 = *self;
        match &ele.expr_type {
            ExprTy::ComplexExprTy(expr_type) => match expr_type {
                ComplexExprTy::Pair(left_type, right_type) => {
                    let ctx2 = ctx.next_with_prefix(clone_opt_string(&ele.name));
                    let lres = self.build_relational_ast(&ctx2, left_type);
                    let ghost b1 = *self;
                    let l = match lres {
                        Ok(l) => l,
                        Err(e) => {
                            return Err(e);
                        },
                    };
                    let rres = self.build_relational_ast(&ctx2, right_type);
                    let ghost b2 = *self;
                    let rr = match rres {
                        Ok(x) => x,
                        Err(e) => {
                            proof {
                                lemma_extends_trans(b0, b1, b2);
                            }
                            return Err(e);
                        },
                    };
                    let ghost lg = l;
                    let ghost rg = rr;
                    let node = RelationalAST::Pair {
                        left_ast: Box::new(l),
                        right_ast: Box::new(rr),
                    };
                    proof {
                        lemma_extends_trans(b0, b1, b2);
                        assert(emitted_cols(node) == emitted_cols(lg) + emitted_cols(rg));
                        assert(emitted_tables(node) == emitted_tables(lg) + emitted_tables(rg));
                        assert forall|x: Seq<char>|
                            emitted_tables(lg).contains(x) || emitted_tables(rg).contains(
                                x,
                            ) implies emitted_tables(node).contains(x) by {
                            lemma_contains_concat(emitted_tables(lg), emitted_tables(rg), x);
                        }
                        lemma_located_superset(
                            emitted_cols(lg),
                            ctx.table_name@,
                            emitted_tables(lg),
                            emitted_tables(node),
                        );
                        lemma_located_superset(
                            emitted_cols(rg),
                            ctx.table_name@,
                            emitted_tables(rg),
                            emitted_tables(node),
                        );
                        lemma_located_concat(
                            emitted_cols(lg),
                            emitted_cols(rg),
                            ctx.table_name@,
                            emitted_tables(node),
                        );
                        if annots_dot_free(*ele) {
                            assert(annots_dot_free(**left_type));
                            assert(annots_dot_free(**right_type));
                            lemma_leaf_segs_concat(emitted_tables(lg), emitted_tables(rg));
                            lemma_linked_concat(
                                emitted_tables(lg),
                                emitted_tables(rg),
                                ctx.table_name@,
                            );
                            assert(b1.columns() =~= b0.columns() + emitted_cols(lg));
                            assert(b1.tables() =~= b0.tables() + leaf_segs(emitted_tables(lg)));
                            assert(builds(
                                b0.tables(),
                                b0.columns(),
                                ctx.table_name@,
                                ctx.prefix_view(),
                                ele.expr_type,
                                name_view(ele.name),
                                node,
                            ));
                        }
                    }
                    Ok(node)
                },
                ComplexExprTy::List(elems_unique, elems_type) => {
                    let ctx2 = self.start_table(ctx, ele);
                    let ghost b1 = *self;
                    let ghost leaf = b1.tables().last();
                    let eres = if *elems_unique {
                        self.build_index(&ctx2, elems_type)
                    } else {
                        self.build_relational_ast(&ctx2, elems_type)
                    };
                    let ghost b2 = *self;
                    let elems_ast = match eres {
                        Ok(x) => x,
                        Err(e) => {
                            proof {
                                lemma_extends_trans(b0, b1, b2);
                            }
                            return Err(e);
                        },
                    };
                    let ghost eg = elems_ast;
                    let node = RelationalAST::List {
                        table: ctx2.table_name.clone(),
                        elems_ast: Box::new(elems_ast),
                        elems_unique: *elems_unique,
                    };
                    proof {
                        lemma_extends_trans(b0, b1, b2);
                        if annots_dot_free(*ele) {
                            lemma_annot_base_dot_free(*ele);
                            assert(annots_dot_free(**elems_type));
                        }
                        self.lemma_one_table_node(
                            b0,
                            b1,
                            b2,
                            *ctx,
                            ctx2,
                            annots_dot_free(*ele),
                            leaf,
                            emitted_tables(eg),
                            emitted_cols(eg),
                            emitted_tables(node),
                            emitted_cols(node),
                        );
                        if annots_dot_free(*ele) {
                            assert(b1.tables() =~= b0.tables().push(leaf));
                            assert(picks_fresh_table(
                                b0.tables(),
                                base_of(name_view(ele.name)),
                                leaf,
                            ));
                            assert(builds(
                                b0.tables(),
                                b0.columns(),
                                ctx.table_name@,
                                ctx.prefix_view(),
                                ele.expr_type,
                                name_view(ele.name),
                                node,
                            ));
                        }
                    }
                    Ok(node)
                },
                ComplexExprTy::BigMap(key_type, value_type) => {
                    let ctx2 = self.start_table(ctx, ele);
                    let ghost b1 = *self;
                    let ghost leaf = b1.tables().last();
                    let kres = self.build_index(&ctx2, key_type);
                    let ghost b2 = *self;
                    let key_ast = match kres {
                        Ok(x) => x,
                        Err(e) => {
                            proof {
                                lemma_extends_trans(b0, b1, b2);
                            }
                            return Err(e);
                        },
                    };
                    let vres = self.build_relational_ast(&ctx2, value_type);
                    let ghost b3 = *self;
                    let value_ast = match vres {
                        Ok(x) => x,
                        Err(e) => {
                            proof {
                                lemma_extends_trans(b0, b1, b2);
                                lemma_extends_trans(b0, b2, b3);
                            }
                            return Err(e);
                        },
                    };
                    let ghost kg = key_ast;
                    let ghost vg = value_ast;
                    let node = RelationalAST::BigMap {
                        table: ctx2.table_name.clone(),
                        key_ast: Box::new(key_ast),
                        value_ast: Box::new(value_ast),
                    };
                    proof {
                        if annots_dot_free(*ele) {
                            lemma_annot_base_dot_free(*ele);
                            assert(annots_dot_free(**key_type));
                            assert(annots_dot_free(**value_type));
                        }
                        self.lemma_two_child_table_node(
                            b0,
                            b1,
                            b2,
                            b3,
                            *ctx,
                            ctx2,
                            annots_dot_free(*ele),
                            leaf,
                            kg,
                            vg,
                            emitted_tables(node),
                            emitted_cols(node),
                        );
                        if annots_dot_free(*ele) {
                            assert(b1.tables() =~= b0.tables().push(leaf));
                            assert(b2.tables() =~= b1.tables() + leaf_segs(emitted_tables(kg)));
                            assert(b2.columns() =~= b0.columns() + emitted_cols(kg));
                            assert(picks_fresh_table(
                                b0.tables(),
                                base_of(name_view(ele.name)),
                                leaf,
                            ));
                            assert(builds(
                                b0.tables(),
                                b0.columns(),
                                ctx.table_name@,
                                ctx.prefix_view(),
                                ele.expr_type,
                                name_view(ele.name),
                                node,
                            ));
                        }
                    }
                    Ok(node)
                },
                ComplexExprTy::Mapping(key_type, value_type) => {
                    let ctx2 = self.start_table(ctx, ele);
                    let ghost b1 = *self;
                    let ghost leaf = b1.tables().last();
                    let kres = self.build_index(&ctx2, key_type);
                    let ghost b2 = *self;
                    let key_ast = match kres {
                        Ok(x) => x,
                        Err(e) => {
                            proof {
                                lemma_extends_trans(b0, b1, b2);
                            }
                            return Err(e);
                        },
                    };
                    let vres = self.build_relational_ast(&ctx2, value_type);
                    let ghost b3 = *self;
                    let value_ast = match vres {
                        Ok(x) => x,
                        Err(e) => {
                            proof {
                                lemma_extends_trans(b0, b1, b2);
                                lemma_extends_trans(b0, b2, b3);
                            }
                            return Err(e);
                        },
                    };
                    let ghost kg = key_ast;
                    let ghost vg = value_ast;
                    let node = RelationalAST::Mapping {
                        table: ctx2.table_name.clone(),
                        key_ast: Box::new(key_ast),
                        value_ast: Box::new(value_ast),
                    };
                    proof {
                        if annots_dot_free(*ele) {
                            lemma_annot_base_dot_free(*ele);
                            assert(annots_dot_free(**key_type));
                            assert(annots_dot_free(**value_type));
                        }
                        self.lemma_two_child_table_node(
                            b0,
                            b1,
                            b2,
                            b3,
                            *ctx,
                            ctx2,
                            annots_dot_free(*ele),
                            leaf,
                            kg,
                            vg,
                            emitted_tables(node),
                            emitted_cols(node),
                        );
                        if annots_dot_free(*ele) {
                            assert(b1.tables() =~= b0.tables().push(leaf));
                            assert(b2.tables() =~= b1.tables() + leaf_segs(emitted_tables(kg)));
                            assert(b2.columns() =~= b0.columns() + emitted_cols(kg));
                            assert(picks_fresh_table(
                                b0.tables(),
                                base_of(name_view(ele.name)),
                                leaf,
                            ));
                            assert(builds(
                                b0.tables(),
                                b0.columns(),
                                ctx.table_name@,
                                ctx.prefix_view(),
                                ele.expr_type,
                                name_view(ele.name),
                                node,
                            ));
                        }
                    }
                    Ok(node)
                },
                ComplexExprTy::Optional(expr_type) => {
                    let inner = ele_with_annot(expr_type, clone_opt_string(&ele.name));
                    let eres = self.build_relational_ast(ctx, &inner);
                    let elem_ast = match eres {
                        Ok(x) => x,
                        Err(e) => {
                            return Err(e);
                        },
                    };
                    let ghost ig = elem_ast;
                    let node = RelationalAST::Optional { elem_ast: Box::new(elem_ast) };
                    proof {
                        assert(emitted_cols(node) == emitted_cols(ig));
                        assert(emitted_tables(node) == emitted_tables(ig));
                        if annots_dot_free(*ele) {
                            assert(annots_dot_free(**expr_type));
                            assert(annots_dot_free(inner));
                            assert(name_view(inner.name) == (if expr_type.name is Some {
                                name_view(expr_type.name)
                            } else {
                                name_view(ele.name)
                            }));
                            assert(builds(
                                b0.tables(),
                                b0.columns(),
                                ctx.table_name@,
                                ctx.prefix_view(),
                                ele.expr_type,
                                name_view(ele.name),
                                node,
                            ));
                        }
                    }
                    Ok(node)
                },
                ComplexExprTy::OrEnumeration(_, _) => {
                    let name = match &ele.name {
                        Some(s) => s.clone(),
                        None => String::from_str("noname"),
                    };
                    proof {
                        assert(name@ == base_of(name_view(ele.name)));
                    }
                    let ores = self.build_enumeration_or(ctx, ele, &name, false);
                    match ores {
                        Ok(p) => Ok(p.0),
                        Err(e) => Err(e),
                    }
                },
            },
            ExprTy::SimpleExprTy(_) => {
                let col = self.column_name(ctx, ele, false);
                let node = RelationalAST::Leaf {
                    rel_entry: RelationalEntry {
                        table_name: ctx.table_name.clone(),
                        column_name: col,
                        column_type: ele.expr_type.clone(),
                        value: None,
                        is_index: false,
                    },
                };
                proof {
                    self.lemma_leaf_node(b0, *ctx, emitted_tables(node), emitted_cols(node));
                    assert(Self::spec_column_base(*ctx, *ele, false) == spec_leaf_base(
                        ctx.prefix_view(),
                        ele.expr_type,
                        name_view(ele.name),
                        false,
                    ));
                }
                Ok(node)
            },
        }
    }


    /// Builds an or-enumeration: registers the tag column in the current
    /// table, then builds each arm.
    #[verifier::rlimit(50)]
    fn build_enumeration_or(
        &mut self,
        ctx: &Context,
        ele: &Ele,
        column_name: &String,
        is_index: bool,
    ) -> (r: Result<(RelationalAST, String), SchemaError>)
        requires
            ele.expr_type matches ExprTy::ComplexExprTy(ComplexExprTy::OrEnumeration(_, _)),
        ensures
            old(self).wf() ==> final(self).wf(),
            builder_extends(*old(self), *final(self)),
            r is Ok <==> rast_ok(ele.expr_type),
            (r matches Err(e) ==> e == SchemaError::Unindexable),
            (r matches Ok(p) ==> {
                &&& p.1@ == ctx.table_name@
                &&& build_post(*old(self), *final(self), *ctx, p.0, annots_dot_free(*ele))
                &&& (match ele.expr_type {
                    ExprTy::ComplexExprTy(ComplexExprTy::OrEnumeration(l, rgt)) => (l.expr_type
                        == ExprTy::SimpleExprTy(SimpleExprTy::Unit) && rgt.expr_type
                        == ExprTy::SimpleExprTy(SimpleExprTy::Unit)) ==> unit_or_shape(
                        p.0,
                        ctx.table_name@,
                        *l,
                        *rgt,
                    ),
                    _ => true,
                })
            }),
            (r matches Ok(p) ==> ((annots_dot_free(*ele) && column_name@ == base_of(
                name_view(ele.name),
            )) ==> or_builds(
                old(self).tables(),
                old(self).columns(),
                ctx.table_name@,
                ctx.prefix_view(),
                ele.expr_type,
                name_view(ele.name),
                is_index,
                p.0,
            ))),
        decreases ty_size(ele.expr_type), 2int,
    {
        let ghost b0 = *self;
        let tag_ele = ele_set_annot(ele, Some(column_name.clone()));
        let tag_col = self.column_name(ctx, &tag_ele, false);
        proof {
            assert(Self::spec_column_base(*ctx, tag_ele, false) == spec_apply_prefix(
                ctx.prefix_view(),
                column_name@,
            ));
        }
        let rel_entry = RelationalEntry {
            table_name: ctx.table_name.clone(),
            column_name: tag_col,
            column_type: ExprTy::SimpleExprTy(SimpleExprTy::String),
            is_index,
            value: None,
        };
        let ghost b1 = *self;
        let ghost tag = rel_entry;
        let res = self.build_enumeration_or_internal(
            ctx,
            ele,
            column_name,
            is_index,
            Some(rel_entry),
        );
        let ghost b2 = *self;
        match res {
            Ok(p) => {
                proof {
                    lemma_extends_trans(b0, b1, b2);
                    assert(new_cols(b0, b1) =~= seq![(tag.table_name@, tag.column_name@)]);
                    assert(new_tables(b0, b1) =~= Seq::<Seq<char>>::empty());
                    assert(new_cols(b0, b2) == or_pref(Some(tag)) + new_cols(b1, b2));
                    assert(arm_tables(p.1@, p.0, ctx.table_name@) == emitted_tables(p.0));
                    if annots_dot_free(*ele) {
                        assert(new_tables(b0, b2) =~= new_tables(b1, b2));
                        if column_name@ == base_of(name_view(ele.name)) {
                            assert(b1.columns() =~= b0.columns().push(
                                (ctx.table_name@, tag.column_name@),
                            ));
                            assert(b1.tables() == b0.tables());
                            assert(tag_view(Some(tag)) == Some((tag.column_name@, is_index)));
                            assert(picks_fresh_col(
                                b0.columns(),
                                ctx.table_name@,
                                spec_apply_prefix(
                                    ctx.prefix_view(),
                                    base_of(name_view(ele.name)),
                                ),
                                tag.column_name@,
                            ));
                            assert(or_builds(
                                b0.tables(),
                                b0.columns(),
                                ctx.table_name@,
                                ctx.prefix_view(),
                                ele.expr_type,
                                name_view(ele.name),
                                is_index,
                                p.0,
                            ));
                        }
                    }
                }
                Ok(p)
            },
            Err(e) => {
                proof {
                    lemma_extends_trans(b0, b1, b2);
                }
                Err(e)
            },
        }
    }

    /// Builds one arm of an or-enumeration.  A nested or-enumeration stays
    /// inline; a unit arm becomes an inline leaf carrying its annotation as
    /// the discriminator value; any other arm opens a child table.
    #[verifier::rlimit(50)]
    fn build_enumeration_or_internal(
        &mut self,
        ctx: &Context,
        ele: &Ele,
        column_name: &String,
        is_index: bool,
        or_unfold: Option<RelationalEntry>,
    ) -> (r: Result<(RelationalAST, String), SchemaError>)
        requires
            (or_unfold matches Some(e) ==> e.table_name@ == ctx.table_name@ && (
            ele.expr_type matches ExprTy::ComplexExprTy(ComplexExprTy::OrEnumeration(_, _)))),
        ensures
            old(self).wf() ==> final(self).wf(),
            builder_extends(*old(self), *final(self)),
            r is Ok <==> or_arm_ok(ele.expr_type, is_index),
            (r matches Err(e) ==> e == SchemaError::Unindexable),
            (r matches Ok(p) ==> or_internal_post(
                *old(self),
                *final(self),
                *ctx,
                *ele,
                is_index,
                or_unfold,
                p.0,
                p.1@,
            )),
            (r matches Ok(p) ==> ((annots_dot_free(*ele) && (match or_unfold {
                Some(e) => e.table_name@ == ctx.table_name@ && e.column_type
                    == ExprTy::SimpleExprTy(SimpleExprTy::String) && e.value is None && e.is_index
                    == is_index,
                None => true,
            })) ==> or_arm_builds(
                old(self).tables(),
                old(self).columns(),
                ctx.table_name@,
                ctx.prefix_view(),
                ele.expr_type,
                name_view(ele.name),
                column_name@,
                is_index,
                tag_view(or_unfold),
                p.0,
                p.1@,
            ))),
        decreases ty_size(ele.expr_type), 1int,
    {
        let ghost b0 = *self;
        match &ele.expr_type {
            ExprTy::ComplexExprTy(ComplexExprTy::OrEnumeration(left_type, right_type)) => {
                proof {
                    assert(or_arm_ok(ele.expr_type, is_index) == (or_arm_ok(
                        left_type.expr_type,
                        false,
                    ) && or_arm_ok(right_type.expr_type, false)));
                }
                let lres = self.build_enumeration_or_internal(
                    ctx,
                    left_type,
                    column_name,
                    false,
                    None,
                );
                let ghost b1 = *self;
                let lp = match lres {
                    Ok(p) => p,
                    Err(e) => {
                        return Err(e);
                    },
                };
                let rres = self.build_enumeration_or_internal(
                    ctx,
                    right_type,
                    column_name,
                    false,
                    None,
                );
                let ghost b2 = *self;
                let rp = match rres {
                    Ok(p) => p,
                    Err(e) => {
                        proof {
                            lemma_extends_trans(b0, b1, b2);
                        }
                        return Err(e);
                    },
                };
                let (left_ast, left_table) = lp;
                let (right_ast, right_table) = rp;
                let ghost lag = left_ast;
                let ghost rag = right_ast;
                let ghost ltg = left_table@;
                let ghost rtg = right_table@;
                let lt_opt = if !str_equal(left_table.as_str(), ctx.table_name.as_str()) {
                    Some(left_table)
                } else {
                    None
                };
                let rt_opt = if !str_equal(right_table.as_str(), ctx.table_name.as_str()) {
                    Some(right_table)
                } else {
                    None
                };
                let ghost ouv = or_unfold;
                let node = RelationalAST::OrEnumeration {
                    or_unfold,
                    left_table: lt_opt,
                    left_ast: Box::new(left_ast),
                    right_table: rt_opt,
                    right_ast: Box::new(right_ast),
                };
                let ghost nodeg = node;
                proof {
                    self.lemma_or_node(
                        b0,
                        b1,
                        b2,
                        *ctx,
                        **left_type,
                        **right_type,
                        *ele,
                        or_unfold,
                        lag,
                        rag,
                        ltg,
                        rtg,
                        node,
                    );
                    if annots_dot_free(*ele) {
                        assert(annots_dot_free(**left_type));
                        assert(annots_dot_free(**right_type));
                        assert(or_pref(None) + new_cols(b0, b1) =~= new_cols(b0, b1));
                        assert(b1.columns() =~= b0.columns() + new_cols(b0, b1));
                        assert(b0.columns() + new_cols(b0, b1) =~= b0.columns() + emitted_cols(
                            lag,
                        ));
                        assert(b1.tables() =~= b0.tables() + new_tables(b0, b1));
                        assert(b0.tables() + new_tables(b0, b1) =~= b0.tables() + leaf_segs(
                            arm_tables(ltg, lag, ctx.table_name@),
                        ));
                        match nodeg {
                            RelationalAST::OrEnumeration { left_table, right_table, .. } => {
                                assert(stored_arm_table(left_table, ctx.table_name@) == ltg);
                                assert(stored_arm_table(right_table, ctx.table_name@) == rtg);
                            },
                            _ => {
                                assert(false);
                            },
                        }
                        if (match ouv {
                            Some(e) => e.table_name@ == ctx.table_name@ && e.column_type
                                == ExprTy::SimpleExprTy(SimpleExprTy::String) && e.value is None
                                && e.is_index == is_index,
                            None => true,
                        }) {
                            assert(or_arm_builds(
                                b0.tables(),
                                b0.columns(),
                                ctx.table_name@,
                                ctx.prefix_view(),
                                ele.expr_type,
                                name_view(ele.name),
                                column_name@,
                                is_index,
                                tag_view(ouv),
                                nodeg,
                                ctx.table_name@,
                            ));
                        }
                    }
                }
                Ok((node, ctx.table_name.clone()))
            },
            ExprTy::SimpleExprTy(SimpleExprTy::Unit) => {
                proof {
                    assert(idx_ok(ele.expr_type));
                    assert(rast_ok(ele.expr_type));
                    assert(or_arm_ok(ele.expr_type, is_index));
                }
                let unit_ele = ele_set_annot(ele, Some(column_name.clone()));
                let col = self.column_name(ctx, &unit_ele, false);
                proof {
                    assert(Self::spec_column_base(*ctx, unit_ele, false) == spec_apply_prefix(
                        ctx.prefix_view(),
                        column_name@,
                    ));
                }
                let node = RelationalAST::Leaf {
                    rel_entry: RelationalEntry {
                        table_name: ctx.table_name.clone(),
                        column_name: col,
                        column_type: ele.expr_type.clone(),
                        value: clone_opt_string(&ele.name),
                        is_index,
                    },
                };
                proof {
                    self.lemma_leaf_node(b0, *ctx, emitted_tables(node), emitted_cols(node));
                    assert(emitted_cols(node) == or_pref(or_unfold) + new_cols(b0, *self));
                    assert(or_arm_builds(
                        b0.tables(),
                        b0.columns(),
                        ctx.table_name@,
                        ctx.prefix_view(),
                        ele.expr_type,
                        name_view(ele.name),
                        column_name@,
                        is_index,
                        tag_view(or_unfold),
                        node,
                        ctx.table_name@,
                    ));
                }
                Ok((node, ctx.table_name.clone()))
            },
            _ => {
                let name = match &ele.name {
                    Some(x) => x.clone(),
                    None => {
                        let name_from_type = String::from_str(get_column_name(&ele.expr_type));
                        if !name_from_type.as_str().is_empty() {
                            name_from_type
                        } else {
                            proof {
                                lemma_noname_dot_free();
                            }
                            String::from_str("noname")
                        }
                    },
                };
                let ghost namev = name@;
                proof {
                    lemma_type_names_dot_free(ele.expr_type);
                    lemma_noname_dot_free();
                    assert(namev == or_arm_base(ele.expr_type, name_view(ele.name)));
                }
                let base_ele = ele_set_annot(ele, Some(name));
                proof {
                    assert(spec_base_table_name(base_ele) == namev);
                }
                let ctx2 = self.start_table(ctx, &base_ele);
                let ghost b1 = *self;
                let ghost leaf = b1.tables().last();
                let ele2 = ele_set_annot(ele, Some(ctx2.table_leaf_name()));
                let sres = if is_index {
                    self.build_index(&ctx2, &ele2)
                } else {
                    self.build_relational_ast(&ctx2, &ele2)
                };
                let ghost b2 = *self;
                proof {
                    assert(or_arm_ok(ele.expr_type, is_index) == (if is_index {
                        idx_ok(ele.expr_type)
                    } else {
                        rast_ok(ele.expr_type)
                    }));
                }
                match sres {
                    Ok(x) => {
                        let ghost xg = x;
                        proof {
                            crate::names::lemma_last_seg_dot_free(ctx2.table_name@);
                            if annots_dot_free(*ele) {
                                lemma_annot_base_dot_free(*ele);
                                assert(annots_dot_free(ele2));
                            }
                            self.lemma_one_table_node(
                                b0,
                                b1,
                                b2,
                                *ctx,
                                ctx2,
                                annots_dot_free(*ele),
                                leaf,
                                emitted_tables(xg),
                                emitted_cols(xg),
                                seq![ctx2.table_name@] + emitted_tables(xg),
                                emitted_cols(xg),
                            );
                            assert(ctx2.table_name@.len() > ctx.table_name@.len());
                            assert(ctx2.table_name@ != ctx.table_name@);
                            assert(arm_tables(ctx2.table_name@, xg, ctx.table_name@) == seq![
                                ctx2.table_name@,
                            ] + emitted_tables(xg));
                            if annots_dot_free(*ele) {
                                assert(dot_free(namev));
                                assert(dot_free(leaf));
                                crate::names::lemma_split_join(ctx.table_name@, leaf);
                                assert(name_view(ele2.name) == Some(leaf));
                                assert(b1.tables() =~= b0.tables().push(leaf));
                                assert(picks_fresh_table(
                                    b0.tables(),
                                    or_arm_base(ele.expr_type, name_view(ele.name)),
                                    leaf,
                                ));
                                assert(or_arm_builds(
                                    b0.tables(),
                                    b0.columns(),
                                    ctx.table_name@,
                                    ctx.prefix_view(),
                                    ele.expr_type,
                                    name_view(ele.name),
                                    column_name@,
                                    is_index,
                                    tag_view(or_unfold),
                                    xg,
                                    ctx2.table_name@,
                                ));
                            }
                        }
                        Ok((x, ctx2.table_name.clone()))
                    },
                    Err(e) => {
                        proof {
                            lemma_extends_trans(b0, b1, b2);
                        }
                        Err(e)
                    },
                }
            },
        }
    }

    /// [`or_internal_post`] for the node combining two built arms.
    #[verifier::rlimit(50)]
    proof fn lemma_or_node(
        self,
        b0: ASTBuilder,
        b1: ASTBuilder,
        b2: ASTBuilder,
        ctx: Context,
        lele: Ele,
        rele: Ele,
        ele: Ele,
        tag: Option<RelationalEntry>,
        lag: RelationalAST,
        rag: RelationalAST,
        ltg: Seq<char>,
        rtg: Seq<char>,
        node: RelationalAST,
    )
        requires
            self == b2,
            ele.expr_type == ExprTy::ComplexExprTy(
                ComplexExprTy::OrEnumeration(Box::new(lele), Box::new(rele)),
            ),
            or_internal_post(b0, b1, ctx, lele, false, None, lag, ltg),
            or_internal_post(b1, b2, ctx, rele, false, None, rag, rtg),
            (node matches RelationalAST::OrEnumeration {
                or_unfold: o2,
                left_table,
                left_ast,
                right_table,
                right_ast,
            } ==> {
                &&& o2 == tag
                &&& *left_ast == lag
                &&& *right_ast == rag
                &&& (match left_table {
                    Some(t) => t@ == ltg && ltg != ctx.table_name@,
                    None => ltg == ctx.table_name@,
                })
                &&& (match right_table {
                    Some(t) => t@ == rtg && rtg != ctx.table_name@,
                    None => rtg == ctx.table_name@,
                })
            }),
            node is OrEnumeration,
            (tag matches Some(e) ==> e.table_name@ == ctx.table_name@),
        ensures
            or_internal_post(b0, b2, ctx, ele, false, tag, node, ctx.table_name@),
            or_node_post(node, tag, ctx.table_name@, lele, rele),
    {
        lemma_extends_trans(b0, b1, b2);
        let eml = arm_tables(ltg, lag, ctx.table_name@);
        let emr = arm_tables(rtg, rag, ctx.table_name@);
        assert(emitted_tables(node) =~= eml + emr);
        assert(emitted_cols(node) =~= or_pref(tag) + (emitted_cols(lag) + emitted_cols(rag)));
        assert(emitted_cols(lag) == new_cols(b0, b1));
        assert(emitted_cols(rag) == new_cols(b1, b2));
        assert(emitted_cols(node) =~= or_pref(tag) + new_cols(b0, b2));
        let em = arm_tables(ctx.table_name@, node, ctx.table_name@);
        assert(em == emitted_tables(node));
        assert forall|x: Seq<char>| eml.contains(x) || emr.contains(x) implies (eml
            + emr).contains(x) by {
            lemma_contains_concat(eml, emr, x);
        }
        lemma_located_superset(emitted_cols(lag), ctx.table_name@, eml, em);
        lemma_located_superset(emitted_cols(rag), ctx.table_name@, emr, em);
        lemma_located_concat(emitted_cols(lag), emitted_cols(rag), ctx.table_name@, em);
        assert(cols_located(or_pref(tag), ctx.table_name@, em));
        lemma_located_concat(
            or_pref(tag),
            emitted_cols(lag) + emitted_cols(rag),
            ctx.table_name@,
            em,
        );
        if annots_dot_free(ele) {
            assert(annots_dot_free(lele));
            assert(annots_dot_free(rele));
            lemma_leaf_segs_concat(eml, emr);
            lemma_linked_concat(eml, emr, ctx.table_name@);
        }
        if lele.expr_type == ExprTy::SimpleExprTy(SimpleExprTy::Unit) {
            assert(ltg == ctx.table_name@);
        }
        if rele.expr_type == ExprTy::SimpleExprTy(SimpleExprTy::Unit) {
            assert(rtg == ctx.table_name@);
        }
    }

    /// Derives the relational schema for `ele` in index (key) position.
    /// Fails with [`SchemaError::Unindexable`] exactly on types that cannot
    /// key a table.
    #[verifier::rlimit(50)]
    pub fn build_index(&mut self, ctx: &Context, ele: &Ele) -> (r: Result<
        RelationalAST,
        SchemaError,
    >)
        ensures
            old(self).wf() ==> final(self).wf(),
            builder_extends(*old(self), *final(self)),
            r is Ok <==> idx_ok(ele.expr_type),
            (r matches Err(e) ==> e == SchemaError::Unindexable),
            (r matches Ok(rast) ==> build_post(
                *old(self),
                *final(self),
                *ctx,
                rast,
                annots_dot_free(*ele),
            )),
            (r matches Ok(rast) ==> (annots_dot_free(*ele) ==> builds_index(
                old(self).tables(),
                old(self).columns(),
                ctx.table_name@,
                ctx.prefix_view(),
                ele.expr_type,
                name_view(ele.name),
                rast,
            ))),
        decreases ty_size(ele.expr_type), or_rank(ele.expr_type),
    {
        let ghost b0 = *self;
        match &ele.expr_type {
            ExprTy::ComplexExprTy(ety) => match ety {
                ComplexExprTy::Pair(left_type, right_type) => {
                    let ctx2 = ctx.next_with_prefix(clone_opt_string(&ele.name));
                    let lres = self.build_index(&ctx2.next(), left_type);
                    let ghost b1 = *self;
                    let l = match lres {
                        Ok(l) => l,
                        Err(e) => {
                            return Err(e);
                        },
                    };
                    let rres = self.build_index(&ctx2, right_type);
                    let ghost b2 = *self;
                    let rr = match rres {
                        Ok(x) => x,
                        Err(e) => {
                            proof {
                                lemma_extends_trans(b0, b1, b2);
                            }
                            return Err(e);
                        },
                    };
                    let ghost lg = l;
                    let ghost rg = rr;
                    let node = RelationalAST::Pair {
                        left_ast: Box::new(l),
                        right_ast: Box::new(rr),
                    };
                    proof {
                        lemma_extends_trans(b0, b1, b2);
                        assert(emitted_cols(node) == emitted_cols(lg) + emitted_cols(rg));
                        assert(emitted_tables(node) == emitted_tables(lg) + emitted_tables(rg));
                        assert forall|x: Seq<char>|
                            emitted_tables(lg).contains(x) || emitted_tables(rg).contains(
                                x,
                            ) implies emitted_tables(node).contains(x) by {
                            lemma_contains_concat(emitted_tables(lg), emitted_tables(rg), x);
                        }
                        lemma_located_superset(
                            emitted_cols(lg),
                            ctx.table_name@,
                            emitted_tables(lg),
                            emitted_tables(node),
                        );
                        lemma_located_superset(
                            emitted_cols(rg),
                            ctx.table_name@,
                            emitted_tables(rg),
                            emitted_tables(node),
                        );
                        lemma_located_concat(
                            emitted_cols(lg),
                            emitted_cols(rg),
                            ctx.table_name@,
                            emitted_tables(node),
                        );
                        if annots_dot_free(*ele) {
                            assert(annots_dot_free(**left_type));
                            assert(annots_dot_free(**right_type));
                            lemma_leaf_segs_concat(emitted_tables(lg), emitted_tables(rg));
                            lemma_linked_concat(
                                emitted_tables(lg),
                                emitted_tables(rg),
                                ctx.table_name@,
                            );
                            assert(b1.columns() =~= b0.columns() + emitted_cols(lg));
                            assert(b1.tables() =~= b0.tables() + leaf_segs(emitted_tables(lg)));
                            assert(builds_index(
                                b0.tables(),
                                b0.columns(),
                                ctx.table_name@,
                                ctx.prefix_view(),
                                ele.expr_type,
                                name_view(ele.name),
                                node,
                            ));
                        }
                    }
                    Ok(node)
                },
                ComplexExprTy::OrEnumeration(_, _) => {
                    let name = match &ele.name {
                        Some(s) => s.clone(),
                        None => String::from_str("noname"),
                    };
                    proof {
                        assert(name@ == base_of(name_view(ele.name)));
                    }
                    let ores = self.build_enumeration_or(ctx, ele, &name, true);
                    match ores {
                        Ok(p) => Ok(p.0),
                        Err(e) => Err(e),
                    }
                },
                _ => {
                    proof {
                        lemma_extends_refl(b0);
                    }
                    Err(SchemaError::Unindexable)
                },
            },
            ExprTy::SimpleExprTy(_) => {
                let col = self.column_name(ctx, ele, true);
                let node = RelationalAST::Leaf {
                    rel_entry: RelationalEntry {
                        table_name: ctx.table_name.clone(),
                        column_name: col,
                        column_type: ele.expr_type.clone(),
                        value: None,
                        is_index: true,
                    },
                };
                proof {
                    self.lemma_leaf_node(b0, *ctx, emitted_tables(node), emitted_cols(node));
                    assert(Self::spec_column_base(*ctx, *ele, true) == spec_leaf_base(
                        ctx.prefix_view(),
                        ele.expr_type,
                        name_view(ele.name),
                        true,
                    ));
                }
                Ok(node)
            },
        }
    }

    /// [`build_post`] for a single new leaf column in the current table.
    proof fn lemma_leaf_node(
        self,
        b0: ASTBuilder,
        ctx: Context,
        em: Seq<Seq<char>>,
        cols: Seq<(Seq<char>, Seq<char>)>,
    )
        requires
            self.tables() == b0.tables(),
            self.columns().len() == b0.columns().len() + 1,
            self.columns() == b0.columns().push(self.columns().last()),
            em == Seq::<Seq<char>>::empty(),
            cols == seq![self.columns().last()],
            self.columns().last().0 == ctx.table_name@,
        ensures
            builder_extends(b0, self),
            new_cols(b0, self) == cols,
            new_tables(b0, self) == Seq::<Seq<char>>::empty(),
            cols_located(cols, ctx.table_name@, em),
            leaf_segs(em) == new_tables(b0, self),
            tables_linked(em, ctx.table_name@),
    {
        assert(b0.tables() =~= self.tables().subrange(0, b0.tables().len() as int));
        assert(b0.columns() =~= self.columns().subrange(0, b0.columns().len() as int));
        assert(new_cols(b0, self) =~= seq![self.columns().last()]);
        assert(new_tables(b0, self) =~= Seq::<Seq<char>>::empty());
        assert(leaf_segs(em) =~= Seq::<Seq<char>>::empty());
    }

    /// [`build_post`] for a node that opened one child table and built one
    /// subtree inside it.
    proof fn lemma_one_table_node(
        self,
        b0: ASTBuilder,
        b1: ASTBuilder,
        b2: ASTBuilder,
        ctx: Context,
        ctx2: Context,
        df: bool,
        leaf: Seq<char>,
        sub_tables: Seq<Seq<char>>,
        sub_cols: Seq<(Seq<char>, Seq<char>)>,
        em: Seq<Seq<char>>,
        cols: Seq<(Seq<char>, Seq<char>)>,
    )
        requires
            self == b2,
            b1.tables() == b0.tables().push(leaf),
            b1.columns() == b0.columns(),
            builder_extends(b1, b2),
            ctx2.table_name@ == ctx.table_name@ + seq!['.'] + leaf,
            df ==> dot_free(leaf),
            new_cols(b1, b2) == sub_cols,
            cols_located(sub_cols, ctx2.table_name@, sub_tables),
            df ==> leaf_segs(sub_tables) == new_tables(b1, b2) && tables_linked(
                sub_tables,
                ctx2.table_name@,
            ),
            em == seq![ctx2.table_name@] + sub_tables,
            cols == sub_cols,
        ensures
            builder_extends(b0, b2),
            new_cols(b0, b2) == cols,
            cols_located(cols, ctx.table_name@, em),
            df ==> leaf_segs(em) == new_tables(b0, b2) && tables_linked(em, ctx.table_name@),
    {
        assert(b0.tables() =~= b1.tables().subrange(0, b0.tables().len() as int));
        assert(b0.columns() =~= b1.columns().subrange(0, b0.columns().len() as int));
        lemma_extends_trans(b0, b1, b2);
        assert(new_cols(b0, b1) =~= Seq::<(Seq<char>, Seq<char>)>::empty());
        assert(new_cols(b0, b2) =~= sub_cols);
        lemma_located_into(sub_cols, ctx2.table_name@, sub_tables, ctx.table_name@);
        if df {
            crate::names::lemma_split_join(ctx.table_name@, leaf);
            assert(new_tables(b0, b1) =~= seq![leaf]);
            assert(leaf_segs(em) =~= seq![last_seg(ctx2.table_name@)] + leaf_segs(sub_tables));
            assert(leaf_segs(em) =~= new_tables(b0, b2));
            lemma_linked_under(ctx2.table_name@, sub_tables, ctx.table_name@, leaf);
        }
    }

    /// [`build_post`] for a node that opened one child table and built two
    /// subtrees inside it (a key side and a value side).
    proof fn lemma_two_child_table_node(
        self,
        b0: ASTBuilder,
        b1: ASTBuilder,
        b2: ASTBuilder,
        b3: ASTBuilder,
        ctx: Context,
        ctx2: Context,
        df: bool,
        leaf: Seq<char>,
        kg: RelationalAST,
        vg: RelationalAST,
        em: Seq<Seq<char>>,
        cols: Seq<(Seq<char>, Seq<char>)>,
    )
        requires
            self == b3,
            b1.tables() == b0.tables().push(leaf),
            b1.columns() == b0.columns(),
            builder_extends(b1, b2),
            builder_extends(b2, b3),
            ctx2.table_name@ == ctx.table_name@ + seq!['.'] + leaf,
            df ==> dot_free(leaf),
            new_cols(b1, b2) == emitted_cols(kg),
            new_cols(b2, b3) == emitted_cols(vg),
            cols_located(emitted_cols(kg), ctx2.table_name@, emitted_tables(kg)),
            cols_located(emitted_cols(vg), ctx2.table_name@, emitted_tables(vg)),
            df ==> {
                &&& leaf_segs(emitted_tables(kg)) == new_tables(b1, b2)
                &&& tables_linked(emitted_tables(kg), ctx2.table_name@)
                &&& leaf_segs(emitted_tables(vg)) == new_tables(b2, b3)
                &&& tables_linked(emitted_tables(vg), ctx2.table_name@)
            },
            em =~= seq![ctx2.table_name@] + (emitted_tables(kg) + emitted_tables(vg)),
            cols =~= emitted_cols(kg) + emitted_cols(vg),
        ensures
            builder_extends(b0, b3),
            new_cols(b0, b3) == cols,
            cols_located(cols, ctx.table_name@, em),
            df ==> leaf_segs(em) == new_tables(b0, b3) && tables_linked(em, ctx.table_name@),
    {
        lemma_extends_trans(b1, b2, b3);
        assert forall|x: Seq<char>|
            emitted_tables(kg).contains(x) || emitted_tables(vg).contains(x) implies (
        emitted_tables(kg) + emitted_tables(vg)).contains(x) by {
            lemma_contains_concat(emitted_tables(kg), emitted_tables(vg), x);
        }
        lemma_located_superset(
            emitted_cols(kg),
            ctx2.table_name@,
            emitted_tables(kg),
            emitted_tables(kg) + emitted_tables(vg),
        );
        lemma_located_superset(
            emitted_cols(vg),
            ctx2.table_name@,
            emitted_tables(vg),
            emitted_tables(kg) + emitted_tables(vg),
        );
        lemma_located_concat(
            emitted_cols(kg),
            emitted_cols(vg),
            ctx2.table_name@,
            emitted_tables(kg) + emitted_tables(vg),
        );
        if df {
            lemma_leaf_segs_concat(emitted_tables(kg), emitted_tables(vg));
            lemma_linked_concat(emitted_tables(kg), emitted_tables(vg), ctx2.table_name@);
        }
        self.lemma_one_table_node(
            b0,
            b1,
            b3,
            ctx,
            ctx2,
            df,
            leaf,
            emitted_tables(kg) + emitted_tables(vg),
            cols,
            em,
            cols,
        );
    }
}


/// Naming uniqueness and parent linkage for a schema derived from a fresh
/// registry: the emitted child-table names are pairwise distinct and none
/// collides with the root table; every emitted `(table, column)` pair is
/// distinct, so column names are unique within each table; and every
/// emitted table is a dotted child of the root or of an earlier emitted
/// table, while every column sits in the root or in an emitted table.
pub proof fn lemma_schema_names_unique(
    b: ASTBuilder,
    nb: ASTBuilder,
    ctx: Context,
    rast: RelationalAST,
)
    requires
        b.tables().len() == 0,
        b.columns().len() == 0,
        nb.wf(),
        dot_free(ctx.table_name@),
        build_post(b, nb, ctx, rast, true),
    ensures
        forall|i: int, j: int|
            0 <= i < j < emitted_tables(rast).len() ==> emitted_tables(rast)[i] != emitted_tables(
                rast,
            )[j],
        forall|i: int|
            0 <= i < emitted_tables(rast).len() ==> #[trigger] emitted_tables(rast)[i]
                != ctx.table_name@,
        forall|i: int, j: int|
            0 <= i < j < emitted_cols(rast).len() ==> emitted_cols(rast)[i] != emitted_cols(
                rast,
            )[j],
        tables_linked(emitted_tables(rast), ctx.table_name@),
        cols_located(emitted_cols(rast), ctx.table_name@, emitted_tables(rast)),
{
    let em = emitted_tables(rast);
    assert(new_tables(b, nb) =~= nb.tables());
    assert(new_cols(b, nb) =~= nb.columns());
    assert(leaf_segs(em) == nb.tables());
    assert forall|i: int, j: int| 0 <= i < j < em.len() implies em[i] != em[j] by {
        if em[i] == em[j] {
            assert(leaf_segs(em)[i] == last_seg(em[i]));
            assert(leaf_segs(em)[j] == last_seg(em[j]));
            assert(nb.tables()[i] == nb.tables()[j]);
        }
    }
    crate::names::lemma_last_dot_bounds(ctx.table_name@);
    assert forall|i: int| 0 <= i < em.len() implies #[trigger] em[i] != ctx.table_name@ by {
        assert(has_parent(em[i]));
        assert(!has_parent(ctx.table_name@));
    }
}

/// Under dot-free annotations, the table base name of `ele` is dot-free.
pub proof fn lemma_annot_base_dot_free(ele: Ele)
    requires
        annots_dot_free(ele),
    ensures
        dot_free(spec_base_table_name(ele)),
{
    if ele.name is None {
        lemma_noname_dot_free();
    }
}

/// See [`dot_free`]: whether a string holds no dot.
fn str_dot_free(s: &str) -> (r: bool)
    ensures
        r == dot_free(s@),
{
    proof {
        crate::names::lemma_last_dot_bounds(s@);
    }
    match find_last_dot(s) {
        Some(_) => false,
        None => true,
    }
}

/// See [`annots_dot_free`]: whether no annotation in the tree has a dot.
pub fn ele_annots_dot_free(ele: &Ele) -> (r: bool)
    ensures
        r == annots_dot_free(*ele),
    decreases *ele,
{
    let own = match &ele.name {
        Some(s) => str_dot_free(s.as_str()),
        None => true,
    };
    if !own {
        return false;
    }
    match &ele.expr_type {
        ExprTy::SimpleExprTy(_) => true,
        ExprTy::ComplexExprTy(c) => match c {
            ComplexExprTy::Pair(l, r) => ele_annots_dot_free(l) && ele_annots_dot_free(r),
            ComplexExprTy::List(_, e) => ele_annots_dot_free(e),
            ComplexExprTy::BigMap(k, v) => ele_annots_dot_free(k) && ele_annots_dot_free(v),
            ComplexExprTy::Mapping(k, v) => ele_annots_dot_free(k) && ele_annots_dot_free(v),
            ComplexExprTy::Optional(e) => ele_annots_dot_free(e),
            ComplexExprTy::OrEnumeration(l, r) => ele_annots_dot_free(l) && ele_annots_dot_free(
                r,
            ),
        },
    }
}

/// `ele` with `annot` as its annotation, unless it already carries one.
pub fn ele_with_annot(ele: &Ele, annot: Option<String>) -> (r: Ele)
    ensures
        r.expr_type == ele.expr_type,
        r.name == (if ele.name is Some {
            ele.name
        } else {
            annot
        }),
{
    match &ele.name {
        Some(_) => ele.clone(),
        None => Ele { expr_type: ele.expr_type.clone(), name: annot },
    }
}

/// `ele` with its annotation replaced by `annot`.
pub fn ele_set_annot(ele: &Ele, annot: Option<String>) -> (r: Ele)
    ensures
        r.expr_type == ele.expr_type,
        r.name == annot,
{
    Ele { expr_type: ele.expr_type.clone(), name: annot }
}

} // verus!
