//! The storage type tree of a contract (the type side of the Michelson-like
//! language): simple leaf types, complex composite types, and the annotated
//! node `Ele` that the relational builder walks.

use vstd::prelude::*;

verus! {

/// A leaf storage type.  `Stop` marks a position the schema drops.
#[derive(Clone, Copy, Debug, PartialEq, Eq, Structural)]
pub enum SimpleExprTy {
    Address,
    Bool,
    Bytes,
    Int,
    Nat,
    Mutez,
    String,
    KeyHash,
    Signature,
    Contract,
    Timestamp,
    Unit,
    Stop,
}

/// A composite storage type.  `List`'s flag records whether elements are
/// unique (a set); `OrEnumeration` is a sum of two arms.
#[derive(Debug, PartialEq, Eq)]
pub enum ComplexExprTy {
    Pair(Box<Ele>, Box<Ele>),
    List(bool, Box<Ele>),
    BigMap(Box<Ele>, Box<Ele>),
    Mapping(Box<Ele>, Box<Ele>),
    Optional(Box<Ele>),
    OrEnumeration(Box<Ele>, Box<Ele>),
}

/// Either a leaf type or a composite type.
#[derive(Debug, PartialEq, Eq)]
pub enum ExprTy {
    SimpleExprTy(SimpleExprTy),
    ComplexExprTy(ComplexExprTy),
}

/// A node of the storage type tree: a type plus an optional annotation, the
/// preferred table or column name for this position.
#[derive(Debug, PartialEq, Eq)]
pub struct Ele {
    pub expr_type: ExprTy,
    pub name: Option<String>,
}

impl Clone for ComplexExprTy {
    fn clone(&self) -> (r: Self)
        ensures
            r == *self,
        decreases *self,
    {
        match self {
            ComplexExprTy::Pair(l, rr) => ComplexExprTy::Pair(
                Box::new((**l).clone()),
                Box::new((**rr).clone()),
            ),
            ComplexExprTy::List(u, e) => ComplexExprTy::List(*u, Box::new((**e).clone())),
            ComplexExprTy::BigMap(k, v) => ComplexExprTy::BigMap(
                Box::new((**k).clone()),
                Box::new((**v).clone()),
            ),
            ComplexExprTy::Mapping(k, v) => ComplexExprTy::Mapping(
                Box::new((**k).clone()),
                Box::new((**v).clone()),
            ),
            ComplexExprTy::Optional(e) => ComplexExprTy::Optional(Box::new((**e).clone())),
            ComplexExprTy::OrEnumeration(l, rr) => ComplexExprTy::OrEnumeration(
                Box::new((**l).clone()),
                Box::new((**rr).clone()),
            ),
        }
    }
}

impl Clone for ExprTy {
    fn clone(&self) -> (r: Self)
        ensures
            r == *self,
        decreases *self,
    {
        match self {
            ExprTy::SimpleExprTy(s) => ExprTy::SimpleExprTy(*s),
            ExprTy::ComplexExprTy(c) => ExprTy::ComplexExprTy(c.clone()),
        }
    }
}

impl Clone for Ele {
    fn clone(&self) -> (r: Self)
        ensures
            r == *self,
        decreases *self,
    {
        Ele {
            expr_type: self.expr_type.clone(),
            name: match &self.name {
                Some(s) => Some(s.clone()),
                None => None,
            },
        }
    }
}

/// The default column name derived from a type when no annotation is given.
/// Composite types have no default name.
pub open spec fn spec_type_column_name(expr: ExprTy) -> Seq<char> {
    match expr {
        ExprTy::ComplexExprTy(_) => ""@,
        ExprTy::SimpleExprTy(e) => match e {
            SimpleExprTy::Address => "address"@,
            SimpleExprTy::Bool => "bool"@,
            SimpleExprTy::Bytes => "bytes"@,
            SimpleExprTy::Int => "int"@,
            SimpleExprTy::Nat => "nat"@,
            SimpleExprTy::Mutez => "mutez"@,
            SimpleExprTy::String => "string"@,
            SimpleExprTy::KeyHash => "keyhash"@,
            SimpleExprTy::Signature => "signature"@,
            SimpleExprTy::Contract => "contract"@,
            SimpleExprTy::Timestamp => "timestamp"@,
            SimpleExprTy::Unit => "unit"@,
            SimpleExprTy::Stop => "stop"@,
        },
    }
}

/// See [`spec_type_column_name`].
pub fn get_column_name(expr: &ExprTy) -> (r: &'static str)
    ensures
        r@ == spec_type_column_name(*expr),
{
    match expr {
        ExprTy::ComplexExprTy(_) => "",
        ExprTy::SimpleExprTy(e) => match e {
            SimpleExprTy::Address => "address",
            SimpleExprTy::Bool => "bool",
            SimpleExprTy::Bytes => "bytes",
            SimpleExprTy::Int => "int",
            SimpleExprTy::Nat => "nat",
            SimpleExprTy::Mutez => "mutez",
            SimpleExprTy::String => "string",
            SimpleExprTy::KeyHash => "keyhash",
            SimpleExprTy::Signature => "signature",
            SimpleExprTy::Contract => "contract",
            SimpleExprTy::Timestamp => "timestamp",
            SimpleExprTy::Unit => "unit",
            SimpleExprTy::Stop => "stop",
        },
    }
}

} // verus!
