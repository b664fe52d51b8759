//! The flattened form of a derived schema: tables with their columns and
//! index columns, as the DDL generator consumes them.

use vstd::prelude::*;

use crate::typing::SimpleExprTy;

verus! {

/// One column of a table: its name and its leaf storage type.
#[derive(Debug, PartialEq, Eq)]
pub struct Column {
    pub name: String,
    pub column_type: SimpleExprTy,
}

impl Clone for Column {
    fn clone(&self) -> (r: Self)
        ensures
            r == *self,
    {
        Column { name: self.name.clone(), column_type: self.column_type }
    }
}

/// One table of the derived schema.  `has_uniqueness` marks tables whose
/// index columns form a unique key.
#[derive(Debug, PartialEq, Eq)]
pub struct Table {
    pub name: String,
    pub columns: Vec<Column>,
    pub indices: Vec<String>,
    pub has_uniqueness: bool,
}

} // verus!
