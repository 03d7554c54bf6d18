use vstd::prelude::*;

use crate::query::expression::ExprVal;
use crate::query::Predicate;

verus! {

/// The value of a delete statement: the table and the terms of the where clause.
pub struct DeleteVal {
    pub table: Seq<char>,
    pub pred: Seq<(ExprVal, ExprVal)>,
}

/// Data for the SQL delete statement.
pub struct DeleteData {
    tblname: String,
    pred: Predicate,
}

impl View for DeleteData {
    type V = DeleteVal;

    closed spec fn view(&self) -> DeleteVal {
        DeleteVal { table: self.tblname@, pred: self.pred@ }
    }
}

impl DeleteData {
    pub fn new(tblname: String, pred: Predicate) -> (r: Self)
        ensures
            r@ == (DeleteVal { table: tblname@, pred: pred@ }),
    {
        DeleteData { tblname, pred }
    }

    /// The table whose records are deleted.
    pub fn table_name(&self) -> (r: &str)
        ensures
            r@ == self@.table,
    {
        self.tblname.as_str()
    }

    /// The predicate that the deleted records satisfy.
    pub fn pred(&self) -> (r: &Predicate)
        ensures
            r@ == self@.pred,
    {
        &self.pred
    }
}

} // verus!
