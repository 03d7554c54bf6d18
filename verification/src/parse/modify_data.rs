use vstd::prelude::*;

use crate::query::expression::ExprVal;
use crate::query::{Expression, Predicate};

verus! {

/// The value of an update statement: the table, the field, its new value and
/// the terms of the where clause.
pub struct ModifyVal {
    pub table: Seq<char>,
    pub field: Seq<char>,
    pub new_value: ExprVal,
    pub pred: Seq<(ExprVal, ExprVal)>,
}

/// Data for the SQL update statement.
pub struct ModifyData {
    tblname: String,
    fldname: String,
    newval: Expression,
    pred: Predicate,
}

impl View for ModifyData {
    type V = ModifyVal;

    closed spec fn view(&self) -> ModifyVal {
        ModifyVal {
            table: self.tblname@,
            field: self.fldname@,
            new_value: self.newval@,
            pred: self.pred@,
        }
    }
}

impl ModifyData {
    pub fn new(tblname: String, fldname: String, newval: Expression, pred: Predicate) -> (r: Self)
        ensures
            r@ == (ModifyVal {
                table: tblname@,
                field: fldname@,
                new_value: newval@,
                pred: pred@,
            }),
    {
        ModifyData { tblname, fldname, newval, pred }
    }

    /// The table whose records are modified.
    pub fn table_name(&self) -> (r: &str)
        ensures
            r@ == self@.table,
    {
        self.tblname.as_str()
    }

    /// The field that receives the new value.
    pub fn target_field(&self) -> (r: &str)
        ensures
            r@ == self@.field,
    {
        self.fldname.as_str()
    }

    /// The expression of the new value.
    pub fn new_value(&self) -> (r: &Expression)
        ensures
            r@ == self@.new_value,
    {
        &self.newval
    }

    /// The predicate that the modified records satisfy.
    pub fn pred(&self) -> (r: &Predicate)
        ensures
            r@ == self@.pred,
    {
        &self.pred
    }
}

} // verus!
