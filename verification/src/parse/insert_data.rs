use vstd::prelude::*;

use crate::query::constant::{ConstVal, Constant};
use crate::util::names;

verus! {

/// The values of a row of constants.
pub open spec fn const_vals(row: Seq<Constant>) -> Seq<ConstVal> {
    row.map_values(|c: Constant| c@)
}

/// The values of rows of constants.
pub open spec fn row_vals(rows: Seq<Vec<Constant>>) -> Seq<Seq<ConstVal>> {
    rows.map_values(|r: Vec<Constant>| const_vals(r@))
}

/// The value of an insert statement: the table, the fields and the rows of values.
pub struct InsertVal {
    pub table: Seq<char>,
    pub fields: Seq<Seq<char>>,
    pub rows: Seq<Seq<ConstVal>>,
}

/// Data for the SQL insert statement.
pub struct InsertData {
    tblname: String,
    flds: Vec<String>,
    rows: Vec<Vec<Constant>>,
}

impl View for InsertData {
    type V = InsertVal;

    closed spec fn view(&self) -> InsertVal {
        InsertVal { table: self.tblname@, fields: names(self.flds@), rows: row_vals(self.rows@) }
    }
}

impl InsertData {
    pub fn new(tblname: String, flds: Vec<String>, rows: Vec<Vec<Constant>>) -> (r: Self)
        ensures
            r@ == (InsertVal { table: tblname@, fields: names(flds@), rows: row_vals(rows@) }),
    {
        InsertData { tblname, flds, rows }
    }

    /// The table that receives the rows.
    pub fn table_name(&self) -> (r: &str)
        ensures
            r@ == self@.table,
    {
        self.tblname.as_str()
    }

    /// The fields that the values fill, in order.
    pub fn fields(&self) -> (r: &[String])
        ensures
            names(r@) == self@.fields,
    {
        self.flds.as_slice()
    }

    /// The rows of values.
    pub fn rows(&self) -> (r: &[Vec<Constant>])
        ensures
            row_vals(r@) == self@.rows,
    {
        self.rows.as_slice()
    }
}

} // verus!
