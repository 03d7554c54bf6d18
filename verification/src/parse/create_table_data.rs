use vstd::prelude::*;

use crate::record::schema::FieldSpec;
use crate::record::Schema;

verus! {

/// Data for the SQL create table statement.
pub struct CreateTableData {
    tblname: String,
    sch: Schema,
}

impl View for CreateTableData {
    type V = (Seq<char>, Seq<FieldSpec>);

    closed spec fn view(&self) -> (Seq<char>, Seq<FieldSpec>) {
        (self.tblname@, self.sch@)
    }
}

impl CreateTableData {
    pub fn new(tblname: String, sch: Schema) -> (r: Self)
        ensures
            r@ == (tblname@, sch@),
    {
        CreateTableData { tblname, sch }
    }

    /// The name of the new table.
    pub fn table_name(&self) -> (r: &str)
        ensures
            r@ == self@.0,
    {
        self.tblname.as_str()
    }

    /// The schema of the new table.
    pub fn schema(&self) -> (r: Schema)
        ensures
            r@ == self@.1,
    {
        self.sch.clone()
    }
}

} // verus!
