use vstd::prelude::*;

verus! {

/// The value of a create index statement: the index, the table and the field.
pub struct IndexVal {
    pub index: Seq<char>,
    pub table: Seq<char>,
    pub field: Seq<char>,
}

/// Data for the SQL create index statement.
pub struct CreateIndexData {
    idxname: String,
    tblname: String,
    fldname: String,
}

impl View for CreateIndexData {
    type V = IndexVal;

    closed spec fn view(&self) -> IndexVal {
        IndexVal { index: self.idxname@, table: self.tblname@, field: self.fldname@ }
    }
}

impl CreateIndexData {
    pub fn new(idxname: String, tblname: String, fldname: String) -> (r: Self)
        ensures
            r@ == (IndexVal { index: idxname@, table: tblname@, field: fldname@ }),
    {
        CreateIndexData { idxname, tblname, fldname }
    }

    /// The name of the new index.
    pub fn index_name(&self) -> (r: &str)
        ensures
            r@ == self@.index,
    {
        self.idxname.as_str()
    }

    /// The table of the indexed field.
    pub fn table_name(&self) -> (r: &str)
        ensures
            r@ == self@.table,
    {
        self.tblname.as_str()
    }

    /// The indexed field.
    pub fn field_name(&self) -> (r: &str)
        ensures
            r@ == self@.field,
    {
        self.fldname.as_str()
    }
}

} // verus!
