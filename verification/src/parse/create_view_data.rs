use vstd::prelude::*;

use crate::parse::query_data::{query_text, QueryVal};
use crate::parse::QueryData;

verus! {

/// Data for the SQL create view statement.
pub struct CreateViewData {
    viewname: String,
    qrydata: QueryData,
}

impl View for CreateViewData {
    type V = (Seq<char>, QueryVal);

    closed spec fn view(&self) -> (Seq<char>, QueryVal) {
        (self.viewname@, self.qrydata@)
    }
}

impl CreateViewData {
    pub fn new(viewname: String, qrydata: QueryData) -> (r: Self)
        ensures
            r@ == (viewname@, qrydata@),
    {
        CreateViewData { viewname, qrydata }
    }

    /// The name of the new view.
    pub fn view_name(&self) -> (r: &str)
        ensures
            r@ == self@.0,
    {
        self.viewname.as_str()
    }

    /// The definition of the view: the text of its query.
    pub fn view_def(&self) -> (r: String)
        ensures
            r@ == query_text(self@.1),
    {
        self.qrydata.to_string()
    }

    /// The query of the view.
    pub fn query_data(&self) -> (r: &QueryData)
        ensures
            r@ == self@.1,
    {
        &self.qrydata
    }
}

} // verus!
