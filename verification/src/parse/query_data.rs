use vstd::prelude::*;

use crate::query::expression::{pred_text, ExprVal};
use crate::query::Predicate;
use crate::util::{dedup, dedup_strings, joined, names, push_joined, push_str, string_from_chars};

verus! {

/// The value of a select statement: the selected fields, the tables (each
/// once), and the terms of the where clause.
pub struct QueryVal {
    pub fields: Seq<Seq<char>>,
    pub tables: Seq<Seq<char>>,
    pub pred: Seq<(ExprVal, ExprVal)>,
}

/// The text of a select statement; a predicate of no term gives no where clause.
pub open spec fn query_text(q: QueryVal) -> Seq<char> {
    "select "@ + joined(q.fields, ", "@) + " from "@ + joined(q.tables, ", "@) + if q.pred.len()
        == 0 {
        Seq::<char>::empty()
    } else {
        " where "@ + pred_text(q.pred)
    }
}

/// Data for the SQL select statement.
pub struct QueryData {
    fields: Vec<String>,
    tables: Vec<String>,
    pred: Predicate,
}

impl View for QueryData {
    type V = QueryVal;

    closed spec fn view(&self) -> QueryVal {
        QueryVal { fields: names(self.fields@), tables: names(self.tables@), pred: self.pred@ }
    }
}

impl QueryData {
    /// The select statement of the fields, the tables and the predicate; a
    /// table named twice is kept once, where it first occurs.
    pub fn new(fields: Vec<String>, tables: Vec<String>, pred: Predicate) -> (r: Self)
        ensures
            r@ == (QueryVal { fields: names(fields@), tables: dedup(names(tables@)), pred: pred@ }),
    {
        QueryData { fields, tables: dedup_strings(tables), pred }
    }

    /// The selected fields.
    pub fn fields(&self) -> (r: &[String])
        ensures
            names(r@) == self@.fields,
    {
        self.fields.as_slice()
    }

    /// The tables, each once.
    pub fn tables(&self) -> (r: &[String])
        ensures
            names(r@) == self@.tables,
    {
        self.tables.as_slice()
    }

    /// The predicate of the where clause.
    pub fn pred(&self) -> (r: &Predicate)
        ensures
            r@ == self@.pred,
    {
        &self.pred
    }

    /// The text of the statement.
    pub fn to_string(&self) -> (r: String)
        ensures
            r@ == query_text(self@),
    {
        let mut out: Vec<char> = Vec::new();
        push_str("select ", &mut out);
        push_joined(self.fields.as_slice(), ", ", &mut out);
        push_str(" from ", &mut out);
        push_joined(self.tables.as_slice(), ", ", &mut out);
        if self.pred.len() > 0 {
            push_str(" where ", &mut out);
            self.pred.push_text(&mut out);
        }
        assert(out@ =~= query_text(self@));
        string_from_chars(&out)
    }
}

} // verus!
