use vstd::prelude::*;

use crate::parse::create_index_data::IndexVal;
use crate::parse::delete_data::DeleteVal;
use crate::parse::insert_data::InsertVal;
use crate::parse::lexer::{
    after_delim, after_int, after_str, after_word, delim_at, id_at, int_at, int_value_at, keyword_is,
    lemma_token_advance, lower, str_at, str_value_at, word_at,
};
use crate::parse::modify_data::ModifyVal;
use crate::parse::query_data::QueryVal;
use crate::query::constant::ConstVal;
use crate::query::expression::ExprVal;
use crate::record::schema::{FieldSpec, INTEGER, VARCHAR};
use crate::util::dedup;

verus! {

// The grammar of the SQL dialect. Each function reads a phrase at position `p`
// of the text `s` and gives its value and the position of the next token, or
// `None` where the text at `p` is not such a phrase.

/// A field name: an identifier, in lower case.
pub open spec fn pf_field(s: Seq<char>, p: int) -> Option<(Seq<char>, int)> {
    if id_at(s, p) {
        Some((lower(word_at(s, p)), after_word(s, p)))
    } else {
        None
    }
}

/// An integer constant that fits in an `i32`.
pub open spec fn pf_int(s: Seq<char>, p: int) -> Option<(i32, int)> {
    if int_at(s, p) && int_value_at(s, p) <= i32::MAX {
        Some((int_value_at(s, p) as i32, after_int(s, p)))
    } else {
        None
    }
}

/// A constant: a string between quotes, or an integer.
pub open spec fn pf_constant(s: Seq<char>, p: int) -> Option<(ConstVal, int)> {
    if str_at(s, p) {
        Some((ConstVal::Str(str_value_at(s, p)), after_str(s, p)))
    } else {
        match pf_int(s, p) {
            Some((v, q)) => Some((ConstVal::Int(v), q)),
            None => None,
        }
    }
}

/// An expression: a field name, or else a constant.
pub open spec fn pf_expression(s: Seq<char>, p: int) -> Option<(ExprVal, int)> {
    if id_at(s, p) {
        Some((ExprVal::Field(lower(word_at(s, p))), after_word(s, p)))
    } else {
        match pf_constant(s, p) {
            Some((c, q)) => Some((ExprVal::Const(c), q)),
            None => None,
        }
    }
}

/// A term: two expressions around `=`.
pub open spec fn pf_term(s: Seq<char>, p: int) -> Option<((ExprVal, ExprVal), int)> {
    match pf_expression(s, p) {
        Some((l, q)) => if delim_at(s, q, '=') {
            match pf_expression(s, after_delim(s, q)) {
                Some((r, q2)) => Some(((l, r), q2)),
                None => None,
            }
        } else {
            None
        },
        None => None,
    }
}

/// A predicate: terms joined by `and`.
pub open spec fn pf_predicate(s: Seq<char>, p: int) -> Option<(Seq<(ExprVal, ExprVal)>, int)>
    decreases s.len() + 2 - p,
{
    match pf_term(s, p) {
        Some((t, q)) => if keyword_is(s, q, "and"@) {
            let q1 = after_word(s, q);
            if p < q1 <= s.len() + 1 {
                match pf_predicate(s, q1) {
                    Some((ts, q2)) => Some((seq![t] + ts, q2)),
                    None => None,
                }
            } else {
                None
            }
        } else {
            Some((seq![t], q))
        },
        None => None,
    }
}

/// An optional where clause; its absence is the predicate of no term.
pub open spec fn pf_where(s: Seq<char>, p: int) -> Option<(Seq<(ExprVal, ExprVal)>, int)> {
    if keyword_is(s, p, "where"@) {
        pf_predicate(s, after_word(s, p))
    } else {
        Some((Seq::empty(), p))
    }
}

/// The rest of a list of field names after those of `acc`: each after a comma.
pub open spec fn fields_after(s: Seq<char>, q: int, acc: Seq<Seq<char>>) -> Option<
    (Seq<Seq<char>>, int),
>
    decreases s.len() + 2 - q,
{
    if delim_at(s, q, ',') {
        match pf_field(s, after_delim(s, q)) {
            Some((f, q2)) => if q < q2 <= s.len() + 1 {
                fields_after(s, q2, acc.push(f))
            } else {
                None
            },
            None => None,
        }
    } else {
        Some((acc, q))
    }
}

/// A list of field names separated by commas.
pub open spec fn pf_field_list(s: Seq<char>, p: int) -> Option<(Seq<Seq<char>>, int)> {
    match pf_field(s, p) {
        Some((f, q)) => fields_after(s, q, seq![f]),
        None => None,
    }
}

/// The rest of a list of constants after those of `acc`: each after a comma.
pub open spec fn consts_after(s: Seq<char>, q: int, acc: Seq<ConstVal>) -> Option<(Seq<ConstVal>, int)>
    decreases s.len() + 2 - q,
{
    if delim_at(s, q, ',') {
        match pf_constant(s, after_delim(s, q)) {
            Some((c, q2)) => if q < q2 <= s.len() + 1 {
                consts_after(s, q2, acc.push(c))
            } else {
                None
            },
            None => None,
        }
    } else {
        Some((acc, q))
    }
}

/// A list of constants separated by commas.
pub open spec fn pf_const_list(s: Seq<char>, p: int) -> Option<(Seq<ConstVal>, int)> {
    match pf_constant(s, p) {
        Some((c, q)) => consts_after(s, q, seq![c]),
        None => None,
    }
}

/// A select statement.
pub open spec fn pf_query(s: Seq<char>, p: int) -> Option<(QueryVal, int)> {
    if keyword_is(s, p, "select"@) {
        match pf_field_list(s, after_word(s, p)) {
            Some((fs, q1)) => if keyword_is(s, q1, "from"@) {
                match pf_field_list(s, after_word(s, q1)) {
                    Some((ts, q2)) => match pf_where(s, q2) {
                        Some((pr, q3)) => Some(
                            (QueryVal { fields: fs, tables: dedup(ts), pred: pr }, q3),
                        ),
                        None => None,
                    },
                    None => None,
                }
            } else {
                None
            },
            None => None,
        }
    } else {
        None
    }
}

/// An insert statement: `insert into t (fields) values (constants)`.
pub open spec fn pf_insert(s: Seq<char>, p: int) -> Option<(InsertVal, int)> {
    if keyword_is(s, p, "insert"@) && keyword_is(s, after_word(s, p), "into"@) {
        match pf_field(s, after_word(s, after_word(s, p))) {
            Some((t, q1)) => if delim_at(s, q1, '(') {
                match pf_field_list(s, after_delim(s, q1)) {
                    Some((fs, q2)) => if delim_at(s, q2, ')') && keyword_is(
                        s,
                        after_delim(s, q2),
                        "values"@,
                    ) && delim_at(s, after_word(s, after_delim(s, q2)), '(') {
                        match pf_const_list(
                            s,
                            after_delim(s, after_word(s, after_delim(s, q2))),
                        ) {
                            Some((cs, q3)) => if delim_at(s, q3, ')') {
                                Some(
                                    (
                                        InsertVal { table: t, fields: fs, rows: seq![cs] },
                                        after_delim(s, q3),
                                    ),
                                )
                            } else {
                                None
                            },
                            None => None,
                        }
                    } else {
                        None
                    },
                    None => None,
                }
            } else {
                None
            },
            None => None,
        }
    } else {
        None
    }
}

/// A delete statement: `delete from t`, with an optional where clause.
pub open spec fn pf_delete(s: Seq<char>, p: int) -> Option<(DeleteVal, int)> {
    if keyword_is(s, p, "delete"@) && keyword_is(s, after_word(s, p), "from"@) {
        match pf_field(s, after_word(s, after_word(s, p))) {
            Some((t, q1)) => match pf_where(s, q1) {
                Some((pr, q2)) => Some((DeleteVal { table: t, pred: pr }, q2)),
                None => None,
            },
            None => None,
        }
    } else {
        None
    }
}

/// An update statement: `update t set f = e`, with an optional where clause.
pub open spec fn pf_modify(s: Seq<char>, p: int) -> Option<(ModifyVal, int)> {
    if keyword_is(s, p, "update"@) {
        match pf_field(s, after_word(s, p)) {
            Some((t, q1)) => if keyword_is(s, q1, "set"@) {
                match pf_field(s, after_word(s, q1)) {
                    Some((f, q2)) => if delim_at(s, q2, '=') {
                        match pf_expression(s, after_delim(s, q2)) {
                            Some((e, q3)) => match pf_where(s, q3) {
                                Some((pr, q4)) => Some(
                                    (ModifyVal { table: t, field: f, new_value: e, pred: pr }, q4),
                                ),
                                None => None,
                            },
                            None => None,
                        }
                    } else {
                        None
                    },
                    None => None,
                }
            } else {
                None
            },
            None => None,
        }
    } else {
        None
    }
}

/// The type of a field definition: `int`, or `varchar(n)`.
pub open spec fn pf_field_type(s: Seq<char>, p: int, name: Seq<char>) -> Option<(FieldSpec, int)> {
    if keyword_is(s, p, "int"@) {
        Some((FieldSpec { name, ftype: INTEGER, length: 0 }, after_word(s, p)))
    } else if keyword_is(s, p, "varchar"@) && delim_at(s, after_word(s, p), '(') {
        match pf_int(s, after_delim(s, after_word(s, p))) {
            Some((n, q)) => if delim_at(s, q, ')') {
                Some((FieldSpec { name, ftype: VARCHAR, length: n }, after_delim(s, q)))
            } else {
                None
            },
            None => None,
        }
    } else {
        None
    }
}

/// A field definition: a field name and its type.
pub open spec fn pf_field_def(s: Seq<char>, p: int) -> Option<(FieldSpec, int)> {
    match pf_field(s, p) {
        Some((name, q)) => pf_field_type(s, q, name),
        None => None,
    }
}

/// The rest of a list of field definitions after those of `acc`.
pub open spec fn defs_after(s: Seq<char>, q: int, acc: Seq<FieldSpec>) -> Option<(Seq<FieldSpec>, int)>
    decreases s.len() + 2 - q,
{
    if delim_at(s, q, ',') {
        match pf_field_def(s, after_delim(s, q)) {
            Some((d, q2)) => if q < q2 <= s.len() + 1 {
                defs_after(s, q2, acc.push(d))
            } else {
                None
            },
            None => None,
        }
    } else {
        Some((acc, q))
    }
}

/// Field definitions separated by commas.
pub open spec fn pf_field_defs(s: Seq<char>, p: int) -> Option<(Seq<FieldSpec>, int)> {
    match pf_field_def(s, p) {
        Some((d, q)) => defs_after(s, q, seq![d]),
        None => None,
    }
}

/// The body of a create table statement: `table t (definitions)`.
pub open spec fn pf_create_table(s: Seq<char>, p: int) -> Option<((Seq<char>, Seq<FieldSpec>), int)> {
    if keyword_is(s, p, "table"@) {
        match pf_field(s, after_word(s, p)) {
            Some((t, q1)) => if delim_at(s, q1, '(') {
                match pf_field_defs(s, after_delim(s, q1)) {
                    Some((defs, q2)) => if delim_at(s, q2, ')') {
                        Some(((t, defs), after_delim(s, q2)))
                    } else {
                        None
                    },
                    None => None,
                }
            } else {
                None
            },
            None => None,
        }
    } else {
        None
    }
}

/// The body of a create view statement: `view v as` and a select statement.
pub open spec fn pf_create_view(s: Seq<char>, p: int) -> Option<((Seq<char>, QueryVal), int)> {
    if keyword_is(s, p, "view"@) {
        match pf_field(s, after_word(s, p)) {
            Some((v, q1)) => if keyword_is(s, q1, "as"@) {
                match pf_query(s, after_word(s, q1)) {
                    Some((qd, q2)) => Some(((v, qd), q2)),
                    None => None,
                }
            } else {
                None
            },
            None => None,
        }
    } else {
        None
    }
}

/// The body of a create index statement: `index i on t (f)`.
pub open spec fn pf_create_index(s: Seq<char>, p: int) -> Option<(IndexVal, int)> {
    if keyword_is(s, p, "index"@) {
        match pf_field(s, after_word(s, p)) {
            Some((i, q1)) => if keyword_is(s, q1, "on"@) {
                match pf_field(s, after_word(s, q1)) {
                    Some((t, q2)) => if delim_at(s, q2, '(') {
                        match pf_field(s, after_delim(s, q2)) {
                            Some((f, q3)) => if delim_at(s, q3, ')') {
                                Some(
                                    (IndexVal { index: i, table: t, field: f }, after_delim(s, q3)),
                                )
                            } else {
                                None
                            },
                            None => None,
                        }
                    } else {
                        None
                    },
                    None => None,
                }
            } else {
                None
            },
            None => None,
        }
    } else {
        None
    }
}

/// The value of an update command.
pub enum CommandVal {
    Insert(InsertVal),
    Delete(DeleteVal),
    Modify(ModifyVal),
    CreateTable((Seq<char>, Seq<FieldSpec>)),
    CreateView((Seq<char>, QueryVal)),
    CreateIndex(IndexVal),
}

/// A create statement: `create` and the body of a table, a view or, failing
/// those, an index.
pub open spec fn pf_create(s: Seq<char>, p: int) -> Option<(CommandVal, int)> {
    if keyword_is(s, p, "create"@) {
        let q = after_word(s, p);
        if keyword_is(s, q, "table"@) {
            match pf_create_table(s, q) {
                Some((d, q1)) => Some((CommandVal::CreateTable(d), q1)),
                None => None,
            }
        } else if keyword_is(s, q, "view"@) {
            match pf_create_view(s, q) {
                Some((d, q1)) => Some((CommandVal::CreateView(d), q1)),
                None => None,
            }
        } else {
            match pf_create_index(s, q) {
                Some((d, q1)) => Some((CommandVal::CreateIndex(d), q1)),
                None => None,
            }
        }
    } else {
        None
    }
}

/// An update command: an insert, delete or update statement, chosen by its
/// first keyword, or else a create statement.
pub open spec fn pf_update_cmd(s: Seq<char>, p: int) -> Option<(CommandVal, int)> {
    if keyword_is(s, p, "insert"@) {
        match pf_insert(s, p) {
            Some((d, q)) => Some((CommandVal::Insert(d), q)),
            None => None,
        }
    } else if keyword_is(s, p, "delete"@) {
        match pf_delete(s, p) {
            Some((d, q)) => Some((CommandVal::Delete(d), q)),
            None => None,
        }
    } else if keyword_is(s, p, "update"@) {
        match pf_modify(s, p) {
            Some((d, q)) => Some((CommandVal::Modify(d), q)),
            None => None,
        }
    } else {
        pf_create(s, p)
    }
}

/// Reading an expression moves forward and stays at most one past the end.
pub proof fn lemma_expression_advance(s: Seq<char>, p: int)
    requires
        0 <= p <= s.len() + 1,
    ensures
        pf_expression(s, p) matches Some((e, q)) ==> p < q <= s.len() + 1,
        pf_constant(s, p) matches Some((c, q)) ==> p < q <= s.len() + 1,
        pf_field(s, p) matches Some((f, q)) ==> p < q <= s.len(),
{
    lemma_token_advance(s, p);
}

/// Reading a term moves forward and stays at most one past the end.
pub proof fn lemma_term_advance(s: Seq<char>, p: int)
    requires
        0 <= p <= s.len() + 1,
    ensures
        pf_term(s, p) matches Some((t, q)) ==> p < q <= s.len() + 1,
{
    lemma_expression_advance(s, p);
    if let Some((l, q)) = pf_expression(s, p) {
        if delim_at(s, q, '=') {
            lemma_token_advance(s, q);
            lemma_expression_advance(s, after_delim(s, q));
        }
    }
}

/// Reading a field definition moves forward and stays at most one past the end.
pub proof fn lemma_field_def_advance(s: Seq<char>, p: int)
    requires
        0 <= p <= s.len() + 1,
    ensures
        pf_field_def(s, p) matches Some((d, q)) ==> p < q <= s.len() + 1,
{
    lemma_expression_advance(s, p);
    if let Some((name, q)) = pf_field(s, p) {
        lemma_token_advance(s, q);
        if keyword_is(s, q, "varchar"@) && delim_at(s, after_word(s, q), '(') {
            let q1 = after_word(s, q);
            lemma_token_advance(s, q1);
            lemma_token_advance(s, after_delim(s, q1));
            if let Some((n, q2)) = pf_int(s, after_delim(s, q1)) {
                lemma_token_advance(s, q2);
            }
        }
    }
}

} // verus!
