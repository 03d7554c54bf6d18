use vstd::prelude::*;

use crate::parse::grammar::{
    consts_after, defs_after, fields_after, lemma_expression_advance, lemma_field_def_advance,
    lemma_term_advance, pf_const_list, pf_constant, pf_create, pf_create_index, pf_create_table,
    pf_create_view, pf_delete, pf_expression, pf_field, pf_field_def, pf_field_defs, pf_field_list,
    pf_field_type, pf_insert, pf_int, pf_modify, pf_predicate, pf_query, pf_term, pf_update_cmd, pf_where,
    CommandVal,
};
use crate::parse::insert_data::const_vals;
use crate::parse::lexer::{after_delim, after_word, delim_at, keyword_is, lemma_token_advance, ws_end};
use crate::parse::{
    BadSyntaxException, CreateIndexData, CreateTableData, CreateViewData, DeleteData, InsertData, Lexer,
    ModifyData, QueryData,
};
use crate::query::{Constant, Expression, Predicate, Term};
use crate::record::Schema;
use crate::util::{contains_name, dedup, names};

verus! {

/// A recursive-descent parser for the SQL dialect. Each method reads a phrase
/// at the current position and returns its value, or `BadSyntaxException`
/// where the text there is not such a phrase.
pub struct Parser {
    lex: Lexer,
}

/// The command of an update statement.
pub enum UpdateCommand {
    Insert(InsertData),
    Delete(DeleteData),
    Modify(ModifyData),
    Create(CreateCommand),
}

/// The command of a create statement.
pub enum CreateCommand {
    Table(CreateTableData),
    View(CreateViewData),
    Index(CreateIndexData),
}

impl View for CreateCommand {
    type V = CommandVal;

    open spec fn view(&self) -> CommandVal {
        match self {
            CreateCommand::Table(d) => CommandVal::CreateTable(d@),
            CreateCommand::View(d) => CommandVal::CreateView(d@),
            CreateCommand::Index(d) => CommandVal::CreateIndex(d@),
        }
    }
}

impl View for UpdateCommand {
    type V = CommandVal;

    open spec fn view(&self) -> CommandVal {
        match self {
            UpdateCommand::Insert(d) => CommandVal::Insert(d@),
            UpdateCommand::Delete(d) => CommandVal::Delete(d@),
            UpdateCommand::Modify(d) => CommandVal::Modify(d@),
            UpdateCommand::Create(c) => c@,
        }
    }
}

impl Parser {
    /// The text being parsed.
    pub closed spec fn text(&self) -> Seq<char> {
        self.lex.text()
    }

    /// The position of the next token.
    pub closed spec fn pos(&self) -> int {
        self.lex.pos()
    }

    /// The parser's lexer is valid.
    pub closed spec fn valid(&self) -> bool {
        self.lex.valid()
    }

    proof fn lemma_valid(&self)
        requires
            self.valid(),
        ensures
            0 <= self.pos() <= self.text().len() + 1,
    {
        self.lex.lemma_valid();
    }

    /// A parser of the text `s`, at its first token.
    pub fn new(s: &str) -> (r: Self)
        requires
            s@.len() + 1 < usize::MAX,
        ensures
            r.valid(),
            r.text() == s@,
            r.pos() == ws_end(s@, 0),
    {
        Parser { lex: Lexer::new(s) }
    }

    /// Reads the keyword `w`.
    fn expect_keyword(&mut self, w: &str) -> (r: Result<(), BadSyntaxException>)
        requires
            old(self).valid(),
        ensures
            final(self).valid(),
            final(self).text() == old(self).text(),
            match r {
                Ok(_) => keyword_is(old(self).text(), old(self).pos(), w@) && final(self).pos()
                    == after_word(old(self).text(), old(self).pos()),
                Err(_) => !keyword_is(old(self).text(), old(self).pos(), w@),
            },
    {
        if !self.lex.match_keyword(w) {
            return Err(BadSyntaxException);
        }
        self.lex.eat_keyword(w);
        Ok(())
    }

    /// Reads the delimiter `d`.
    fn expect_delim(&mut self, d: char) -> (r: Result<(), BadSyntaxException>)
        requires
            old(self).valid(),
        ensures
            final(self).valid(),
            final(self).text() == old(self).text(),
            match r {
                Ok(_) => delim_at(old(self).text(), old(self).pos(), d) && final(self).pos()
                    == after_delim(old(self).text(), old(self).pos()),
                Err(_) => !delim_at(old(self).text(), old(self).pos(), d),
            },
    {
        if !self.lex.match_delim(d) {
            return Err(BadSyntaxException);
        }
        self.lex.eat_delim(d);
        Ok(())
    }

    /// Reads a field name.
    pub fn field(&mut self) -> (r: Result<String, BadSyntaxException>)
        requires
            old(self).valid(),
        ensures
            final(self).valid(),
            final(self).text() == old(self).text(),
            match r {
                Ok(f) => pf_field(old(self).text(), old(self).pos()) == Some((f@, final(self).pos())),
                Err(_) => pf_field(old(self).text(), old(self).pos()) is None,
            },
    {
        if !self.lex.match_id() {
            return Err(BadSyntaxException);
        }
        Ok(self.lex.eat_id())
    }

    /// Reads an integer constant that fits in an `i32`.
    fn int_constant(&mut self) -> (r: Result<i32, BadSyntaxException>)
        requires
            old(self).valid(),
        ensures
            final(self).valid(),
            final(self).text() == old(self).text(),
            match r {
                Ok(n) => pf_int(old(self).text(), old(self).pos()) == Some((n, final(self).pos())),
                Err(_) => pf_int(old(self).text(), old(self).pos()) is None,
            },
    {
        if !self.lex.match_int_constant() || !self.lex.int_constant_fits() {
            return Err(BadSyntaxException);
        }
        Ok(self.lex.eat_int_constant())
    }

    /// Reads a constant: a string between quotes, or an integer.
    pub fn constant(&mut self) -> (r: Result<Constant, BadSyntaxException>)
        requires
            old(self).valid(),
        ensures
            final(self).valid(),
            final(self).text() == old(self).text(),
            match r {
                Ok(c) => pf_constant(old(self).text(), old(self).pos()) == Some(
                    (c@, final(self).pos()),
                ),
                Err(_) => pf_constant(old(self).text(), old(self).pos()) is None,
            },
    {
        if self.lex.match_string_constant() {
            Ok(Constant::from_string(self.lex.eat_string_constant()))
        } else {
            let n = self.int_constant()?;
            Ok(Constant::from_int(n))
        }
    }

    /// Reads an expression: a field name, or else a constant.
    pub fn expression(&mut self) -> (r: Result<Expression, BadSyntaxException>)
        requires
            old(self).valid(),
        ensures
            final(self).valid(),
            final(self).text() == old(self).text(),
            match r {
                Ok(e) => pf_expression(old(self).text(), old(self).pos()) == Some(
                    (e@, final(self).pos()),
                ),
                Err(_) => pf_expression(old(self).text(), old(self).pos()) is None,
            },
    {
        if self.lex.match_id() {
            let f = self.field()?;
            Ok(Expression::from_field(f))
        } else {
            let c = self.constant()?;
            Ok(Expression::from_constant(c))
        }
    }

    /// Reads a term: two expressions around `=`.
    pub fn term(&mut self) -> (r: Result<Term, BadSyntaxException>)
        requires
            old(self).valid(),
        ensures
            final(self).valid(),
            final(self).text() == old(self).text(),
            match r {
                Ok(t) => pf_term(old(self).text(), old(self).pos()) == Some((t@, final(self).pos())),
                Err(_) => pf_term(old(self).text(), old(self).pos()) is None,
            },
    {
        let lhs = self.expression()?;
        self.expect_delim('=')?;
        let rhs = self.expression()?;
        Ok(Term::new(lhs, rhs))
    }

    /// Reads a predicate: terms joined by `and`.
    pub fn predicate(&mut self) -> (r: Result<Predicate, BadSyntaxException>)
        requires
            old(self).valid(),
        ensures
            final(self).valid(),
            final(self).text() == old(self).text(),
            match r {
                Ok(pr) => pf_predicate(old(self).text(), old(self).pos()) == Some(
                    (pr@, final(self).pos()),
                ),
                Err(_) => pf_predicate(old(self).text(), old(self).pos()) is None,
            },
        decreases old(self).text().len() + 2 - old(self).pos(),
    {
        proof {
            self.lemma_valid();
            lemma_term_advance(self.text(), self.pos());
        }
        let t = self.term()?;
        let mut pred = Predicate::from_term(t);
        if self.lex.match_keyword("and") {
            proof {
                self.lemma_valid();
                lemma_token_advance(self.text(), self.pos());
            }
            self.lex.eat_keyword("and");
            let rest = self.predicate()?;
            pred.conjoin_with(rest);
        }
        Ok(pred)
    }

    /// Reads an optional where clause.
    fn where_clause(&mut self) -> (r: Result<Predicate, BadSyntaxException>)
        requires
            old(self).valid(),
        ensures
            final(self).valid(),
            final(self).text() == old(self).text(),
            match r {
                Ok(pr) => pf_where(old(self).text(), old(self).pos()) == Some(
                    (pr@, final(self).pos()),
                ),
                Err(_) => pf_where(old(self).text(), old(self).pos()) is None,
            },
    {
        if self.lex.match_keyword("where") {
            self.lex.eat_keyword("where");
            self.predicate()
        } else {
            Ok(Predicate::new())
        }
    }

    /// Reads a list of field names separated by commas.
    fn field_list(&mut self) -> (r: Result<Vec<String>, BadSyntaxException>)
        requires
            old(self).valid(),
        ensures
            final(self).valid(),
            final(self).text() == old(self).text(),
            match r {
                Ok(v) => pf_field_list(old(self).text(), old(self).pos()) == Some(
                    (names(v@), final(self).pos()),
                ),
                Err(_) => pf_field_list(old(self).text(), old(self).pos()) is None,
            },
    {
        let mut list: Vec<String> = Vec::new();
        let f = self.field()?;
        list.push(f);
        assert(names(list@) =~= seq![f@]);
        while self.lex.match_delim(',')
            invariant
                self.valid(),
                self.text() == old(self).text(),
                pf_field_list(old(self).text(), old(self).pos()) == fields_after(
                    self.text(),
                    self.pos(),
                    names(list@),
                ),
            decreases self.text().len() + 2 - self.pos(),
        {
            proof {
                self.lemma_valid();
                lemma_token_advance(self.text(), self.pos());
                lemma_expression_advance(self.text(), after_delim(self.text(), self.pos()));
            }
            self.lex.eat_delim(',');
            let f = self.field()?;
            let ghost before = names(list@);
            list.push(f);
            assert(names(list@) =~= before.push(f@));
        }
        Ok(list)
    }

    /// Reads a list of table names separated by commas; a name given more
    /// than once is kept once, where it first occurs.
    fn table_list(&mut self) -> (r: Result<Vec<String>, BadSyntaxException>)
        requires
            old(self).valid(),
        ensures
            final(self).valid(),
            final(self).text() == old(self).text(),
            match r {
                Ok(v) => match pf_field_list(old(self).text(), old(self).pos()) {
                    Some((ts, q)) => q == final(self).pos() && names(v@) == dedup(ts),
                    None => false,
                },
                Err(_) => pf_field_list(old(self).text(), old(self).pos()) is None,
            },
    {
        let mut set: Vec<String> = Vec::new();
        let t = self.field()?;
        set.push(t);
        let ghost mut raw: Seq<Seq<char>> = seq![t@];
        proof {
            assert(names(set@) =~= seq![t@]);
            crate::util::lemma_dedup_single(t@);
        }
        while self.lex.match_delim(',')
            invariant
                self.valid(),
                self.text() == old(self).text(),
                pf_field_list(old(self).text(), old(self).pos()) == fields_after(self.text(), self.pos(), raw),
                names(set@) == dedup(raw),
            decreases self.text().len() + 2 - self.pos(),
        {
            proof {
                self.lemma_valid();
                lemma_token_advance(self.text(), self.pos());
                lemma_expression_advance(self.text(), after_delim(self.text(), self.pos()));
            }
            self.lex.eat_delim(',');
            let t = self.field()?;
            let ghost before = names(set@);
            proof {
                assert(raw.push(t@).drop_last() =~= raw);
                raw = raw.push(t@);
            }
            if !contains_name(&set, &t) {
                set.push(t);
                assert(names(set@) =~= before.push(t@));
            }
        }
        Ok(set)
    }

    /// Reads a list of constants separated by commas.
    fn const_list(&mut self) -> (r: Result<Vec<Constant>, BadSyntaxException>)
        requires
            old(self).valid(),
        ensures
            final(self).valid(),
            final(self).text() == old(self).text(),
            match r {
                Ok(v) => pf_const_list(old(self).text(), old(self).pos()) == Some(
                    (const_vals(v@), final(self).pos()),
                ),
                Err(_) => pf_const_list(old(self).text(), old(self).pos()) is None,
            },
    {
        let mut list: Vec<Constant> = Vec::new();
        let c = self.constant()?;
        list.push(c);
        assert(const_vals(list@) =~= seq![c@]);
        while self.lex.match_delim(',')
            invariant
                self.valid(),
                self.text() == old(self).text(),
                pf_const_list(old(self).text(), old(self).pos()) == consts_after(
                    self.text(),
                    self.pos(),
                    const_vals(list@),
                ),
            decreases self.text().len() + 2 - self.pos(),
        {
            proof {
                self.lemma_valid();
                lemma_token_advance(self.text(), self.pos());
                lemma_expression_advance(self.text(), after_delim(self.text(), self.pos()));
            }
            self.lex.eat_delim(',');
            let c = self.constant()?;
            let ghost before = const_vals(list@);
            list.push(c);
            assert(const_vals(list@) =~= before.push(c@));
        }
        Ok(list)
    }

    /// Reads a select statement.
    pub fn query(&mut self) -> (r: Result<QueryData, BadSyntaxException>)
        requires
            old(self).valid(),
        ensures
            final(self).valid(),
            final(self).text() == old(self).text(),
            match r {
                Ok(q) => pf_query(old(self).text(), old(self).pos()) == Some((q@, final(self).pos())),
                Err(_) => pf_query(old(self).text(), old(self).pos()) is None,
            },
    {
        self.expect_keyword("select")?;
        let fields = self.field_list()?;
        self.expect_keyword("from")?;
        let ghost tpos = self.pos();
        let tables = self.table_list()?;
        proof {
            crate::util::lemma_dedup_idempotent(pf_field_list(self.text(), tpos).unwrap().0);
        }
        let pred = self.where_clause()?;
        Ok(QueryData::new(fields, tables, pred))
    }

    /// Reads an update command: an insert, delete or update statement, chosen
    /// by its first keyword, or else a create statement.
    pub fn update_cmd(&mut self) -> (r: Result<UpdateCommand, BadSyntaxException>)
        requires
            old(self).valid(),
        ensures
            final(self).valid(),
            final(self).text() == old(self).text(),
            match r {
                Ok(c) => pf_update_cmd(old(self).text(), old(self).pos()) == Some(
                    (c@, final(self).pos()),
                ),
                Err(_) => pf_update_cmd(old(self).text(), old(self).pos()) is None,
            },
    {
        if self.lex.match_keyword("insert") {
            Ok(UpdateCommand::Insert(self.insert()?))
        } else if self.lex.match_keyword("delete") {
            Ok(UpdateCommand::Delete(self.delete()?))
        } else if self.lex.match_keyword("update") {
            Ok(UpdateCommand::Modify(self.modify()?))
        } else {
            Ok(UpdateCommand::Create(self.create()?))
        }
    }

    /// Reads a create statement: a table, a view or, failing those, an index.
    fn create(&mut self) -> (r: Result<CreateCommand, BadSyntaxException>)
        requires
            old(self).valid(),
        ensures
            final(self).valid(),
            final(self).text() == old(self).text(),
            match r {
                Ok(c) => pf_create(old(self).text(), old(self).pos()) == Some((c@, final(self).pos())),
                Err(_) => pf_create(old(self).text(), old(self).pos()) is None,
            },
    {
        self.expect_keyword("create")?;
        if self.lex.match_keyword("table") {
            Ok(CreateCommand::Table(self.create_table()?))
        } else if self.lex.match_keyword("view") {
            Ok(CreateCommand::View(self.create_view()?))
        } else {
            Ok(CreateCommand::Index(self.create_index()?))
        }
    }

    /// Reads a delete statement.
    pub fn delete(&mut self) -> (r: Result<DeleteData, BadSyntaxException>)
        requires
            old(self).valid(),
        ensures
            final(self).valid(),
            final(self).text() == old(self).text(),
            match r {
                Ok(d) => pf_delete(old(self).text(), old(self).pos()) == Some((d@, final(self).pos())),
                Err(_) => pf_delete(old(self).text(), old(self).pos()) is None,
            },
    {
        self.expect_keyword("delete")?;
        self.expect_keyword("from")?;
        let tblname = self.field()?;
        let pred = self.where_clause()?;
        Ok(DeleteData::new(tblname, pred))
    }

    /// Reads an insert statement of one row of values.
    pub fn insert(&mut self) -> (r: Result<InsertData, BadSyntaxException>)
        requires
            old(self).valid(),
        ensures
            final(self).valid(),
            final(self).text() == old(self).text(),
            match r {
                Ok(d) => pf_insert(old(self).text(), old(self).pos()) == Some((d@, final(self).pos())),
                Err(_) => pf_insert(old(self).text(), old(self).pos()) is None,
            },
    {
        self.expect_keyword("insert")?;
        self.expect_keyword("into")?;
        let tblname = self.field()?;
        self.expect_delim('(')?;
        let flds = self.field_list()?;
        self.expect_delim(')')?;
        self.expect_keyword("values")?;
        self.expect_delim('(')?;
        let vals = self.const_list()?;
        self.expect_delim(')')?;
        let mut rows: Vec<Vec<Constant>> = Vec::new();
        rows.push(vals);
        let d = InsertData::new(tblname, flds, rows);
        assert(d@.rows =~= seq![const_vals(vals@)]);
        Ok(d)
    }

    /// Reads an update statement.
    pub fn modify(&mut self) -> (r: Result<ModifyData, BadSyntaxException>)
        requires
            old(self).valid(),
        ensures
            final(self).valid(),
            final(self).text() == old(self).text(),
            match r {
                Ok(d) => pf_modify(old(self).text(), old(self).pos()) == Some((d@, final(self).pos())),
                Err(_) => pf_modify(old(self).text(), old(self).pos()) is None,
            },
    {
        self.expect_keyword("update")?;
        let tblname = self.field()?;
        self.expect_keyword("set")?;
        let fldname = self.field()?;
        self.expect_delim('=')?;
        let newval = self.expression()?;
        let pred = self.where_clause()?;
        Ok(ModifyData::new(tblname, fldname, newval, pred))
    }

    /// Reads the body of a create table statement.
    pub fn create_table(&mut self) -> (r: Result<CreateTableData, BadSyntaxException>)
        requires
            old(self).valid(),
        ensures
            final(self).valid(),
            final(self).text() == old(self).text(),
            match r {
                Ok(d) => pf_create_table(old(self).text(), old(self).pos()) == Some(
                    (d@, final(self).pos()),
                ),
                Err(_) => pf_create_table(old(self).text(), old(self).pos()) is None,
            },
    {
        self.expect_keyword("table")?;
        let tblname = self.field()?;
        self.expect_delim('(')?;
        let sch = self.field_defs()?;
        self.expect_delim(')')?;
        Ok(CreateTableData::new(tblname, sch))
    }

    /// Reads field definitions separated by commas.
    fn field_defs(&mut self) -> (r: Result<Schema, BadSyntaxException>)
        requires
            old(self).valid(),
        ensures
            final(self).valid(),
            final(self).text() == old(self).text(),
            match r {
                Ok(sch) => pf_field_defs(old(self).text(), old(self).pos()) == Some(
                    (sch@, final(self).pos()),
                ),
                Err(_) => pf_field_defs(old(self).text(), old(self).pos()) is None,
            },
    {
        let mut schema = self.field_def()?;
        while self.lex.match_delim(',')
            invariant
                self.valid(),
                self.text() == old(self).text(),
                pf_field_defs(old(self).text(), old(self).pos()) == defs_after(
                    self.text(),
                    self.pos(),
                    schema@,
                ),
            decreases self.text().len() + 2 - self.pos(),
        {
            proof {
                self.lemma_valid();
                lemma_token_advance(self.text(), self.pos());
                lemma_field_def_advance(self.text(), after_delim(self.text(), self.pos()));
            }
            self.lex.eat_delim(',');
            let more = self.field_def()?;
            let ghost before = schema@;
            schema.add_all(&more);
            assert(schema@ =~= before.push(more@[0]));
        }
        Ok(schema)
    }

    /// Reads a field definition: the schema of that one field.
    fn field_def(&mut self) -> (r: Result<Schema, BadSyntaxException>)
        requires
            old(self).valid(),
        ensures
            final(self).valid(),
            final(self).text() == old(self).text(),
            match r {
                Ok(sch) => pf_field_def(old(self).text(), old(self).pos()) matches Some((d, q))
                    && sch@ == seq![d] && q == final(self).pos(),
                Err(_) => pf_field_def(old(self).text(), old(self).pos()) is None,
            },
    {
        let fldname = self.field()?;
        self.field_type(fldname)
    }

    /// Reads the type of the field `fldname`: the schema of that one field.
    fn field_type(&mut self, fldname: String) -> (r: Result<Schema, BadSyntaxException>)
        requires
            old(self).valid(),
        ensures
            final(self).valid(),
            final(self).text() == old(self).text(),
            match r {
                Ok(sch) => pf_field_type(old(self).text(), old(self).pos(), fldname@) matches Some(
                    (d, q),
                ) && sch@ == seq![d] && q == final(self).pos(),
                Err(_) => pf_field_type(old(self).text(), old(self).pos(), fldname@) is None,
            },
    {
        let mut schema = Schema::new();
        if self.lex.match_keyword("int") {
            self.lex.eat_keyword("int");
            schema.add_int_field(fldname.as_str());
        } else {
            self.expect_keyword("varchar")?;
            self.expect_delim('(')?;
            let str_len = self.int_constant()?;
            self.expect_delim(')')?;
            schema.add_string_field(fldname.as_str(), str_len);
        }
        Ok(schema)
    }

    /// Reads the body of a create view statement.
    pub fn create_view(&mut self) -> (r: Result<CreateViewData, BadSyntaxException>)
        requires
            old(self).valid(),
        ensures
            final(self).valid(),
            final(self).text() == old(self).text(),
            match r {
                Ok(d) => pf_create_view(old(self).text(), old(self).pos()) == Some(
                    (d@, final(self).pos()),
                ),
                Err(_) => pf_create_view(old(self).text(), old(self).pos()) is None,
            },
    {
        self.expect_keyword("view")?;
        let viewname = self.field()?;
        self.expect_keyword("as")?;
        let qd = self.query()?;
        Ok(CreateViewData::new(viewname, qd))
    }

    /// Reads the body of a create index statement.
    pub fn create_index(&mut self) -> (r: Result<CreateIndexData, BadSyntaxException>)
        requires
            old(self).valid(),
        ensures
            final(self).valid(),
            final(self).text() == old(self).text(),
            match r {
                Ok(d) => pf_create_index(old(self).text(), old(self).pos()) == Some(
                    (d@, final(self).pos()),
                ),
                Err(_) => pf_create_index(old(self).text(), old(self).pos()) is None,
            },
    {
        self.expect_keyword("index")?;
        let idxname = self.field()?;
        self.expect_keyword("on")?;
        let tblname = self.field()?;
        self.expect_delim('(')?;
        let fldname = self.field()?;
        self.expect_delim(')')?;
        Ok(CreateIndexData::new(idxname, tblname, fldname))
    }
}

} // verus!
