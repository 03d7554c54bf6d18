use rsimpledb::parse::{Lexer, Parser, UpdateCommand, CreateCommand, BadSyntaxException};
use rsimpledb::query::{Constant, Expression};

#[test]
fn lexer_test() {
    let s = "select name, address from t1 where id = 123 and 18 < age";
    let mut lexer = Lexer::new(s);
    lexer.eat_keyword("select");
    assert_eq!("name", lexer.eat_id());
    lexer.eat_delim(',');
    assert_eq!("address", lexer.eat_id());
    lexer.eat_keyword("from");
    assert_eq!("t1", lexer.eat_id());
    lexer.eat_keyword("where");
    assert_eq!("id", lexer.eat_id());
    lexer.eat_delim('=');
    assert_eq!(123, lexer.eat_int_constant());
    lexer.eat_keyword("and");
    assert_eq!(18, lexer.eat_int_constant());
    lexer.eat_delim('<');
    assert_eq!("age", lexer.eat_id());
}

#[test]
fn parser_test() {
    let s = "select name, address from t1 where id = 123 and 18 = age";
    let mut parser = Parser::new(s);
    let q_data = parser.query().unwrap();
    assert_eq!(s, q_data.to_string());

    let s = "update t1 set name = 'abc' where id = 123 and 18 = age";
    let mut parser = Parser::new(s);
    assert!(parser.update_cmd().is_ok());
}

#[test]
fn lexer_matches_and_case() {
    let mut lexer = Lexer::new("  SELECT Name 'it''s' 42");
    assert!(lexer.match_keyword("select"));
    assert!(!lexer.match_id());
    lexer.eat_keyword("select");
    assert!(lexer.match_id());
    assert!(!lexer.match_keyword("name"));
    assert_eq!(lexer.eat_id(), "name");
    assert!(lexer.match_string_constant());
    assert_eq!(lexer.eat_string_constant(), "it");
    assert_eq!(lexer.eat_string_constant(), "s");
    assert!(lexer.match_int_constant());
    assert!(lexer.int_constant_fits());
    assert_eq!(lexer.eat_int_constant(), 42);
    assert!(!lexer.match_delim(','));
}

#[test]
fn lexer_int_fits() {
    let lexer = Lexer::new("2147483647");
    assert!(lexer.int_constant_fits());
    let lexer = Lexer::new("2147483648");
    assert!(!lexer.int_constant_fits());
}

#[test]
fn parser_query_without_where_and_duplicate_tables() {
    let mut parser = Parser::new("select a from t, u, t");
    let q = parser.query().unwrap();
    assert_eq!(q.to_string(), "select a from t, u");
    assert_eq!(q.tables().len(), 2);
    assert_eq!(q.pred().len(), 0);
}

#[test]
fn parser_constants_and_expressions() {
    let mut parser = Parser::new("'x y' 17 Abc");
    assert!(parser.constant().unwrap().equals(&Constant::from_string("x y".to_string())));
    assert!(parser.constant().unwrap().equals(&Constant::from_int(17)));
    let e = parser.expression().unwrap();
    assert!(e.is_field_name());
    assert_eq!(e.to_string(), "abc");
}

#[test]
fn parser_term_and_predicate_text() {
    let mut parser = Parser::new("a = 'b' and 3 = c and d = e");
    let p = parser.predicate().unwrap();
    assert_eq!(p.len(), 3);
    assert_eq!(p.to_string(), "a = 'b' and 3 = c and d = e");
}

#[test]
fn parser_bad_syntax() {
    assert_eq!(Parser::new("select from t").query().err(), Some(BadSyntaxException));
    assert_eq!(Parser::new("select a t").query().err(), Some(BadSyntaxException));
    assert!(Parser::new("a < b").term().is_err());
    assert!(Parser::new("99999999999").constant().is_err());
    assert!(Parser::new("drop table t").update_cmd().is_err());
    let _ = Expression::from_field("x".to_string());
}

#[test]
fn parser_insert() {
    let mut parser = Parser::new("insert into student (sid, sname) values (1, 'joe')");
    match parser.update_cmd().unwrap() {
        UpdateCommand::Insert(d) => {
            assert_eq!(d.table_name(), "student");
            assert_eq!(d.fields(), &["sid".to_string(), "sname".to_string()]);
            assert_eq!(d.rows().len(), 1);
            assert!(d.rows()[0][0].equals(&Constant::from_int(1)));
            assert!(d.rows()[0][1].equals(&Constant::from_string("joe".to_string())));
        }
        _ => panic!("expected an insert"),
    }
}

#[test]
fn parser_delete_and_modify() {
    let mut parser = Parser::new("delete from student where sid = 5");
    match parser.update_cmd().unwrap() {
        UpdateCommand::Delete(d) => {
            assert_eq!(d.table_name(), "student");
            assert_eq!(d.pred().to_string(), "sid = 5");
        }
        _ => panic!("expected a delete"),
    }
    let mut parser = Parser::new("update student set majorid = 20");
    match parser.update_cmd().unwrap() {
        UpdateCommand::Modify(d) => {
            assert_eq!(d.table_name(), "student");
            assert_eq!(d.target_field(), "majorid");
            assert_eq!(d.new_value().to_string(), "20");
            assert_eq!(d.pred().len(), 0);
        }
        _ => panic!("expected an update"),
    }
}

#[test]
fn parser_create_commands() {
    let mut parser = Parser::new("create table student(sid int, sname varchar(9), majorid int)");
    match parser.update_cmd().unwrap() {
        UpdateCommand::Create(CreateCommand::Table(d)) => {
            assert_eq!(d.table_name(), "student");
            let sch = d.schema();
            assert_eq!(sch.fields(), vec!["sid".to_string(), "sname".to_string(), "majorid".to_string()]);
            assert_eq!(sch.ftype("sname"), 12);
            assert_eq!(sch.length("sname"), 9);
            assert_eq!(sch.ftype("sid"), 4);
        }
        _ => panic!("expected a create table"),
    }
    let mut parser = Parser::new("create view v as select a from t where a = 1");
    match parser.update_cmd().unwrap() {
        UpdateCommand::Create(CreateCommand::View(d)) => {
            assert_eq!(d.view_name(), "v");
            assert_eq!(d.view_def(), "select a from t where a = 1");
            assert_eq!(d.query_data().fields().len(), 1);
        }
        _ => panic!("expected a create view"),
    }
    let mut parser = Parser::new("create index i on student(sid)");
    match parser.update_cmd().unwrap() {
        UpdateCommand::Create(CreateCommand::Index(d)) => {
            assert_eq!(d.index_name(), "i");
            assert_eq!(d.table_name(), "student");
            assert_eq!(d.field_name(), "sid");
        }
        _ => panic!("expected a create index"),
    }
}

#[test]
fn lexer_skips_unicode_white_space() {
    let mut lexer = Lexer::new("\u{3000}select\u{2003}a\u{85}\t,");
    assert!(lexer.match_keyword("select"));
    lexer.eat_keyword("select");
    assert_eq!(lexer.eat_id(), "a");
    assert!(lexer.match_delim(','));
}
