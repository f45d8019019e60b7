use infra_core::sql::ast::{Expression, SelectColumn, Statement};
use infra_core::sql::catalog::ColumnType;
use infra_core::sql::engine::SqlEngine;
use infra_core::sql::lexer::{tokenize, TokenKind};
use infra_core::sql::parser::parse_sql;

#[test]
fn tokenize_classifies_words_numbers_and_operators() {
    let toks = tokenize("SELECT name, 42, 3.5 FROM Users WHERE x >= 'a b' -- note");
    let kinds: Vec<TokenKind> = toks.iter().map(|t| t.kind).collect();
    assert_eq!(
        kinds,
        vec![
            TokenKind::Select,
            TokenKind::Identifier,
            TokenKind::Comma,
            TokenKind::IntLiteral,
            TokenKind::Comma,
            TokenKind::FloatLiteral,
            TokenKind::From,
            TokenKind::Identifier,
            TokenKind::Where,
            TokenKind::Identifier,
            TokenKind::Gte,
            TokenKind::StringLiteral,
            TokenKind::Eof,
        ]
    );
    assert_eq!(toks[7].lexeme, "users");
    assert_eq!(toks[11].lexeme, "a b");
}

#[test]
fn parse_select_with_conditions() {
    let stmt = parse_sql("SELECT a, b FROM t WHERE x = 1 AND y > 'z'").unwrap();
    match stmt {
        Statement::Select(s) => {
            assert_eq!(s.table, "t");
            assert_eq!(s.columns.len(), 2);
            assert!(matches!(&s.columns[0], SelectColumn::Named(n) if n == "a"));
            match s.where_clause {
                Some(Expression::And(l, r)) => {
                    assert!(matches!(*l, Expression::Eq(_, _)));
                    assert!(matches!(*r, Expression::Gt(_, _)));
                }
                other => panic!("unexpected condition {:?}", other),
            }
        }
        other => panic!("unexpected statement {:?}", other),
    }
}

#[test]
fn parse_create_insert_update_delete_drop() {
    match parse_sql("CREATE TABLE t (id INT, name TEXT, score REAL, ok BOOLEAN)").unwrap() {
        Statement::Create(c) => {
            let types: Vec<ColumnType> = c.columns.iter().map(|d| d.col_type).collect();
            assert_eq!(types, vec![ColumnType::Int, ColumnType::Text, ColumnType::Float, ColumnType::Bool]);
        }
        other => panic!("{:?}", other),
    }
    match parse_sql("INSERT INTO t VALUES (1, 'x', 2.5, true)").unwrap() {
        Statement::Insert(i) => {
            assert_eq!(i.values.len(), 4);
            assert!(matches!(i.values[0], Expression::IntLiteral(1)));
            assert!(matches!(&i.values[2], Expression::FloatLiteral(f) if f == "2.5"));
            assert!(matches!(i.values[3], Expression::BoolLiteral(true)));
        }
        other => panic!("{:?}", other),
    }
    match parse_sql("UPDATE t SET a = 1, b = (2) WHERE c < 3").unwrap() {
        Statement::Update(u) => {
            assert_eq!(u.assignments.len(), 2);
            assert_eq!(u.assignments[1].0, "b");
            assert!(u.where_clause.is_some());
        }
        other => panic!("{:?}", other),
    }
    assert!(matches!(parse_sql("DELETE FROM t").unwrap(), Statement::Delete(_)));
    assert!(matches!(parse_sql("DROP TABLE t").unwrap(), Statement::Drop(_)));
}

#[test]
fn parse_errors_name_what_was_expected() {
    assert_eq!(parse_sql("SELECT").unwrap_err(), "Expected Identifier, got Eof");
    assert_eq!(parse_sql("UPDATE t x = 1").unwrap_err(), "Expected Set, got Identifier");
    assert_eq!(parse_sql("FROM t").unwrap_err(), "Unexpected token: From");
    assert_eq!(parse_sql("CREATE TABLE t (a blob)").unwrap_err(), "Unknown type: blob");
    assert_eq!(
        parse_sql("SELECT * FROM t WHERE a = 1.2.3").unwrap_err(),
        "Invalid float literal: invalid float literal"
    );
    assert_eq!(
        parse_sql("SELECT * FROM t WHERE a = 99999999999999999999").unwrap_err(),
        "Invalid integer literal: number too large to fit in target type"
    );
    assert_eq!(parse_sql("SELECT * FROM t WHERE (a = 1").unwrap_err(), "Expected RParen, got Eof");
}

#[test]
fn engine_runs_statements_against_its_catalog() {
    let mut engine = SqlEngine::new();
    let r = engine.execute("CREATE TABLE users (id INT, name TEXT)");
    assert!(r.error.is_none());
    assert_eq!(r.columns.len(), 2);
    assert_eq!(r.columns[0].name, "id");
    assert_eq!(r.columns[0].col_type, "Int");

    let again = engine.execute("CREATE TABLE users (id INT)");
    assert_eq!(again.error.as_deref(), Some("Table 'users' already exists"));

    let ins = engine.execute("INSERT INTO users VALUES (1, 'ann')");
    assert!(ins.error.is_none());
    assert_eq!(ins.affected_rows, 1);

    let sel = engine.execute("SELECT * FROM users");
    assert!(sel.error.is_none());
    assert_eq!(sel.columns.len(), 2);
    assert_eq!(sel.columns[1].col_type, "Text");

    let named = engine.execute("SELECT name FROM users");
    assert_eq!(named.columns.len(), 1);
    assert_eq!(named.columns[0].col_type, "Text");

    let missing = engine.execute("SELECT * FROM nope");
    assert_eq!(missing.error.as_deref(), Some("Table 'nope' does not exist"));

    let bad = engine.execute("SELEC * FROM users");
    assert_eq!(bad.error.as_deref(), Some("Parse error: Unexpected token: Identifier"));
    assert_eq!(bad.affected_rows, 0);

    let dropped = engine.execute("DROP TABLE users");
    assert!(dropped.error.is_none());
    assert_eq!(dropped.affected_rows, 1);
    let gone = engine.execute("DROP TABLE users");
    assert_eq!(gone.error.as_deref(), Some("Table 'users' does not exist"));
}

#[test]
fn table_names_match_regardless_of_case() {
    let mut engine = SqlEngine::new();
    assert!(engine.execute("CREATE TABLE Users (id INT)").error.is_none());
    let again = engine.execute("CREATE TABLE USERS (id INT)");
    assert_eq!(again.error.as_deref(), Some("Table 'users' already exists"));
    assert_eq!(again.affected_rows, 0);
    let dropped = engine.execute("DROP TABLE users");
    assert!(dropped.error.is_none());
    assert_eq!(dropped.affected_rows, 1);
    assert!(engine.execute("CREATE TABLE users (id INT)").error.is_none());
}
