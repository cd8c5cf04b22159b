use ledgerstone::ast::{CompareOp, Expr, OrderDir, SelectColumns, Statement};
use ledgerstone::lexer::{lex, parse_decimal, Token};
use ledgerstone::parser::parse;
use ledgerstone::storage::{Record, StoredColumn};
use ledgerstone::types::{ColumnType, Decimal, Value};
use ledgerstone::{run_sql, Database, LsError, QueryResult};
use std::cmp::Ordering;

fn exec(db: &mut Database, sql: &str) -> QueryResult {
    match run_sql(db, sql) {
        Ok(r) => r,
        Err(e) => panic!("query failed: {sql}: {}", e.to_text()),
    }
}

fn error_text(db: &mut Database, sql: &str) -> String {
    match run_sql(db, sql) {
        Ok(r) => panic!("expected an error for {sql}, got {r:?}"),
        Err(e) => e.to_text(),
    }
}

fn int_column(result: QueryResult, k: usize) -> Vec<i64> {
    match result {
        QueryResult::Rows { rows, .. } => rows
            .iter()
            .map(|r| match &r[k] {
                Value::Integer(i) => *i,
                other => panic!("expected integer, got {other:?}"),
            })
            .collect(),
        other => panic!("expected rows, got {other:?}"),
    }
}

fn sample(db: &mut Database) {
    exec(db, "CREATE TABLE t (id INTEGER, name TEXT, score REAL)");
    exec(db, "INSERT INTO t VALUES (1, 'ann', 2.5)");
    exec(db, "INSERT INTO t VALUES (2, 'bo', 2.0)");
    exec(db, "INSERT INTO t VALUES (3, 'cy', 0.75)");
}

#[test]
fn error_messages_name_the_problem() {
    let mut db = Database::new();
    exec(&mut db, "CREATE TABLE t (id INTEGER, name TEXT)");
    assert_eq!(
        error_text(&mut db, "SELEC * FROM t"),
        "syntax error: expected a statement (CREATE, INSERT, SELECT, DELETE, UPDATE), found Ident(\"SELEC\")"
    );
    assert_eq!(error_text(&mut db, "INSERT INTO t VALUES ('x', 'y')"), "type error: expected INTEGER, got TEXT");
    assert_eq!(
        error_text(&mut db, "INSERT INTO t VALUES (1, 'x', 'extra')"),
        "type error: table 't' has 2 columns, got 3 values"
    );
    assert_eq!(
        error_text(&mut db, "INSERT INTO t (id) VALUES (1, 2)"),
        "type error: 1 columns named but 2 values given"
    );
    assert_eq!(error_text(&mut db, "INSERT INTO t (id) VALUES (1)"), "type error: missing value for column 'name'");
    assert_eq!(error_text(&mut db, "SELECT * FROM nope"), "not found: table 'nope' does not exist");
    assert_eq!(error_text(&mut db, "SELECT * FROM t WHERE age = 3"), "not found: column 'age' does not exist");
    assert_eq!(error_text(&mut db, "DELETE FROM t WHERE id = 1 OR b = 2"), "not found: column 'b' does not exist");
    exec(&mut db, "INSERT INTO t VALUES (1, 'a')");
    assert_eq!(error_text(&mut db, "SELECT * FROM t WHERE id = 2 AND age = 3"), "not found: column 'age' does not exist");
    assert_eq!(error_text(&mut db, "CREATE TABLE t (x TEXT)"), "already exists: table 't' already exists");
}

#[test]
fn update_or_delete_of_a_missing_row_changes_nothing() {
    let mut db = Database::new();
    exec(&mut db, "CREATE TABLE t (id INTEGER)");
    exec(&mut db, "INSERT INTO t VALUES (1)");
    exec(&mut db, "INSERT INTO t VALUES (2)");
    exec(&mut db, "DELETE FROM t WHERE id = 2");
    db.update_row("t", 2, vec![Value::Integer(9)]).unwrap();
    db.update_row("t", 40, vec![Value::Integer(9)]).unwrap();
    db.delete_row("t", 40).unwrap();
    assert_eq!(db.table("t").unwrap().row_ids(), vec![1]);
    let again = Database::restore(&db.take_log()).unwrap();
    assert_eq!(again.table("t").unwrap().row_ids(), vec![1]);
}

#[test]
fn lexing_stops_at_the_token_cap() {
    assert!(matches!(lex(&"(".repeat(100_001)), Err(LsError::Syntax(_))));
    assert_eq!(lex(&"(".repeat(100_000)).unwrap().len(), 100_001);
}

#[test]
fn refused_statement_changes_nothing() {
    let mut db = Database::new();
    exec(&mut db, "CREATE TABLE t (id INTEGER, name TEXT)");
    exec(&mut db, "INSERT INTO t VALUES (1, 'a')");
    let _ = db.take_log();
    assert!(run_sql(&mut db, "UPDATE t SET id = 'x'").is_err());
    assert!(run_sql(&mut db, "INSERT INTO t VALUES (2)").is_err());
    assert!(db.take_log().is_empty());
    assert_eq!(int_column(exec(&mut db, "SELECT id FROM t"), 0), vec![1]);
}

#[test]
fn integer_and_real_compare_by_value() {
    let mut db = Database::new();
    exec(&mut db, "CREATE TABLE n (id INTEGER, v INTEGER)");
    exec(&mut db, "INSERT INTO n VALUES (1, 2)");
    exec(&mut db, "INSERT INTO n VALUES (2, 3)");
    assert_eq!(int_column(exec(&mut db, "SELECT id FROM n WHERE v = 2.0"), 0), vec![1]);
    assert_eq!(int_column(exec(&mut db, "SELECT id FROM n WHERE v > 2.5"), 0), vec![2]);
    let two = Value::Integer(2);
    let two_real = Value::Real(Decimal::from_integer(2));
    assert_eq!(two.partial_compare(&two_real), Some(Ordering::Equal));
    assert_eq!(two_real.partial_compare(&two), Some(Ordering::Equal));
}

#[test]
fn text_compares_only_with_text() {
    let mut db = Database::new();
    sample(&mut db);
    assert_eq!(int_column(exec(&mut db, "SELECT id FROM t WHERE name = 5"), 0), Vec::<i64>::new());
    assert_eq!(int_column(exec(&mut db, "SELECT id FROM t WHERE name != 5"), 0), Vec::<i64>::new());
    assert_eq!(int_column(exec(&mut db, "SELECT id FROM t WHERE name != 'bo'"), 0), vec![1, 3]);
    assert_eq!(Value::Text("5".to_string()).partial_compare(&Value::Integer(5)), None);
    assert_eq!(int_column(exec(&mut db, "SELECT id FROM t WHERE name < 'bz'"), 0), vec![1, 2]);
}

#[test]
fn order_by_sorts_reals_text_and_keeps_ties_in_id_order() {
    let mut db = Database::new();
    sample(&mut db);
    assert_eq!(int_column(exec(&mut db, "SELECT id FROM t ORDER BY score ASC"), 0), vec![3, 2, 1]);
    assert_eq!(int_column(exec(&mut db, "SELECT id FROM t ORDER BY name DESC"), 0), vec![3, 2, 1]);
    exec(&mut db, "INSERT INTO t VALUES (4, 'dee', 2.0)");
    assert_eq!(int_column(exec(&mut db, "SELECT id FROM t ORDER BY score DESC"), 0), vec![1, 2, 4, 3]);
    assert_eq!(int_column(exec(&mut db, "SELECT id FROM t ORDER BY score LIMIT 1"), 0), vec![3]);
    assert_eq!(int_column(exec(&mut db, "SELECT id FROM t LIMIT 0"), 0), Vec::<i64>::new());
}

#[test]
fn keywords_ignore_case_and_columns_match_ignoring_ascii_case() {
    let mut db = Database::new();
    exec(&mut db, "create table T (Id integer, Name text)");
    exec(&mut db, "insert into T values (7, 'x')");
    assert_eq!(int_column(exec(&mut db, "SeLeCt id FrOm T wHeRe NAME = 'x'"), 0), vec![7]);
    assert_eq!(error_text(&mut db, "select * from t"), "not found: table 't' does not exist");
    assert_eq!(lex("Select").unwrap(), vec![Token::Select, Token::Eof]);
    assert_eq!(lex("Selected").unwrap(), vec![Token::Ident("Selected".to_string()), Token::Eof]);
}

#[test]
fn lexer_reads_literals_comments_and_operators() {
    let toks = lex("x <> 'it''s' -- note\n>= 3.50 <= 4 ;").unwrap();
    assert_eq!(toks.len(), 9);
    assert_eq!(toks[0], Token::Ident("x".to_string()));
    assert_eq!(toks[1], Token::NotEq);
    assert_eq!(toks[2], Token::StrLit("it's".to_string()));
    assert_eq!(toks[3], Token::Ge);
    assert_eq!(toks[5], Token::Le);
    assert_eq!(toks[6], Token::IntLit(4));
    assert_eq!(toks[7], Token::Semicolon);
    match &toks[4] {
        Token::RealLit(d) => {
            let mut s = String::new();
            d.push_text(&mut s);
            assert_eq!(s, "3.5");
        }
        other => panic!("expected a real literal, got {other:?}"),
    }
    assert!(matches!(lex("'open"), Err(LsError::Syntax(_))));
    assert!(matches!(lex("a # b"), Err(LsError::Syntax(_))));
    assert!(matches!(lex("x = -4"), Err(LsError::Syntax(_))));
    assert_eq!(lex("café _x1").unwrap(), vec![Token::Ident("café".to_string()), Token::Ident("_x1".to_string()), Token::Eof]);
}

#[test]
fn parser_builds_the_statement() {
    let stmt = parse(lex("SELECT a, b FROM t WHERE a = 1 AND (b < 2 OR b > 3) ORDER BY b DESC LIMIT 5;").unwrap()).unwrap();
    match stmt {
        Statement::Select { table, columns, where_clause, order_by, limit } => {
            assert_eq!(table, "t");
            assert_eq!(columns, SelectColumns::Named(vec!["a".to_string(), "b".to_string()]));
            assert_eq!(limit, Some(5));
            let ob = order_by.unwrap();
            assert_eq!(ob.column, "b");
            assert_eq!(ob.dir, OrderDir::Desc);
            match where_clause {
                Some(Expr::And(l, r)) => {
                    assert_eq!(
                        *l,
                        Expr::Compare { column: "a".to_string(), op: CompareOp::Eq, value: Value::Integer(1) }
                    );
                    assert!(matches!(*r, Expr::Or(_, _)));
                }
                other => panic!("unexpected where clause {other:?}"),
            }
        }
        other => panic!("expected a select, got {other:?}"),
    }
    assert!(matches!(lex("SELECT * FROM t LIMIT -1"), Err(LsError::Syntax(_))));
    assert!(matches!(parse(lex("SELECT * FROM t LIMIT 'x'").unwrap()), Err(LsError::Syntax(_))));
    assert!(matches!(parse(lex("DELETE FROM t extra").unwrap()), Err(LsError::Syntax(_))));
}

#[test]
fn deep_nesting_is_refused_with_the_nesting_error() {
    let mut db = Database::new();
    exec(&mut db, "CREATE TABLE t (id INTEGER)");
    let sql = format!("SELECT * FROM t WHERE {}id = 1{}", "(".repeat(32), ")".repeat(32));
    assert_eq!(error_text(&mut db, &sql), "syntax error: WHERE expression nested too deeply");
    let sql = format!("SELECT * FROM t WHERE {}id = 1{}", "(".repeat(30), ")".repeat(30));
    assert!(run_sql(&mut db, &sql).is_ok());
}

#[test]
fn update_and_delete_touch_only_selected_rows() {
    let mut db = Database::new();
    sample(&mut db);
    assert_eq!(exec(&mut db, "UPDATE t SET name = 'zz', score = 0.5 WHERE score >= 2"), QueryResult::RowsAffected(2));
    match exec(&mut db, "SELECT name, score FROM t ORDER BY id") {
        QueryResult::Rows { columns, rows } => {
            assert_eq!(columns, vec!["name", "score"]);
            assert_eq!(rows[0][0], Value::Text("zz".to_string()));
            assert_eq!(rows[1][0], Value::Text("zz".to_string()));
            assert_eq!(rows[2][0], Value::Text("cy".to_string()));
        }
        other => panic!("expected rows, got {other:?}"),
    }
    assert_eq!(exec(&mut db, "DELETE FROM t WHERE name = 'zz'"), QueryResult::RowsAffected(2));
    assert_eq!(int_column(exec(&mut db, "SELECT id FROM t"), 0), vec![3]);
    assert_eq!(exec(&mut db, "DELETE FROM t"), QueryResult::RowsAffected(1));
    assert_eq!(int_column(exec(&mut db, "SELECT id FROM t"), 0), Vec::<i64>::new());
}

#[test]
fn row_ids_are_never_reused() {
    let mut db = Database::new();
    exec(&mut db, "CREATE TABLE t (id INTEGER)");
    exec(&mut db, "INSERT INTO t VALUES (10)");
    exec(&mut db, "INSERT INTO t VALUES (20)");
    exec(&mut db, "DELETE FROM t WHERE id = 20");
    exec(&mut db, "INSERT INTO t VALUES (30)");
    assert_eq!(db.table("t").unwrap().row_ids(), vec![1, 3]);
    let mut again = Database::restore(&db.take_log()).unwrap();
    exec(&mut again, "INSERT INTO t VALUES (40)");
    assert_eq!(again.table("t").unwrap().row_ids(), vec![1, 3, 4]);
}

#[test]
fn storage_calls_keep_the_log() {
    let mut db = Database::new();
    let cols = vec![StoredColumn { name: "id".to_string(), ty: ColumnType::Integer }];
    db.create_table("t", cols).unwrap();
    assert!(matches!(db.create_table("t", Vec::new()), Err(LsError::Duplicate(_))));
    assert_eq!(db.insert_row("t", vec![Value::Integer(5)]).unwrap(), 1);
    assert!(matches!(db.insert_row("u", vec![]), Err(LsError::NotFound(_))));
    db.update_row("t", 1, vec![Value::Integer(6)]).unwrap();
    assert!(db.delete_row("u", 1).is_err());
    assert_eq!(db.table("t").unwrap().column_index("ID"), Some(0));
    assert_eq!(db.table("t").unwrap().column_index("x"), None);
    let log = db.take_log();
    assert_eq!(log.len(), 4);
    assert!(matches!(&log[3], Record::Delete { table, row_id: 1 } if table == "u"));
    let back = Database::restore(&log).unwrap();
    assert_eq!(back.table("t").unwrap().rows.get(&1), Some(&vec![Value::Integer(6)]));
}

#[test]
fn restore_refuses_a_row_that_does_not_fit() {
    let cols = vec![StoredColumn { name: "id".to_string(), ty: ColumnType::Integer }];
    let log = vec![
        Record::CreateTable { table: "t".to_string(), columns: cols },
        Record::Insert { table: "t".to_string(), row_id: 1, values: vec![Value::Integer(1), Value::Integer(2)] },
    ];
    match Database::restore(&log) {
        Err(e) => assert_eq!(e.to_text(), "storage error: corrupt record: a row does not fit its table"),
        Ok(_) => panic!("expected the log to be refused"),
    }
    let ghost_table = vec![Record::Delete { table: "gone".to_string(), row_id: 3 }];
    assert!(Database::restore(&ghost_table).is_ok());
}

#[test]
fn values_display_as_numbers_and_text() {
    let v = |sql: &str| -> String {
        let mut db = Database::new();
        exec(&mut db, "CREATE TABLE t (x REAL)");
        exec(&mut db, sql);
        match exec(&mut db, "SELECT x FROM t") {
            QueryResult::Rows { rows, .. } => ledgerstone::render::value_string(&rows[0][0]),
            other => panic!("expected rows, got {other:?}"),
        }
    };
    assert_eq!(v("INSERT INTO t VALUES (8.0)"), "8");
    assert_eq!(v("INSERT INTO t VALUES (0.250)"), "0.25");
    assert_eq!(v("INSERT INTO t VALUES (007.5)"), "7.5");
    assert_eq!(ledgerstone::render::value_string(&Value::Integer(-42)), "-42");
    assert_eq!(ColumnType::Real.name(), "REAL");
}

#[test]
fn decimal_text_reads_back_exactly() {
    let show = |t: &str| -> Option<String> {
        parse_decimal(t).map(|d| {
            let mut s = String::new();
            d.push_text(&mut s);
            s
        })
    };
    assert_eq!(show("0.1000000000000000000001"), Some("0.1000000000000000000001".to_string()));
    assert_eq!(show("-001.500"), Some("-1.5".to_string()));
    assert_eq!(show("42"), Some("42".to_string()));
    assert_eq!(show("-0.0"), Some("0".to_string()));
    assert_eq!(show("1."), None);
    assert_eq!(show("1e5"), None);
    assert_eq!(show("-"), None);
    assert_eq!(show(""), None);
}

#[test]
fn rows_that_tie_on_the_order_keep_id_order() {
    let mut db = Database::new();
    exec(&mut db, "CREATE TABLE t (id INTEGER, g INTEGER)");
    for (id, g) in [(1, 2), (2, 1), (3, 2), (4, 1), (5, 2)] {
        exec(&mut db, &format!("INSERT INTO t VALUES ({id}, {g})"));
    }
    assert_eq!(int_column(exec(&mut db, "SELECT id FROM t ORDER BY g DESC"), 0), vec![1, 3, 5, 2, 4]);
    assert_eq!(int_column(exec(&mut db, "SELECT id FROM t ORDER BY g LIMIT 3"), 0), vec![2, 4, 1]);
}

#[test]
fn later_assignment_to_a_column_wins() {
    let mut db = Database::new();
    exec(&mut db, "CREATE TABLE t (id INTEGER, n INTEGER)");
    exec(&mut db, "INSERT INTO t VALUES (1, 0)");
    exec(&mut db, "UPDATE t SET n = 5, n = 7");
    assert_eq!(int_column(exec(&mut db, "SELECT n FROM t"), 0), vec![7]);
}

#[test]
fn error_messages_write_tokens_as_debug_does() {
    let mut db = Database::new();
    exec(&mut db, "CREATE TABLE t (id INTEGER)");
    assert_eq!(
        error_text(&mut db, "SELECT * FROM t LIMIT 20000000000000000.0"),
        "syntax error: expected a non-negative integer after LIMIT, found RealLit(2e16)"
    );
    assert_eq!(
        error_text(&mut db, "SELECT * FROM t LIMIT 0.00005"),
        "syntax error: expected a non-negative integer after LIMIT, found RealLit(5e-5)"
    );
    assert_eq!(
        error_text(&mut db, "SELECT * FROM t LIMIT 0.0001"),
        "syntax error: expected a non-negative integer after LIMIT, found RealLit(0.0001)"
    );
    assert_eq!(
        error_text(&mut db, "SELECT * FROM t LIMIT 12.0"),
        "syntax error: expected a non-negative integer after LIMIT, found RealLit(12.0)"
    );
    assert_eq!(
        error_text(&mut db, "SELECT * FROM 'a\u{1}b\"c''d'"),
        format!("syntax error: expected identifier, found StrLit({:?})", "a\u{1}b\"c'd")
    );
}
