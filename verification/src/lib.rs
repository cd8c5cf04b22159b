//! Ledgerstone: an embedded relational database.
//!
//! `storage` is the typed table store and the records of its changes.
//! `lexer` and `parser` turn SQL text into a `Statement`. `executor` runs a
//! `Statement` against a `Database`. `run_sql` wires the three together for
//! callers that just want to hand in a string and get a result back.

use vstd::prelude::*;

pub mod ast;
pub mod error;
pub mod executor;
pub mod http;
pub mod lexer;
pub mod mcp;
pub mod parser;
pub mod properties;
pub mod render;
pub mod storage;
pub mod text;
pub mod types;
pub mod wal;

pub use error::{LsError, LsResult};
pub use executor::QueryResult;
pub use storage::Database;

verus! {

/// What running one SQL text does: lex it, parse the tokens, execute the
/// statement; the first error stops it.
pub open spec fn run_sql_spec(
    tables: Map<Seq<char>, storage::TableView>,
    sql: Seq<char>,
) -> Result<(Map<Seq<char>, storage::TableView>, executor::QueryResultView), error::LsErrorView> {
    match lexer::lex_spec(sql) {
        Err(e) => Err(e),
        Ok(toks) => match parser::parse_spec(toks) {
            Err(e) => Err(e),
            Ok(stmt) => executor::execute_spec(tables, stmt),
        },
    }
}

/// Lexes, parses, and executes one SQL statement against `db`.
pub fn run_sql(db: &mut Database, sql: &str) -> (r: LsResult<QueryResult>)
    requires
        old(db).wf(),
        storage::ids_available(old(db)@.tables),
    ensures
        final(db).wf(),
        match r {
            Ok(res) => run_sql_spec(old(db)@.tables, sql@)
                == Ok::<(Map<Seq<char>, storage::TableView>, executor::QueryResultView), error::LsErrorView>((final(db)@.tables, res@))
                && executor::logged_change(old(db)@, final(db)@),
            Err(e) => run_sql_spec(old(db)@.tables, sql@)
                == Err::<(Map<Seq<char>, storage::TableView>, executor::QueryResultView), error::LsErrorView>(e@)
                && final(db)@ == old(db)@,
        },
{
    let tokens = lexer::lex(sql)?;
    let stmt = parser::parse(tokens)?;
    executor::execute(db, stmt)
}

} // verus!
