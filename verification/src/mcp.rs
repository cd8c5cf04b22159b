//! The decisions of the MCP server: which JSON-RPC methods it answers and
//! what its one tool, `ledgerstone_query`, replies. Reading requests and
//! writing JSON replies is left to the caller.

use vstd::prelude::*;
use vstd::string::StringExecFns;
use crate::error::{LsErrorView, result_view};
use crate::executor::{QueryResultView, logged_change};
use crate::render::{reply_text, reply_text_spec};
use crate::storage::{Database, TableView, ids_available, str_equal};
use crate::{run_sql, run_sql_spec};

verus! {

/// How the server treats a JSON-RPC method.
#[derive(Debug, Clone, Copy, PartialEq, Eq)]
pub enum McpMethod {
    /// `initialize`: answered with the server's description.
    Initialize,
    /// `tools/list`: answered with the one tool.
    ListTools,
    /// `tools/call`: runs the tool.
    CallTool,
    /// `notifications/initialized`, or no method: no reply at all.
    Ignore,
    /// Anything else: answered with a method-not-found error.
    Unknown,
}

pub open spec fn method_kind(m: Seq<char>) -> McpMethod {
    if m == "initialize"@ {
        McpMethod::Initialize
    } else if m == "tools/list"@ {
        McpMethod::ListTools
    } else if m == "tools/call"@ {
        McpMethod::CallTool
    } else if m == "notifications/initialized"@ || m == ""@ {
        McpMethod::Ignore
    } else {
        McpMethod::Unknown
    }
}

/// Which way the server treats a request with this method.
pub fn classify_method(method: &str) -> (r: McpMethod)
    ensures
        r == method_kind(method@),
{
    if str_equal(method, "initialize") {
        McpMethod::Initialize
    } else if str_equal(method, "tools/list") {
        McpMethod::ListTools
    } else if str_equal(method, "tools/call") {
        McpMethod::CallTool
    } else if str_equal(method, "notifications/initialized") || str_equal(method, "") {
        McpMethod::Ignore
    } else {
        McpMethod::Unknown
    }
}

/// The outcome of running one SQL text, without the new tables.
pub open spec fn sql_outcome(tables: Map<Seq<char>, TableView>, sql: Seq<char>) -> Result<QueryResultView, LsErrorView> {
    match run_sql_spec(tables, sql) {
        Ok((_, res)) => Ok(res),
        Err(e) => Err(e),
    }
}

/// The tables after running one SQL text: unchanged when it fails.
pub open spec fn sql_tables(tables: Map<Seq<char>, TableView>, sql: Seq<char>) -> Map<Seq<char>, TableView> {
    match run_sql_spec(tables, sql) {
        Ok((t, _)) => t,
        Err(_) => tables,
    }
}

/// What a call of the tool `name` with the SQL argument `sql` replies: an
/// error for any other tool or a missing argument, else the reply for the
/// outcome of the statement.
pub open spec fn tool_reply_spec(
    tables: Map<Seq<char>, TableView>,
    name: Seq<char>,
    sql: Option<Seq<char>>,
) -> Result<Seq<char>, Seq<char>> {
    if name != "ledgerstone_query"@ {
        Err("unknown tool '"@ + name + "'"@)
    } else {
        match sql {
            None => Err("missing 'sql' argument"@),
            Some(q) => reply_text_spec(sql_outcome(tables, q)),
        }
    }
}

pub open spec fn opt_text(o: Option<&str>) -> Option<Seq<char>> {
    match o {
        Some(q) => Some(q@),
        None => None,
    }
}

/// Runs a call of the tool `name`: only `ledgerstone_query` exists, and it
/// runs its `sql` argument against the database.
pub fn run_tool(db: &mut Database, name: &str, sql: Option<&str>) -> (r: Result<String, String>)
    requires
        old(db).wf(),
        ids_available(old(db)@.tables),
    ensures
        final(db).wf(),
        r matches Ok(s) ==> tool_reply_spec(old(db)@.tables, name@, opt_text(sql))
            == Ok::<Seq<char>, Seq<char>>(s@),
        r matches Err(s) ==> tool_reply_spec(old(db)@.tables, name@, opt_text(sql))
            == Err::<Seq<char>, Seq<char>>(s@),
        final(db)@.tables == match sql {
            Some(q) if name@ == "ledgerstone_query"@ => sql_tables(old(db)@.tables, q@),
            _ => old(db)@.tables,
        },
        match sql {
            Some(q) if name@ == "ledgerstone_query"@ && sql_outcome(old(db)@.tables, q@) is Ok =>
                logged_change(old(db)@, final(db)@),
            _ => final(db)@ == old(db)@,
        },
{
    if !str_equal(name, "ledgerstone_query") {
        let mut m = String::from_str("unknown tool '");
        m.append(name);
        m.append("'");
        return Err(m);
    }
    match sql {
        None => Err(String::from_str("missing 'sql' argument")),
        Some(q) => {
            let out = run_sql(db, q);
            assert(sql_outcome(old(db)@.tables, q@) == result_view(out));
            reply_text(&out)
        },
    }
}

} // verus!
