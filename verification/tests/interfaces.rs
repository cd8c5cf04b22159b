use ledgerstone::http::{content_length, request_target, response_head, route, status_text, Route, MAX_BODY};
use ledgerstone::mcp::{classify_method, run_tool, McpMethod};
use ledgerstone::render::{console_text, format_rows, render_table, reply_text};
use ledgerstone::types::Value;
use ledgerstone::wal::{decode_frames, encode_frame, next_frame, record_length, MAX_RECORD_SIZE};
use ledgerstone::{Database, LsError, QueryResult};

fn names(xs: &[&str]) -> Vec<String> {
    xs.iter().map(|s| s.to_string()).collect()
}

fn text(s: &str) -> Value {
    Value::Text(s.to_string())
}

#[test]
fn format_rows_lists_columns_then_rows() {
    let cols = names(&["id", "name"]);
    let rows = vec![vec![Value::Integer(1), text("ann")], vec![Value::Integer(22), text("b")]];
    assert_eq!(format_rows(&cols, &rows), "id | name\n1 | ann\n22 | b\n");
    assert_eq!(format_rows(&cols, &[]), "id | name\n(0 rows)\n");
    assert_eq!(format_rows(&[], &[vec![]]), "\n\n");
}

#[test]
fn render_table_pads_every_column_to_its_widest_entry() {
    let cols = names(&["id", "name"]);
    let rows = vec![vec![Value::Integer(1), text("alice")], vec![Value::Integer(22), text("b")]];
    assert_eq!(
        render_table(&cols, &rows),
        "id | name \n---+------\n1  | alice\n22 | b    \n(2 rows)\n"
    );
    assert_eq!(render_table(&cols, &rows[..1]), "id | name \n---+------\n1  | alice\n(1 row)\n");
    assert_eq!(render_table(&cols, &[]), "id | name\n---+-----\n(0 rows)\n");
    assert_eq!(render_table(&[], &[]), "(0 columns)\n");
}

#[test]
fn render_table_measures_width_in_bytes() {
    let cols = names(&["w"]);
    let rows = vec![vec![text("é")], vec![text("ab")]];
    assert_eq!(render_table(&cols, &rows), "w \n--\né \nab\n(2 rows)\n");
}

#[test]
fn console_and_agent_texts_for_each_outcome() {
    assert_eq!(console_text(&Ok(QueryResult::Done)), Ok("OK\n".to_string()));
    assert_eq!(console_text(&Ok(QueryResult::RowsAffected(3))), Ok("3 row(s) affected\n".to_string()));
    assert_eq!(
        console_text(&Err(LsError::Syntax("bad".to_string()))),
        Err("error: syntax error: bad\n".to_string())
    );
    let rows = QueryResult::Rows { columns: names(&["n"]), rows: vec![vec![Value::Integer(7)]] };
    assert_eq!(console_text(&Ok(rows.clone())), Ok("n\n-\n7\n(1 row)\n".to_string()));
    assert_eq!(reply_text(&Ok(QueryResult::Done)), Ok("OK".to_string()));
    assert_eq!(reply_text(&Ok(QueryResult::RowsAffected(0))), Ok("0 row(s) affected".to_string()));
    assert_eq!(reply_text(&Ok(rows)), Ok("n\n7\n".to_string()));
    assert_eq!(
        reply_text(&Err(LsError::Storage("disk".to_string()))),
        Err("storage error: disk".to_string())
    );
}

#[test]
fn http_status_and_response_head() {
    assert_eq!(status_text(200), "OK");
    assert_eq!(status_text(404), "Not Found");
    assert_eq!(status_text(413), "Error");
    assert_eq!(
        response_head(200, 12),
        "HTTP/1.1 200 OK\r\nContent-Type: application/json\r\nContent-Length: 12\r\nConnection: close\r\n\r\n"
    );
    assert_eq!(
        response_head(404, 0),
        "HTTP/1.1 404 Not Found\r\nContent-Type: application/json\r\nContent-Length: 0\r\nConnection: close\r\n\r\n"
    );
}

#[test]
fn http_request_line_and_headers() {
    assert_eq!(request_target("POST /query HTTP/1.1\r\n"), ("POST".to_string(), "/query".to_string()));
    assert_eq!(request_target("  GET\t/x  "), ("GET".to_string(), "/x".to_string()));
    assert_eq!(request_target("GET\r\n"), (String::new(), String::new()));
    assert_eq!(content_length("Content-Length: 42\r\n"), Some(42));
    assert_eq!(content_length("content-length:7"), Some(7));
    assert_eq!(content_length("Content-Length: +5\r\n"), Some(5));
    assert_eq!(content_length("Content-Length: abc\r\n"), Some(0));
    assert_eq!(content_length("Content-Length: -5\r\n"), Some(0));
    assert_eq!(content_length("Content-Length: 99999999999999999999999\r\n"), Some(0));
    assert_eq!(content_length("Content-Length:\r\n"), Some(0));
    assert_eq!(content_length("CONTENT-LENGTH: 3\r\n"), None);
    assert_eq!(content_length("Content-Type: text/plain\r\n"), None);
}

#[test]
fn http_routes() {
    assert_eq!(route("POST", "/query", 10), Route::Query);
    assert_eq!(route("GET", "/query", 0), Route::NotFound);
    assert_eq!(route("POST", "/other", 0), Route::NotFound);
    assert_eq!(route("POST", "/query", MAX_BODY), Route::Query);
    assert_eq!(route("GET", "/", MAX_BODY + 1), Route::TooLarge);
}

#[test]
fn mcp_methods_and_tool_calls() {
    assert_eq!(classify_method("initialize"), McpMethod::Initialize);
    assert_eq!(classify_method("tools/list"), McpMethod::ListTools);
    assert_eq!(classify_method("tools/call"), McpMethod::CallTool);
    assert_eq!(classify_method("notifications/initialized"), McpMethod::Ignore);
    assert_eq!(classify_method(""), McpMethod::Ignore);
    assert_eq!(classify_method("ping"), McpMethod::Unknown);

    let mut db = Database::new();
    assert_eq!(run_tool(&mut db, "other", Some("SELECT 1")), Err("unknown tool 'other'".to_string()));
    assert_eq!(run_tool(&mut db, "ledgerstone_query", None), Err("missing 'sql' argument".to_string()));
    assert_eq!(run_tool(&mut db, "ledgerstone_query", Some("CREATE TABLE t (id INTEGER)")), Ok("OK".to_string()));
    assert_eq!(
        run_tool(&mut db, "ledgerstone_query", Some("INSERT INTO t VALUES (4)")),
        Ok("1 row(s) affected".to_string())
    );
    assert_eq!(run_tool(&mut db, "ledgerstone_query", Some("SELECT id FROM t")), Ok("id\n4\n".to_string()));
    assert_eq!(
        run_tool(&mut db, "ledgerstone_query", Some("SELECT * FROM x")),
        Err("not found: table 'x' does not exist".to_string())
    );
}

#[test]
fn frames_are_read_back_as_written() {
    let a = b"{\"op\":\"Delete\"}".to_vec();
    let b: Vec<u8> = Vec::new();
    let c = vec![7u8; 300];
    let fa = encode_frame(&a);
    assert_eq!(&fa[..4], &[15, 0, 0, 0]);
    assert_eq!(&fa[4..], &a[..]);
    assert_eq!(&encode_frame(&c)[..4], &[44, 1, 0, 0]);
    let mut log = Vec::new();
    log.extend(fa);
    log.extend(encode_frame(&b));
    log.extend(encode_frame(&c));
    assert_eq!(decode_frames(&log).unwrap(), vec![a.clone(), b.clone(), c.clone()]);
    log.extend([9u8, 9u8]);
    assert_eq!(decode_frames(&log).unwrap(), vec![a, b, c]);
    assert_eq!(decode_frames(&Vec::new()).unwrap(), Vec::<Vec<u8>>::new());
}

#[test]
fn frame_errors_are_storage_errors() {
    let huge = vec![0u8, 0, 0, 5];
    assert_eq!(
        next_frame(&huge, 0),
        Err(LsError::Storage(
            "record length 83886080 exceeds the 67108864 byte limit, refusing to allocate".to_string()
        ))
    );
    let short = vec![5u8, 0, 0, 0, 1, 2];
    assert_eq!(
        decode_frames(&short),
        Err(LsError::Storage("truncated record: failed to fill whole buffer".to_string()))
    );
    assert_eq!(next_frame(&short, 4), Ok(None));
    assert_eq!(next_frame(&vec![1u8, 0, 0, 0, 9], 0), Ok(Some((4, 5))));
    assert_eq!(MAX_RECORD_SIZE, 64 * 1024 * 1024);
}

#[test]
fn record_length_is_checked_before_reading_the_body() {
    assert_eq!(record_length(&vec![3, 0, 0, 0]), Ok(3));
    assert_eq!(record_length(&vec![0, 0, 0, 4]), Ok(MAX_RECORD_SIZE));
    assert_eq!(
        record_length(&vec![1, 0, 0, 4]),
        Err(LsError::Storage(
            "record length 67108865 exceeds the 67108864 byte limit, refusing to allocate".to_string()
        ))
    );
}
