//! The decisions of the small HTTP API: reading the request line and the
//! `Content-Length` header, choosing the answer (`POST /query` only, with a
//! capped body), and the head of the response. Sockets, timeouts and JSON
//! bodies are left to the caller.

use vstd::prelude::*;
use vstd::string::StringExecFns;
use crate::lexer::{collect_chars, digit_value, digits_value, is_digit_spec, is_whitespace, is_whitespace_spec};
use crate::storage::str_equal;
use crate::text::{nat_text, push_char, push_u64_text};

verus! {

/// Largest request body accepted; a bigger `Content-Length` is refused
/// before anything is read, so it cannot exhaust memory.
pub const MAX_BODY: usize = 16777216;

/// The reason phrase sent with a status code.
pub open spec fn status_text_spec(status: u16) -> Seq<char> {
    if status == 200 {
        "OK"@
    } else if status == 404 {
        "Not Found"@
    } else {
        "Error"@
    }
}

/// The reason phrase for a status code.
pub fn status_text(status: u16) -> (r: &'static str)
    ensures
        r@ == status_text_spec(status),
{
    if status == 200 {
        "OK"
    } else if status == 404 {
        "Not Found"
    } else {
        "Error"
    }
}

/// The position of the first character at or after `i` that is not
/// whitespace.
pub open spec fn skip_space(s: Seq<char>, i: nat) -> nat
    decreases s.len() - i,
{
    if i < s.len() && is_whitespace_spec(s[i as int]) {
        skip_space(s, i + 1)
    } else {
        i
    }
}

/// The end of the run of non-whitespace characters that starts at `i`.
pub open spec fn word_end(s: Seq<char>, i: nat) -> nat
    decreases s.len() - i,
{
    if i < s.len() && !is_whitespace_spec(s[i as int]) {
        word_end(s, i + 1)
    } else {
        i
    }
}

/// The end of the text once trailing whitespace before `j` is dropped.
pub open spec fn trim_end_at(s: Seq<char>, j: nat) -> nat
    decreases j,
{
    if j > 0 && is_whitespace_spec(s[j - 1]) {
        trim_end_at(s, (j - 1) as nat)
    } else {
        j
    }
}

/// The text without leading and trailing whitespace (`str::trim`).
pub open spec fn trimmed(s: Seq<char>) -> Seq<char> {
    let a = skip_space(s, 0);
    let b = trim_end_at(s, s.len());
    if a < b {
        s.subrange(a as int, b as int)
    } else {
        Seq::empty()
    }
}

/// The method and path of a request line: its first two words, or two
/// empty texts when it has fewer than two.
pub open spec fn request_target_spec(line: Seq<char>) -> (Seq<char>, Seq<char>) {
    let a = skip_space(line, 0);
    let ae = word_end(line, a);
    let b = skip_space(line, ae);
    let be = word_end(line, b);
    if a < ae && b < be {
        (line.subrange(a as int, ae as int), line.subrange(b as int, be as int))
    } else {
        (Seq::empty(), Seq::empty())
    }
}

/// The text after a leading `+`, if there is one.
pub open spec fn unsigned_digits(t: Seq<char>) -> Seq<char> {
    if t.len() > 0 && t[0] == '+' {
        t.drop_first()
    } else {
        t
    }
}

pub open spec fn all_digit_chars(ds: Seq<char>) -> bool {
    forall|k: int| 0 <= k < ds.len() ==> is_digit_spec(#[trigger] ds[k])
}

/// A number as `usize`'s `FromStr` reads it: an optional `+`, then one or
/// more ASCII digits, with a value that fits.
pub open spec fn parse_usize_spec(t: Seq<char>) -> Option<nat> {
    let ds = unsigned_digits(t);
    if ds.len() == 0 || !all_digit_chars(ds) {
        None
    } else if digits_value(ds) > usize::MAX {
        None
    } else {
        Some(digits_value(ds))
    }
}

/// What a header line says of the body's length: nothing unless it starts
/// with `Content-Length:` or `content-length:`; then the number after it,
/// trimmed, or zero when that is not a number.
pub open spec fn content_length_spec(line: Seq<char>) -> Option<nat> {
    let rest = if line.len() >= 15 && line.take(15) == "Content-Length:"@ {
        Some(line.skip(15))
    } else if line.len() >= 15 && line.take(15) == "content-length:"@ {
        Some(line.skip(15))
    } else {
        None
    };
    match rest {
        None => None,
        Some(v) => match parse_usize_spec(trimmed(v)) {
            Some(n) => Some(n),
            None => Some(0),
        },
    }
}

/// How a request is answered.
#[derive(Debug, Clone, Copy, PartialEq, Eq)]
pub enum Route {
    /// The body is over `MAX_BODY`: refused with 413 before it is read.
    TooLarge,
    /// Anything but `POST /query`: refused with 404.
    NotFound,
    /// The body is SQL to run.
    Query,
}

pub open spec fn route_spec(method: Seq<char>, path: Seq<char>, content_length: nat) -> Route {
    if content_length > MAX_BODY {
        Route::TooLarge
    } else if method != "POST"@ || path != "/query"@ {
        Route::NotFound
    } else {
        Route::Query
    }
}

/// How a request with this method, path and body length is answered.
pub fn route(method: &str, path: &str, content_length: usize) -> (r: Route)
    ensures
        r == route_spec(method@, path@, content_length as nat),
{
    if content_length > MAX_BODY {
        Route::TooLarge
    } else if !str_equal(method, "POST") || !str_equal(path, "/query") {
        Route::NotFound
    } else {
        Route::Query
    }
}

/// The chars `s[a..b]` as a string.
fn string_of(s: &Vec<char>, a: usize, b: usize) -> (r: String)
    requires
        a <= b <= s@.len(),
    ensures
        r@ == s@.subrange(a as int, b as int),
{
    let mut r = String::new();
    let mut i: usize = a;
    while i < b
        invariant
            a <= i <= b <= s@.len(),
            r@ == s@.subrange(a as int, i as int),
        decreases b - i,
    {
        push_char(&mut r, s[i]);
        assert(s@.subrange(a as int, i + 1) =~= s@.subrange(a as int, i as int).push(s@[i as int]));
        i = i + 1;
    }
    r
}

fn skip_space_from(s: &Vec<char>, i: usize) -> (r: usize)
    requires
        i <= s@.len(),
    ensures
        r == skip_space(s@, i as nat),
        i <= r <= s@.len(),
    decreases s@.len() - i,
{
    if i < s.len() && is_whitespace(s[i]) {
        skip_space_from(s, i + 1)
    } else {
        i
    }
}

fn word_end_from(s: &Vec<char>, i: usize) -> (r: usize)
    requires
        i <= s@.len(),
    ensures
        r == word_end(s@, i as nat),
        i <= r <= s@.len(),
    decreases s@.len() - i,
{
    if i < s.len() && !is_whitespace(s[i]) {
        word_end_from(s, i + 1)
    } else {
        i
    }
}

fn trim_end_from(s: &Vec<char>, j: usize) -> (r: usize)
    requires
        j <= s@.len(),
    ensures
        r == trim_end_at(s@, j as nat),
        r <= j,
    decreases j,
{
    if j > 0 && is_whitespace(s[j - 1]) {
        trim_end_from(s, j - 1)
    } else {
        j
    }
}

/// The method and path of a request line (see `request_target_spec`).
pub fn request_target(line: &str) -> (r: (String, String))
    ensures
        (r.0@, r.1@) == request_target_spec(line@),
{
    let cs = collect_chars(line);
    let a = skip_space_from(&cs, 0);
    let ae = word_end_from(&cs, a);
    let b = skip_space_from(&cs, ae);
    let be = word_end_from(&cs, b);
    if a < ae && b < be {
        (string_of(&cs, a, ae), string_of(&cs, b, be))
    } else {
        (String::new(), String::new())
    }
}

/// Reads a number as `usize`'s `FromStr` does (see `parse_usize_spec`).
fn parse_usize(t: &Vec<char>, a: usize, b: usize) -> (r: Option<usize>)
    requires
        a <= b <= t@.len(),
    ensures
        match r {
            Some(n) => parse_usize_spec(t@.subrange(a as int, b as int)) == Some(n as nat),
            None => parse_usize_spec(t@.subrange(a as int, b as int)) is None,
        },
{
    let ghost whole = t@.subrange(a as int, b as int);
    let mut start = a;
    if a < b && t[a] == '+' {
        start = a + 1;
    }
    let ghost ds = t@.subrange(start as int, b as int);
    assert(ds =~= unsigned_digits(whole));
    if start == b {
        return None;
    }
    let mut v: usize = 0;
    let mut overflow = false;
    let mut k: usize = start;
    while k < b
        invariant
            a <= start <= k <= b <= t@.len(),
            ds == t@.subrange(start as int, b as int),
            whole == t@.subrange(a as int, b as int),
            ds == unsigned_digits(whole),
            forall|q: int| start <= q < k ==> is_digit_spec(#[trigger] t@[q]),
            !overflow ==> v == digits_value(t@.subrange(start as int, k as int)),
            overflow ==> digits_value(t@.subrange(start as int, k as int)) > usize::MAX,
        decreases b - k,
    {
        let c = t[k];
        if !('0' <= c && c <= '9') {
            assert(!is_digit_spec(ds[k - start]));
            return None;
        }
        let d = digit_value_exec(c);
        let ghost prefix = t@.subrange(start as int, k + 1);
        assert(prefix.drop_last() =~= t@.subrange(start as int, k as int));
        assert(prefix.last() == c);
        if !overflow {
            match v.checked_mul(10) {
                Some(m) => match m.checked_add(d as usize) {
                    Some(n) => {
                        v = n;
                    },
                    None => {
                        overflow = true;
                    },
                },
                None => {
                    overflow = true;
                },
            }
        }
        k = k + 1;
    }
    assert(t@.subrange(start as int, b as int) =~= ds);
    if overflow {
        None
    } else {
        Some(v)
    }
}

fn digit_value_exec(c: char) -> (d: u8)
    requires
        is_digit_spec(c),
    ensures
        d as nat == digit_value(c),
        d < 10,
{
    (c as u32 - '0' as u32) as u8
}

/// What a header line says of the body's length (see
/// `content_length_spec`).
pub fn content_length(line: &str) -> (r: Option<usize>)
    ensures
        match r {
            Some(n) => content_length_spec(line@) == Some(n as nat),
            None => content_length_spec(line@) is None,
        },
{
    let cs = collect_chars(line);
    if cs.len() < 15 {
        return None;
    }
    let head = string_of(&cs, 0, 15);
    assert(cs@.subrange(0, 15) =~= line@.take(15));
    if !str_equal(head.as_str(), "Content-Length:") && !str_equal(head.as_str(), "content-length:") {
        return None;
    }
    let mut rest: Vec<char> = Vec::new();
    let mut k: usize = 15;
    while k < cs.len()
        invariant
            15 <= k <= cs@.len(),
            cs@ == line@,
            rest@ == line@.subrange(15, k as int),
        decreases cs@.len() - k,
    {
        rest.push(cs[k]);
        assert(line@.subrange(15, k + 1) =~= line@.subrange(15, k as int).push(line@[k as int]));
        k = k + 1;
    }
    assert(rest@ =~= line@.skip(15));
    let a = skip_space_from(&rest, 0);
    let b = trim_end_from(&rest, rest.len());
    if a < b {
        match parse_usize(&rest, a, b) {
            Some(n) => Some(n),
            None => Some(0),
        }
    } else {
        assert(parse_usize_spec(Seq::<char>::empty()) is None);
        Some(0)
    }
}

/// The head of a response: the status line and the headers, ending in the
/// blank line before a JSON body of `len` bytes.
pub open spec fn response_head_spec(status: u16, len: nat) -> Seq<char> {
    "HTTP/1.1 "@ + nat_text(status as nat) + " "@ + status_text_spec(status)
        + "\r\nContent-Type: application/json\r\nContent-Length: "@ + nat_text(len)
        + "\r\nConnection: close\r\n\r\n"@
}

/// The head of a response with this status and a JSON body of `body_len`
/// bytes.
pub fn response_head(status: u16, body_len: usize) -> (r: String)
    ensures
        r@ == response_head_spec(status, body_len as nat),
{
    let mut r = String::from_str("HTTP/1.1 ");
    push_u64_text(&mut r, status as u64);
    r.append(" ");
    r.append(status_text(status));
    r.append("\r\nContent-Type: application/json\r\nContent-Length: ");
    push_u64_text(&mut r, body_len as u64);
    r.append("\r\nConnection: close\r\n\r\n");
    r
}

} // verus!
