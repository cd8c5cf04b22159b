//! A hand-written lexer for the Ledgerstone SQL subset. Turns raw text into a
//! flat token list. Never panics: unrecognized input becomes `LsError::Syntax`.
//!
//! `lex_spec` states, character by character, what the lexer produces.

use vstd::prelude::*;
use vstd::string::{StringExecFns, StrSliceExecFns};
use vstd::std_specs::iter::IteratorSpec;
use crate::error::{LsError, LsErrorView, LsResult};
use crate::text::{digits_text, int_text, nat_text, push_char, push_digits_text, push_i64_text, push_u64_text};
use crate::types::{Decimal, DecimalView, decimal_text, normalize_decimal, strip_trailing_zeros};

verus! {

#[derive(Debug, Clone, PartialEq)]
pub enum Token {
    // Keywords
    Create,
    Table,
    Insert,
    Into,
    Values,
    Select,
    From,
    Where,
    Order,
    By,
    Asc,
    Desc,
    Limit,
    Delete,
    Update,
    /// The keyword SET.
    SetKw,
    And,
    Or,
    Integer,
    Text,
    Real,
    Ident(String),
    IntLit(i64),
    RealLit(Decimal),
    StrLit(String),
    Star,
    Comma,
    LParen,
    RParen,
    Semicolon,
    Dot,
    Eq,
    NotEq,
    Lt,
    Gt,
    Le,
    Ge,
    Eof,
}


pub enum TokenView {
    Create,
    Table,
    Insert,
    Into,
    Values,
    Select,
    From,
    Where,
    Order,
    By,
    Asc,
    Desc,
    Limit,
    Delete,
    Update,
    SetKw,
    And,
    Or,
    Integer,
    Text,
    Real,
    Ident(Seq<char>),
    IntLit(i64),
    RealLit(DecimalView),
    StrLit(Seq<char>),
    Star,
    Comma,
    LParen,
    RParen,
    Semicolon,
    Dot,
    Eq,
    NotEq,
    Lt,
    Gt,
    Le,
    Ge,
    Eof,
}

impl View for Token {
    type V = TokenView;

    open spec fn view(&self) -> TokenView {
        match self {
            Token::Create => TokenView::Create,
            Token::Table => TokenView::Table,
            Token::Insert => TokenView::Insert,
            Token::Into => TokenView::Into,
            Token::Values => TokenView::Values,
            Token::Select => TokenView::Select,
            Token::From => TokenView::From,
            Token::Where => TokenView::Where,
            Token::Order => TokenView::Order,
            Token::By => TokenView::By,
            Token::Asc => TokenView::Asc,
            Token::Desc => TokenView::Desc,
            Token::Limit => TokenView::Limit,
            Token::Delete => TokenView::Delete,
            Token::Update => TokenView::Update,
            Token::SetKw => TokenView::SetKw,
            Token::And => TokenView::And,
            Token::Or => TokenView::Or,
            Token::Integer => TokenView::Integer,
            Token::Text => TokenView::Text,
            Token::Real => TokenView::Real,
            Token::Ident(s) => TokenView::Ident(s@),
            Token::IntLit(i) => TokenView::IntLit(*i),
            Token::RealLit(d) => TokenView::RealLit(d@),
            Token::StrLit(s) => TokenView::StrLit(s@),
            Token::Star => TokenView::Star,
            Token::Comma => TokenView::Comma,
            Token::LParen => TokenView::LParen,
            Token::RParen => TokenView::RParen,
            Token::Semicolon => TokenView::Semicolon,
            Token::Dot => TokenView::Dot,
            Token::Eq => TokenView::Eq,
            Token::NotEq => TokenView::NotEq,
            Token::Lt => TokenView::Lt,
            Token::Gt => TokenView::Gt,
            Token::Le => TokenView::Le,
            Token::Ge => TokenView::Ge,
            Token::Eof => TokenView::Eof,
        }
    }
}

pub open spec fn tokens_view(ts: Seq<Token>) -> Seq<TokenView> {
    ts.map_values(|t: Token| t@)
}

/// Caps how many tokens a single statement may produce (not counting the
/// closing `Eof`), a cheap backstop against pathological input long before
/// the parser's own depth guard runs.
pub const MAX_TOKENS: usize = 100000;

/// The Unicode White_Space characters (`char::is_whitespace`).
pub open spec fn is_whitespace_spec(c: char) -> bool {
    ||| ('\t' <= c && c <= '\r')
    ||| c == ' '
    ||| c == '\u{85}'
    ||| c == '\u{a0}'
    ||| c == '\u{1680}'
    ||| ('\u{2000}' <= c && c <= '\u{200a}')
    ||| c == '\u{2028}'
    ||| c == '\u{2029}'
    ||| c == '\u{202f}'
    ||| c == '\u{205f}'
    ||| c == '\u{3000}'
}

pub fn is_whitespace(c: char) -> (r: bool)
    ensures
        r == is_whitespace_spec(c),
{
    ('\t' <= c && c <= '\r') || c == ' ' || c == '\u{85}' || c == '\u{a0}' || c == '\u{1680}'
        || ('\u{2000}' <= c && c <= '\u{200a}') || c == '\u{2028}' || c == '\u{2029}' || c == '\u{202f}'
        || c == '\u{205f}' || c == '\u{3000}'
}

pub open spec fn is_digit_spec(c: char) -> bool {
    '0' <= c && c <= '9'
}

/// Whether a character has the Unicode Alphabetic property.
pub uninterp spec fn is_alphabetic_spec(c: char) -> bool;

/// Whether a character is Alphabetic or Numeric in Unicode.
pub uninterp spec fn is_alphanumeric_spec(c: char) -> bool;

/// An ASCII letter.
pub open spec fn ascii_letter(c: char) -> bool {
    ('a' <= c && c <= 'z') || ('A' <= c && c <= 'Z')
}

/// An ASCII letter or digit.
pub open spec fn ascii_alnum(c: char) -> bool {
    ascii_letter(c) || ('0' <= c && c <= '9')
}

fn is_ascii_letter(c: char) -> (r: bool)
    ensures
        r == ascii_letter(c),
{
    ('a' <= c && c <= 'z') || ('A' <= c && c <= 'Z')
}

fn is_ascii_alnum(c: char) -> (r: bool)
    ensures
        r == ascii_alnum(c),
{
    is_ascii_letter(c) || ('0' <= c && c <= '9')
}

/// `char::is_alphabetic`: whether the character has the Unicode
/// Alphabetic property. The property's tables are not restated here;
/// among ASCII characters exactly the letters have it.
#[verifier::external_body]
fn is_alphabetic(c: char) -> (r: bool)
    ensures
        r == is_alphabetic_spec(c),
        (c as u32) < 128 ==> r == ascii_letter(c),
{
    c.is_alphabetic()
}

/// `char::is_alphanumeric`: whether the character is Alphabetic or
/// Numeric in Unicode, so in particular every alphabetic character is
/// alphanumeric. The property's tables are not restated here; among ASCII
/// characters exactly the letters and digits have it.
#[verifier::external_body]
fn is_alphanumeric(c: char) -> (r: bool)
    ensures
        r == is_alphanumeric_spec(c),
        is_alphabetic_spec(c) ==> r,
        (c as u32) < 128 ==> r == ascii_alnum(c),
{
    c.is_alphanumeric()
}

/// A character that continues an identifier: alphanumeric or `_`. Among
/// ASCII characters these are the letters, the digits and `_`, written out
/// here so that ASCII text can be lexed by reasoning alone; above ASCII the
/// Unicode property decides.
pub open spec fn ident_char(c: char) -> bool {
    if (c as u32) < 128 {
        ascii_alnum(c) || c == '_'
    } else {
        is_alphanumeric_spec(c)
    }
}

/// A character that starts an identifier: alphabetic or `_`, the ASCII
/// ones written out as for `ident_char`.
pub open spec fn ident_start(c: char) -> bool {
    if (c as u32) < 128 {
        ascii_letter(c) || c == '_'
    } else {
        is_alphabetic_spec(c)
    }
}

/// Whether a character continues an identifier.
fn is_ident_char(c: char) -> (r: bool)
    ensures
        r == ident_char(c),
        (c as u32) >= 128 && is_alphabetic_spec(c) ==> r,
{
    if (c as u32) < 128 {
        is_ascii_alnum(c) || c == '_'
    } else {
        is_alphanumeric(c)
    }
}

/// Whether a character starts an identifier.
fn is_ident_start(c: char) -> (r: bool)
    ensures
        r == ident_start(c),
{
    if (c as u32) < 128 {
        is_ascii_letter(c) || c == '_'
    } else {
        is_alphabetic(c)
    }
}

/// The end of the run of identifier characters that starts at `i`.
pub open spec fn ident_end(chars: Seq<char>, i: nat) -> nat
    decreases chars.len() - i,
{
    if i < chars.len() && ident_char(chars[i as int]) {
        ident_end(chars, i + 1)
    } else {
        i
    }
}

/// The end of the run of ASCII digits that starts at `i`.
pub open spec fn digits_end(chars: Seq<char>, i: nat) -> nat
    decreases chars.len() - i,
{
    if i < chars.len() && is_digit_spec(chars[i as int]) {
        digits_end(chars, i + 1)
    } else {
        i
    }
}

/// The position of the end of the line that `i` is on (a newline or the
/// end of the input).
pub open spec fn line_end(chars: Seq<char>, i: nat) -> nat
    decreases chars.len() - i,
{
    if i < chars.len() && chars[i as int] != '\n' {
        line_end(chars, i + 1)
    } else {
        i
    }
}

pub open spec fn unterminated_error() -> LsErrorView {
    LsErrorView::Syntax("unterminated string literal"@)
}

/// The rest of a single-quoted string literal from position `i`, `s` being
/// what has been read of it: `''` stands for one quote, a lone quote ends
/// it. The result is the text and the position after the closing quote.
pub open spec fn string_lit(chars: Seq<char>, i: nat, s: Seq<char>) -> Result<(Seq<char>, nat), LsErrorView>
    decreases chars.len() - i,
{
    if i >= chars.len() {
        Err(unterminated_error())
    } else if chars[i as int] == '\'' {
        if i + 1 < chars.len() && chars[i + 1int] == '\'' {
            string_lit(chars, i + 2, s.push('\''))
        } else {
            Ok((s, i + 1))
        }
    } else {
        string_lit(chars, i + 1, s.push(chars[i as int]))
    }
}

pub open spec fn digit_value(c: char) -> nat {
    ((c as u32) - ('0' as u32)) as nat
}

/// The number that a string of decimal digits writes.
pub open spec fn digits_value(ds: Seq<char>) -> nat
    decreases ds.len(),
{
    if ds.len() == 0 {
        0
    } else {
        digits_value(ds.drop_last()) * 10 + digit_value(ds.last())
    }
}

pub open spec fn digit_bytes(ds: Seq<char>) -> Seq<u8> {
    ds.map_values(|c: char| digit_value(c) as u8)
}

pub open spec fn invalid_number_error(text: Seq<char>) -> LsErrorView {
    LsErrorView::Syntax("invalid numeric literal '"@ + text + "'"@)
}

/// The numeric literal that starts at `start`: digits, then, when a `.` is
/// followed by a digit, the point and more digits (a REAL); an INTEGER
/// whose value does not fit an `i64` is an error.
pub open spec fn number_token(chars: Seq<char>, start: nat) -> Result<(TokenView, nat), LsErrorView> {
    let j1 = digits_end(chars, start);
    if j1 < chars.len() && chars[j1 as int] == '.' && j1 + 1 < chars.len() && is_digit_spec(chars[j1 + 1int]) {
        let j2 = digits_end(chars, j1 + 1);
        Ok((
            TokenView::RealLit(normalize_decimal(
                false,
                digit_bytes(chars.subrange(start as int, j1 as int)),
                digit_bytes(chars.subrange(j1 + 1int, j2 as int)),
            )),
            j2,
        ))
    } else {
        let text = chars.subrange(start as int, j1 as int);
        if text.len() == 0 || digits_value(text) > i64::MAX {
            Err(invalid_number_error(text))
        } else {
            Ok((TokenView::IntLit(digits_value(text) as i64), j1))
        }
    }
}

pub open spec fn ascii_upper(c: char) -> char {
    if 'a' <= c && c <= 'z' {
        ((c as u32) - 32) as char
    } else {
        c
    }
}

pub open spec fn upper_text(w: Seq<char>) -> Seq<char> {
    w.map_values(|c: char| ascii_upper(c))
}

/// A word is a keyword when its ASCII uppercase spelling is one, else an
/// identifier.
pub open spec fn keyword_or_ident_spec(word: Seq<char>) -> TokenView {
    let u = upper_text(word);
    if u == "CREATE"@ {
        TokenView::Create
    } else if u == "TABLE"@ {
        TokenView::Table
    } else if u == "INSERT"@ {
        TokenView::Insert
    } else if u == "INTO"@ {
        TokenView::Into
    } else if u == "VALUES"@ {
        TokenView::Values
    } else if u == "SELECT"@ {
        TokenView::Select
    } else if u == "FROM"@ {
        TokenView::From
    } else if u == "WHERE"@ {
        TokenView::Where
    } else if u == "ORDER"@ {
        TokenView::Order
    } else if u == "BY"@ {
        TokenView::By
    } else if u == "ASC"@ {
        TokenView::Asc
    } else if u == "DESC"@ {
        TokenView::Desc
    } else if u == "LIMIT"@ {
        TokenView::Limit
    } else if u == "DELETE"@ {
        TokenView::Delete
    } else if u == "UPDATE"@ {
        TokenView::Update
    } else if u == "SET"@ {
        TokenView::SetKw
    } else if u == "AND"@ {
        TokenView::And
    } else if u == "OR"@ {
        TokenView::Or
    } else if u == "INTEGER"@ || u == "INT"@ {
        TokenView::Integer
    } else if u == "TEXT"@ {
        TokenView::Text
    } else if u == "REAL"@ || u == "FLOAT"@ {
        TokenView::Real
    } else {
        TokenView::Ident(word)
    }
}

/// One step of the lexer at position `i`.
pub enum ScanView {
    /// Skip the input up to the position.
    Skip(nat),
    /// Emit the token; lexing goes on at the position.
    Emit(TokenView, nat),
    /// Fail with the error.
    Fail(LsErrorView),
}

/// What the lexer does at position `i` (`i` within the input).
pub open spec fn scan_spec(chars: Seq<char>, i: nat) -> ScanView {
    let c = chars[i as int];
    let has_next = i + 1 < chars.len();
    if is_whitespace_spec(c) {
        ScanView::Skip(i + 1)
    } else if c == '-' && has_next && chars[i + 1int] == '-' {
        ScanView::Skip(line_end(chars, i))
    } else if c == '*' {
        ScanView::Emit(TokenView::Star, i + 1)
    } else if c == ',' {
        ScanView::Emit(TokenView::Comma, i + 1)
    } else if c == '(' {
        ScanView::Emit(TokenView::LParen, i + 1)
    } else if c == ')' {
        ScanView::Emit(TokenView::RParen, i + 1)
    } else if c == ';' {
        ScanView::Emit(TokenView::Semicolon, i + 1)
    } else if c == '.' {
        ScanView::Emit(TokenView::Dot, i + 1)
    } else if c == '=' {
        ScanView::Emit(TokenView::Eq, i + 1)
    } else if c == '!' {
        if has_next && chars[i + 1int] == '=' {
            ScanView::Emit(TokenView::NotEq, i + 2)
        } else {
            ScanView::Fail(LsErrorView::Syntax("unexpected character '!' at "@ + nat_text(i)))
        }
    } else if c == '<' {
        if has_next && chars[i + 1int] == '=' {
            ScanView::Emit(TokenView::Le, i + 2)
        } else if has_next && chars[i + 1int] == '>' {
            ScanView::Emit(TokenView::NotEq, i + 2)
        } else {
            ScanView::Emit(TokenView::Lt, i + 1)
        }
    } else if c == '>' {
        if has_next && chars[i + 1int] == '=' {
            ScanView::Emit(TokenView::Ge, i + 2)
        } else {
            ScanView::Emit(TokenView::Gt, i + 1)
        }
    } else if c == '\'' {
        match string_lit(chars, i + 1, Seq::empty()) {
            Ok((s, j)) => ScanView::Emit(TokenView::StrLit(s), j),
            Err(e) => ScanView::Fail(e),
        }
    } else if is_digit_spec(c) {
        match number_token(chars, i) {
            Ok((t, j)) => ScanView::Emit(t, j),
            Err(e) => ScanView::Fail(e),
        }
    } else if ident_start(c) {
        let j = ident_end(chars, i + 1);
        ScanView::Emit(keyword_or_ident_spec(chars.subrange(i as int, j as int)), j)
    } else {
        ScanView::Fail(LsErrorView::Syntax("unexpected character '"@ + seq![c] + "' at position "@ + nat_text(i)))
    }
}

pub open spec fn too_long_error() -> LsErrorView {
    LsErrorView::Syntax("statement too long"@)
}

/// The tokens of the input from position `i` on, `acc` holding those
/// already produced: at each position the step of `scan_spec`, refusing
/// the input when a token would be produced past the first `MAX_TOKENS`,
/// and an `Eof` token at the end. (Every step moves forward, so the
/// branches that stop without `Eof` are never taken.)
pub open spec fn lex_from(chars: Seq<char>, i: nat, acc: Seq<TokenView>) -> Result<Seq<TokenView>, LsErrorView>
    decreases chars.len() - i,
{
    if i >= chars.len() {
        Ok(acc.push(TokenView::Eof))
    } else {
        match scan_spec(chars, i) {
            ScanView::Skip(j) => if i < j <= chars.len() { lex_from(chars, j, acc) } else { Ok(acc) },
            ScanView::Emit(t, j) => if acc.len() >= MAX_TOKENS {
                Err(too_long_error())
            } else if i < j <= chars.len() {
                lex_from(chars, j, acc.push(t))
            } else {
                Ok(acc)
            },
            ScanView::Fail(e) => Err(e),
        }
    }
}

/// The tokens of a statement's text.
pub open spec fn lex_spec(text: Seq<char>) -> Result<Seq<TokenView>, LsErrorView> {
    lex_from(text, 0, Seq::empty())
}

pub open spec fn lex_result_view(r: LsResult<Vec<Token>>) -> Result<Seq<TokenView>, LsErrorView> {
    match r {
        Ok(ts) => Ok(tokens_view(ts@)),
        Err(e) => Err(e@),
    }
}


/// The characters of a string.
pub fn collect_chars(src: &str) -> (r: Vec<char>)
    ensures
        r@ == src@,
{
    let mut r: Vec<char> = Vec::new();
    let ghost cs = vstd::string::spec_iter(src).remaining();
    proof {
        vstd::string::axiom_spec_iter(src);
    }
    for c in it: src.chars()
        invariant
            it.seq() == cs,
            r@ == it.seq().take(it.index() as int),
    {
        r.push(c);
        assert(it.seq().take(it.index() + 1) =~= r@);
    }
    assert(r@ =~= cs);
    r
}


/// Reads the single-quoted string literal whose opening quote is at
/// `start`.
pub fn lex_string(chars: &[char], start: usize) -> (r: LsResult<(String, usize)>)
    requires
        start < chars@.len(),
    ensures
        match r {
            Ok((s, j)) => string_lit(chars@, (start + 1) as nat, Seq::empty()) == Ok::<(Seq<char>, nat), LsErrorView>((s@, j as nat)),
            Err(e) => string_lit(chars@, (start + 1) as nat, Seq::empty()) == Err::<(Seq<char>, nat), LsErrorView>(e@),
        },
{
    let n = chars.len();
    let mut i = start + 1;
    let mut s = String::new();
    loop
        invariant
            start < i <= chars@.len() + 1,
            string_lit(chars@, (start + 1) as nat, Seq::empty()) == string_lit(chars@, i as nat, s@),
        decreases chars@.len() + 1 - i,
    {
        if i >= chars.len() {
            return Err(LsError::Syntax(String::from_str("unterminated string literal")));
        }
        let c = chars[i];
        if c == '\'' {
            // '' inside a string is an escaped single quote
            if i + 1 < chars.len() && chars[i + 1] == '\'' {
                push_char(&mut s, '\'');
                i = i + 2;
                continue;
            }
            return Ok((s, i + 1));
        }
        push_char(&mut s, c);
        i = i + 1;
    }
}

/// Reads the run of identifier characters that starts at `start`.
pub fn lex_ident(chars: &[char], start: usize) -> (r: (String, usize))
    requires
        start <= chars@.len(),
    ensures
        r.1 as nat == ident_end(chars@, start as nat),
        r.0@ == chars@.subrange(start as int, r.1 as int),
        start <= r.1 <= chars@.len(),
        start < chars@.len() && ident_start(chars@[start as int]) ==> start < r.1,
        start < chars@.len() && ident_char(chars@[start as int]) ==> start < r.1,
        start < chars@.len() && ident_start(chars@[start as int]) ==> ident_char(chars@[start as int]),
        forall|k: int| start <= k < r.1 ==> ident_char(#[trigger] chars@[k]),
        r.1 < chars@.len() ==> !ident_char(chars@[r.1 as int]),
{
    let mut i = start;
    let mut s = String::new();
    while i < chars.len() && is_ident_char(chars[i])
        invariant
            start <= i <= chars@.len(),
            forall|k: int| start <= k < i ==> ident_char(#[trigger] chars@[k]),
            ident_end(chars@, start as nat) == ident_end(chars@, i as nat),
            s@ == chars@.subrange(start as int, i as int),
        decreases chars@.len() - i,
    {
        push_char(&mut s, chars[i]);
        assert(chars@.subrange(start as int, i + 1) =~= chars@.subrange(start as int, i as int).push(chars@[i as int]));
        i = i + 1;
    }
    (s, i)
}

/// Whether `word` (of `len` characters) spelled in ASCII uppercase is `kw`.
fn upper_equals(word: &str, len: usize, kw: &str) -> (r: bool)
    requires
        len == word@.len(),
    ensures
        r == (upper_text(word@) == kw@),
{
    let n = kw.unicode_len();
    if n != len {
        return false;
    }
    let mut j: usize = 0;
    while j < n
        invariant
            j <= n,
            n == kw@.len(),
            n == word@.len(),
            forall|k: int| 0 <= k < j ==> ascii_upper(#[trigger] word@[k]) == kw@[k],
        decreases n - j,
    {
        let c = word.get_char(j);
        let u = if 'a' <= c && c <= 'z' { ((c as u32) - 32) as u8 as char } else { c };
        assert(u == ascii_upper(c));
        if u != kw.get_char(j) {
            assert(upper_text(word@)[j as int] != kw@[j as int]);
            return false;
        }
        j = j + 1;
    }
    assert(upper_text(word@) =~= kw@);
    true
}

pub fn keyword_or_ident(word: &str) -> (r: Token)
    ensures
        r@ == keyword_or_ident_spec(word@),
{
    let len = word.unicode_len();
    let kw = if len > 7 {
        None
    } else if upper_equals(word, len, "CREATE") {
        Some(Token::Create)
    } else if upper_equals(word, len, "TABLE") {
        Some(Token::Table)
    } else if upper_equals(word, len, "INSERT") {
        Some(Token::Insert)
    } else if upper_equals(word, len, "INTO") {
        Some(Token::Into)
    } else if upper_equals(word, len, "VALUES") {
        Some(Token::Values)
    } else if upper_equals(word, len, "SELECT") {
        Some(Token::Select)
    } else if upper_equals(word, len, "FROM") {
        Some(Token::From)
    } else if upper_equals(word, len, "WHERE") {
        Some(Token::Where)
    } else if upper_equals(word, len, "ORDER") {
        Some(Token::Order)
    } else if upper_equals(word, len, "BY") {
        Some(Token::By)
    } else if upper_equals(word, len, "ASC") {
        Some(Token::Asc)
    } else if upper_equals(word, len, "DESC") {
        Some(Token::Desc)
    } else if upper_equals(word, len, "LIMIT") {
        Some(Token::Limit)
    } else if upper_equals(word, len, "DELETE") {
        Some(Token::Delete)
    } else if upper_equals(word, len, "UPDATE") {
        Some(Token::Update)
    } else if upper_equals(word, len, "SET") {
        Some(Token::SetKw)
    } else if upper_equals(word, len, "AND") {
        Some(Token::And)
    } else if upper_equals(word, len, "OR") {
        Some(Token::Or)
    } else if upper_equals(word, len, "INTEGER") || upper_equals(word, len, "INT") {
        Some(Token::Integer)
    } else if upper_equals(word, len, "TEXT") {
        Some(Token::Text)
    } else if upper_equals(word, len, "REAL") || upper_equals(word, len, "FLOAT") {
        Some(Token::Real)
    } else {
        None
    };
    match kw {
        Some(t) => t,
        None => {
            proof {
                if len > 7 {
                    lemma_long_word_no_keyword(word@);
                }
            }
            Token::Ident(String::from_str(word))
        },
    }
}

proof fn lemma_long_word_no_keyword(word: Seq<char>)
    requires
        word.len() > 7,
    ensures
        keyword_or_ident_spec(word) == TokenView::Ident(word),
{
    reveal_strlit("CREATE");
    reveal_strlit("TABLE");
    reveal_strlit("INSERT");
    reveal_strlit("INTO");
    reveal_strlit("VALUES");
    reveal_strlit("SELECT");
    reveal_strlit("FROM");
    reveal_strlit("WHERE");
    reveal_strlit("ORDER");
    reveal_strlit("BY");
    reveal_strlit("ASC");
    reveal_strlit("DESC");
    reveal_strlit("LIMIT");
    reveal_strlit("DELETE");
    reveal_strlit("UPDATE");
    reveal_strlit("SET");
    reveal_strlit("AND");
    reveal_strlit("OR");
    reveal_strlit("INTEGER");
    reveal_strlit("INT");
    reveal_strlit("TEXT");
    reveal_strlit("REAL");
    reveal_strlit("FLOAT");
    assert(upper_text(word).len() == word.len());
}


proof fn lemma_ident_end_bounds(chars: Seq<char>, i: nat)
    requires
        i <= chars.len(),
    ensures
        i <= ident_end(chars, i) <= chars.len(),
        i < chars.len() && ident_char(chars[i as int]) ==> i < ident_end(chars, i),
    decreases chars.len() - i,
{
    if i < chars.len() && ident_char(chars[i as int]) {
        lemma_ident_end_bounds(chars, i + 1);
    }
}

proof fn lemma_digits_end_bounds(chars: Seq<char>, i: nat)
    requires
        i <= chars.len(),
    ensures
        i <= digits_end(chars, i) <= chars.len(),
        i < chars.len() && is_digit_spec(chars[i as int]) ==> i < digits_end(chars, i),
        forall|k: int| i <= k < digits_end(chars, i) ==> is_digit_spec(#[trigger] chars[k]),
    decreases chars.len() - i,
{
    if i < chars.len() && is_digit_spec(chars[i as int]) {
        lemma_digits_end_bounds(chars, i + 1);
    }
}

proof fn lemma_line_end_bounds(chars: Seq<char>, i: nat)
    requires
        i <= chars.len(),
    ensures
        i <= line_end(chars, i) <= chars.len(),
    decreases chars.len() - i,
{
    if i < chars.len() && chars[i as int] != '\n' {
        lemma_line_end_bounds(chars, i + 1);
    }
}

proof fn lemma_string_lit_bounds(chars: Seq<char>, i: nat, s: Seq<char>)
    ensures
        string_lit(chars, i, s) matches Ok((_, j)) ==> i < j <= chars.len(),
    decreases chars.len() - i,
{
    if i < chars.len() {
        if chars[i as int] == '\'' {
            if i + 1 < chars.len() && chars[i + 1int] == '\'' {
                lemma_string_lit_bounds(chars, i + 2, s.push('\''));
            }
        } else {
            lemma_string_lit_bounds(chars, i + 1, s.push(chars[i as int]));
        }
    }
}

proof fn lemma_number_bounds(chars: Seq<char>, i: nat)
    requires
        i < chars.len(),
        is_digit_spec(chars[i as int]),
    ensures
        number_token(chars, i) matches Ok((_, j)) ==> i < j <= chars.len(),
{
    lemma_digits_end_bounds(chars, i);
    let j1 = digits_end(chars, i);
    if j1 + 1 < chars.len() {
        lemma_digits_end_bounds(chars, j1 + 1);
    }
}

/// Scans the run of ASCII digits that starts at `start`.
fn scan_digits(chars: &[char], start: usize) -> (r: usize)
    requires
        start <= chars@.len(),
    ensures
        r as nat == digits_end(chars@, start as nat),
{
    let mut i = start;
    while i < chars.len() && '0' <= chars[i] && chars[i] <= '9'
        invariant
            start <= i <= chars@.len(),
            digits_end(chars@, start as nat) == digits_end(chars@, i as nat),
        decreases chars@.len() - i,
    {
        i = i + 1;
    }
    i
}

/// The digit values of `chars[a..b]`, all of them ASCII digits.
fn digit_bytes_of(chars: &[char], a: usize, b: usize) -> (r: Vec<u8>)
    requires
        a <= b <= chars@.len(),
        forall|k: int| a <= k < b ==> is_digit_spec(#[trigger] chars@[k]),
    ensures
        r@ == digit_bytes(chars@.subrange(a as int, b as int)),
        forall|k: int| 0 <= k < r@.len() ==> #[trigger] r@[k] < 10,
{
    let mut r: Vec<u8> = Vec::new();
    let mut k = a;
    while k < b
        invariant
            a <= k <= b,
            b <= chars@.len(),
            forall|q: int| a <= q < b ==> is_digit_spec(#[trigger] chars@[q]),
            r@ == digit_bytes(chars@.subrange(a as int, k as int)),
            forall|q: int| 0 <= q < r@.len() ==> #[trigger] r@[q] < 10,
        decreases b - k,
    {
        let c = chars[k];
        assert(is_digit_spec(chars@[k as int]));
        let d = ((c as u32) - ('0' as u32)) as u8;
        r.push(d);
        assert(chars@.subrange(a as int, k + 1) =~= chars@.subrange(a as int, k as int).push(c));
        assert(digit_bytes(chars@.subrange(a as int, k + 1)) =~= digit_bytes(chars@.subrange(a as int, k as int)).push(d));
        k = k + 1;
    }
    r
}

/// The characters `chars[a..b]` as a string.
fn text_of(chars: &[char], a: usize, b: usize) -> (r: String)
    requires
        a <= b <= chars@.len(),
    ensures
        r@ == chars@.subrange(a as int, b as int),
{
    let mut r = String::new();
    let mut k = a;
    while k < b
        invariant
            a <= k <= b,
            b <= chars@.len(),
            r@ == chars@.subrange(a as int, k as int),
        decreases b - k,
    {
        push_char(&mut r, chars[k]);
        assert(chars@.subrange(a as int, k + 1) =~= chars@.subrange(a as int, k as int).push(chars@[k as int]));
        k = k + 1;
    }
    r
}

fn lex_number(chars: &[char], start: usize) -> (r: LsResult<(Token, usize)>)
    requires
        start <= chars@.len(),
    ensures
        match r {
            Ok((t, j)) => number_token(chars@, start as nat) == Ok::<(TokenView, nat), LsErrorView>((t@, j as nat)),
            Err(e) => number_token(chars@, start as nat) == Err::<(TokenView, nat), LsErrorView>(e@),
        },
{
    let n = chars.len();
    let j1 = scan_digits(chars, start);
    proof {
        lemma_digits_end_bounds(chars@, start as nat);
    }
    if j1 < n && chars[j1] == '.' && j1 + 1 < n && '0' <= chars[j1 + 1] && chars[j1 + 1] <= '9' {
        let j2 = scan_digits(chars, j1 + 1);
        proof {
            lemma_digits_end_bounds(chars@, (j1 + 1) as nat);
        }
        let ip = digit_bytes_of(chars, start, j1);
        let fp = digit_bytes_of(chars, j1 + 1, j2);
        match Decimal::new(false, &ip, &fp) {
            Some(d) => Ok((Token::RealLit(d), j2)),
            None => {
                assert(false);
                Err(LsError::Syntax(String::new()))
            },
        }
    } else {
        let ghost text = chars@.subrange(start as int, j1 as int);
        let mut v: u64 = 0;
        let mut overflow = false;
        let mut k = start;
        while k < j1
            invariant
                start <= k <= j1,
                j1 <= chars@.len(),
                text == chars@.subrange(start as int, j1 as int),
                forall|q: int| start <= q < j1 ==> is_digit_spec(#[trigger] chars@[q]),
                !overflow ==> v == digits_value(chars@.subrange(start as int, k as int)) && v <= i64::MAX,
                overflow ==> digits_value(chars@.subrange(start as int, k as int)) > i64::MAX,
            decreases j1 - k,
        {
            let c = chars[k];
            assert(is_digit_spec(chars@[k as int]));
            let d = ((c as u32) - ('0' as u32)) as u64;
            assert(chars@.subrange(start as int, k + 1).drop_last() =~= chars@.subrange(start as int, k as int));
            assert(chars@.subrange(start as int, k + 1).last() == c);
            if !overflow {
                if v > 922337203685477580u64 || (v == 922337203685477580u64 && d > 7) {
                    overflow = true;
                } else {
                    v = v * 10 + d;
                }
            }
            k = k + 1;
        }
        if j1 == start || overflow {
            let mut m = String::from_str("invalid numeric literal '");
            let t = text_of(chars, start, j1);
            m.append(t.as_str());
            m.append("'");
            return Err(LsError::Syntax(m));
        }
        Ok((Token::IntLit(v as i64), j1))
    }
}

/// One step of the lexer.
pub enum Scan {
    Skip(usize),
    Emit(Token, usize),
    Fail(LsError),
}

impl View for Scan {
    type V = ScanView;

    open spec fn view(&self) -> ScanView {
        match self {
            Scan::Skip(j) => ScanView::Skip(*j as nat),
            Scan::Emit(t, j) => ScanView::Emit(t@, *j as nat),
            Scan::Fail(e) => ScanView::Fail(e@),
        }
    }
}

fn position_message(prefix: &str, c: Option<char>, middle: &str, i: usize) -> (r: String)
    ensures
        r@ == prefix@ + (match c {
            Some(ch) => seq![ch],
            None => Seq::empty(),
        }) + middle@ + nat_text(i as nat),
{
    let mut m = String::from_str(prefix);
    match c {
        Some(ch) => push_char(&mut m, ch),
        None => {},
    }
    m.append(middle);
    push_u64_text(&mut m, i as u64);
    m
}

/// What the lexer does at position `i`.
pub fn scan_one(chars: &Vec<char>, i: usize) -> (r: Scan)
    requires
        i < chars@.len(),
    ensures
        r@ == scan_spec(chars@, i as nat),
        r matches Scan::Skip(j) ==> i < j <= chars@.len(),
        r matches Scan::Emit(_, j) ==> i < j <= chars@.len(),
{
    let n = chars.len();
    let c = chars[i];
    let has_next = i + 1 < n;
    if is_whitespace(c) {
        return Scan::Skip(i + 1);
    }
    // line comment: -- to end of line
    if c == '-' && has_next && chars[i + 1] == '-' {
        let mut k = i;
        while k < n && chars[k] != '\n'
            invariant
                i <= k <= n,
                n == chars@.len(),
                line_end(chars@, i as nat) == line_end(chars@, k as nat),
            decreases n - k,
        {
            k = k + 1;
        }
        proof {
            lemma_line_end_bounds(chars@, i as nat);
        }
        assert(chars@[i as int] != '\n');
        return Scan::Skip(k);
    }
    if c == '*' {
        Scan::Emit(Token::Star, i + 1)
    } else if c == ',' {
        Scan::Emit(Token::Comma, i + 1)
    } else if c == '(' {
        Scan::Emit(Token::LParen, i + 1)
    } else if c == ')' {
        Scan::Emit(Token::RParen, i + 1)
    } else if c == ';' {
        Scan::Emit(Token::Semicolon, i + 1)
    } else if c == '.' {
        Scan::Emit(Token::Dot, i + 1)
    } else if c == '=' {
        Scan::Emit(Token::Eq, i + 1)
    } else if c == '!' {
        if has_next && chars[i + 1] == '=' {
            Scan::Emit(Token::NotEq, i + 2)
        } else {
            proof {
                reveal_strlit("");
                assert(""@ =~= Seq::<char>::empty());
            }
            Scan::Fail(LsError::Syntax(position_message("unexpected character '!' at ", None, "", i)))
        }
    } else if c == '<' {
        if has_next && chars[i + 1] == '=' {
            Scan::Emit(Token::Le, i + 2)
        } else if has_next && chars[i + 1] == '>' {
            Scan::Emit(Token::NotEq, i + 2)
        } else {
            Scan::Emit(Token::Lt, i + 1)
        }
    } else if c == '>' {
        if has_next && chars[i + 1] == '=' {
            Scan::Emit(Token::Ge, i + 2)
        } else {
            Scan::Emit(Token::Gt, i + 1)
        }
    } else if c == '\'' {
        proof {
            lemma_string_lit_bounds(chars@, (i + 1) as nat, Seq::empty());
        }
        match lex_string(chars.as_slice(), i) {
            Ok((s, j)) => Scan::Emit(Token::StrLit(s), j),
            Err(e) => Scan::Fail(e),
        }
    } else if '0' <= c && c <= '9' {
        proof {
            lemma_number_bounds(chars@, i as nat);
        }
        match lex_number(chars.as_slice(), i) {
            Ok((t, j)) => Scan::Emit(t, j),
            Err(e) => Scan::Fail(e),
        }
    } else if is_ident_start(c) {
        let (word, j) = lex_ident(chars.as_slice(), i);
        proof {
            lemma_ident_end_bounds(chars@, i as nat);
            assert(ident_char(c));
            assert(j == ident_end(chars@, (i + 1) as nat));
        }
        Scan::Emit(keyword_or_ident(word.as_str()), j)
    } else {
        let m = position_message("unexpected character '", Some(c), "' at position ", i);
        Scan::Fail(LsError::Syntax(m))
    }
}

/// Turns the text of one statement into its tokens, ending with `Eof`.
pub fn lex(src: &str) -> (r: LsResult<Vec<Token>>)
    ensures
        lex_result_view(r) == lex_spec(src@),
{
    let chars = collect_chars(src);
    let mut i: usize = 0;
    let mut out: Vec<Token> = Vec::new();
    assert(tokens_view(out@) =~= Seq::<TokenView>::empty());
    while i < chars.len()
        invariant
            i <= chars@.len(),
            chars@ == src@,
            lex_spec(src@) == lex_from(chars@, i as nat, tokens_view(out@)),
        decreases chars@.len() - i,
    {
        match scan_one(&chars, i) {
            Scan::Skip(j) => {
                i = j;
            },
            Scan::Emit(t, j) => {
                if out.len() >= MAX_TOKENS {
                    return Err(LsError::Syntax(String::from_str("statement too long")));
                }
                let ghost before = out@;
                out.push(t);
                assert(tokens_view(out@) =~= tokens_view(before).push(t@));
                i = j;
            },
            Scan::Fail(e) => {
                return Err(e);
            },
        }
    }
    let ghost before = out@;
    out.push(Token::Eof);
    assert(tokens_view(out@) =~= tokens_view(before).push(TokenView::Eof));
    Ok(out)
}


/// What `char::escape_debug` yields for a character.
pub uninterp spec fn escape_debug_spec(c: char) -> Seq<char>;

/// `char::escape_debug`, collected into a string: the escape that `Debug`
/// writes for the character. Which characters it escapes, and how, comes
/// from Unicode tables that are not restated here.
#[verifier::external_body]
fn escape_debug(c: char) -> (r: String)
    ensures
        r@ == escape_debug_spec(c),
{
    c.escape_debug().collect::<String>()
}

/// `s` with the escapes that `Debug` writes inside a quoted string: each
/// character as `char::escape_debug` writes it, except that a single quote
/// stays as it is.
pub open spec fn debug_escape(s: Seq<char>) -> Seq<char>
    decreases s.len(),
{
    if s.len() == 0 {
        Seq::empty()
    } else {
        let c = s.last();
        debug_escape(s.drop_last()) + (if c == '\'' { seq![c] } else { escape_debug_spec(c) })
    }
}

/// A string as `Debug` writes it: quoted, with escapes.
pub open spec fn debug_string(s: Seq<char>) -> Seq<char> {
    seq!['"'] + debug_escape(s) + seq!['"']
}

/// The number of zero digits that `ds` starts with.
pub open spec fn leading_zero_count(ds: Seq<u8>) -> nat
    decreases ds.len(),
{
    if ds.len() > 0 && ds[0] == 0 {
        1 + leading_zero_count(ds.drop_first())
    } else {
        0
    }
}

/// The digits `d.ddd` of a mantissa: the first digit, then a point and the
/// rest when there is a rest.
pub open spec fn mantissa_text(ds: Seq<u8>) -> Seq<char> {
    if ds.len() <= 1 {
        digits_text(ds)
    } else {
        digits_text(ds.take(1)) + "."@ + digits_text(ds.skip(1))
    }
}

/// A REAL literal as the error messages write it, the way `Debug` writes a
/// float: from 1e16 up and below 1e-4 in exponent form (`1.5e16`,
/// `2e-5`), else the decimal text with `.0` when it has no fraction.
pub open spec fn real_debug(d: DecimalView) -> Seq<char> {
    let sign: Seq<char> = if d.negative { "-"@ } else { Seq::empty() };
    let z = leading_zero_count(d.frac_digits);
    if d.int_digits.len() >= 17 {
        sign + mantissa_text(strip_trailing_zeros(d.int_digits + d.frac_digits)) + "e"@
            + nat_text((d.int_digits.len() - 1) as nat)
    } else if d.int_digits.len() == 0 && z < d.frac_digits.len() && z >= 4 {
        sign + mantissa_text(d.frac_digits.skip(z as int)) + "e-"@ + nat_text(z + 1)
    } else if d.frac_digits.len() == 0 {
        decimal_text(d) + ".0"@
    } else {
        decimal_text(d)
    }
}

/// How error messages write a token: its variant name, with its payload
/// in parentheses.
pub open spec fn token_debug_spec(t: TokenView) -> Seq<char> {
    match t {
        TokenView::Create => "Create"@,
        TokenView::Table => "Table"@,
        TokenView::Insert => "Insert"@,
        TokenView::Into => "Into"@,
        TokenView::Values => "Values"@,
        TokenView::Select => "Select"@,
        TokenView::From => "From"@,
        TokenView::Where => "Where"@,
        TokenView::Order => "Order"@,
        TokenView::By => "By"@,
        TokenView::Asc => "Asc"@,
        TokenView::Desc => "Desc"@,
        TokenView::Limit => "Limit"@,
        TokenView::Delete => "Delete"@,
        TokenView::Update => "Update"@,
        TokenView::SetKw => "Set"@,
        TokenView::And => "And"@,
        TokenView::Or => "Or"@,
        TokenView::Integer => "Integer"@,
        TokenView::Text => "Text"@,
        TokenView::Real => "Real"@,
        TokenView::Star => "Star"@,
        TokenView::Comma => "Comma"@,
        TokenView::LParen => "LParen"@,
        TokenView::RParen => "RParen"@,
        TokenView::Semicolon => "Semicolon"@,
        TokenView::Dot => "Dot"@,
        TokenView::Eq => "Eq"@,
        TokenView::NotEq => "NotEq"@,
        TokenView::Lt => "Lt"@,
        TokenView::Gt => "Gt"@,
        TokenView::Le => "Le"@,
        TokenView::Ge => "Ge"@,
        TokenView::Eof => "Eof"@,
        TokenView::Ident(s) => "Ident("@ + debug_string(s) + ")"@,
        TokenView::IntLit(i) => "IntLit("@ + int_text(i as int) + ")"@,
        TokenView::RealLit(d) => "RealLit("@ + real_debug(d) + ")"@,
        TokenView::StrLit(s) => "StrLit("@ + debug_string(s) + ")"@,
    }
}

/// Whether the token carries no payload.
pub open spec fn is_plain(t: TokenView) -> bool {
    match t {
        TokenView::Create => true,
        TokenView::Table => true,
        TokenView::Insert => true,
        TokenView::Into => true,
        TokenView::Values => true,
        TokenView::Select => true,
        TokenView::From => true,
        TokenView::Where => true,
        TokenView::Order => true,
        TokenView::By => true,
        TokenView::Asc => true,
        TokenView::Desc => true,
        TokenView::Limit => true,
        TokenView::Delete => true,
        TokenView::Update => true,
        TokenView::SetKw => true,
        TokenView::And => true,
        TokenView::Or => true,
        TokenView::Integer => true,
        TokenView::Text => true,
        TokenView::Real => true,
        TokenView::Star => true,
        TokenView::Comma => true,
        TokenView::LParen => true,
        TokenView::RParen => true,
        TokenView::Semicolon => true,
        TokenView::Dot => true,
        TokenView::Eq => true,
        TokenView::NotEq => true,
        TokenView::Lt => true,
        TokenView::Gt => true,
        TokenView::Le => true,
        TokenView::Ge => true,
        TokenView::Eof => true,
        _ => false,
    }
}

/// Appends a string as `Debug` writes it.
fn push_debug_string(s: &mut String, text: &str)
    ensures
        final(s)@ == old(s)@ + debug_string(text@),
{
    let chars = collect_chars(text);
    push_char(s, '"');
    let ghost start = s@;
    let mut i: usize = 0;
    while i < chars.len()
        invariant
            i <= chars@.len(),
            chars@ == text@,
            s@ == start + debug_escape(chars@.take(i as int)),
        decreases chars@.len() - i,
    {
        let c = chars[i];
        if c == '\'' {
            push_char(s, c);
        } else {
            let e = escape_debug(c);
            s.append(e.as_str());
        }
        assert(chars@.take(i + 1).drop_last() =~= chars@.take(i as int));
        assert(chars@.take(i + 1).last() == c);
        i = i + 1;
    }
    assert(chars@.take(chars@.len() as int) =~= chars@);
    push_char(s, '"');
    assert(s@ =~= old(s)@ + debug_string(text@));
}

/// The text that error messages show for a token.
pub fn token_debug(t: &Token) -> (r: String)
    ensures
        r@ == token_debug_spec(t@),
{
    match t {
        Token::Create => String::from_str("Create"),
        Token::Table => String::from_str("Table"),
        Token::Insert => String::from_str("Insert"),
        Token::Into => String::from_str("Into"),
        Token::Values => String::from_str("Values"),
        Token::Select => String::from_str("Select"),
        Token::From => String::from_str("From"),
        Token::Where => String::from_str("Where"),
        Token::Order => String::from_str("Order"),
        Token::By => String::from_str("By"),
        Token::Asc => String::from_str("Asc"),
        Token::Desc => String::from_str("Desc"),
        Token::Limit => String::from_str("Limit"),
        Token::Delete => String::from_str("Delete"),
        Token::Update => String::from_str("Update"),
        Token::SetKw => String::from_str("Set"),
        Token::And => String::from_str("And"),
        Token::Or => String::from_str("Or"),
        Token::Integer => String::from_str("Integer"),
        Token::Text => String::from_str("Text"),
        Token::Real => String::from_str("Real"),
        Token::Star => String::from_str("Star"),
        Token::Comma => String::from_str("Comma"),
        Token::LParen => String::from_str("LParen"),
        Token::RParen => String::from_str("RParen"),
        Token::Semicolon => String::from_str("Semicolon"),
        Token::Dot => String::from_str("Dot"),
        Token::Eq => String::from_str("Eq"),
        Token::NotEq => String::from_str("NotEq"),
        Token::Lt => String::from_str("Lt"),
        Token::Gt => String::from_str("Gt"),
        Token::Le => String::from_str("Le"),
        Token::Ge => String::from_str("Ge"),
        Token::Eof => String::from_str("Eof"),
        Token::Ident(x) => {
            let mut r = String::from_str("Ident(");
            push_debug_string(&mut r, x.as_str());
            r.append(")");
            r
        },
        Token::IntLit(i) => {
            let mut r = String::from_str("IntLit(");
            push_i64_text(&mut r, *i);
            r.append(")");
            r
        },
        Token::RealLit(d) => {
            let mut r = String::from_str("RealLit(");
            push_real_debug(&mut r, d);
            r.append(")");
            r
        },
        Token::StrLit(x) => {
            let mut r = String::from_str("StrLit(");
            push_debug_string(&mut r, x.as_str());
            r.append(")");
            r
        },
    }
}

/// Whether `a` is the payload-free token `b`.
pub fn is_token(a: &Token, b: &Token) -> (r: bool)
    requires
        is_plain(b@),
    ensures
        r == (a@ == b@),
{
    match b {
        Token::Create => match a {
            Token::Create => true,
            _ => false,
        },
        Token::Table => match a {
            Token::Table => true,
            _ => false,
        },
        Token::Insert => match a {
            Token::Insert => true,
            _ => false,
        },
        Token::Into => match a {
            Token::Into => true,
            _ => false,
        },
        Token::Values => match a {
            Token::Values => true,
            _ => false,
        },
        Token::Select => match a {
            Token::Select => true,
            _ => false,
        },
        Token::From => match a {
            Token::From => true,
            _ => false,
        },
        Token::Where => match a {
            Token::Where => true,
            _ => false,
        },
        Token::Order => match a {
            Token::Order => true,
            _ => false,
        },
        Token::By => match a {
            Token::By => true,
            _ => false,
        },
        Token::Asc => match a {
            Token::Asc => true,
            _ => false,
        },
        Token::Desc => match a {
            Token::Desc => true,
            _ => false,
        },
        Token::Limit => match a {
            Token::Limit => true,
            _ => false,
        },
        Token::Delete => match a {
            Token::Delete => true,
            _ => false,
        },
        Token::Update => match a {
            Token::Update => true,
            _ => false,
        },
        Token::SetKw => match a {
            Token::SetKw => true,
            _ => false,
        },
        Token::And => match a {
            Token::And => true,
            _ => false,
        },
        Token::Or => match a {
            Token::Or => true,
            _ => false,
        },
        Token::Integer => match a {
            Token::Integer => true,
            _ => false,
        },
        Token::Text => match a {
            Token::Text => true,
            _ => false,
        },
        Token::Real => match a {
            Token::Real => true,
            _ => false,
        },
        Token::Star => match a {
            Token::Star => true,
            _ => false,
        },
        Token::Comma => match a {
            Token::Comma => true,
            _ => false,
        },
        Token::LParen => match a {
            Token::LParen => true,
            _ => false,
        },
        Token::RParen => match a {
            Token::RParen => true,
            _ => false,
        },
        Token::Semicolon => match a {
            Token::Semicolon => true,
            _ => false,
        },
        Token::Dot => match a {
            Token::Dot => true,
            _ => false,
        },
        Token::Eq => match a {
            Token::Eq => true,
            _ => false,
        },
        Token::NotEq => match a {
            Token::NotEq => true,
            _ => false,
        },
        Token::Lt => match a {
            Token::Lt => true,
            _ => false,
        },
        Token::Gt => match a {
            Token::Gt => true,
            _ => false,
        },
        Token::Le => match a {
            Token::Le => true,
            _ => false,
        },
        Token::Ge => match a {
            Token::Ge => true,
            _ => false,
        },
        Token::Eof => match a {
            Token::Eof => true,
            _ => false,
        },
        _ => false,
    }
}


impl Token {
    /// A copy of the token.
    pub fn duplicate(&self) -> (r: Token)
        ensures
            r@ == self@,
    {
        match self {
            Token::Create => Token::Create,
            Token::Table => Token::Table,
            Token::Insert => Token::Insert,
            Token::Into => Token::Into,
            Token::Values => Token::Values,
            Token::Select => Token::Select,
            Token::From => Token::From,
            Token::Where => Token::Where,
            Token::Order => Token::Order,
            Token::By => Token::By,
            Token::Asc => Token::Asc,
            Token::Desc => Token::Desc,
            Token::Limit => Token::Limit,
            Token::Delete => Token::Delete,
            Token::Update => Token::Update,
            Token::SetKw => Token::SetKw,
            Token::And => Token::And,
            Token::Or => Token::Or,
            Token::Integer => Token::Integer,
            Token::Text => Token::Text,
            Token::Real => Token::Real,
            Token::Star => Token::Star,
            Token::Comma => Token::Comma,
            Token::LParen => Token::LParen,
            Token::RParen => Token::RParen,
            Token::Semicolon => Token::Semicolon,
            Token::Dot => Token::Dot,
            Token::Eq => Token::Eq,
            Token::NotEq => Token::NotEq,
            Token::Lt => Token::Lt,
            Token::Gt => Token::Gt,
            Token::Le => Token::Le,
            Token::Ge => Token::Ge,
            Token::Eof => Token::Eof,
            Token::Ident(s) => Token::Ident(s.clone()),
            Token::IntLit(i) => Token::IntLit(*i),
            Token::RealLit(d) => Token::RealLit(d.duplicate()),
            Token::StrLit(s) => Token::StrLit(s.clone()),
        }
    }
}


/// Keywords are recognized whatever their case: two words with the same
/// ASCII uppercase spelling are the same keyword, or both identifiers
/// (which keep their own spelling).
pub proof fn law_keywords_ignore_case(a: Seq<char>, b: Seq<char>)
    requires
        upper_text(a) == upper_text(b),
    ensures
        keyword_or_ident_spec(a) is Ident == keyword_or_ident_spec(b) is Ident,
        !(keyword_or_ident_spec(a) is Ident) ==> keyword_or_ident_spec(a) == keyword_or_ident_spec(b),
{
}


proof fn lemma_scan_progress(chars: Seq<char>, i: nat)
    requires
        i < chars.len(),
    ensures
        scan_spec(chars, i) matches ScanView::Skip(j) ==> i < j <= chars.len(),
        scan_spec(chars, i) matches ScanView::Emit(t, j) ==> i < j <= chars.len() && t != TokenView::Eof,
{
    let c = chars[i as int];
    if c == '-' && i + 1 < chars.len() && chars[i + 1int] == '-' {
        lemma_line_end_bounds(chars, i + 1);
        assert(chars[i as int] != '\n');
    }
    lemma_string_lit_bounds(chars, i + 1, Seq::empty());
    if is_digit_spec(c) {
        lemma_number_bounds(chars, i);
    }
    lemma_ident_end_bounds(chars, i + 1);
}

proof fn lemma_lex_from_shape(chars: Seq<char>, i: nat, acc: Seq<TokenView>)
    requires
        acc.len() <= MAX_TOKENS,
        forall|k: int| 0 <= k < acc.len() ==> #[trigger] acc[k] != TokenView::Eof,
    ensures
        lex_from(chars, i, acc) matches Ok(toks) ==> {
            &&& 1 <= toks.len() <= MAX_TOKENS + 1
            &&& toks.last() == TokenView::Eof
            &&& forall|k: int| 0 <= k < toks.len() - 1 ==> #[trigger] toks[k] != TokenView::Eof
        },
    decreases chars.len() - i,
{
    if i < chars.len() {
        lemma_scan_progress(chars, i);
        match scan_spec(chars, i) {
            ScanView::Skip(j) => lemma_lex_from_shape(chars, j, acc),
            ScanView::Emit(t, j) => {
                if acc.len() < MAX_TOKENS {
                    let acc2 = acc.push(t);
                    assert forall|k: int| 0 <= k < acc2.len() implies #[trigger] acc2[k] != TokenView::Eof by {
                        if k < acc.len() {
                            assert(acc2[k] == acc[k]);
                        }
                    }
                    lemma_lex_from_shape(chars, j, acc2);
                }
            },
            ScanView::Fail(_) => {},
        }
    } else {
        let toks = acc.push(TokenView::Eof);
        assert forall|k: int| 0 <= k < toks.len() - 1 implies #[trigger] toks[k] != TokenView::Eof by {
            assert(toks[k] == acc[k]);
        }
    }
}

/// A text that lexes gives its tokens followed by one `Eof`, which appears
/// nowhere else, and at most `MAX_TOKENS` tokens before it.
pub proof fn law_lex_ends_in_eof(text: Seq<char>)
    ensures
        lex_spec(text) matches Ok(toks) ==> {
            &&& 1 <= toks.len() <= MAX_TOKENS + 1
            &&& toks.last() == TokenView::Eof
            &&& forall|k: int| 0 <= k < toks.len() - 1 ==> #[trigger] toks[k] != TokenView::Eof
        },
{
    lemma_lex_from_shape(text, 0, Seq::empty());
}

proof fn lemma_string_lit_errors(chars: Seq<char>, i: nat, s: Seq<char>)
    ensures
        string_lit(chars, i, s) matches Err(e) ==> e is Syntax,
    decreases chars.len() - i,
{
    if i < chars.len() {
        if chars[i as int] == '\'' {
            if i + 1 < chars.len() && chars[i + 1int] == '\'' {
                lemma_string_lit_errors(chars, i + 2, s.push('\''));
            }
        } else {
            lemma_string_lit_errors(chars, i + 1, s.push(chars[i as int]));
        }
    }
}



/// The number that a plain decimal text writes: an optional `-`, one or
/// more digits, then optionally `.` and one or more digits (no exponent).
pub open spec fn decimal_text_value(s: Seq<char>) -> Option<DecimalView> {
    let neg = s.len() > 0 && s[0] == '-';
    let a: nat = if neg { 1 } else { 0 };
    let j = digits_end(s, a);
    if j == a {
        None
    } else if j == s.len() {
        Some(normalize_decimal(neg, digit_bytes(s.subrange(a as int, j as int)), Seq::empty()))
    } else if s[j as int] == '.' && j + 1 < s.len() && digits_end(s, j + 1) == s.len() {
        Some(normalize_decimal(
            neg,
            digit_bytes(s.subrange(a as int, j as int)),
            digit_bytes(s.subrange(j + 1int, s.len() as int)),
        ))
    } else {
        None
    }
}

/// Reads a plain decimal text (see `decimal_text_value`) as a REAL.
pub fn parse_decimal(text: &str) -> (r: Option<Decimal>)
    ensures
        match r {
            Some(d) => decimal_text_value(text@) == Some(d@),
            None => decimal_text_value(text@) is None,
        },
{
    let cs = collect_chars(text);
    let n = cs.len();
    let neg = n > 0 && cs[0] == '-';
    let a: usize = if neg { 1 } else { 0 };
    let j = scan_digits(cs.as_slice(), a);
    proof {
        lemma_digits_end_bounds(cs@, a as nat);
    }
    if j == a {
        return None;
    }
    let ip = digit_bytes_of(cs.as_slice(), a, j);
    if j == n {
        let fp: Vec<u8> = Vec::new();
        assert(fp@ =~= Seq::<u8>::empty());
        return match Decimal::new(neg, &ip, &fp) {
            Some(d) => Some(d),
            None => {
                assert(false);
                None
            },
        };
    }
    if cs[j] == '.' && j + 1 < n {
        let k = scan_digits(cs.as_slice(), j + 1);
        proof {
            lemma_digits_end_bounds(cs@, (j + 1) as nat);
        }
        if k == n {
            let fp = digit_bytes_of(cs.as_slice(), j + 1, n);
            return match Decimal::new(neg, &ip, &fp) {
                Some(d) => Some(d),
                None => {
                    assert(false);
                    None
                },
            };
        }
    }
    None
}


/// The body of a string literal with each doubled quote read as one quote.
pub open spec fn collapse_quotes(b: Seq<char>) -> Seq<char>
    decreases b.len(),
{
    if b.len() == 0 {
        Seq::empty()
    } else if b.len() >= 2 && b[0] == '\'' && b[1] == '\'' {
        seq!['\''] + collapse_quotes(b.skip(2))
    } else {
        seq![b[0]] + collapse_quotes(b.drop_first())
    }
}

/// Every quote of the text is one of a doubled pair.
pub open spec fn quotes_doubled(b: Seq<char>) -> bool
    decreases b.len(),
{
    if b.len() == 0 {
        true
    } else if b[0] == '\'' {
        b.len() >= 2 && b[1] == '\'' && quotes_doubled(b.skip(2))
    } else {
        quotes_doubled(b.drop_first())
    }
}

proof fn lemma_string_lit_shape(chars: Seq<char>, i: nat, s: Seq<char>)
    ensures
        string_lit(chars, i, s) matches Ok((t, j)) ==> {
            &&& i < j <= chars.len()
            &&& chars[j - 1] == '\''
            &&& (j == chars.len() || chars[j as int] != '\'')
            &&& quotes_doubled(chars.subrange(i as int, j - 1))
            &&& t == s + collapse_quotes(chars.subrange(i as int, j - 1))
        },
    decreases chars.len() - i,
{
    if i < chars.len() {
        if chars[i as int] == '\'' {
            if i + 1 < chars.len() && chars[i + 1int] == '\'' {
                lemma_string_lit_shape(chars, i + 2, s.push('\''));
                if let Ok((t, j)) = string_lit(chars, i, s) {
                    let body = chars.subrange(i as int, j - 1);
                    let rest = chars.subrange(i + 2int, j - 1);
                    assert(body.skip(2) =~= rest);
                    assert(body[0] == '\'' && body[1] == '\'');
                    assert(s.push('\'') + collapse_quotes(rest) =~= s + (seq!['\''] + collapse_quotes(rest)));
                }
            } else {
                assert(chars.subrange(i as int, i as int) =~= Seq::<char>::empty());
                assert(s + Seq::<char>::empty() =~= s);
            }
        } else {
            lemma_string_lit_shape(chars, i + 1, s.push(chars[i as int]));
            if let Ok((t, j)) = string_lit(chars, i, s) {
                let body = chars.subrange(i as int, j - 1);
                let rest = chars.subrange(i + 1int, j - 1);
                assert(body.drop_first() =~= rest);
                assert(body[0] == chars[i as int]);
                assert(s.push(chars[i as int]) + collapse_quotes(rest) =~= s + (seq![chars[i as int]] + collapse_quotes(rest)));
            }
        }
    }
}

/// A string literal runs to the first quote that is not doubled: what it
/// reads is the text before that quote with each doubled quote read as
/// one, and it ends just after it. When there is no such quote the literal
/// is a syntax error.
pub proof fn law_string_literal_reads_to_first_lone_quote(chars: Seq<char>, start: nat)
    ensures
        string_lit(chars, start + 1, Seq::empty()) matches Ok((t, j)) ==> {
            &&& start + 1 < j <= chars.len()
            &&& chars[j - 1] == '\''
            &&& (j == chars.len() || chars[j as int] != '\'')
            &&& quotes_doubled(chars.subrange(start + 1int, j - 1))
            &&& t == collapse_quotes(chars.subrange(start + 1int, j - 1))
        },
        string_lit(chars, start + 1, Seq::empty()) matches Err(e) ==> e is Syntax,
{
    lemma_string_lit_shape(chars, start + 1, Seq::empty());
    lemma_string_lit_errors(chars, start + 1, Seq::empty());
    if let Ok((t, j)) = string_lit(chars, start + 1, Seq::empty()) {
        assert(Seq::<char>::empty() + collapse_quotes(chars.subrange(start + 1int, j - 1)) =~= collapse_quotes(chars.subrange(start + 1int, j - 1)));
    }
}


/// Appends the digits of a mantissa (see `mantissa_text`).
fn push_mantissa(s: &mut String, ds: &Vec<u8>)
    ensures
        final(s)@ == old(s)@ + mantissa_text(ds@),
{
    if ds.len() <= 1 {
        push_digits_text(s, ds);
    } else {
        let mut first: Vec<u8> = Vec::new();
        first.push(ds[0]);
        assert(first@ =~= ds@.take(1));
        push_digits_text(s, &first);
        push_char(s, '.');
        let mut rest: Vec<u8> = Vec::new();
        let mut i: usize = 1;
        while i < ds.len()
            invariant
                1 <= i <= ds@.len(),
                rest@ == ds@.subrange(1, i as int),
            decreases ds@.len() - i,
        {
            rest.push(ds[i]);
            assert(ds@.subrange(1, i + 1) =~= ds@.subrange(1, i as int).push(ds@[i as int]));
            i = i + 1;
        }
        assert(rest@ =~= ds@.skip(1));
        let ghost mid = s@;
        push_digits_text(s, &rest);
        proof {
            reveal_strlit(".");
        }
        assert(s@ =~= old(s)@ + mantissa_text(ds@));
    }
}

/// Appends a REAL the way `Debug` writes a float (see `real_debug`).
fn push_real_debug(s: &mut String, d: &Decimal)
    ensures
        final(s)@ == old(s)@ + real_debug(d@),
{
    let ghost sign: Seq<char> = if d.negative { "-"@ } else { Seq::empty() };
    let mut z: usize = 0;
    assert(d.frac_digits@.skip(0) =~= d.frac_digits@);
    while z < d.frac_digits.len() && d.frac_digits[z] == 0
        invariant
            z <= d.frac_digits@.len(),
            leading_zero_count(d.frac_digits@) == z + leading_zero_count(d.frac_digits@.skip(z as int)),
        decreases d.frac_digits@.len() - z,
    {
        assert(d.frac_digits@.skip(z as int).drop_first() =~= d.frac_digits@.skip(z + 1));
        z = z + 1;
    }
    assert(z < d.frac_digits@.len() ==> d.frac_digits@.skip(z as int)[0] != 0);
    assert(leading_zero_count(d.frac_digits@) == z);
    proof {
        reveal_strlit("-");
    }
    if d.int_digits.len() >= 17 {
        if d.negative {
            push_char(s, '-');
        }
        let mut all: Vec<u8> = Vec::new();
        let mut i: usize = 0;
        while i < d.int_digits.len()
            invariant
                i <= d.int_digits@.len(),
                all@ == d.int_digits@.take(i as int),
            decreases d.int_digits@.len() - i,
        {
            all.push(d.int_digits[i]);
            assert(d.int_digits@.take(i + 1) =~= d.int_digits@.take(i as int).push(d.int_digits@[i as int]));
            i = i + 1;
        }
        let mut j: usize = 0;
        while j < d.frac_digits.len()
            invariant
                j <= d.frac_digits@.len(),
                all@ == d.int_digits@ + d.frac_digits@.take(j as int),
            decreases d.frac_digits@.len() - j,
        {
            all.push(d.frac_digits[j]);
            assert(d.frac_digits@.take(j + 1) =~= d.frac_digits@.take(j as int).push(d.frac_digits@[j as int]));
            j = j + 1;
        }
        assert(d.frac_digits@.take(d.frac_digits@.len() as int) =~= d.frac_digits@);
        let m = crate::types::strip_trailing_zeros_exec(&all);
        push_mantissa(s, &m);
        push_char(s, 'e');
        push_u64_text(s, (d.int_digits.len() - 1) as u64);
        proof {
            reveal_strlit("e");
        }
        assert(s@ =~= old(s)@ + real_debug(d@));
    } else if d.int_digits.len() == 0 && z < d.frac_digits.len() && z >= 4 {
        if d.negative {
            push_char(s, '-');
        }
        let mut m: Vec<u8> = Vec::new();
        let mut i: usize = z;
        while i < d.frac_digits.len()
            invariant
                z <= i <= d.frac_digits@.len(),
                m@ == d.frac_digits@.subrange(z as int, i as int),
            decreases d.frac_digits@.len() - i,
        {
            m.push(d.frac_digits[i]);
            assert(d.frac_digits@.subrange(z as int, i + 1) =~= d.frac_digits@.subrange(z as int, i as int).push(d.frac_digits@[i as int]));
            i = i + 1;
        }
        assert(m@ =~= d.frac_digits@.skip(z as int));
        push_mantissa(s, &m);
        push_char(s, 'e');
        push_char(s, '-');
        push_u64_text(s, (z + 1) as u64);
        proof {
            reveal_strlit("e-");
        }
        assert(s@ =~= old(s)@ + real_debug(d@));
    } else {
        d.push_text(s);
        if d.frac_digits.len() == 0 {
            s.append(".0");
        } else {
            assert(s@ =~= old(s)@ + real_debug(d@));
        }
    }
}


proof fn lemma_reveal_keywords()
    ensures
        "CREATE"@ == seq!['C', 'R', 'E', 'A', 'T', 'E'],
        "TABLE"@ == seq!['T', 'A', 'B', 'L', 'E'],
        "INSERT"@ == seq!['I', 'N', 'S', 'E', 'R', 'T'],
        "INTO"@ == seq!['I', 'N', 'T', 'O'],
        "VALUES"@ == seq!['V', 'A', 'L', 'U', 'E', 'S'],
        "SELECT"@ == seq!['S', 'E', 'L', 'E', 'C', 'T'],
        "FROM"@ == seq!['F', 'R', 'O', 'M'],
        "WHERE"@ == seq!['W', 'H', 'E', 'R', 'E'],
        "ORDER"@ == seq!['O', 'R', 'D', 'E', 'R'],
        "BY"@ == seq!['B', 'Y'],
        "ASC"@ == seq!['A', 'S', 'C'],
        "DESC"@ == seq!['D', 'E', 'S', 'C'],
        "LIMIT"@ == seq!['L', 'I', 'M', 'I', 'T'],
        "DELETE"@ == seq!['D', 'E', 'L', 'E', 'T', 'E'],
        "UPDATE"@ == seq!['U', 'P', 'D', 'A', 'T', 'E'],
        "SET"@ == seq!['S', 'E', 'T'],
        "AND"@ == seq!['A', 'N', 'D'],
        "OR"@ == seq!['O', 'R'],
        "INTEGER"@ == seq!['I', 'N', 'T', 'E', 'G', 'E', 'R'],
        "INT"@ == seq!['I', 'N', 'T'],
        "TEXT"@ == seq!['T', 'E', 'X', 'T'],
        "REAL"@ == seq!['R', 'E', 'A', 'L'],
        "FLOAT"@ == seq!['F', 'L', 'O', 'A', 'T'],
{
    reveal_strlit("CREATE");
    reveal_strlit("TABLE");
    reveal_strlit("INSERT");
    reveal_strlit("INTO");
    reveal_strlit("VALUES");
    reveal_strlit("SELECT");
    reveal_strlit("FROM");
    reveal_strlit("WHERE");
    reveal_strlit("ORDER");
    reveal_strlit("BY");
    reveal_strlit("ASC");
    reveal_strlit("DESC");
    reveal_strlit("LIMIT");
    reveal_strlit("DELETE");
    reveal_strlit("UPDATE");
    reveal_strlit("SET");
    reveal_strlit("AND");
    reveal_strlit("OR");
    reveal_strlit("INTEGER");
    reveal_strlit("INT");
    reveal_strlit("TEXT");
    reveal_strlit("REAL");
    reveal_strlit("FLOAT");
}

/// The type names, in any ASCII case: INTEGER and INT are the INTEGER type
/// keyword, REAL and FLOAT the REAL one, TEXT the TEXT one.
pub proof fn law_type_keywords(w: Seq<char>)
    ensures
        upper_text(w) == "INTEGER"@ || upper_text(w) == "INT"@ ==> keyword_or_ident_spec(w) == TokenView::Integer,
        upper_text(w) == "REAL"@ || upper_text(w) == "FLOAT"@ ==> keyword_or_ident_spec(w) == TokenView::Real,
        upper_text(w) == "TEXT"@ ==> keyword_or_ident_spec(w) == TokenView::Text,
{
    lemma_reveal_keywords();
    let u = upper_text(w);
    if u == "INTEGER"@ || u == "INT"@ || u == "REAL"@ || u == "FLOAT"@ || u == "TEXT"@ {
        assert(u[0] == 'I' || u[0] == 'R' || u[0] == 'F' || u[0] == 'T');
        if u.len() == 4 {
            assert(u[1] == 'E');
        }
    }
}

proof fn lemma_ident_end_all(chars: Seq<char>, i: nat)
    requires
        i <= chars.len(),
        forall|k: int| i <= k < chars.len() ==> ident_char(#[trigger] chars[k]),
    ensures
        ident_end(chars, i) == chars.len(),
    decreases chars.len() - i,
{
    if i < chars.len() {
        lemma_ident_end_all(chars, i + 1);
    }
}

/// A word of ASCII letters lexes to one token, the keyword or identifier
/// it spells, followed by `Eof`; so `FLOAT` lexes to the REAL type keyword
/// and `int` to the INTEGER one.
pub proof fn law_word_lexes_to_its_keyword(w: Seq<char>)
    requires
        w.len() > 0,
        forall|k: int| 0 <= k < w.len() ==> ascii_letter(#[trigger] w[k]),
    ensures
        lex_spec(w) == Ok::<Seq<TokenView>, LsErrorView>(seq![keyword_or_ident_spec(w), TokenView::Eof]),
{
    assert forall|k: int| 1 <= k < w.len() implies ident_char(#[trigger] w[k]) by {
        assert(ascii_letter(w[k]));
    }
    lemma_ident_end_all(w, 1);
    let c = w[0];
    assert(ascii_letter(c));
    assert(!is_whitespace_spec(c));
    assert(!is_digit_spec(c));
    assert(ident_start(c));
    assert(w.subrange(0, w.len() as int) =~= w);
    assert(scan_spec(w, 0) == ScanView::Emit(keyword_or_ident_spec(w), w.len()));
    let t = keyword_or_ident_spec(w);
    let one = Seq::<TokenView>::empty().push(t);
    assert(lex_from(w, w.len(), one) == Ok::<Seq<TokenView>, LsErrorView>(one.push(TokenView::Eof)));
    assert(lex_from(w, 0, Seq::empty()) == lex_from(w, w.len(), one));
    assert(one.push(TokenView::Eof) =~= seq![t, TokenView::Eof]);
}

} // verus!
