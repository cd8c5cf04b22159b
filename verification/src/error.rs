//! Typed errors. Nothing in this crate panics on bad SQL or bad input;
//! every failure path returns an `LsError` instead.

use vstd::prelude::*;
use vstd::string::StringExecFns;

verus! {

#[derive(Debug, Clone, PartialEq)]
pub enum LsError {
    /// The lexer or parser could not make sense of the input.
    Syntax(String),
    /// A statement referenced a table or column that does not exist.
    NotFound(String),
    /// A CREATE TABLE named a table that already exists.
    Duplicate(String),
    /// A value did not match its column's declared type, or arity was wrong.
    Type(String),
    /// The database file on disk could not be read or was not valid Ledgerstone data.
    Storage(String),
}

pub enum LsErrorView {
    Syntax(Seq<char>),
    NotFound(Seq<char>),
    Duplicate(Seq<char>),
    Type(Seq<char>),
    Storage(Seq<char>),
}

impl View for LsError {
    type V = LsErrorView;

    open spec fn view(&self) -> LsErrorView {
        match self {
            LsError::Syntax(m) => LsErrorView::Syntax(m@),
            LsError::NotFound(m) => LsErrorView::NotFound(m@),
            LsError::Duplicate(m) => LsErrorView::Duplicate(m@),
            LsError::Type(m) => LsErrorView::Type(m@),
            LsError::Storage(m) => LsErrorView::Storage(m@),
        }
    }
}

pub type LsResult<T> = Result<T, LsError>;

/// The view of a result whose error is an `LsError`.
pub open spec fn result_view<T: View>(r: LsResult<T>) -> Result<T::V, LsErrorView> {
    match r {
        Ok(v) => Ok(v@),
        Err(e) => Err(e@),
    }
}

/// The text that the error shows to a user: a prefix naming the kind of
/// error, then its message.
pub open spec fn error_text(e: LsErrorView) -> Seq<char> {
    match e {
        LsErrorView::Syntax(m) => "syntax error: "@ + m,
        LsErrorView::NotFound(m) => "not found: "@ + m,
        LsErrorView::Duplicate(m) => "already exists: "@ + m,
        LsErrorView::Type(m) => "type error: "@ + m,
        LsErrorView::Storage(m) => "storage error: "@ + m,
    }
}

impl LsError {
    /// The text shown to a user for this error.
    pub fn to_text(&self) -> (r: String)
        ensures
            r@ == error_text(self@),
    {
        let (prefix, m) = match self {
            LsError::Syntax(m) => ("syntax error: ", m),
            LsError::NotFound(m) => ("not found: ", m),
            LsError::Duplicate(m) => ("already exists: ", m),
            LsError::Type(m) => ("type error: ", m),
            LsError::Storage(m) => ("storage error: ", m),
        };
        let mut r = String::from_str(prefix);
        r.append(m.as_str());
        r
    }
}

} // verus!
