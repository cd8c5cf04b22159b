//! A recursive-descent parser turning tokens into a small statement AST.
//! The only place recursion can grow with input is parenthesized WHERE
//! expressions, and that is capped by `MAX_EXPR_DEPTH` so a hostile string
//! of open parens returns a syntax error instead of overflowing the stack.
//!
//! `parse_spec` states the grammar over the token views: one spec function
//! per grammar rule, each taking the position it starts at and giving the
//! parsed value with the position after it.

use vstd::prelude::*;
use vstd::string::StringExecFns;
pub use crate::ast::{ColumnDef, CompareOp, Expr, OrderBy, OrderDir, SelectColumns, Statement};
use crate::ast::{ColumnDefView, ExprView, OrderByView, SelectColumnsView, StatementView};
use crate::error::{LsError, LsErrorView, LsResult};
use crate::lexer::{Token, TokenView, is_plain, is_token, token_debug, token_debug_spec, tokens_view};
use crate::types::{ColumnType, Value, ValueView};

verus! {

pub const MAX_EXPR_DEPTH: usize = 64;

/// The token at position `p`, or `Eof` past the end.
pub open spec fn tok_at(toks: Seq<TokenView>, p: int) -> TokenView {
    if 0 <= p < toks.len() {
        toks[p]
    } else {
        TokenView::Eof
    }
}

/// The position after the token at `p` (the end stays the end).
pub open spec fn adv(toks: Seq<TokenView>, p: int) -> int {
    if p < toks.len() {
        p + 1
    } else {
        p
    }
}

/// A syntax error naming the token that was found.
pub open spec fn found_error(prefix: Seq<char>, t: TokenView) -> LsErrorView {
    LsErrorView::Syntax(prefix + token_debug_spec(t))
}

pub open spec fn nested_error() -> LsErrorView {
    LsErrorView::Syntax("WHERE expression nested too deeply"@)
}

/// The error of a rule that did not consume any input, which no rule
/// produces: each rule that succeeds consumes at least one token.
pub open spec fn stalled_error() -> LsErrorView {
    LsErrorView::Syntax(Seq::empty())
}

pub open spec fn expect_spec(toks: Seq<TokenView>, p: int, k: TokenView) -> Result<int, LsErrorView> {
    if tok_at(toks, p) == k {
        Ok(adv(toks, p))
    } else {
        Err(LsErrorView::Syntax("expected "@ + token_debug_spec(k) + ", found "@ + token_debug_spec(tok_at(toks, p))))
    }
}

pub open spec fn ident_spec(toks: Seq<TokenView>, p: int) -> Result<(Seq<char>, int), LsErrorView> {
    match tok_at(toks, p) {
        TokenView::Ident(s) => Ok((s, adv(toks, p))),
        other => Err(found_error("expected identifier, found "@, other)),
    }
}

pub open spec fn literal_spec(toks: Seq<TokenView>, p: int) -> Result<(ValueView, int), LsErrorView> {
    match tok_at(toks, p) {
        TokenView::IntLit(n) => Ok((ValueView::Integer(n), adv(toks, p))),
        TokenView::RealLit(d) => Ok((ValueView::Real(d), adv(toks, p))),
        TokenView::StrLit(s) => Ok((ValueView::Text(s), adv(toks, p))),
        other => Err(found_error("expected a literal value, found "@, other)),
    }
}

pub open spec fn column_type_spec(toks: Seq<TokenView>, p: int) -> Result<(ColumnType, int), LsErrorView> {
    match tok_at(toks, p) {
        TokenView::Integer => Ok((ColumnType::Integer, adv(toks, p))),
        TokenView::Text => Ok((ColumnType::Text, adv(toks, p))),
        TokenView::Real => Ok((ColumnType::Real, adv(toks, p))),
        other => Err(found_error("expected a column type (INTEGER, TEXT, REAL), found "@, other)),
    }
}

pub open spec fn compare_op_spec(toks: Seq<TokenView>, p: int) -> Result<(CompareOp, int), LsErrorView> {
    match tok_at(toks, p) {
        TokenView::Eq => Ok((CompareOp::Eq, adv(toks, p))),
        TokenView::NotEq => Ok((CompareOp::NotEq, adv(toks, p))),
        TokenView::Lt => Ok((CompareOp::Lt, adv(toks, p))),
        TokenView::Gt => Ok((CompareOp::Gt, adv(toks, p))),
        TokenView::Le => Ok((CompareOp::Le, adv(toks, p))),
        TokenView::Ge => Ok((CompareOp::Ge, adv(toks, p))),
        other => Err(found_error("expected a comparison operator, found "@, other)),
    }
}

/// comparison := ident compare_op literal
pub open spec fn comparison_spec(toks: Seq<TokenView>, p: int) -> Result<(ExprView, int), LsErrorView> {
    match ident_spec(toks, p) {
        Err(e) => Err(e),
        Ok((column, p1)) => match compare_op_spec(toks, p1) {
            Err(e) => Err(e),
            Ok((op, p2)) => match literal_spec(toks, p2) {
                Err(e) => Err(e),
                Ok((value, p3)) => Ok((ExprView::Compare { column, op, value }, p3)),
            },
        },
    }
}

/// expr := and_expr ("OR" and_expr)*, entered at nesting depth `d`.
pub open spec fn expr_spec(toks: Seq<TokenView>, p: int, d: int) -> Result<(ExprView, int), LsErrorView>
    decreases toks.len() - p, 64 - d,
{
    if d + 1 > 64 {
        Err(nested_error())
    } else {
        match and_spec(toks, p, d + 1) {
            Err(e) => Err(e),
            Ok((left, p2)) => if p <= p2 <= toks.len() {
                or_rest_spec(toks, p2, d + 1, left)
            } else {
                Err(stalled_error())
            },
        }
    }
}

/// The `("OR" and_expr)*` part of an expression, `left` holding what has
/// been parsed before it.
pub open spec fn or_rest_spec(toks: Seq<TokenView>, p: int, d: int, left: ExprView) -> Result<(ExprView, int), LsErrorView>
    decreases toks.len() - p, 64 - d,
{
    if tok_at(toks, p) == TokenView::Or {
        match and_spec(toks, adv(toks, p), d) {
            Err(e) => Err(e),
            Ok((right, p2)) => if adv(toks, p) <= p2 <= toks.len() {
                or_rest_spec(toks, p2, d, ExprView::Or(Box::new(left), Box::new(right)))
            } else {
                Err(stalled_error())
            },
        }
    } else {
        Ok((left, p))
    }
}

/// and_expr := primary ("AND" primary)*, entered at nesting depth `d`.
pub open spec fn and_spec(toks: Seq<TokenView>, p: int, d: int) -> Result<(ExprView, int), LsErrorView>
    decreases toks.len() - p, 64 - d,
{
    if d + 1 > 64 {
        Err(nested_error())
    } else {
        match primary_spec(toks, p, d + 1) {
            Err(e) => Err(e),
            Ok((left, p2)) => if p <= p2 <= toks.len() {
                and_rest_spec(toks, p2, d + 1, left)
            } else {
                Err(stalled_error())
            },
        }
    }
}

/// The `("AND" primary)*` part of an and_expr.
pub open spec fn and_rest_spec(toks: Seq<TokenView>, p: int, d: int, left: ExprView) -> Result<(ExprView, int), LsErrorView>
    decreases toks.len() - p, 64 - d,
{
    if tok_at(toks, p) == TokenView::And {
        match primary_spec(toks, adv(toks, p), d) {
            Err(e) => Err(e),
            Ok((right, p2)) => if adv(toks, p) <= p2 <= toks.len() {
                and_rest_spec(toks, p2, d, ExprView::And(Box::new(left), Box::new(right)))
            } else {
                Err(stalled_error())
            },
        }
    } else {
        Ok((left, p))
    }
}

/// primary := "(" expr ")" | comparison
pub open spec fn primary_spec(toks: Seq<TokenView>, p: int, d: int) -> Result<(ExprView, int), LsErrorView>
    decreases toks.len() - p, 64 - d,
{
    if tok_at(toks, p) == TokenView::LParen {
        match expr_spec(toks, adv(toks, p), d) {
            Err(e) => Err(e),
            Ok((inner, p2)) => match expect_spec(toks, p2, TokenView::RParen) {
                Err(e) => Err(e),
                Ok(p3) => Ok((inner, p3)),
            },
        }
    } else {
        comparison_spec(toks, p)
    }
}

/// The rest of a column list of CREATE TABLE: `name TYPE` items separated
/// by commas, up to a `)`.
pub open spec fn column_defs_spec(toks: Seq<TokenView>, p: int, acc: Seq<ColumnDefView>) -> Result<(Seq<ColumnDefView>, int), LsErrorView>
    decreases toks.len() - p,
{
    match ident_spec(toks, p) {
        Err(e) => Err(e),
        Ok((name, p1)) => match column_type_spec(toks, p1) {
            Err(e) => Err(e),
            Ok((ty, p2)) => {
                let acc2 = acc.push(ColumnDefView { name, ty });
                match tok_at(toks, p2) {
                    TokenView::Comma => if p < adv(toks, p2) <= toks.len() {
                        column_defs_spec(toks, adv(toks, p2), acc2)
                    } else {
                        Err(stalled_error())
                    },
                    TokenView::RParen => Ok((acc2, p2)),
                    other => Err(found_error("expected ',' or ')' in column list, found "@, other)),
                }
            },
        },
    }
}

/// create_table := "CREATE" "TABLE" ident "(" column_def ("," column_def)* ")"
pub open spec fn create_table_spec(toks: Seq<TokenView>, p: int) -> Result<(StatementView, int), LsErrorView> {
    match expect_spec(toks, p, TokenView::Create) {
        Err(e) => Err(e),
        Ok(p1) => match expect_spec(toks, p1, TokenView::Table) {
            Err(e) => Err(e),
            Ok(p2) => match ident_spec(toks, p2) {
                Err(e) => Err(e),
                Ok((table, p3)) => match expect_spec(toks, p3, TokenView::LParen) {
                    Err(e) => Err(e),
                    Ok(p4) => match column_defs_spec(toks, p4, Seq::empty()) {
                        Err(e) => Err(e),
                        Ok((columns, p5)) => match expect_spec(toks, p5, TokenView::RParen) {
                            Err(e) => Err(e),
                            Ok(p6) => if columns.len() == 0 {
                                Err(LsErrorView::Syntax("CREATE TABLE needs at least one column"@))
                            } else {
                                Ok((StatementView::CreateTable { table, columns }, p6))
                            },
                        },
                    },
                },
            },
        },
    }
}

/// The rest of the column list of an INSERT, up to a `)`.
pub open spec fn name_list_spec(toks: Seq<TokenView>, p: int, acc: Seq<Seq<char>>) -> Result<(Seq<Seq<char>>, int), LsErrorView>
    decreases toks.len() - p,
{
    match ident_spec(toks, p) {
        Err(e) => Err(e),
        Ok((name, p1)) => {
            let acc2 = acc.push(name);
            match tok_at(toks, p1) {
                TokenView::Comma => if p < adv(toks, p1) <= toks.len() {
                    name_list_spec(toks, adv(toks, p1), acc2)
                } else {
                    Err(stalled_error())
                },
                TokenView::RParen => Ok((acc2, p1)),
                other => Err(found_error("expected ',' or ')' in column list, found "@, other)),
            }
        },
    }
}

/// The rest of the VALUES list of an INSERT, up to a `)`.
pub open spec fn value_list_spec(toks: Seq<TokenView>, p: int, acc: Seq<ValueView>) -> Result<(Seq<ValueView>, int), LsErrorView>
    decreases toks.len() - p,
{
    match literal_spec(toks, p) {
        Err(e) => Err(e),
        Ok((v, p1)) => {
            let acc2 = acc.push(v);
            match tok_at(toks, p1) {
                TokenView::Comma => if p < adv(toks, p1) <= toks.len() {
                    value_list_spec(toks, adv(toks, p1), acc2)
                } else {
                    Err(stalled_error())
                },
                TokenView::RParen => Ok((acc2, p1)),
                other => Err(found_error("expected ',' or ')' in VALUES list, found "@, other)),
            }
        },
    }
}

/// insert := "INSERT" "INTO" ident ["(" ident ("," ident)* ")"]
///           "VALUES" "(" literal ("," literal)* ")"
pub open spec fn insert_spec(toks: Seq<TokenView>, p: int) -> Result<(StatementView, int), LsErrorView> {
    match expect_spec(toks, p, TokenView::Insert) {
        Err(e) => Err(e),
        Ok(p1) => match expect_spec(toks, p1, TokenView::Into) {
            Err(e) => Err(e),
            Ok(p2) => match ident_spec(toks, p2) {
                Err(e) => Err(e),
                Ok((table, p3)) => {
                    let cols: Result<(Option<Seq<Seq<char>>>, int), LsErrorView> = if tok_at(toks, p3) == TokenView::LParen {
                        match name_list_spec(toks, adv(toks, p3), Seq::empty()) {
                            Err(e) => Err(e),
                            Ok((names, q)) => match expect_spec(toks, q, TokenView::RParen) {
                                Err(e) => Err(e),
                                Ok(q2) => Ok((Some(names), q2)),
                            },
                        }
                    } else {
                        Ok((None, p3))
                    };
                    match cols {
                        Err(e) => Err(e),
                        Ok((columns, p4)) => match expect_spec(toks, p4, TokenView::Values) {
                            Err(e) => Err(e),
                            Ok(p5) => match expect_spec(toks, p5, TokenView::LParen) {
                                Err(e) => Err(e),
                                Ok(p6) => match value_list_spec(toks, p6, Seq::empty()) {
                                    Err(e) => Err(e),
                                    Ok((values, p7)) => match expect_spec(toks, p7, TokenView::RParen) {
                                        Err(e) => Err(e),
                                        Ok(p8) => Ok((StatementView::Insert { table, columns, values }, p8)),
                                    },
                                },
                            },
                        },
                    }
                },
            },
        },
    }
}

/// The `("," ident)*` part of a SELECT column list.
pub open spec fn select_names_rest_spec(toks: Seq<TokenView>, p: int, acc: Seq<Seq<char>>) -> Result<(Seq<Seq<char>>, int), LsErrorView>
    decreases toks.len() - p,
{
    if tok_at(toks, p) == TokenView::Comma {
        match ident_spec(toks, adv(toks, p)) {
            Err(e) => Err(e),
            Ok((name, p2)) => if p < p2 <= toks.len() {
                select_names_rest_spec(toks, p2, acc.push(name))
            } else {
                Err(stalled_error())
            },
        }
    } else {
        Ok((acc, p))
    }
}

/// The optional `"WHERE" expr` of a statement.
pub open spec fn where_spec(toks: Seq<TokenView>, p: int) -> Result<(Option<ExprView>, int), LsErrorView> {
    if tok_at(toks, p) == TokenView::Where {
        match expr_spec(toks, adv(toks, p), 0) {
            Err(e) => Err(e),
            Ok((e, p2)) => Ok((Some(e), p2)),
        }
    } else {
        Ok((None, p))
    }
}

/// The optional `"ORDER" "BY" ident ["ASC" | "DESC"]` of a SELECT.
pub open spec fn order_by_spec(toks: Seq<TokenView>, p: int) -> Result<(Option<OrderByView>, int), LsErrorView> {
    if tok_at(toks, p) == TokenView::Order {
        match expect_spec(toks, adv(toks, p), TokenView::By) {
            Err(e) => Err(e),
            Ok(p2) => match ident_spec(toks, p2) {
                Err(e) => Err(e),
                Ok((column, p3)) => match tok_at(toks, p3) {
                    TokenView::Asc => Ok((Some(OrderByView { column, dir: OrderDir::Asc }), adv(toks, p3))),
                    TokenView::Desc => Ok((Some(OrderByView { column, dir: OrderDir::Desc }), adv(toks, p3))),
                    _ => Ok((Some(OrderByView { column, dir: OrderDir::Asc }), p3)),
                },
            },
        }
    } else {
        Ok((None, p))
    }
}

/// The optional `"LIMIT" int_literal` of a SELECT; the literal must not be
/// negative.
pub open spec fn limit_spec(toks: Seq<TokenView>, p: int) -> Result<(Option<u64>, int), LsErrorView> {
    if tok_at(toks, p) == TokenView::Limit {
        let p1 = adv(toks, p);
        match tok_at(toks, p1) {
            TokenView::IntLit(n) => if n >= 0 {
                Ok((Some(n as u64), adv(toks, p1)))
            } else {
                Err(found_error("expected a non-negative integer after LIMIT, found "@, TokenView::IntLit(n)))
            },
            other => Err(found_error("expected a non-negative integer after LIMIT, found "@, other)),
        }
    } else {
        Ok((None, p))
    }
}

/// select := "SELECT" ("*" | ident ("," ident)*) "FROM" ident
///           ["WHERE" expr] ["ORDER" "BY" ident ["ASC" | "DESC"]] ["LIMIT" int_literal]
pub open spec fn select_spec(toks: Seq<TokenView>, p: int) -> Result<(StatementView, int), LsErrorView> {
    match expect_spec(toks, p, TokenView::Select) {
        Err(e) => Err(e),
        Ok(p1) => {
            let cols: Result<(SelectColumnsView, int), LsErrorView> = if tok_at(toks, p1) == TokenView::Star {
                Ok((SelectColumnsView::All, adv(toks, p1)))
            } else {
                match ident_spec(toks, p1) {
                    Err(e) => Err(e),
                    Ok((first, q)) => match select_names_rest_spec(toks, q, seq![first]) {
                        Err(e) => Err(e),
                        Ok((names, q2)) => Ok((SelectColumnsView::Named(names), q2)),
                    },
                }
            };
            match cols {
                Err(e) => Err(e),
                Ok((columns, p2)) => match expect_spec(toks, p2, TokenView::From) {
                    Err(e) => Err(e),
                    Ok(p3) => match ident_spec(toks, p3) {
                        Err(e) => Err(e),
                        Ok((table, p4)) => match where_spec(toks, p4) {
                            Err(e) => Err(e),
                            Ok((where_clause, p5)) => match order_by_spec(toks, p5) {
                                Err(e) => Err(e),
                                Ok((order_by, p6)) => match limit_spec(toks, p6) {
                                    Err(e) => Err(e),
                                    Ok((limit, p7)) => Ok((
                                        StatementView::Select { table, columns, where_clause, order_by, limit },
                                        p7,
                                    )),
                                },
                            },
                        },
                    },
                },
            }
        },
    }
}

/// delete := "DELETE" "FROM" ident ["WHERE" expr]
pub open spec fn delete_spec(toks: Seq<TokenView>, p: int) -> Result<(StatementView, int), LsErrorView> {
    match expect_spec(toks, p, TokenView::Delete) {
        Err(e) => Err(e),
        Ok(p1) => match expect_spec(toks, p1, TokenView::From) {
            Err(e) => Err(e),
            Ok(p2) => match ident_spec(toks, p2) {
                Err(e) => Err(e),
                Ok((table, p3)) => match where_spec(toks, p3) {
                    Err(e) => Err(e),
                    Ok((where_clause, p4)) => Ok((StatementView::Delete { table, where_clause }, p4)),
                },
            },
        },
    }
}

/// The assignments of an UPDATE: `ident "=" literal` items separated by
/// commas.
pub open spec fn assignments_spec(toks: Seq<TokenView>, p: int, acc: Seq<(Seq<char>, ValueView)>) -> Result<(Seq<(Seq<char>, ValueView)>, int), LsErrorView>
    decreases toks.len() - p,
{
    match ident_spec(toks, p) {
        Err(e) => Err(e),
        Ok((col, p1)) => match expect_spec(toks, p1, TokenView::Eq) {
            Err(e) => Err(e),
            Ok(p2) => match literal_spec(toks, p2) {
                Err(e) => Err(e),
                Ok((val, p3)) => {
                    let acc2 = acc.push((col, val));
                    if tok_at(toks, p3) == TokenView::Comma {
                        if p < adv(toks, p3) <= toks.len() {
                            assignments_spec(toks, adv(toks, p3), acc2)
                        } else {
                            Err(stalled_error())
                        }
                    } else {
                        Ok((acc2, p3))
                    }
                },
            },
        },
    }
}

/// update := "UPDATE" ident "SET" ident "=" literal ("," ident "=" literal)* ["WHERE" expr]
pub open spec fn update_spec(toks: Seq<TokenView>, p: int) -> Result<(StatementView, int), LsErrorView> {
    match expect_spec(toks, p, TokenView::Update) {
        Err(e) => Err(e),
        Ok(p1) => match ident_spec(toks, p1) {
            Err(e) => Err(e),
            Ok((table, p2)) => match expect_spec(toks, p2, TokenView::SetKw) {
                Err(e) => Err(e),
                Ok(p3) => match assignments_spec(toks, p3, Seq::empty()) {
                    Err(e) => Err(e),
                    Ok((assignments, p4)) => match where_spec(toks, p4) {
                        Err(e) => Err(e),
                        Ok((where_clause, p5)) => Ok((StatementView::Update { table, assignments, where_clause }, p5)),
                    },
                },
            },
        },
    }
}

/// statement := create_table | insert | select | delete | update
pub open spec fn statement_spec(toks: Seq<TokenView>, p: int) -> Result<(StatementView, int), LsErrorView> {
    match tok_at(toks, p) {
        TokenView::Create => create_table_spec(toks, p),
        TokenView::Insert => insert_spec(toks, p),
        TokenView::Select => select_spec(toks, p),
        TokenView::Delete => delete_spec(toks, p),
        TokenView::Update => update_spec(toks, p),
        other => Err(found_error("expected a statement (CREATE, INSERT, SELECT, DELETE, UPDATE), found "@, other)),
    }
}

/// The end of the input, after at most one semicolon.
pub open spec fn expect_end_spec(toks: Seq<TokenView>, p: int) -> Result<int, LsErrorView> {
    let p1 = if tok_at(toks, p) == TokenView::Semicolon { adv(toks, p) } else { p };
    if tok_at(toks, p1) == TokenView::Eof {
        Ok(p1)
    } else {
        Err(found_error("unexpected trailing input near "@, tok_at(toks, p1)))
    }
}

/// The statement that the tokens spell: one statement, then an optional
/// semicolon, then the end.
pub open spec fn parse_spec(toks: Seq<TokenView>) -> Result<StatementView, LsErrorView> {
    match statement_spec(toks, 0) {
        Err(e) => Err(e),
        Ok((s, p)) => match expect_end_spec(toks, p) {
            Err(e) => Err(e),
            Ok(_) => Ok(s),
        },
    }
}


/// A syntax error naming the token that was found.
fn found(prefix: &str, t: &Token) -> (e: LsError)
    ensures
        e@ == found_error(prefix@, t@),
{
    let mut m = String::from_str(prefix);
    let d = token_debug(t);
    m.append(d.as_str());
    LsError::Syntax(m)
}

pub struct Parser {
    tokens: Vec<Token>,
    pos: usize,
    depth: usize,
    eof: Token,
}

impl Parser {
    spec fn toks(&self) -> Seq<TokenView> {
        tokens_view(self.tokens@)
    }

    spec fn inv(&self) -> bool {
        &&& self.pos <= self.tokens@.len()
        &&& self.eof@ == TokenView::Eof
    }

    fn peek(&self) -> (r: &Token)
        requires
            self.inv(),
        ensures
            r@ == tok_at(self.toks(), self.pos as int),
    {
        if self.pos < self.tokens.len() {
            &self.tokens[self.pos]
        } else {
            &self.eof
        }
    }

    fn advance(&mut self) -> (r: Token)
        requires
            old(self).inv(),
        ensures
            final(self).inv(),
            final(self).tokens@ == old(self).tokens@,
            final(self).depth == old(self).depth,
            r@ == tok_at(old(self).toks(), old(self).pos as int),
            final(self).pos as int == adv(old(self).toks(), old(self).pos as int),
    {
        let t = self.peek().duplicate();
        if self.pos < self.tokens.len() {
            self.pos = self.pos + 1;
        }
        t
    }

    fn expect(&mut self, tok: &Token) -> (r: LsResult<()>)
        requires
            old(self).inv(),
            is_plain(tok@),
        ensures
            final(self).inv(),
            final(self).tokens@ == old(self).tokens@,
            final(self).depth == old(self).depth,
            old(self).pos <= final(self).pos,
            match r {
                Ok(_) => expect_spec(old(self).toks(), old(self).pos as int, tok@) == Ok::<int, LsErrorView>(final(self).pos as int),
                Err(e) => expect_spec(old(self).toks(), old(self).pos as int, tok@) == Err::<int, LsErrorView>(e@),
            },
    {
        if is_token(self.peek(), tok) {
            self.advance();
            Ok(())
        } else {
            let mut m = String::from_str("expected ");
            let a = token_debug(tok);
            m.append(a.as_str());
            m.append(", found ");
            let b = token_debug(self.peek());
            m.append(b.as_str());
            Err(LsError::Syntax(m))
        }
    }

    fn expect_end(&mut self) -> (r: LsResult<()>)
        requires
            old(self).inv(),
        ensures
            final(self).inv(),
            match r {
                Ok(_) => expect_end_spec(old(self).toks(), old(self).pos as int) is Ok,
                Err(e) => expect_end_spec(old(self).toks(), old(self).pos as int) == Err::<int, LsErrorView>(e@),
            },
    {
        // Allow a single trailing semicolon before end of input.
        if is_token(self.peek(), &Token::Semicolon) {
            self.advance();
        }
        if is_token(self.peek(), &Token::Eof) {
            Ok(())
        } else {
            Err(found("unexpected trailing input near ", self.peek()))
        }
    }

    fn ident(&mut self) -> (r: LsResult<String>)
        requires
            old(self).inv(),
    ensures
        final(self).inv(),
        final(self).tokens@ == old(self).tokens@,
        old(self).pos <= final(self).pos,
        final(self).depth == old(self).depth,
        match r {
            Ok(x) => ident_spec(old(self).toks(), old(self).pos as int) == Ok::<(Seq<char>, int), LsErrorView>((x@, final(self).pos as int)),
            Err(e) => ident_spec(old(self).toks(), old(self).pos as int) == Err::<(Seq<char>, int), LsErrorView>(e@),
        },
    {
        match self.advance() {
            Token::Ident(s) => Ok(s),
            other => Err(found("expected identifier, found ", &other)),
        }
    }

    fn parse_literal(&mut self) -> (r: LsResult<Value>)
        requires
            old(self).inv(),
    ensures
        final(self).inv(),
        final(self).tokens@ == old(self).tokens@,
        old(self).pos <= final(self).pos,
        final(self).depth == old(self).depth,
        match r {
            Ok(x) => literal_spec(old(self).toks(), old(self).pos as int) == Ok::<(ValueView, int), LsErrorView>((x@, final(self).pos as int)),
            Err(e) => literal_spec(old(self).toks(), old(self).pos as int) == Err::<(ValueView, int), LsErrorView>(e@),
        },
    {
        match self.advance() {
            Token::IntLit(n) => Ok(Value::Integer(n)),
            Token::RealLit(n) => Ok(Value::Real(n)),
            Token::StrLit(s) => Ok(Value::Text(s)),
            other => Err(found("expected a literal value, found ", &other)),
        }
    }

    fn enter(&mut self) -> (r: LsResult<()>)
        requires
            old(self).depth <= 64,
        ensures
            final(self).tokens@ == old(self).tokens@,
            final(self).pos == old(self).pos,
            final(self).eof == old(self).eof,
            final(self).depth == old(self).depth + 1,
            r is Ok <==> old(self).depth + 1 <= 64,
            r matches Err(e) ==> e@ == nested_error(),
    {
        self.depth = self.depth + 1;
        if self.depth > MAX_EXPR_DEPTH {
            return Err(LsError::Syntax(String::from_str("WHERE expression nested too deeply")));
        }
        Ok(())
    }

    fn leave(&mut self)
        requires
            old(self).depth > 0,
        ensures
            final(self).tokens@ == old(self).tokens@,
            final(self).pos == old(self).pos,
            final(self).eof == old(self).eof,
            final(self).depth == old(self).depth - 1,
    {
        self.depth = self.depth - 1;
    }

    // or_expr := and_expr (OR and_expr)*
    #[verifier::loop_isolation(false)]
    fn parse_expr(&mut self) -> (r: LsResult<Expr>)
        requires
            old(self).inv(),
            old(self).depth <= 64,
    ensures
        final(self).inv(),
        final(self).tokens@ == old(self).tokens@,
        old(self).pos <= final(self).pos,
        match r {
            Ok(x) => expr_spec(old(self).toks(), old(self).pos as int, old(self).depth as int) == Ok::<(ExprView, int), LsErrorView>((x@, final(self).pos as int)) && final(self).depth == old(self).depth,
            Err(e) => expr_spec(old(self).toks(), old(self).pos as int, old(self).depth as int) == Err::<(ExprView, int), LsErrorView>(e@),
        },
        decreases old(self).tokens@.len() - old(self).pos, 64 - old(self).depth,
    {
        let ghost toks = self.toks();
        let ghost p0 = self.pos as int;
        let ghost d0 = self.depth as int;
        self.enter()?;
        let mut left = self.parse_and()?;
        while is_token(self.peek(), &Token::Or)
            invariant
                self.inv(),
                self.tokens@ == old(self).tokens@,
                self.depth == d0 + 1,
                p0 <= self.pos,
                expr_spec(toks, p0, d0) == or_rest_spec(toks, self.pos as int, d0 + 1, left@),
            decreases self.tokens@.len() - self.pos,
        {
            self.advance();
            let right = self.parse_and()?;
            left = Expr::Or(Box::new(left), Box::new(right));
        }
        self.leave();
        Ok(left)
    }

    // and_expr := primary (AND primary)*
    #[verifier::loop_isolation(false)]
    fn parse_and(&mut self) -> (r: LsResult<Expr>)
        requires
            old(self).inv(),
            old(self).depth <= 64,
    ensures
        final(self).inv(),
        final(self).tokens@ == old(self).tokens@,
        old(self).pos <= final(self).pos,
        match r {
            Ok(x) => and_spec(old(self).toks(), old(self).pos as int, old(self).depth as int) == Ok::<(ExprView, int), LsErrorView>((x@, final(self).pos as int)) && final(self).depth == old(self).depth,
            Err(e) => and_spec(old(self).toks(), old(self).pos as int, old(self).depth as int) == Err::<(ExprView, int), LsErrorView>(e@),
        },
        decreases old(self).tokens@.len() - old(self).pos, 64 - old(self).depth,
    {
        let ghost toks = self.toks();
        let ghost p0 = self.pos as int;
        let ghost d0 = self.depth as int;
        self.enter()?;
        let mut left = self.parse_primary()?;
        while is_token(self.peek(), &Token::And)
            invariant
                self.inv(),
                self.tokens@ == old(self).tokens@,
                self.depth == d0 + 1,
                p0 <= self.pos,
                and_spec(toks, p0, d0) == and_rest_spec(toks, self.pos as int, d0 + 1, left@),
            decreases self.tokens@.len() - self.pos,
        {
            self.advance();
            let right = self.parse_primary()?;
            left = Expr::And(Box::new(left), Box::new(right));
        }
        self.leave();
        Ok(left)
    }

    fn parse_primary(&mut self) -> (r: LsResult<Expr>)
        requires
            old(self).inv(),
            old(self).depth <= 64,
    ensures
        final(self).inv(),
        final(self).tokens@ == old(self).tokens@,
        old(self).pos <= final(self).pos,
        match r {
            Ok(x) => primary_spec(old(self).toks(), old(self).pos as int, old(self).depth as int) == Ok::<(ExprView, int), LsErrorView>((x@, final(self).pos as int)) && final(self).depth == old(self).depth,
            Err(e) => primary_spec(old(self).toks(), old(self).pos as int, old(self).depth as int) == Err::<(ExprView, int), LsErrorView>(e@),
        },
        decreases old(self).tokens@.len() - old(self).pos, 64 - old(self).depth,
    {
        if is_token(self.peek(), &Token::LParen) {
            self.advance();
            let inner = self.parse_expr()?;
            self.expect(&Token::RParen)?;
            return Ok(inner);
        }
        self.parse_comparison()
    }

    fn parse_comparison(&mut self) -> (r: LsResult<Expr>)
        requires
            old(self).inv(),
    ensures
        final(self).inv(),
        final(self).tokens@ == old(self).tokens@,
        old(self).pos <= final(self).pos,
        final(self).depth == old(self).depth,
        match r {
            Ok(x) => comparison_spec(old(self).toks(), old(self).pos as int) == Ok::<(ExprView, int), LsErrorView>((x@, final(self).pos as int)),
            Err(e) => comparison_spec(old(self).toks(), old(self).pos as int) == Err::<(ExprView, int), LsErrorView>(e@),
        },
    {
        let column = self.ident()?;
        let op = match self.advance() {
            Token::Eq => CompareOp::Eq,
            Token::NotEq => CompareOp::NotEq,
            Token::Lt => CompareOp::Lt,
            Token::Gt => CompareOp::Gt,
            Token::Le => CompareOp::Le,
            Token::Ge => CompareOp::Ge,
            other => {
                return Err(found("expected a comparison operator, found ", &other));
            },
        };
        let value = self.parse_literal()?;
        Ok(Expr::Compare { column, op, value })
    }
}


impl Parser {
    #[verifier::loop_isolation(false)]
    fn parse_create_table(&mut self) -> (r: LsResult<Statement>)
        requires
            old(self).inv(),
            old(self).depth == 0,
    ensures
        final(self).inv(),
        final(self).tokens@ == old(self).tokens@,
        old(self).pos <= final(self).pos,
        match r {
            Ok(x) => create_table_spec(old(self).toks(), old(self).pos as int) == Ok::<(StatementView, int), LsErrorView>((x@, final(self).pos as int)) && final(self).depth == 0,
            Err(e) => create_table_spec(old(self).toks(), old(self).pos as int) == Err::<(StatementView, int), LsErrorView>(e@),
        },
    {
        let ghost toks = self.toks();
        self.expect(&Token::Create)?;
        self.expect(&Token::Table)?;
        let table = self.ident()?;
        self.expect(&Token::LParen)?;
        let ghost p4 = self.pos as int;
        let mut columns: Vec<ColumnDef> = Vec::new();
        assert(crate::ast::column_defs_view(columns@) =~= Seq::<ColumnDefView>::empty());
        let mut done = false;
        while !done
            invariant
                self.inv(),
                self.tokens@ == old(self).tokens@,
                self.depth == 0,
                old(self).pos <= self.pos,
                !done ==> column_defs_spec(toks, p4, Seq::empty()) == column_defs_spec(toks, self.pos as int, crate::ast::column_defs_view(columns@)),
                done ==> column_defs_spec(toks, p4, Seq::empty()) == Ok::<(Seq<ColumnDefView>, int), LsErrorView>((crate::ast::column_defs_view(columns@), self.pos as int)),
            decreases self.tokens@.len() - self.pos + (if done { 0int } else { 1int }),
        {
            let ghost q = self.pos as int;
            let name = self.ident()?;
            let ty = match self.advance() {
                Token::Integer => ColumnType::Integer,
                Token::Text => ColumnType::Text,
                Token::Real => ColumnType::Real,
                other => {
                    return Err(found("expected a column type (INTEGER, TEXT, REAL), found ", &other));
                },
            };
            let ghost before = columns@;
            columns.push(ColumnDef { name, ty });
            assert(crate::ast::column_defs_view(columns@) =~= crate::ast::column_defs_view(before).push(columns@.last()@));
            if is_token(self.peek(), &Token::Comma) {
                self.advance();
            } else if is_token(self.peek(), &Token::RParen) {
                done = true;
            } else {
                return Err(found("expected ',' or ')' in column list, found ", self.peek()));
            }
        }
        self.expect(&Token::RParen)?;
        if columns.len() == 0 {
            return Err(LsError::Syntax(String::from_str("CREATE TABLE needs at least one column")));
        }
        Ok(Statement::CreateTable { table, columns })
    }

    #[verifier::loop_isolation(false)]
    fn parse_insert(&mut self) -> (r: LsResult<Statement>)
        requires
            old(self).inv(),
            old(self).depth == 0,
    ensures
        final(self).inv(),
        final(self).tokens@ == old(self).tokens@,
        old(self).pos <= final(self).pos,
        match r {
            Ok(x) => insert_spec(old(self).toks(), old(self).pos as int) == Ok::<(StatementView, int), LsErrorView>((x@, final(self).pos as int)) && final(self).depth == 0,
            Err(e) => insert_spec(old(self).toks(), old(self).pos as int) == Err::<(StatementView, int), LsErrorView>(e@),
        },
    {
        let ghost toks = self.toks();
        self.expect(&Token::Insert)?;
        self.expect(&Token::Into)?;
        let table = self.ident()?;
        let ghost p3 = self.pos as int;
        let columns = if is_token(self.peek(), &Token::LParen) {
            self.advance();
            let ghost q0 = self.pos as int;
            let mut cols: Vec<String> = Vec::new();
            assert(crate::ast::strings_view(cols@) =~= Seq::<Seq<char>>::empty());
            let mut done = false;
            while !done
                invariant
                    self.inv(),
                    self.tokens@ == old(self).tokens@,
                    self.depth == 0,
                    old(self).pos <= self.pos,
                    !done ==> name_list_spec(toks, q0, Seq::empty()) == name_list_spec(toks, self.pos as int, crate::ast::strings_view(cols@)),
                    done ==> name_list_spec(toks, q0, Seq::empty()) == Ok::<(Seq<Seq<char>>, int), LsErrorView>((crate::ast::strings_view(cols@), self.pos as int)),
                decreases self.tokens@.len() - self.pos + (if done { 0int } else { 1int }),
            {
                let n = self.ident()?;
                let ghost before = cols@;
                cols.push(n);
                assert(crate::ast::strings_view(cols@) =~= crate::ast::strings_view(before).push(cols@.last()@));
                if is_token(self.peek(), &Token::Comma) {
                    self.advance();
                } else if is_token(self.peek(), &Token::RParen) {
                    done = true;
                } else {
                    return Err(found("expected ',' or ')' in column list, found ", self.peek()));
                }
            }
            self.expect(&Token::RParen)?;
            Some(cols)
        } else {
            None
        };
        self.expect(&Token::Values)?;
        self.expect(&Token::LParen)?;
        let ghost p6 = self.pos as int;
        let mut values: Vec<Value> = Vec::new();
        assert(crate::types::values_view(values@) =~= Seq::<ValueView>::empty());
        let mut done = false;
        while !done
            invariant
                self.inv(),
                self.tokens@ == old(self).tokens@,
                self.depth == 0,
                old(self).pos <= self.pos,
                !done ==> value_list_spec(toks, p6, Seq::empty()) == value_list_spec(toks, self.pos as int, crate::types::values_view(values@)),
                done ==> value_list_spec(toks, p6, Seq::empty()) == Ok::<(Seq<ValueView>, int), LsErrorView>((crate::types::values_view(values@), self.pos as int)),
            decreases self.tokens@.len() - self.pos + (if done { 0int } else { 1int }),
        {
            let v = self.parse_literal()?;
            let ghost before = values@;
            values.push(v);
            assert(crate::types::values_view(values@) =~= crate::types::values_view(before).push(values@.last()@));
            if is_token(self.peek(), &Token::Comma) {
                self.advance();
            } else if is_token(self.peek(), &Token::RParen) {
                done = true;
            } else {
                return Err(found("expected ',' or ')' in VALUES list, found ", self.peek()));
            }
        }
        self.expect(&Token::RParen)?;
        Ok(Statement::Insert { table, columns, values })
    }

    fn parse_where(&mut self) -> (r: LsResult<Option<Expr>>)
        requires
            old(self).inv(),
            old(self).depth == 0,
    ensures
        final(self).inv(),
        final(self).tokens@ == old(self).tokens@,
        old(self).pos <= final(self).pos,
        match r {
            Ok(x) => where_spec(old(self).toks(), old(self).pos as int) == Ok::<(Option<ExprView>, int), LsErrorView>((crate::ast::opt_expr_view(x), final(self).pos as int)) && final(self).depth == 0,
            Err(e) => where_spec(old(self).toks(), old(self).pos as int) == Err::<(Option<ExprView>, int), LsErrorView>(e@),
        },
    {
        if is_token(self.peek(), &Token::Where) {
            self.advance();
            let e = self.parse_expr()?;
            Ok(Some(e))
        } else {
            Ok(None)
        }
    }

    #[verifier::loop_isolation(false)]
    fn parse_select(&mut self) -> (r: LsResult<Statement>)
        requires
            old(self).inv(),
            old(self).depth == 0,
    ensures
        final(self).inv(),
        final(self).tokens@ == old(self).tokens@,
        old(self).pos <= final(self).pos,
        match r {
            Ok(x) => select_spec(old(self).toks(), old(self).pos as int) == Ok::<(StatementView, int), LsErrorView>((x@, final(self).pos as int)) && final(self).depth == 0,
            Err(e) => select_spec(old(self).toks(), old(self).pos as int) == Err::<(StatementView, int), LsErrorView>(e@),
        },
    {
        let ghost toks = self.toks();
        self.expect(&Token::Select)?;
        let columns = if is_token(self.peek(), &Token::Star) {
            self.advance();
            SelectColumns::All
        } else {
            let first = self.ident()?;
            let mut cols: Vec<String> = Vec::new();
            cols.push(first);
            let ghost q = self.pos as int;
            assert(crate::ast::strings_view(cols@) =~= seq![first@]);
            while is_token(self.peek(), &Token::Comma)
                invariant
                    self.inv(),
                    self.tokens@ == old(self).tokens@,
                    self.depth == 0,
                    old(self).pos <= self.pos,
                    select_names_rest_spec(toks, q, seq![first@]) == select_names_rest_spec(toks, self.pos as int, crate::ast::strings_view(cols@)),
                decreases self.tokens@.len() - self.pos,
            {
                self.advance();
                let n = self.ident()?;
                let ghost before = cols@;
                cols.push(n);
                assert(crate::ast::strings_view(cols@) =~= crate::ast::strings_view(before).push(cols@.last()@));
            }
            SelectColumns::Named(cols)
        };
        self.expect(&Token::From)?;
        let table = self.ident()?;
        let where_clause = self.parse_where()?;
        let order_by = if is_token(self.peek(), &Token::Order) {
            self.advance();
            self.expect(&Token::By)?;
            let column = self.ident()?;
            let dir = if is_token(self.peek(), &Token::Asc) {
                self.advance();
                OrderDir::Asc
            } else if is_token(self.peek(), &Token::Desc) {
                self.advance();
                OrderDir::Desc
            } else {
                OrderDir::Asc
            };
            Some(OrderBy { column, dir })
        } else {
            None
        };
        let limit = if is_token(self.peek(), &Token::Limit) {
            self.advance();
            match self.advance() {
                Token::IntLit(n) => {
                    if n >= 0 {
                        Some(n as u64)
                    } else {
                        return Err(found("expected a non-negative integer after LIMIT, found ", &Token::IntLit(n)));
                    }
                },
                other => {
                    return Err(found("expected a non-negative integer after LIMIT, found ", &other));
                },
            }
        } else {
            None
        };
        Ok(Statement::Select { table, columns, where_clause, order_by, limit })
    }

    fn parse_delete(&mut self) -> (r: LsResult<Statement>)
        requires
            old(self).inv(),
            old(self).depth == 0,
    ensures
        final(self).inv(),
        final(self).tokens@ == old(self).tokens@,
        old(self).pos <= final(self).pos,
        match r {
            Ok(x) => delete_spec(old(self).toks(), old(self).pos as int) == Ok::<(StatementView, int), LsErrorView>((x@, final(self).pos as int)) && final(self).depth == 0,
            Err(e) => delete_spec(old(self).toks(), old(self).pos as int) == Err::<(StatementView, int), LsErrorView>(e@),
        },
    {
        self.expect(&Token::Delete)?;
        self.expect(&Token::From)?;
        let table = self.ident()?;
        let where_clause = self.parse_where()?;
        Ok(Statement::Delete { table, where_clause })
    }

    #[verifier::loop_isolation(false)]
    fn parse_update(&mut self) -> (r: LsResult<Statement>)
        requires
            old(self).inv(),
            old(self).depth == 0,
    ensures
        final(self).inv(),
        final(self).tokens@ == old(self).tokens@,
        old(self).pos <= final(self).pos,
        match r {
            Ok(x) => update_spec(old(self).toks(), old(self).pos as int) == Ok::<(StatementView, int), LsErrorView>((x@, final(self).pos as int)) && final(self).depth == 0,
            Err(e) => update_spec(old(self).toks(), old(self).pos as int) == Err::<(StatementView, int), LsErrorView>(e@),
        },
    {
        let ghost toks = self.toks();
        self.expect(&Token::Update)?;
        let table = self.ident()?;
        self.expect(&Token::SetKw)?;
        let ghost p3 = self.pos as int;
        let mut assignments: Vec<(String, Value)> = Vec::new();
        assert(crate::ast::assignments_view(assignments@) =~= Seq::<(Seq<char>, ValueView)>::empty());
        let mut done = false;
        while !done
            invariant
                self.inv(),
                self.tokens@ == old(self).tokens@,
                self.depth == 0,
                old(self).pos <= self.pos,
                !done ==> assignments_spec(toks, p3, Seq::empty()) == assignments_spec(toks, self.pos as int, crate::ast::assignments_view(assignments@)),
                done ==> assignments_spec(toks, p3, Seq::empty()) == Ok::<(Seq<(Seq<char>, ValueView)>, int), LsErrorView>((crate::ast::assignments_view(assignments@), self.pos as int)),
            decreases self.tokens@.len() - self.pos + (if done { 0int } else { 1int }),
        {
            let col = self.ident()?;
            self.expect(&Token::Eq)?;
            let val = self.parse_literal()?;
            let ghost before = assignments@;
            assignments.push((col, val));
            assert(crate::ast::assignments_view(assignments@) =~= crate::ast::assignments_view(before).push((assignments@.last().0@, assignments@.last().1@)));
            if is_token(self.peek(), &Token::Comma) {
                self.advance();
            } else {
                done = true;
            }
        }
        let where_clause = self.parse_where()?;
        Ok(Statement::Update { table, assignments, where_clause })
    }

    fn parse_statement(&mut self) -> (r: LsResult<Statement>)
        requires
            old(self).inv(),
            old(self).depth == 0,
    ensures
        final(self).inv(),
        final(self).tokens@ == old(self).tokens@,
        old(self).pos <= final(self).pos,
        match r {
            Ok(x) => statement_spec(old(self).toks(), old(self).pos as int) == Ok::<(StatementView, int), LsErrorView>((x@, final(self).pos as int)) && final(self).depth == 0,
            Err(e) => statement_spec(old(self).toks(), old(self).pos as int) == Err::<(StatementView, int), LsErrorView>(e@),
        },
    {
        if is_token(self.peek(), &Token::Create) {
            self.parse_create_table()
        } else if is_token(self.peek(), &Token::Insert) {
            self.parse_insert()
        } else if is_token(self.peek(), &Token::Select) {
            self.parse_select()
        } else if is_token(self.peek(), &Token::Delete) {
            self.parse_delete()
        } else if is_token(self.peek(), &Token::Update) {
            self.parse_update()
        } else {
            Err(found("expected a statement (CREATE, INSERT, SELECT, DELETE, UPDATE), found ", self.peek()))
        }
    }
}

/// Parses the tokens of one statement, followed by an optional semicolon
/// and the end of the input.
pub fn parse(tokens: Vec<Token>) -> (r: LsResult<Statement>)
    ensures
        match r {
            Ok(s) => parse_spec(tokens_view(tokens@)) == Ok::<StatementView, LsErrorView>(s@),
            Err(e) => parse_spec(tokens_view(tokens@)) == Err::<StatementView, LsErrorView>(e@),
        },
{
    let mut p = Parser { tokens, pos: 0, depth: 0, eof: Token::Eof };
    let stmt = p.parse_statement()?;
    p.expect_end()?;
    Ok(stmt)
}


proof fn lemma_deep_nesting(toks: Seq<TokenView>, p: int, d: int, k: int)
    requires
        0 <= p,
        0 <= k,
        p + k <= toks.len(),
        0 <= d <= 64,
        d + 2 * k >= 63,
        forall|i: int| p <= i < p + k ==> #[trigger] toks[i] == TokenView::LParen,
    ensures
        expr_spec(toks, p, d) == Err::<(ExprView, int), LsErrorView>(nested_error()),
    decreases k,
{
    if d < 63 {
        assert(toks[p] == TokenView::LParen);
        lemma_deep_nesting(toks, p + 1, d + 2, k - 1);
        assert(primary_spec(toks, p, d + 2) == Err::<(ExprView, int), LsErrorView>(nested_error()));
        assert(and_spec(toks, p, d + 1) == Err::<(ExprView, int), LsErrorView>(nested_error()));
    } else if d == 63 {
        assert(and_spec(toks, p, d + 1) == Err::<(ExprView, int), LsErrorView>(nested_error()));
    }
}

/// The depth guard: a SELECT whose WHERE clause opens 32 or more
/// parentheses in a row (each one costing two levels of the 64 allowed) is
/// refused with the nesting error, whatever follows, instead of recursing
/// further.
pub proof fn law_deep_nesting_is_refused(name: Seq<char>, parens: nat, rest: Seq<TokenView>)
    requires
        parens >= 32,
    ensures
        parse_spec(
            seq![TokenView::Select, TokenView::Star, TokenView::From, TokenView::Ident(name), TokenView::Where]
                + Seq::new(parens, |i: int| TokenView::LParen) + rest,
        ) == Err::<StatementView, LsErrorView>(nested_error()),
{
    let toks = seq![TokenView::Select, TokenView::Star, TokenView::From, TokenView::Ident(name), TokenView::Where]
        + Seq::new(parens, |i: int| TokenView::LParen) + rest;
    assert forall|i: int| 5 <= i < 5 + parens implies #[trigger] toks[i] == TokenView::LParen by {}
    lemma_deep_nesting(toks, 5, 0, parens as int);
    assert(toks[0] == TokenView::Select);
    assert(toks[1] == TokenView::Star);
    assert(toks[2] == TokenView::From);
    assert(toks[3] == TokenView::Ident(name));
    assert(toks[4] == TokenView::Where);
    assert(where_spec(toks, 4) == Err::<(Option<ExprView>, int), LsErrorView>(nested_error()));
    assert(select_spec(toks, 0) == Err::<(StatementView, int), LsErrorView>(nested_error()));
}


/// The token that writes a comparison operator.
pub open spec fn op_token(op: CompareOp) -> TokenView {
    match op {
        CompareOp::Eq => TokenView::Eq,
        CompareOp::NotEq => TokenView::NotEq,
        CompareOp::Lt => TokenView::Lt,
        CompareOp::Gt => TokenView::Gt,
        CompareOp::Le => TokenView::Le,
        CompareOp::Ge => TokenView::Ge,
    }
}

/// The token that writes a literal value.
pub open spec fn literal_token(v: ValueView) -> TokenView {
    match v {
        ValueView::Integer(n) => TokenView::IntLit(n),
        ValueView::Real(d) => TokenView::RealLit(d),
        ValueView::Text(s) => TokenView::StrLit(s),
    }
}

/// The three tokens `column op literal`.
pub open spec fn comparison_tokens(c: Seq<char>, op: CompareOp, v: ValueView) -> Seq<TokenView> {
    seq![TokenView::Ident(c), op_token(op), literal_token(v)]
}

pub open spec fn compare_expr(c: Seq<char>, op: CompareOp, v: ValueView) -> ExprView {
    ExprView::Compare { column: c, op, value: v }
}

proof fn lemma_comparison_at(toks: Seq<TokenView>, p: int, c: Seq<char>, op: CompareOp, v: ValueView, d: int)
    requires
        0 <= p,
        p + 3 <= toks.len(),
        toks.subrange(p, p + 3) == comparison_tokens(c, op, v),
    ensures
        primary_spec(toks, p, d) == Ok::<(ExprView, int), LsErrorView>((compare_expr(c, op, v), p + 3)),
{
    assert(toks[p] == toks.subrange(p, p + 3)[0]);
    assert(toks[p + 1] == toks.subrange(p, p + 3)[1]);
    assert(toks[p + 2] == toks.subrange(p, p + 3)[2]);
}

/// AND binds tighter than OR: `X OR Y AND Z` reads as `X OR (Y AND Z)`
/// and `X AND Y OR Z` as `(X AND Y) OR Z`, for any comparisons `X`, `Y`,
/// `Z` and whatever follows that is neither AND nor OR.
pub proof fn law_and_binds_tighter_than_or(
    x: (Seq<char>, CompareOp, ValueView),
    y: (Seq<char>, CompareOp, ValueView),
    z: (Seq<char>, CompareOp, ValueView),
    rest: Seq<TokenView>,
    d: int,
)
    requires
        0 <= d <= 62,
        rest.len() > 0 ==> rest[0] != TokenView::And && rest[0] != TokenView::Or,
    ensures
        expr_spec(
            comparison_tokens(x.0, x.1, x.2) + seq![TokenView::Or] + comparison_tokens(y.0, y.1, y.2) + seq![TokenView::And]
                + comparison_tokens(z.0, z.1, z.2) + rest,
            0,
            d,
        ) == Ok::<(ExprView, int), LsErrorView>((
            ExprView::Or(
                Box::new(compare_expr(x.0, x.1, x.2)),
                Box::new(ExprView::And(Box::new(compare_expr(y.0, y.1, y.2)), Box::new(compare_expr(z.0, z.1, z.2)))),
            ),
            11,
        )),
        expr_spec(
            comparison_tokens(x.0, x.1, x.2) + seq![TokenView::And] + comparison_tokens(y.0, y.1, y.2) + seq![TokenView::Or]
                + comparison_tokens(z.0, z.1, z.2) + rest,
            0,
            d,
        ) == Ok::<(ExprView, int), LsErrorView>((
            ExprView::Or(
                Box::new(ExprView::And(Box::new(compare_expr(x.0, x.1, x.2)), Box::new(compare_expr(y.0, y.1, y.2)))),
                Box::new(compare_expr(z.0, z.1, z.2)),
            ),
            11,
        )),
{
    let cx = compare_expr(x.0, x.1, x.2);
    let cy = compare_expr(y.0, y.1, y.2);
    let cz = compare_expr(z.0, z.1, z.2);
    let t1 = comparison_tokens(x.0, x.1, x.2) + seq![TokenView::Or] + comparison_tokens(y.0, y.1, y.2) + seq![TokenView::And]
        + comparison_tokens(z.0, z.1, z.2) + rest;
    let t2 = comparison_tokens(x.0, x.1, x.2) + seq![TokenView::And] + comparison_tokens(y.0, y.1, y.2) + seq![TokenView::Or]
        + comparison_tokens(z.0, z.1, z.2) + rest;
    assert(t1.subrange(0, 3) =~= comparison_tokens(x.0, x.1, x.2));
    assert(t1.subrange(4, 7) =~= comparison_tokens(y.0, y.1, y.2));
    assert(t1.subrange(8, 11) =~= comparison_tokens(z.0, z.1, z.2));
    assert(t2.subrange(0, 3) =~= comparison_tokens(x.0, x.1, x.2));
    assert(t2.subrange(4, 7) =~= comparison_tokens(y.0, y.1, y.2));
    assert(t2.subrange(8, 11) =~= comparison_tokens(z.0, z.1, z.2));
    assert(t1[3] == TokenView::Or && t1[7] == TokenView::And);
    assert(t2[3] == TokenView::And && t2[7] == TokenView::Or);
    assert(tok_at(t1, 11) != TokenView::And && tok_at(t1, 11) != TokenView::Or) by {
        if rest.len() > 0 {
            assert(t1[11] == rest[0]);
        }
    }
    assert(tok_at(t2, 11) != TokenView::And && tok_at(t2, 11) != TokenView::Or) by {
        if rest.len() > 0 {
            assert(t2[11] == rest[0]);
        }
    }
    // X OR Y AND Z
    lemma_comparison_at(t1, 0, x.0, x.1, x.2, d + 2);
    lemma_comparison_at(t1, 4, y.0, y.1, y.2, d + 2);
    lemma_comparison_at(t1, 8, z.0, z.1, z.2, d + 2);
    assert(and_rest_spec(t1, 3, d + 2, cx) == Ok::<(ExprView, int), LsErrorView>((cx, 3)));
    assert(and_spec(t1, 0, d + 1) == Ok::<(ExprView, int), LsErrorView>((cx, 3)));
    let yz = ExprView::And(Box::new(cy), Box::new(cz));
    assert(and_rest_spec(t1, 11, d + 2, yz) == Ok::<(ExprView, int), LsErrorView>((yz, 11)));
    assert(and_rest_spec(t1, 7, d + 2, cy) == Ok::<(ExprView, int), LsErrorView>((yz, 11)));
    assert(and_spec(t1, 4, d + 1) == Ok::<(ExprView, int), LsErrorView>((yz, 11)));
    let whole1 = ExprView::Or(Box::new(cx), Box::new(yz));
    assert(or_rest_spec(t1, 11, d + 1, whole1) == Ok::<(ExprView, int), LsErrorView>((whole1, 11)));
    assert(or_rest_spec(t1, 3, d + 1, cx) == Ok::<(ExprView, int), LsErrorView>((whole1, 11)));
    // X AND Y OR Z
    lemma_comparison_at(t2, 0, x.0, x.1, x.2, d + 2);
    lemma_comparison_at(t2, 4, y.0, y.1, y.2, d + 2);
    lemma_comparison_at(t2, 8, z.0, z.1, z.2, d + 2);
    let xy = ExprView::And(Box::new(cx), Box::new(cy));
    assert(and_rest_spec(t2, 7, d + 2, xy) == Ok::<(ExprView, int), LsErrorView>((xy, 7)));
    assert(and_rest_spec(t2, 3, d + 2, cx) == Ok::<(ExprView, int), LsErrorView>((xy, 7)));
    assert(and_spec(t2, 0, d + 1) == Ok::<(ExprView, int), LsErrorView>((xy, 7)));
    assert(and_rest_spec(t2, 11, d + 2, cz) == Ok::<(ExprView, int), LsErrorView>((cz, 11)));
    assert(and_spec(t2, 8, d + 1) == Ok::<(ExprView, int), LsErrorView>((cz, 11)));
    let whole2 = ExprView::Or(Box::new(xy), Box::new(cz));
    assert(or_rest_spec(t2, 11, d + 1, whole2) == Ok::<(ExprView, int), LsErrorView>((whole2, 11)));
    assert(or_rest_spec(t2, 7, d + 1, xy) == Ok::<(ExprView, int), LsErrorView>((whole2, 11)));
}

} // verus!
