//! The statement syntax tree that the parser produces and the executor runs.

use vstd::prelude::*;
use crate::types::{ColumnType, Value, ValueView, values_view};

verus! {

#[derive(Debug, Clone, Copy, PartialEq, Eq, Structural)]
pub enum CompareOp {
    Eq,
    NotEq,
    Lt,
    Gt,
    Le,
    Ge,
}

#[derive(Debug, PartialEq)]
pub enum Expr {
    Compare { column: String, op: CompareOp, value: Value },
    And(Box<Expr>, Box<Expr>),
    Or(Box<Expr>, Box<Expr>),
}

pub enum ExprView {
    Compare { column: Seq<char>, op: CompareOp, value: ValueView },
    And(Box<ExprView>, Box<ExprView>),
    Or(Box<ExprView>, Box<ExprView>),
}

pub open spec fn expr_view(e: Expr) -> ExprView
    decreases e,
{
    match e {
        Expr::Compare { column, op, value } => ExprView::Compare { column: column@, op, value: value@ },
        Expr::And(l, r) => ExprView::And(Box::new(expr_view(*l)), Box::new(expr_view(*r))),
        Expr::Or(l, r) => ExprView::Or(Box::new(expr_view(*l)), Box::new(expr_view(*r))),
    }
}

impl View for Expr {
    type V = ExprView;

    open spec fn view(&self) -> ExprView {
        expr_view(*self)
    }
}

#[derive(Debug, Clone, PartialEq)]
pub struct ColumnDef {
    pub name: String,
    pub ty: ColumnType,
}

pub struct ColumnDefView {
    pub name: Seq<char>,
    pub ty: ColumnType,
}

impl View for ColumnDef {
    type V = ColumnDefView;

    open spec fn view(&self) -> ColumnDefView {
        ColumnDefView { name: self.name@, ty: self.ty }
    }
}

#[derive(Debug, Clone, Copy, PartialEq, Eq, Structural)]
pub enum OrderDir {
    Asc,
    Desc,
}

#[derive(Debug, Clone, PartialEq)]
pub struct OrderBy {
    pub column: String,
    pub dir: OrderDir,
}

pub struct OrderByView {
    pub column: Seq<char>,
    pub dir: OrderDir,
}

impl View for OrderBy {
    type V = OrderByView;

    open spec fn view(&self) -> OrderByView {
        OrderByView { column: self.column@, dir: self.dir }
    }
}

#[derive(Debug, Clone, PartialEq)]
pub enum SelectColumns {
    All,
    Named(Vec<String>),
}

pub enum SelectColumnsView {
    All,
    Named(Seq<Seq<char>>),
}

pub open spec fn strings_view(s: Seq<String>) -> Seq<Seq<char>> {
    s.map_values(|x: String| x@)
}

impl View for SelectColumns {
    type V = SelectColumnsView;

    open spec fn view(&self) -> SelectColumnsView {
        match self {
            SelectColumns::All => SelectColumnsView::All,
            SelectColumns::Named(names) => SelectColumnsView::Named(strings_view(names@)),
        }
    }
}

#[derive(Debug, PartialEq)]
pub enum Statement {
    CreateTable { table: String, columns: Vec<ColumnDef> },
    Insert { table: String, columns: Option<Vec<String>>, values: Vec<Value> },
    Select {
        table: String,
        columns: SelectColumns,
        where_clause: Option<Expr>,
        order_by: Option<OrderBy>,
        limit: Option<u64>,
    },
    Delete { table: String, where_clause: Option<Expr> },
    Update { table: String, assignments: Vec<(String, Value)>, where_clause: Option<Expr> },
}

pub enum StatementView {
    CreateTable { table: Seq<char>, columns: Seq<ColumnDefView> },
    Insert { table: Seq<char>, columns: Option<Seq<Seq<char>>>, values: Seq<ValueView> },
    Select {
        table: Seq<char>,
        columns: SelectColumnsView,
        where_clause: Option<ExprView>,
        order_by: Option<OrderByView>,
        limit: Option<u64>,
    },
    Delete { table: Seq<char>, where_clause: Option<ExprView> },
    Update { table: Seq<char>, assignments: Seq<(Seq<char>, ValueView)>, where_clause: Option<ExprView> },
}

pub open spec fn opt_expr_view(e: Option<Expr>) -> Option<ExprView> {
    match e {
        Some(x) => Some(x@),
        None => None,
    }
}

pub open spec fn column_defs_view(cs: Seq<ColumnDef>) -> Seq<ColumnDefView> {
    cs.map_values(|c: ColumnDef| c@)
}

pub open spec fn assignments_view(a: Seq<(String, Value)>) -> Seq<(Seq<char>, ValueView)> {
    a.map_values(|p: (String, Value)| (p.0@, p.1@))
}

impl View for Statement {
    type V = StatementView;

    open spec fn view(&self) -> StatementView {
        match self {
            Statement::CreateTable { table, columns } => StatementView::CreateTable {
                table: table@,
                columns: column_defs_view(columns@),
            },
            Statement::Insert { table, columns, values } => StatementView::Insert {
                table: table@,
                columns: match columns {
                    Some(c) => Some(strings_view(c@)),
                    None => None,
                },
                values: values_view(values@),
            },
            Statement::Select { table, columns, where_clause, order_by, limit } => StatementView::Select {
                table: table@,
                columns: columns@,
                where_clause: opt_expr_view(*where_clause),
                order_by: match order_by {
                    Some(o) => Some(o@),
                    None => None,
                },
                limit: *limit,
            },
            Statement::Delete { table, where_clause } => StatementView::Delete {
                table: table@,
                where_clause: opt_expr_view(*where_clause),
            },
            Statement::Update { table, assignments, where_clause } => StatementView::Update {
                table: table@,
                assignments: assignments_view(assignments@),
                where_clause: opt_expr_view(*where_clause),
            },
        }
    }
}

} // verus!
