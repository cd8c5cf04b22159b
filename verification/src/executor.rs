//! Executes a parsed `Statement` against a `Database`. Type-checks every
//! value against its column's declared type before it touches storage, so a
//! bad INSERT or UPDATE fails cleanly instead of corrupting a row.
//!
//! The meaning of each statement is given by `execute_spec` over the views
//! of the database and the statement.

use vstd::prelude::*;
use std::cmp::Ordering;
use vstd::string::StringExecFns;
use crate::ast::{
    assignments_view, column_defs_view, strings_view, ColumnDef, ColumnDefView, CompareOp, Expr, ExprView, OrderBy,
    OrderByView, OrderDir, SelectColumns, SelectColumnsView, Statement, StatementView,
};
use crate::error::{LsError, LsErrorView, LsResult, result_view};
use crate::storage::{
    apply_spec, column_index_spec, columns_view, find_column_in, ids_available, law_replay_concat,
    lemma_ids_below_props, lemma_replay_push, lemma_single_record, log_fits, missing_table_error, record_fits,
    replay, row_ids_in_order, table_wf, tables_wf, ColumnView, Database, RecordView, StoredColumn, Table, TableView,
};
use crate::text::{concat3, nat_text, push_u64_text};
use crate::types::{ColumnType, Value, ValueView, value_order, value_type, values_view, reverse_order};

verus! {

#[derive(Debug, Clone, PartialEq)]
pub enum QueryResult {
    /// The statement succeeded and returns nothing (written `OK`).
    Done,
    RowsAffected(usize),
    Rows { columns: Vec<String>, rows: Vec<Vec<Value>> },
}

pub enum QueryResultView {
    Done,
    RowsAffected(usize),
    Rows { columns: Seq<Seq<char>>, rows: Seq<Seq<ValueView>> },
}

pub open spec fn rows_list_view(rows: Seq<Vec<Value>>) -> Seq<Seq<ValueView>> {
    rows.map_values(|r: Vec<Value>| values_view(r@))
}

impl View for QueryResult {
    type V = QueryResultView;

    open spec fn view(&self) -> QueryResultView {
        match self {
            QueryResult::Done => QueryResultView::Done,
            QueryResult::RowsAffected(n) => QueryResultView::RowsAffected(*n),
            QueryResult::Rows { columns, rows } => QueryResultView::Rows {
                columns: strings_view(columns@),
                rows: rows_list_view(rows@),
            },
        }
    }
}

pub open spec fn missing_column_error(name: Seq<char>) -> LsErrorView {
    LsErrorView::NotFound("column '"@ + name + "' does not exist"@)
}

pub open spec fn type_error(expected: ColumnType, got: ColumnType) -> LsErrorView {
    LsErrorView::Type("expected "@ + expected.name_view() + ", got "@ + got.name_view())
}

/// The error, if any, of storing `v` in a column of type `ty`.
pub open spec fn check_type_spec(ty: ColumnType, v: ValueView) -> Option<LsErrorView> {
    if value_type(v) != ty {
        Some(type_error(ty, value_type(v)))
    } else {
        None
    }
}

/// Whether `cell op literal` holds. Every operator, `!=` included, holds
/// only of values that compare: TEXT with TEXT, numbers with numbers.
pub open spec fn compare_spec(cell: ValueView, op: CompareOp, literal: ValueView) -> bool {
    let o = value_order(cell, literal);
    match op {
        CompareOp::Eq => o == Some(Ordering::Equal),
        CompareOp::NotEq => o == Some(Ordering::Less) || o == Some(Ordering::Greater),
        CompareOp::Lt => o == Some(Ordering::Less),
        CompareOp::Gt => o == Some(Ordering::Greater),
        CompareOp::Le => o == Some(Ordering::Less) || o == Some(Ordering::Equal),
        CompareOp::Ge => o == Some(Ordering::Greater) || o == Some(Ordering::Equal),
    }
}

pub open spec fn short_row_error() -> LsErrorView {
    LsErrorView::Storage("row shorter than schema"@)
}

/// The value of a WHERE expression on a row; AND and OR evaluate their
/// right side only when the left side does not decide.
pub open spec fn eval_spec(t: TableView, row: Seq<ValueView>, e: ExprView) -> Result<bool, LsErrorView>
    decreases e,
{
    match e {
        ExprView::Compare { column, op, value } => match column_index_spec(t.columns, column) {
            None => Err(missing_column_error(column)),
            Some(idx) => if idx < row.len() {
                Ok(compare_spec(row[idx as int], op, value))
            } else {
                Err(short_row_error())
            },
        },
        ExprView::And(l, r) => match eval_spec(t, row, *l) {
            Err(err) => Err(err),
            Ok(false) => Ok(false),
            Ok(true) => eval_spec(t, row, *r),
        },
        ExprView::Or(l, r) => match eval_spec(t, row, *l) {
            Err(err) => Err(err),
            Ok(true) => Ok(true),
            Ok(false) => eval_spec(t, row, *r),
        },
    }
}

/// The ids of `ids`, in order, whose rows the optional WHERE expression
/// keeps; the first evaluation error, in that order, when there is one.
pub open spec fn filter_ids(t: TableView, w: Option<ExprView>, ids: Seq<u64>) -> Result<Seq<u64>, LsErrorView>
    decreases ids.len(),
{
    if ids.len() == 0 {
        Ok(Seq::empty())
    } else {
        match filter_ids(t, w, ids.drop_last()) {
            Err(err) => Err(err),
            Ok(acc) => match w {
                None => Ok(acc.push(ids.last())),
                Some(e) => match eval_spec(t, t.rows[ids.last()], e) {
                    Err(err) => Err(err),
                    Ok(true) => Ok(acc.push(ids.last())),
                    Ok(false) => Ok(acc),
                },
            },
        }
    }
}

pub open spec fn opt_expr_view_ref(e: &Option<Expr>) -> Option<ExprView> {
    match e {
        Some(x) => Some(x@),
        None => None,
    }
}

/// The first column, left to right, that the WHERE expression names and
/// the table does not have.
pub open spec fn missing_where_column(cols: Seq<ColumnView>, e: ExprView) -> Option<Seq<char>>
    decreases e,
{
    match e {
        ExprView::Compare { column, .. } => if column_index_spec(cols, column) is None {
            Some(column)
        } else {
            None
        },
        ExprView::And(l, r) => match missing_where_column(cols, *l) {
            Some(c) => Some(c),
            None => missing_where_column(cols, *r),
        },
        ExprView::Or(l, r) => match missing_where_column(cols, *l) {
            Some(c) => Some(c),
            None => missing_where_column(cols, *r),
        },
    }
}

/// The ids of the rows that a WHERE clause selects, in increasing order.
/// Every column the clause names is looked up in the schema first, so a
/// missing one is an error whether or not the table has rows.
pub open spec fn matching_ids_spec(t: TableView, w: Option<ExprView>) -> Result<Seq<u64>, LsErrorView> {
    match w {
        Some(e) => match missing_where_column(t.columns, e) {
            Some(c) => Err(missing_column_error(c)),
            None => filter_ids(t, w, row_ids_in_order(t)),
        },
        None => filter_ids(t, w, row_ids_in_order(t)),
    }
}


/// A new string holding the four parts in turn.
fn concat4(a: &str, b: &str, c: &str, d: &str) -> (r: String)
    ensures
        r@ == a@ + b@ + c@ + d@,
{
    let mut r = String::from_str(a);
    r.append(b);
    r.append(c);
    r.append(d);
    r
}

fn check_type(col_ty: ColumnType, val: &Value) -> (r: LsResult<()>)
    ensures
        r is Ok <==> check_type_spec(col_ty, val@) is None,
        r matches Err(e) ==> Some(e@) == check_type_spec(col_ty, val@),
{
    if val.type_of() != col_ty {
        return Err(LsError::Type(concat4("expected ", col_ty.name(), ", got ", val.type_of().name())));
    }
    Ok(())
}

fn compare(cell: &Value, op: &CompareOp, literal: &Value) -> (r: bool)
    ensures
        r == compare_spec(cell@, *op, literal@),
{
    let o = cell.partial_compare(literal);
    let (less, equal, greater) = match o {
        Some(Ordering::Less) => (true, false, false),
        Some(Ordering::Equal) => (false, true, false),
        Some(Ordering::Greater) => (false, false, true),
        None => (false, false, false),
    };
    match op {
        CompareOp::Eq => equal,
        CompareOp::NotEq => less || greater,
        CompareOp::Lt => less,
        CompareOp::Gt => greater,
        CompareOp::Le => less || equal,
        CompareOp::Ge => greater || equal,
    }
}

fn missing_column(name: &str) -> (e: LsError)
    ensures
        e@ == missing_column_error(name@),
{
    LsError::NotFound(concat3("column '", name, "' does not exist"))
}

fn eval_expr(t: &Table, row: &Vec<Value>, expr: &Expr) -> (r: LsResult<bool>)
    ensures
        result_view(r) == eval_spec(t@, values_view(row@), expr@),
    decreases expr,
{
    match expr {
        Expr::Compare { column, op, value } => {
            let idx = match t.column_index(column.as_str()) {
                Some(i) => i,
                None => {
                    return Err(missing_column(column.as_str()));
                },
            };
            if idx < row.len() {
                Ok(compare(&row[idx], op, value))
            } else {
                Err(LsError::Storage(String::from_str("row shorter than schema")))
            }
        },
        Expr::And(l, r) => {
            let a = eval_expr(t, row, l)?;
            if !a {
                return Ok(false);
            }
            eval_expr(t, row, r)
        },
        Expr::Or(l, r) => {
            let a = eval_expr(t, row, l)?;
            if a {
                return Ok(true);
            }
            eval_expr(t, row, r)
        },
    }
}


/// Checks that every column the WHERE expression names is in the schema.
fn check_where_columns(t: &Table, expr: &Expr) -> (r: LsResult<()>)
    ensures
        match missing_where_column(t@.columns, expr@) {
            Some(c) => r matches Err(e) && e@ == missing_column_error(c),
            None => r is Ok,
        },
    decreases expr,
{
    match expr {
        Expr::Compare { column, .. } => match t.column_index(column.as_str()) {
            Some(_) => Ok(()),
            None => Err(missing_column(column.as_str())),
        },
        Expr::And(l, r) => {
            check_where_columns(t, l)?;
            check_where_columns(t, r)
        },
        Expr::Or(l, r) => {
            check_where_columns(t, l)?;
            check_where_columns(t, r)
        },
    }
}

fn matching_row_ids(t: &Table, where_clause: &Option<Expr>) -> (r: LsResult<Vec<u64>>)
    requires
        table_wf(t@),
    ensures
        result_view(r) == matching_ids_spec(t@, opt_expr_view_ref(where_clause)),
{
    let ghost w = opt_expr_view_ref(where_clause);
    if let Some(expr) = where_clause {
        check_where_columns(t, expr)?;
    }
    let all = t.row_ids();
    proof {
        lemma_ids_below_props(t@.rows.dom(), t@.next_row_id);
    }
    let mut ids: Vec<u64> = Vec::new();
    let mut i: usize = 0;
    while i < all.len()
        invariant
            i <= all@.len(),
            all@ == row_ids_in_order(t@),
            table_wf(t@),
            w == opt_expr_view_ref(where_clause),
            matching_ids_spec(t@, w) == filter_ids(t@, w, all@),
            forall|k: int| 0 <= k < all@.len() ==> t@.rows.contains_key(#[trigger] all@[k]),
            filter_ids(t@, w, all@.take(i as int)) == Ok::<Seq<u64>, LsErrorView>(ids@),
        decreases all@.len() - i,
    {
        let id = all[i];
        assert(all@.take(i + 1).drop_last() =~= all@.take(i as int));
        assert(all@.take(i + 1).last() == id);
        let keep = match where_clause {
            None => true,
            Some(expr) => {
                let row = match t.rows.get(&id) {
                    Some(row) => row,
                    None => {
                        assert(false);
                        return Err(LsError::Storage(String::from_str("row shorter than schema")));
                    },
                };
                assert(t@.rows[id] == values_view(row@));
                match eval_expr(t, row, expr) {
                    Ok(b) => b,
                    Err(e) => {
                        proof {
                            assert(w == Some(expr@));
                            assert(eval_spec(t@, t@.rows[id], expr@) == Err::<bool, LsErrorView>(e@));
                            assert(filter_ids(t@, w, all@.take(i + 1)) == Err::<Seq<u64>, LsErrorView>(e@));
                            lemma_filter_ids_err_stable(t@, w, all@, (i + 1) as nat, all@.len());
                            assert(all@.take(all@.len() as int) =~= all@);
                        }
                        return Err(e);
                    },
                }
            },
        };
        let ghost old_ids = ids@;
        if keep {
            ids.push(id);
        }
        assert(filter_ids(t@, w, all@.take(i + 1)) == Ok::<Seq<u64>, LsErrorView>(ids@)) by {
            if keep {
                assert(ids@ == old_ids.push(id));
            }
        }
        i = i + 1;
    }
    assert(all@.take(all@.len() as int) =~= all@);
    Ok(ids)
}


proof fn lemma_filter_ids_err_stable(t: TableView, w: Option<ExprView>, ids: Seq<u64>, k: nat, m: nat)
    requires
        filter_ids(t, w, ids.take(k as int)) is Err,
        k <= m <= ids.len(),
    ensures
        filter_ids(t, w, ids.take(m as int)) == filter_ids(t, w, ids.take(k as int)),
    decreases m,
{
    if m > k {
        lemma_filter_ids_err_stable(t, w, ids, k, (m - 1) as nat);
        assert(ids.take(m as int).drop_last() =~= ids.take(m - 1));
    }
}


/// The first error, in column order, of storing the first `n` values in
/// the first `n` columns.
pub open spec fn first_type_error(cols: Seq<ColumnView>, vals: Seq<ValueView>, n: nat) -> Option<LsErrorView>
    decreases n,
{
    if n == 0 {
        None
    } else {
        match first_type_error(cols, vals, (n - 1) as nat) {
            Some(e) => Some(e),
            None => check_type_spec(cols[n - 1].ty, vals[n - 1]),
        }
    }
}

/// The slot of each column after the first `n` named values have been
/// placed by name (a later value for the same column replacing an earlier
/// one), or the first error: a name that is no column, or a value of the
/// wrong type.
pub open spec fn fill_slots(cols: Seq<ColumnView>, names: Seq<Seq<char>>, vals: Seq<ValueView>, n: nat) -> Result<Seq<Option<ValueView>>, LsErrorView>
    decreases n,
{
    if n == 0 {
        Ok(Seq::new(cols.len(), |i: int| None))
    } else {
        match fill_slots(cols, names, vals, (n - 1) as nat) {
            Err(e) => Err(e),
            Ok(slots) => match column_index_spec(cols, names[n - 1]) {
                None => Err(missing_column_error(names[n - 1])),
                Some(idx) => match check_type_spec(cols[idx as int].ty, vals[n - 1]) {
                    Some(e) => Err(e),
                    None => Ok(slots.update(idx as int, Some(vals[n - 1]))),
                },
            },
        }
    }
}

pub open spec fn missing_value_error(column: Seq<char>) -> LsErrorView {
    LsErrorView::Type("missing value for column '"@ + column + "'"@)
}

/// The values of the first `n` slots, or an error naming the first column
/// left without one.
pub open spec fn collect_slots(cols: Seq<ColumnView>, slots: Seq<Option<ValueView>>, n: nat) -> Result<Seq<ValueView>, LsErrorView>
    decreases n,
{
    if n == 0 {
        Ok(Seq::empty())
    } else {
        match collect_slots(cols, slots, (n - 1) as nat) {
            Err(e) => Err(e),
            Ok(acc) => match slots[n - 1] {
                Some(v) => Ok(acc.push(v)),
                None => Err(missing_value_error(cols[n - 1].name)),
            },
        }
    }
}

pub open spec fn arity_error(table: Seq<char>, ncols: nat, nvals: nat) -> LsErrorView {
    LsErrorView::Type("table '"@ + table + "' has "@ + nat_text(ncols) + " columns, got "@ + nat_text(nvals) + " values"@)
}

pub open spec fn named_arity_error(nnames: nat, nvals: nat) -> LsErrorView {
    LsErrorView::Type(nat_text(nnames) + " columns named but "@ + nat_text(nvals) + " values given"@)
}

/// The row that an INSERT stores: the values in column order, after the
/// arity and type checks.
pub open spec fn insert_values_spec(t: TableView, table: Seq<char>, columns: Option<Seq<Seq<char>>>, values: Seq<ValueView>) -> Result<Seq<ValueView>, LsErrorView> {
    match columns {
        None => if values.len() != t.columns.len() {
            Err(arity_error(table, t.columns.len(), values.len()))
        } else {
            match first_type_error(t.columns, values, values.len()) {
                Some(e) => Err(e),
                None => Ok(values),
            }
        },
        Some(names) => if names.len() != values.len() {
            Err(named_arity_error(names.len(), values.len()))
        } else {
            match fill_slots(t.columns, names, values, names.len()) {
                Err(e) => Err(e),
                Ok(slots) => collect_slots(t.columns, slots, t.columns.len()),
            }
        },
    }
}

/// The effect of an INSERT: the new tables and the result.
pub open spec fn insert_spec(tables: Map<Seq<char>, TableView>, table: Seq<char>, columns: Option<Seq<Seq<char>>>, values: Seq<ValueView>) -> Result<(Map<Seq<char>, TableView>, QueryResultView), LsErrorView> {
    if !tables.contains_key(table) {
        Err(missing_table_error(table))
    } else {
        let t = tables[table];
        match insert_values_spec(t, table, columns, values) {
            Err(e) => Err(e),
            Ok(row) => Ok((
                apply_spec(tables, RecordView::Insert { table, row_id: t.next_row_id as u64, values: row }),
                QueryResultView::RowsAffected(1),
            )),
        }
    }
}

pub open spec fn opt_strings_view(c: Option<Vec<String>>) -> Option<Seq<Seq<char>>> {
    match c {
        Some(v) => Some(strings_view(v@)),
        None => None,
    }
}

pub open spec fn slots_view(s: Seq<Option<Value>>) -> Seq<Option<ValueView>> {
    s.map_values(|o: Option<Value>| match o {
        Some(v) => Some(v@),
        None => None,
    })
}

/// The log grew by records whose replay onto the old tables gives the new
/// ones.
pub open spec fn logged_change(old: crate::storage::DatabaseView, new: crate::storage::DatabaseView) -> bool {
    &&& old.log.len() <= new.log.len()
    &&& new.log.take(old.log.len() as int) == old.log
    &&& replay(old.tables, new.log.skip(old.log.len() as int)) == new.tables
    &&& log_fits(old.tables, new.log.skip(old.log.len() as int))
}

#[verifier::loop_isolation(false)]
pub fn exec_insert(db: &mut Database, table: &str, columns: Option<Vec<String>>, values: Vec<Value>) -> (r: LsResult<QueryResult>)
    requires
        old(db).wf(),
        ids_available(old(db)@.tables),
    ensures
        final(db).wf(),
        match r {
            Ok(res) => insert_spec(old(db)@.tables, table@, opt_strings_view(columns), values_view(values@))
                == Ok::<(Map<Seq<char>, TableView>, QueryResultView), LsErrorView>((final(db)@.tables, res@))
                && logged_change(old(db)@, final(db)@),
            Err(e) => insert_spec(old(db)@.tables, table@, opt_strings_view(columns), values_view(values@))
                == Err::<(Map<Seq<char>, TableView>, QueryResultView), LsErrorView>(e@)
                && final(db)@ == old(db)@,
        },
{
    let ghost vv = values_view(values@);
    let ghost tv = old(db)@.tables[table@];
    let ordered_values = {
        let t = db.table(table)?;
        assert(t@.columns.len() == t.columns@.len());
        match columns {
            None => {
                if values.len() != t.columns.len() {
                    let mut m = String::from_str("table '");
                    m.append(table);
                    m.append("' has ");
                    push_u64_text(&mut m, t.columns.len() as u64);
                    m.append(" columns, got ");
                    push_u64_text(&mut m, values.len() as u64);
                    m.append(" values");
                    return Err(LsError::Type(m));
                }
                let mut i: usize = 0;
                while i < values.len()
                    invariant
                        i <= values@.len(),
                        values@.len() == t.columns@.len(),
                        tv == t@,
                        vv == values_view(values@),
                        first_type_error(tv.columns, vv, i as nat) is None,
                    decreases values@.len() - i,
                {
                    assert(tv.columns[i as int] == t.columns@[i as int]@);
                    match check_type(t.columns[i].ty, &values[i]) {
                        Ok(()) => {},
                        Err(e) => {
                            proof {
                                lemma_first_type_error_stable(tv.columns, vv, (i + 1) as nat, vv.len());
                            }
                            return Err(e);
                        },
                    }
                    i = i + 1;
                }
                assert(insert_values_spec(tv, table@, opt_strings_view(columns), vv) == Ok::<Seq<ValueView>, LsErrorView>(vv));
                values
            },
            Some(names) => {
                let ghost nv = strings_view(names@);
                if names.len() != values.len() {
                    let mut m = String::new();
                    push_u64_text(&mut m, names.len() as u64);
                    m.append(" columns named but ");
                    push_u64_text(&mut m, values.len() as u64);
                    m.append(" values given");
                    assert(m@ =~= nat_text(names@.len()) + " columns named but "@ + nat_text(values@.len()) + " values given"@);
                    return Err(LsError::Type(m));
                }
                let mut ordered: Vec<Option<Value>> = Vec::new();
                let mut k: usize = 0;
                while k < t.columns.len()
                    invariant
                        k <= t.columns@.len(),
                        ordered@.len() == k,
                        forall|j: int| 0 <= j < k ==> ordered@[j] is None,
                    decreases t.columns@.len() - k,
                {
                    ordered.push(None);
                    k = k + 1;
                }
                assert(slots_view(ordered@) =~= Seq::new(tv.columns.len(), |i: int| None::<ValueView>));
                let mut i: usize = 0;
                while i < names.len()
                    invariant
                        i <= names@.len(),
                        names@.len() == values@.len(),
                        tv == t@,
                        vv == values_view(values@),
                        nv == strings_view(names@),
                        ordered@.len() == tv.columns.len(),
                        fill_slots(tv.columns, nv, vv, i as nat) == Ok::<Seq<Option<ValueView>>, LsErrorView>(slots_view(ordered@)),
                    decreases names@.len() - i,
                {
                    let idx = match t.column_index(names[i].as_str()) {
                        Some(idx) => idx,
                        None => {
                            proof {
                                lemma_fill_slots_err_stable(tv.columns, nv, vv, (i + 1) as nat, nv.len());
                            }
                            return Err(missing_column(names[i].as_str()));
                        },
                    };
                    assert(tv.columns[idx as int] == t.columns@[idx as int]@);
                    match check_type(t.columns[idx].ty, &values[i]) {
                        Ok(()) => {},
                        Err(e) => {
                            proof {
                                lemma_fill_slots_err_stable(tv.columns, nv, vv, (i + 1) as nat, nv.len());
                            }
                            return Err(e);
                        },
                    }
                    let ghost before = ordered@;
                    let v = values[i].duplicate();
                    ordered.set(idx, Some(v));
                    assert(slots_view(ordered@) =~= slots_view(before).update(idx as int, Some(vv[i as int])));
                    i = i + 1;
                }
                let ghost slots = slots_view(ordered@);
                let mut out: Vec<Value> = Vec::new();
                assert(values_view(out@) =~= Seq::<ValueView>::empty());
                let mut j: usize = 0;
                while j < ordered.len()
                    invariant
                        j <= ordered@.len(),
                        ordered@.len() == tv.columns.len(),
                        tv == t@,
                        slots == slots_view(ordered@),
                        collect_slots(tv.columns, slots, j as nat) == Ok::<Seq<ValueView>, LsErrorView>(values_view(out@)),
                    decreases ordered@.len() - j,
                {
                    match &ordered[j] {
                        Some(v) => {
                            let ghost before = out@;
                            out.push(v.duplicate());
                            assert(values_view(out@) =~= values_view(before).push(slots[j as int]->Some_0));
                        },
                        None => {
                            assert(tv.columns[j as int] == t.columns@[j as int]@);
                            proof {
                                lemma_collect_slots_err_stable(tv.columns, slots, (j + 1) as nat, tv.columns.len());
                            }
                            return Err(LsError::Type(concat3("missing value for column '", t.columns[j].name.as_str(), "'")));
                        },
                    }
                    j = j + 1;
                }
                assert(insert_values_spec(tv, table@, opt_strings_view(columns), vv) == Ok::<Seq<ValueView>, LsErrorView>(values_view(out@)));
                out
            },
        }
    };
    proof {
        lemma_tables_contains_wf(db@.tables, table@);
    }
    let ghost row = values_view(ordered_values@);
    assert(insert_values_spec(tv, table@, opt_strings_view(columns), vv) == Ok::<Seq<ValueView>, LsErrorView>(row));
    proof {
        lemma_insert_values_len(tv, table@, opt_strings_view(columns), vv);
        assert(row.len() == ordered_values@.len());
    }
    match db.insert_row(table, ordered_values) {
        Ok(_) => {},
        Err(e) => {
            return Err(e);
        },
    }
    proof {
        let rec = RecordView::Insert { table: table@, row_id: old(db)@.tables[table@].next_row_id as u64, values: row };
        assert(db@.log.take(old(db)@.log.len() as int) =~= old(db)@.log);
        assert(db@.log.skip(old(db)@.log.len() as int) =~= seq![rec]);
        assert(seq![rec].drop_last() =~= Seq::<RecordView>::empty());
        assert(replay(old(db)@.tables, Seq::<RecordView>::empty()) == old(db)@.tables);
        assert(replay(old(db)@.tables, seq![rec]) == apply_spec(old(db)@.tables, rec));
        lemma_single_record(old(db)@.tables, rec);
        assert(db@.tables == apply_spec(old(db)@.tables, rec));
        assert(insert_spec(old(db)@.tables, table@, opt_strings_view(columns), vv)
            == Ok::<(Map<Seq<char>, TableView>, QueryResultView), LsErrorView>((db@.tables, QueryResultView::RowsAffected(1))));
    }
    Ok(QueryResult::RowsAffected(1))
}

proof fn lemma_tables_contains_wf(tables: Map<Seq<char>, TableView>, k: Seq<char>)
    requires
        tables_wf(tables),
        tables.contains_key(k),
    ensures
        table_wf(tables[k]),
{
}

proof fn lemma_first_type_error_stable(cols: Seq<ColumnView>, vals: Seq<ValueView>, k: nat, m: nat)
    requires
        first_type_error(cols, vals, k) is Some,
        k <= m,
    ensures
        first_type_error(cols, vals, m) == first_type_error(cols, vals, k),
    decreases m,
{
    if m > k {
        lemma_first_type_error_stable(cols, vals, k, (m - 1) as nat);
    }
}

proof fn lemma_fill_slots_err_stable(cols: Seq<ColumnView>, names: Seq<Seq<char>>, vals: Seq<ValueView>, k: nat, m: nat)
    requires
        fill_slots(cols, names, vals, k) is Err,
        k <= m,
    ensures
        fill_slots(cols, names, vals, m) == fill_slots(cols, names, vals, k),
    decreases m,
{
    if m > k {
        lemma_fill_slots_err_stable(cols, names, vals, k, (m - 1) as nat);
    }
}

proof fn lemma_collect_slots_err_stable(cols: Seq<ColumnView>, slots: Seq<Option<ValueView>>, k: nat, m: nat)
    requires
        collect_slots(cols, slots, k) is Err,
        k <= m,
    ensures
        collect_slots(cols, slots, m) == collect_slots(cols, slots, k),
    decreases m,
{
    if m > k {
        lemma_collect_slots_err_stable(cols, slots, k, (m - 1) as nat);
    }
}


proof fn lemma_collect_slots_len(cols: Seq<ColumnView>, slots: Seq<Option<ValueView>>, n: nat)
    ensures
        collect_slots(cols, slots, n) matches Ok(acc) ==> acc.len() == n,
    decreases n,
{
    if n > 0 {
        lemma_collect_slots_len(cols, slots, (n - 1) as nat);
    }
}

proof fn lemma_insert_values_len(t: TableView, table: Seq<char>, columns: Option<Seq<Seq<char>>>, values: Seq<ValueView>)
    ensures
        insert_values_spec(t, table, columns, values) matches Ok(row) ==> row.len() == t.columns.len(),
{
    if let Some(names) = columns {
        if names.len() == values.len() {
            if let Ok(slots) = fill_slots(t.columns, names, values, names.len()) {
                lemma_collect_slots_len(t.columns, slots, t.columns.len());
            }
        }
    }
}


/// The `k`-th value of row `id`.
pub open spec fn row_cell(t: TableView, id: u64, k: usize) -> ValueView {
    t.rows[id][k as int]
}

/// How row `a` compares with row `b` on column `k` for ORDER BY: by value,
/// incomparable values counting as equal, reversed for DESC.
pub open spec fn sort_order(t: TableView, k: usize, dir: OrderDir, a: u64, b: u64) -> Ordering {
    let o = match value_order(row_cell(t, a, k), row_cell(t, b, k)) {
        Some(o) => o,
        None => Ordering::Equal,
    };
    match dir {
        OrderDir::Asc => o,
        OrderDir::Desc => reverse_order(o),
    }
}

/// Whether row `a` is ordered strictly before row `b`.
pub open spec fn goes_before(t: TableView, k: usize, dir: OrderDir, a: u64, b: u64) -> bool {
    sort_order(t, k, dir, a, b) == Ordering::Less
}

/// `sorted` with `x` placed after every element that it does not go
/// strictly before.
pub open spec fn insert_sorted(t: TableView, k: usize, dir: OrderDir, sorted: Seq<u64>, x: u64) -> Seq<u64>
    decreases sorted.len(),
{
    if sorted.len() == 0 {
        seq![x]
    } else if goes_before(t, k, dir, x, sorted.last()) {
        insert_sorted(t, k, dir, sorted.drop_last(), x).push(sorted.last())
    } else {
        sorted.push(x)
    }
}

/// The stable sort of `ids` by column `k`: rows that compare equal keep
/// their order.
pub open spec fn sort_ids(t: TableView, k: usize, dir: OrderDir, ids: Seq<u64>) -> Seq<u64>
    decreases ids.len(),
{
    if ids.len() == 0 {
        ids
    } else {
        insert_sorted(t, k, dir, sort_ids(t, k, dir, ids.drop_last()), ids.last())
    }
}

fn goes_before_exec(t: &Table, k: usize, dir: OrderDir, a: u64, b: u64) -> (r: bool)
    requires
        t@.rows.contains_key(a),
        t@.rows.contains_key(b),
        k < t@.rows[a].len(),
        k < t@.rows[b].len(),
    ensures
        r == goes_before(t@, k, dir, a, b),
{
    let ra = match t.rows.get(&a) {
        Some(r) => r,
        None => {
            return false;
        },
    };
    let rb = match t.rows.get(&b) {
        Some(r) => r,
        None => {
            return false;
        },
    };
    assert(t@.rows[a] == values_view(ra@));
    assert(t@.rows[b] == values_view(rb@));
    let o = match ra[k].partial_compare(&rb[k]) {
        Some(o) => o,
        None => Ordering::Equal,
    };
    let less = match dir {
        OrderDir::Asc => match o {
            Ordering::Less => true,
            _ => false,
        },
        OrderDir::Desc => match o {
            Ordering::Greater => true,
            _ => false,
        },
    };
    less
}

pub open spec fn sortable(t: TableView, k: usize, ids: Seq<u64>) -> bool {
    forall|m: int| 0 <= m < ids.len() ==> t.rows.contains_key(#[trigger] ids[m]) && k < t.rows[ids[m]].len()
}

fn sort_row_ids(t: &Table, k: usize, dir: OrderDir, ids: &Vec<u64>) -> (r: Vec<u64>)
    requires
        sortable(t@, k, ids@),
    ensures
        r@ == sort_ids(t@, k, dir, ids@),
{
    let mut sorted: Vec<u64> = Vec::new();
    let mut i: usize = 0;
    while i < ids.len()
        invariant
            i <= ids@.len(),
            sortable(t@, k, ids@),
            sortable(t@, k, sorted@),
            sorted@ == sort_ids(t@, k, dir, ids@.take(i as int)),
        decreases ids@.len() - i,
    {
        let x = ids[i];
        let ghost s = sorted@;
        let mut j: usize = sorted.len();
        assert(s.take(j as int) =~= s);
        assert(s.skip(j as int) =~= Seq::<u64>::empty());
        while j > 0 && goes_before_exec(t, k, dir, x, sorted[j - 1])
            invariant
                j <= s.len(),
                sorted@ == s,
                sortable(t@, k, s),
                t@.rows.contains_key(x),
                k < t@.rows[x].len(),
                insert_sorted(t@, k, dir, s, x) == insert_sorted(t@, k, dir, s.take(j as int), x) + s.skip(j as int),
            decreases j,
        {
            assert(s.take(j as int).drop_last() =~= s.take(j - 1));
            assert(s.take(j as int).last() == s[j - 1]);
            assert(s.skip(j - 1) =~= seq![s[j - 1]] + s.skip(j as int));
            assert(insert_sorted(t@, k, dir, s.take(j - 1), x).push(s[j - 1]) + s.skip(j as int)
                =~= insert_sorted(t@, k, dir, s.take(j - 1), x) + s.skip(j - 1));
            j = j - 1;
        }
        proof {
            if j == 0 {
                assert(s.take(0) =~= Seq::<u64>::empty());
                assert(s.skip(0) =~= s);
            } else {
                assert(s.take(j as int).last() == s[j - 1]);
                assert(insert_sorted(t@, k, dir, s.take(j as int), x) == s.take(j as int).push(x));
            }
        }
        sorted.insert(j, x);
        assert(sorted@ =~= insert_sorted(t@, k, dir, s, x)) by {
            if j == 0 {
                assert(sorted@ =~= seq![x] + s);
            } else {
                assert(sorted@ =~= s.take(j as int).push(x) + s.skip(j as int));
            }
        }
        assert(ids@.take(i + 1).drop_last() =~= ids@.take(i as int));
        assert(ids@.take(i + 1).last() == x);
        assert(sortable(t@, k, sorted@)) by {
            assert forall|m: int| 0 <= m < sorted@.len() implies t@.rows.contains_key(#[trigger] sorted@[m]) && k < t@.rows[sorted@[m]].len() by {
                if m < j {
                    assert(sorted@[m] == s[m]);
                } else if m > j {
                    assert(sorted@[m] == s[m - 1]);
                }
            }
        }
        i = i + 1;
    }
    assert(ids@.take(ids@.len() as int) =~= ids@);
    sorted
}


/// The first of the first `n` names that is no column of the table.
pub open spec fn first_missing_column(cols: Seq<ColumnView>, names: Seq<Seq<char>>, n: nat) -> Option<Seq<char>>
    decreases n,
{
    if n == 0 {
        None
    } else {
        match first_missing_column(cols, names, (n - 1) as nat) {
            Some(m) => Some(m),
            None => if column_index_spec(cols, names[n - 1]) is None {
                Some(names[n - 1])
            } else {
                None
            },
        }
    }
}

pub open spec fn column_names(cols: Seq<ColumnView>) -> Seq<Seq<char>> {
    cols.map_values(|c: ColumnView| c.name)
}

/// The output columns of a SELECT: every column for `*`, else the named
/// ones, which must all exist.
pub open spec fn select_columns_spec(t: TableView, columns: SelectColumnsView) -> Result<Seq<Seq<char>>, LsErrorView> {
    match columns {
        SelectColumnsView::All => Ok(column_names(t.columns)),
        SelectColumnsView::Named(names) => match first_missing_column(t.columns, names, names.len()) {
            Some(m) => Err(missing_column_error(m)),
            None => Ok(names),
        },
    }
}

/// The position of each named column (the first column whose name equals
/// it ignoring ASCII case).
pub open spec fn column_positions(cols: Seq<ColumnView>, names: Seq<Seq<char>>) -> Seq<nat> {
    names.map_values(|n: Seq<char>| match column_index_spec(cols, n) {
        Some(i) => i,
        None => 0,
    })
}

/// The values of a row at the given positions.
pub open spec fn project(row: Seq<ValueView>, idx: Seq<nat>) -> Seq<ValueView> {
    idx.map_values(|i: nat| row[i as int])
}

/// The first `n` ids when a LIMIT `n` is given.
pub open spec fn limit_ids(ids: Seq<u64>, limit: Option<u64>) -> Seq<u64> {
    match limit {
        Some(n) => if n < ids.len() { ids.take(n as int) } else { ids },
        None => ids,
    }
}

/// The ids of the selected rows in output order.
pub open spec fn ordered_ids(t: TableView, ids: Seq<u64>, order_by: Option<OrderByView>) -> Result<Seq<u64>, LsErrorView> {
    match order_by {
        None => Ok(ids),
        Some(ob) => match column_index_spec(t.columns, ob.column) {
            None => Err(missing_column_error(ob.column)),
            Some(k) => Ok(sort_ids(t, k as usize, ob.dir, ids)),
        },
    }
}

/// The columns and rows of a SELECT on a table: the rows that the WHERE
/// clause keeps, in increasing row id order, stably sorted by the ORDER BY
/// column, cut to the LIMIT, and projected on the output columns.
pub open spec fn select_spec(
    t: TableView,
    columns: SelectColumnsView,
    w: Option<ExprView>,
    order_by: Option<OrderByView>,
    limit: Option<u64>,
) -> Result<(Seq<Seq<char>>, Seq<Seq<ValueView>>), LsErrorView> {
    match matching_ids_spec(t, w) {
        Err(e) => Err(e),
        Ok(ids) => match select_columns_spec(t, columns) {
            Err(e) => Err(e),
            Ok(out_cols) => match ordered_ids(t, ids, order_by) {
                Err(e) => Err(e),
                Ok(sorted) => {
                    let out_idx = column_positions(t.columns, out_cols);
                    Ok((out_cols, limit_ids(sorted, limit).map_values(|id: u64| project(t.rows[id], out_idx))))
                },
            },
        },
    }
}

/// The effect of a SELECT: the tables are unchanged.
pub open spec fn select_db_spec(
    tables: Map<Seq<char>, TableView>,
    table: Seq<char>,
    columns: SelectColumnsView,
    w: Option<ExprView>,
    order_by: Option<OrderByView>,
    limit: Option<u64>,
) -> Result<(Map<Seq<char>, TableView>, QueryResultView), LsErrorView> {
    if !tables.contains_key(table) {
        Err(missing_table_error(table))
    } else {
        match select_spec(tables[table], columns, w, order_by, limit) {
            Err(e) => Err(e),
            Ok((c, r)) => Ok((tables, QueryResultView::Rows { columns: c, rows: r })),
        }
    }
}

pub open spec fn opt_order_by_view(o: Option<OrderBy>) -> Option<OrderByView> {
    match o {
        Some(x) => Some(x@),
        None => None,
    }
}

proof fn lemma_first_missing_stable(cols: Seq<ColumnView>, names: Seq<Seq<char>>, k: nat, m: nat)
    requires
        first_missing_column(cols, names, k) is Some,
        k <= m,
    ensures
        first_missing_column(cols, names, m) == first_missing_column(cols, names, k),
    decreases m,
{
    if m > k {
        lemma_first_missing_stable(cols, names, k, (m - 1) as nat);
    }
}

proof fn lemma_find_column_some(cols: Seq<ColumnView>, name: Seq<char>, i: nat, n: nat)
    requires
        i < n <= cols.len(),
        crate::storage::eq_ignore_ascii_case_spec(cols[i as int].name, name),
    ensures
        find_column_in(cols, name, n) is Some,
        find_column_in(cols, name, n) matches Some(j) ==> j < cols.len(),
    decreases n,
{
    crate::storage::lemma_find_column_in_bound(cols, name, n);
    if n > i + 1 {
        lemma_find_column_some(cols, name, i, (n - 1) as nat);
    }
}

/// The name of every column finds a column.
proof fn lemma_own_names_found(cols: Seq<ColumnView>)
    ensures
        forall|i: int| 0 <= i < cols.len() ==> #[trigger] column_index_spec(cols, cols[i].name) is Some,
{
    assert forall|i: int| 0 <= i < cols.len() implies #[trigger] column_index_spec(cols, cols[i].name) is Some by {
        lemma_find_column_some(cols, cols[i].name, i as nat, cols.len());
    }
}

fn copy_strings(v: &Vec<String>) -> (r: Vec<String>)
    ensures
        strings_view(r@) == strings_view(v@),
{
    let mut r: Vec<String> = Vec::new();
    let mut i: usize = 0;
    while i < v.len()
        invariant
            i <= v@.len(),
            strings_view(r@) == strings_view(v@.take(i as int)),
        decreases v@.len() - i,
    {
        let ghost before = r@;
        r.push(v[i].clone());
        assert(strings_view(r@) =~= strings_view(before).push(v@[i as int]@));
        assert(v@.take(i + 1) =~= v@.take(i as int).push(v@[i as int]));
        assert(strings_view(v@.take(i + 1)) =~= strings_view(v@.take(i as int)).push(v@[i as int]@));
        i = i + 1;
    }
    assert(v@.take(v@.len() as int) =~= v@);
    r
}

#[verifier::loop_isolation(false)]
#[verifier::rlimit(50)]
pub fn exec_select(
    db: &Database,
    table: &str,
    columns: SelectColumns,
    where_clause: Option<Expr>,
    order_by: Option<OrderBy>,
    limit: Option<u64>,
) -> (r: LsResult<QueryResult>)
    requires
        db.wf(),
    ensures
        match r {
            Ok(res) => select_db_spec(db@.tables, table@, columns@, opt_expr_view_ref(&where_clause), opt_order_by_view(order_by), limit)
                == Ok::<(Map<Seq<char>, TableView>, QueryResultView), LsErrorView>((db@.tables, res@)),
            Err(e) => select_db_spec(db@.tables, table@, columns@, opt_expr_view_ref(&where_clause), opt_order_by_view(order_by), limit)
                == Err::<(Map<Seq<char>, TableView>, QueryResultView), LsErrorView>(e@),
        },
{
    let t = db.table(table)?;
    let ghost tv = t@;
    proof {
        lemma_tables_contains_wf(db@.tables, table@);
        lemma_own_names_found(tv.columns);
    }
    let ghost w = opt_expr_view_ref(&where_clause);
    let mut ids = matching_row_ids(t, &where_clause)?;
    let ghost matched = ids@;
    assert(t@.columns.len() == t.columns@.len());
    let out_cols: Vec<String> = match &columns {
        SelectColumns::All => {
            let mut names: Vec<String> = Vec::new();
            let mut i: usize = 0;
            while i < t.columns.len()
                invariant
                    i <= t.columns@.len(),
                    strings_view(names@) == column_names(tv.columns).take(i as int),
                decreases t.columns@.len() - i,
            {
                let ghost before = names@;
                names.push(t.columns[i].name.clone());
                assert(tv.columns[i as int] == t.columns@[i as int]@);
                assert(strings_view(names@) =~= strings_view(before).push(t.columns@[i as int].name@));
                assert(column_names(tv.columns).take(i + 1) =~= column_names(tv.columns).take(i as int).push(tv.columns[i as int].name));
                i = i + 1;
            }
            assert(column_names(tv.columns).take(t.columns@.len() as int) =~= column_names(tv.columns));
            names
        },
        SelectColumns::Named(names) => {
            let ghost nv = strings_view(names@);
            let mut i: usize = 0;
            while i < names.len()
                invariant
                    i <= names@.len(),
                    nv == strings_view(names@),
                    first_missing_column(tv.columns, nv, i as nat) is None,
                decreases names@.len() - i,
            {
                if t.column_index(names[i].as_str()).is_none() {
                    proof {
                        lemma_first_missing_stable(tv.columns, nv, (i + 1) as nat, nv.len());
                    }
                    return Err(missing_column(names[i].as_str()));
                }
                i = i + 1;
            }
            copy_strings(names)
        },
    };
    let ghost oc = strings_view(out_cols@);
    assert(select_columns_spec(tv, columns@) == Ok::<Seq<Seq<char>>, LsErrorView>(oc));
    assert(forall|m: int| 0 <= m < oc.len() ==> #[trigger] column_index_spec(tv.columns, oc[m]) is Some) by {
        assert forall|m: int| 0 <= m < oc.len() implies #[trigger] column_index_spec(tv.columns, oc[m]) is Some by {
            match columns@ {
                SelectColumnsView::All => {
                    assert(oc[m] == tv.columns[m].name);
                },
                SelectColumnsView::Named(nv) => {
                    if column_index_spec(tv.columns, oc[m]) is None {
                        lemma_first_missing_found(tv.columns, nv, m as nat, nv.len());
                    }
                },
            }
        }
    }
    let mut out_idx: Vec<usize> = Vec::new();
    let mut i: usize = 0;
    while i < out_cols.len()
        invariant
            i <= out_cols@.len(),
            oc == strings_view(out_cols@),
            out_idx@.len() == i,
            forall|m: int| 0 <= m < i ==> out_idx@[m] as nat == column_positions(tv.columns, oc)[m],
            forall|m: int| 0 <= m < i ==> out_idx@[m] < tv.columns.len(),
        decreases out_cols@.len() - i,
    {
        match t.column_index(out_cols[i].as_str()) {
            Some(x) => {
                out_idx.push(x);
            },
            None => {
                assert(oc[i as int] == out_cols@[i as int]@);
                assert(false);
                return Err(missing_column(out_cols[i].as_str()));
            },
        }
        i = i + 1;
    }
    let ghost positions = column_positions(tv.columns, oc);
    proof {
        lemma_matching_in_rows(tv, w);
    }
    assert(forall|m: int| 0 <= m < matched.len() ==> tv.rows.contains_key(#[trigger] matched[m]));
    match &order_by {
        Some(ob) => {
            let sort_idx = match t.column_index(ob.column.as_str()) {
                Some(k) => k,
                None => {
                    return Err(missing_column(ob.column.as_str()));
                },
            };
            assert(sortable(tv, sort_idx, ids@)) by {
                assert forall|m: int| 0 <= m < ids@.len() implies tv.rows.contains_key(#[trigger] ids@[m]) && sort_idx < tv.rows[ids@[m]].len() by {
                    assert(tv.rows.contains_key(matched[m]));
                }
            }
            ids = sort_row_ids(t, sort_idx, ob.dir, &ids);
            proof {
                lemma_sort_members(tv, sort_idx, ob.dir, matched);
            }
        },
        None => {},
    }
    let ghost sorted = ids@;
    assert(ordered_ids(tv, matched, opt_order_by_view(order_by)) == Ok::<Seq<u64>, LsErrorView>(sorted));
    assert(forall|m: int| 0 <= m < sorted.len() ==> tv.rows.contains_key(#[trigger] sorted[m])) by {
        assert forall|m: int| 0 <= m < sorted.len() implies tv.rows.contains_key(#[trigger] sorted[m]) by {
            if order_by is Some {
                let x = sorted[m];
                assert(matched.contains(x));
                let q = choose|q: int| 0 <= q < matched.len() && matched[q] == x;
                assert(tv.rows.contains_key(matched[q]));
            }
        }
    }
    match limit {
        Some(n) => {
            if n < ids.len() as u64 {
                ids.truncate(n as usize);
            }
        },
        None => {},
    }
    assert(ids@ == limit_ids(sorted, limit));
    let mut rows: Vec<Vec<Value>> = Vec::new();
    let mut j: usize = 0;
    while j < ids.len()
        invariant
            j <= ids@.len(),
            ids@ == limit_ids(sorted, limit),
            forall|m: int| 0 <= m < ids@.len() ==> tv.rows.contains_key(#[trigger] ids@[m]),
            rows_list_view(rows@) == ids@.take(j as int).map_values(|id: u64| project(tv.rows[id], positions)),
        decreases ids@.len() - j,
    {
        let id = ids[j];
        let row = match t.rows.get(&id) {
            Some(r) => r,
            None => {
                assert(false);
                return Err(LsError::Storage(String::from_str("row shorter than schema")));
            },
        };
        assert(tv.rows[id] == values_view(row@));
        assert(row@.len() == tv.columns.len());
        let mut out_row: Vec<Value> = Vec::new();
        let mut c: usize = 0;
        while c < out_idx.len()
            invariant
                c <= out_idx@.len(),
                out_idx@.len() == positions.len(),
                values_view(out_row@) == positions.take(c as int).map_values(|x: nat| tv.rows[id][x as int]),
            decreases out_idx@.len() - c,
        {
            let ghost before = out_row@;
            let v = row[out_idx[c]].duplicate();
            out_row.push(v);
            assert(values_view(out_row@) =~= values_view(before).push(tv.rows[id][positions[c as int] as int]));
            assert(positions.take(c + 1) =~= positions.take(c as int).push(positions[c as int]));
            c = c + 1;
        }
        assert(positions.take(positions.len() as int) =~= positions);
        let ghost before_rows = rows@;
        rows.push(out_row);
        assert(rows_list_view(rows@) =~= rows_list_view(before_rows).push(project(tv.rows[id], positions)));
        assert(ids@.take(j + 1) =~= ids@.take(j as int).push(id));
        j = j + 1;
    }
    assert(ids@.take(ids@.len() as int) =~= ids@);
    Ok(QueryResult::Rows { columns: out_cols, rows })
}


proof fn lemma_first_missing_found(cols: Seq<ColumnView>, names: Seq<Seq<char>>, m: nat, n: nat)
    requires
        m < n,
        column_index_spec(cols, names[m as int]) is None,
    ensures
        first_missing_column(cols, names, n) is Some,
    decreases n,
{
    if n > m + 1 {
        lemma_first_missing_found(cols, names, m, (n - 1) as nat);
    }
}

proof fn lemma_filter_subset(t: TableView, w: Option<ExprView>, ids: Seq<u64>)
    ensures
        filter_ids(t, w, ids) matches Ok(acc) ==> forall|m: int| 0 <= m < acc.len() ==> ids.contains(#[trigger] acc[m]),
    decreases ids.len(),
{
    if ids.len() > 0 {
        lemma_filter_subset(t, w, ids.drop_last());
        if let Ok(acc) = filter_ids(t, w, ids) {
            let prev = filter_ids(t, w, ids.drop_last())->Ok_0;
            assert forall|m: int| 0 <= m < acc.len() implies ids.contains(#[trigger] acc[m]) by {
                if m < prev.len() {
                    assert(acc[m] == prev[m]);
                    assert(ids.drop_last().contains(prev[m]));
                    let q = choose|q: int| 0 <= q < ids.drop_last().len() && ids.drop_last()[q] == prev[m];
                    assert(ids[q] == prev[m]);
                } else {
                    assert(acc[m] == ids.last());
                    assert(ids[ids.len() - 1] == acc[m]);
                }
            }
        }
    }
}

/// The rows that a WHERE clause selects are live rows.
proof fn lemma_matching_in_rows(t: TableView, w: Option<ExprView>)
    requires
        table_wf(t),
        t.next_row_id <= u64::MAX + 1,
    ensures
        matching_ids_spec(t, w) matches Ok(ids) ==> forall|m: int| 0 <= m < ids.len() ==> t.rows.contains_key(#[trigger] ids[m]),
{
    lemma_filter_subset(t, w, row_ids_in_order(t));
    lemma_ids_below_props(t.rows.dom(), t.next_row_id);
    if let Ok(ids) = matching_ids_spec(t, w) {
        assert forall|m: int| 0 <= m < ids.len() implies t.rows.contains_key(#[trigger] ids[m]) by {
            assert(row_ids_in_order(t).contains(ids[m]));
        }
    }
}

proof fn lemma_insert_sorted_members(t: TableView, k: usize, dir: OrderDir, s: Seq<u64>, x: u64)
    ensures
        forall|m: int| 0 <= m < insert_sorted(t, k, dir, s, x).len() ==> (#[trigger] insert_sorted(t, k, dir, s, x)[m] == x || s.contains(insert_sorted(t, k, dir, s, x)[m])),
        insert_sorted(t, k, dir, s, x).len() == s.len() + 1,
    decreases s.len(),
{
    let r = insert_sorted(t, k, dir, s, x);
    if s.len() > 0 {
        if goes_before(t, k, dir, x, s.last()) {
            let r0 = insert_sorted(t, k, dir, s.drop_last(), x);
            lemma_insert_sorted_members(t, k, dir, s.drop_last(), x);
            assert forall|m: int| 0 <= m < r.len() implies (#[trigger] r[m] == x || s.contains(r[m])) by {
                if m < r0.len() {
                    if r0[m] != x {
                        let q = choose|q: int| 0 <= q < s.drop_last().len() && s.drop_last()[q] == r0[m];
                        assert(s[q] == r[m]);
                    }
                } else {
                    assert(s[s.len() - 1] == r[m]);
                }
            }
        } else {
            assert forall|m: int| 0 <= m < r.len() implies (#[trigger] r[m] == x || s.contains(r[m])) by {
                if m < s.len() {
                    assert(s[m] == r[m]);
                }
            }
        }
    }
}

pub proof fn lemma_sort_members(t: TableView, k: usize, dir: OrderDir, ids: Seq<u64>)
    ensures
        forall|m: int| 0 <= m < sort_ids(t, k, dir, ids).len() ==> ids.contains(#[trigger] sort_ids(t, k, dir, ids)[m]),
        sort_ids(t, k, dir, ids).len() == ids.len(),
    decreases ids.len(),
{
    if ids.len() > 0 {
        let prev = sort_ids(t, k, dir, ids.drop_last());
        lemma_sort_members(t, k, dir, ids.drop_last());
        lemma_insert_sorted_members(t, k, dir, prev, ids.last());
        let r = sort_ids(t, k, dir, ids);
        assert forall|m: int| 0 <= m < r.len() implies ids.contains(#[trigger] r[m]) by {
            if r[m] == ids.last() {
                assert(ids[ids.len() - 1] == r[m]);
            } else {
                assert(prev.contains(r[m]));
                let q = choose|q: int| 0 <= q < prev.len() && prev[q] == r[m];
                assert(ids.drop_last().contains(prev[q]));
                let q2 = choose|q2: int| 0 <= q2 < ids.drop_last().len() && ids.drop_last()[q2] == prev[q];
                assert(ids[q2] == r[m]);
            }
        }
    }
}


/// The effect of a DELETE: the rows that the WHERE clause selects are gone.
pub open spec fn delete_spec(tables: Map<Seq<char>, TableView>, table: Seq<char>, w: Option<ExprView>) -> Result<(Map<Seq<char>, TableView>, QueryResultView), LsErrorView> {
    if !tables.contains_key(table) {
        Err(missing_table_error(table))
    } else {
        let t = tables[table];
        match matching_ids_spec(t, w) {
            Err(e) => Err(e),
            Ok(ids) => Ok((
                tables.insert(table, TableView { rows: t.rows.remove_keys(ids.to_set()), ..t }),
                QueryResultView::RowsAffected(ids.len() as usize),
            )),
        }
    }
}

/// The column positions of the first `n` assignments of an UPDATE, or the
/// first error: a name that is no column, or a value of the wrong type.
pub open spec fn resolve_assignments(cols: Seq<ColumnView>, assigns: Seq<(Seq<char>, ValueView)>, n: nat) -> Result<Seq<nat>, LsErrorView>
    decreases n,
{
    if n == 0 {
        Ok(Seq::empty())
    } else {
        match resolve_assignments(cols, assigns, (n - 1) as nat) {
            Err(e) => Err(e),
            Ok(idx) => match column_index_spec(cols, assigns[n - 1].0) {
                None => Err(missing_column_error(assigns[n - 1].0)),
                Some(i) => match check_type_spec(cols[i as int].ty, assigns[n - 1].1) {
                    Some(e) => Err(e),
                    None => Ok(idx.push(i)),
                },
            },
        }
    }
}

/// A row after the first `n` assignments, made in order.
pub open spec fn assign_row(row: Seq<ValueView>, idx: Seq<nat>, assigns: Seq<(Seq<char>, ValueView)>, n: nat) -> Seq<ValueView>
    decreases n,
{
    if n == 0 {
        row
    } else {
        assign_row(row, idx, assigns, (n - 1) as nat).update(idx[n - 1] as int, assigns[n - 1].1)
    }
}

/// The rows after every row whose id is in `ids` has been assigned.
pub open spec fn updated_rows(rows: Map<u64, Seq<ValueView>>, ids: Set<u64>, idx: Seq<nat>, assigns: Seq<(Seq<char>, ValueView)>) -> Map<u64, Seq<ValueView>> {
    Map::new(
        |id: u64| rows.contains_key(id),
        |id: u64| if ids.contains(id) { assign_row(rows[id], idx, assigns, assigns.len()) } else { rows[id] },
    )
}

/// The effect of an UPDATE: every row that the WHERE clause selects gets
/// the assigned values.
pub open spec fn update_spec(tables: Map<Seq<char>, TableView>, table: Seq<char>, assigns: Seq<(Seq<char>, ValueView)>, w: Option<ExprView>) -> Result<(Map<Seq<char>, TableView>, QueryResultView), LsErrorView> {
    if !tables.contains_key(table) {
        Err(missing_table_error(table))
    } else {
        let t = tables[table];
        match resolve_assignments(t.columns, assigns, assigns.len()) {
            Err(e) => Err(e),
            Ok(idx) => match matching_ids_spec(t, w) {
                Err(e) => Err(e),
                Ok(ids) => Ok((
                    tables.insert(table, TableView { rows: updated_rows(t.rows, ids.to_set(), idx, assigns), ..t }),
                    QueryResultView::RowsAffected(ids.len() as usize),
                )),
            },
        }
    }
}

pub open spec fn stored_columns(defs: Seq<ColumnDefView>) -> Seq<ColumnView> {
    defs.map_values(|d: ColumnDefView| ColumnView { name: d.name, ty: d.ty })
}

pub open spec fn duplicate_table_error(table: Seq<char>) -> LsErrorView {
    LsErrorView::Duplicate("table '"@ + table + "' already exists"@)
}

/// The effect of a CREATE TABLE: a new empty table.
pub open spec fn create_spec(tables: Map<Seq<char>, TableView>, table: Seq<char>, defs: Seq<ColumnDefView>) -> Result<(Map<Seq<char>, TableView>, QueryResultView), LsErrorView> {
    if tables.contains_key(table) {
        Err(duplicate_table_error(table))
    } else {
        Ok((
            apply_spec(tables, RecordView::CreateTable { table, columns: stored_columns(defs) }),
            QueryResultView::Done,
        ))
    }
}

/// The effect of a statement on the tables, and its result.
pub open spec fn execute_spec(tables: Map<Seq<char>, TableView>, stmt: StatementView) -> Result<(Map<Seq<char>, TableView>, QueryResultView), LsErrorView> {
    match stmt {
        StatementView::CreateTable { table, columns } => create_spec(tables, table, columns),
        StatementView::Insert { table, columns, values } => insert_spec(tables, table, columns, values),
        StatementView::Select { table, columns, where_clause, order_by, limit } => select_db_spec(
            tables,
            table,
            columns,
            where_clause,
            order_by,
            limit,
        ),
        StatementView::Delete { table, where_clause } => delete_spec(tables, table, where_clause),
        StatementView::Update { table, assignments, where_clause } => update_spec(tables, table, assignments, where_clause),
    }
}

/// Two logged changes one after the other are one logged change: the log
/// only grows, and the records added by both, replayed on the first state,
/// give the last state.
pub proof fn law_logged_change_chains(
    a: crate::storage::DatabaseView,
    b: crate::storage::DatabaseView,
    c: crate::storage::DatabaseView,
)
    requires
        logged_change(a, b),
        logged_change(b, c),
    ensures
        logged_change(a, c),
{
    let na = a.log.len() as int;
    let nb = b.log.len() as int;
    let xs = b.log.skip(na);
    let ys = c.log.skip(nb);
    assert(c.log.take(nb).take(na) =~= c.log.take(na));
    assert(c.log.skip(na) =~= xs + ys) by {
        assert(c.log.take(nb) == b.log);
    }
    law_replay_concat(a.tables, xs, ys);
}

/// A database that started empty is rebuilt by its log: replaying the
/// records it has logged, from no tables, fits at every step and gives its
/// tables back.
pub proof fn law_log_rebuilds_tables(start: crate::storage::DatabaseView, end: crate::storage::DatabaseView)
    requires
        start.tables == Map::<Seq<char>, TableView>::empty(),
        start.log == Seq::<RecordView>::empty(),
        logged_change(start, end),
    ensures
        log_fits(Map::empty(), end.log),
        replay(Map::empty(), end.log) == end.tables,
{
    assert(end.log.skip(0) =~= end.log);
}

proof fn lemma_logged_start(d: crate::storage::DatabaseView)
    ensures
        logged_change(d, d),
{
    assert(d.log.take(d.log.len() as int) =~= d.log);
    assert(d.log.skip(d.log.len() as int) =~= Seq::<RecordView>::empty());
}

proof fn lemma_logged_step(
    old: crate::storage::DatabaseView,
    mid: crate::storage::DatabaseView,
    new: crate::storage::DatabaseView,
    rec: RecordView,
)
    requires
        logged_change(old, mid),
        new.log == mid.log.push(rec),
        new.tables == apply_spec(mid.tables, rec),
        record_fits(mid.tables, rec),
    ensures
        logged_change(old, new),
{
    let n = old.log.len() as int;
    assert(new.log.take(n) =~= mid.log.take(n));
    assert(new.log.skip(n) =~= mid.log.skip(n).push(rec));
    lemma_replay_push(old.tables, mid.log.skip(n), rec);
    assert(new.log.skip(n).drop_last() =~= mid.log.skip(n));
}

/// The ids selected by a WHERE clause are strictly increasing.
pub proof fn lemma_filter_increasing(t: TableView, w: Option<ExprView>, ids: Seq<u64>)
    requires
        forall|a: int, b: int| 0 <= a < b < ids.len() ==> ids[a] < ids[b],
    ensures
        filter_ids(t, w, ids) matches Ok(acc) ==> forall|a: int, b: int| 0 <= a < b < acc.len() ==> acc[a] < acc[b],
    decreases ids.len(),
{
    if ids.len() > 0 {
        let ids2 = ids.drop_last();
        lemma_filter_increasing(t, w, ids2);
        lemma_filter_subset(t, w, ids2);
        if let Ok(acc) = filter_ids(t, w, ids) {
            let prev = filter_ids(t, w, ids2)->Ok_0;
            assert forall|a: int, b: int| 0 <= a < b < acc.len() implies acc[a] < acc[b] by {
                if b >= prev.len() {
                    assert(ids2.contains(prev[a]));
                    let q = choose|q: int| 0 <= q < ids2.len() && ids2[q] == prev[a];
                    assert(ids[q] < ids[ids.len() - 1]);
                }
            }
        }
    }
}

#[verifier::loop_isolation(false)]
pub fn exec_delete(db: &mut Database, table: &str, where_clause: Option<Expr>) -> (r: LsResult<QueryResult>)
    requires
        old(db).wf(),
    ensures
        final(db).wf(),
        match r {
            Ok(res) => delete_spec(old(db)@.tables, table@, opt_expr_view_ref(&where_clause))
                == Ok::<(Map<Seq<char>, TableView>, QueryResultView), LsErrorView>((final(db)@.tables, res@))
                && logged_change(old(db)@, final(db)@),
            Err(e) => delete_spec(old(db)@.tables, table@, opt_expr_view_ref(&where_clause))
                == Err::<(Map<Seq<char>, TableView>, QueryResultView), LsErrorView>(e@)
                && final(db)@ == old(db)@,
        },
{
    let ghost t0 = old(db)@.tables[table@];
    let ghost w = opt_expr_view_ref(&where_clause);
    let ids = {
        let t = db.table(table)?;
        proof {
            lemma_tables_contains_wf(db@.tables, table@);
        }
        matching_row_ids(t, &where_clause)?
    };
    proof {
        lemma_logged_start(db@);
        assert(t0.rows.remove_keys(ids@.take(0).to_set()) =~= t0.rows);
        assert(old(db)@.tables.insert(table@, TableView { rows: t0.rows, ..t0 }) =~= old(db)@.tables);
    }
    let mut i: usize = 0;
    while i < ids.len()
        invariant
            i <= ids@.len(),
            db.wf(),
            db@.tables.contains_key(table@),
            db@.tables == old(db)@.tables.insert(table@, TableView { rows: t0.rows.remove_keys(ids@.take(i as int).to_set()), ..t0 }),
            logged_change(old(db)@, db@),
        decreases ids@.len() - i,
    {
        let id = ids[i];
        let ghost mid = db@;
        match db.delete_row(table, id) {
            Ok(()) => {},
            Err(e) => {
                assert(false);
                return Err(e);
            },
        }
        proof {
            lemma_logged_step(old(db)@, mid, db@, RecordView::Delete { table: table@, row_id: id });
            assert(ids@.take(i + 1).to_set() =~= ids@.take(i as int).to_set().insert(id)) by {
                assert(ids@.take(i + 1) =~= ids@.take(i as int).push(id));
                ids@.take(i as int).lemma_push_to_set_commute(id);
            }
            assert(t0.rows.remove_keys(ids@.take(i as int).to_set()).remove(id)
                =~= t0.rows.remove_keys(ids@.take(i + 1).to_set()));
            assert(db@.tables =~= old(db)@.tables.insert(table@, TableView { rows: t0.rows.remove_keys(ids@.take(i + 1).to_set()), ..t0 }));
        }
        i = i + 1;
    }
    assert(ids@.take(ids@.len() as int) =~= ids@);
    Ok(QueryResult::RowsAffected(ids.len()))
}


proof fn lemma_resolve_err_stable(cols: Seq<ColumnView>, assigns: Seq<(Seq<char>, ValueView)>, k: nat, m: nat)
    requires
        resolve_assignments(cols, assigns, k) is Err,
        k <= m,
    ensures
        resolve_assignments(cols, assigns, m) == resolve_assignments(cols, assigns, k),
    decreases m,
{
    if m > k {
        lemma_resolve_err_stable(cols, assigns, k, (m - 1) as nat);
    }
}

proof fn lemma_resolve_len(cols: Seq<ColumnView>, assigns: Seq<(Seq<char>, ValueView)>, n: nat)
    ensures
        resolve_assignments(cols, assigns, n) matches Ok(idx) ==> idx.len() == n,
    decreases n,
{
    if n > 0 {
        lemma_resolve_len(cols, assigns, (n - 1) as nat);
    }
}

#[verifier::loop_isolation(false)]
#[verifier::rlimit(50)]
pub fn exec_update(db: &mut Database, table: &str, assignments: Vec<(String, Value)>, where_clause: Option<Expr>) -> (r: LsResult<QueryResult>)
    requires
        old(db).wf(),
    ensures
        final(db).wf(),
        match r {
            Ok(res) => update_spec(old(db)@.tables, table@, assignments_view(assignments@), opt_expr_view_ref(&where_clause))
                == Ok::<(Map<Seq<char>, TableView>, QueryResultView), LsErrorView>((final(db)@.tables, res@))
                && logged_change(old(db)@, final(db)@),
            Err(e) => update_spec(old(db)@.tables, table@, assignments_view(assignments@), opt_expr_view_ref(&where_clause))
                == Err::<(Map<Seq<char>, TableView>, QueryResultView), LsErrorView>(e@)
                && final(db)@ == old(db)@,
        },
{
    let ghost t0 = old(db)@.tables[table@];
    let ghost av = assignments_view(assignments@);
    let ghost w = opt_expr_view_ref(&where_clause);
    let (ids, set_idx) = {
        let t = db.table(table)?;
        proof {
            lemma_tables_contains_wf(db@.tables, table@);
        }
        assert(t@.columns.len() == t.columns@.len());
        let mut set_idx: Vec<usize> = Vec::new();
        assert(set_idx@.map_values(|x: usize| x as nat) =~= Seq::<nat>::empty());
        let mut i: usize = 0;
        while i < assignments.len()
            invariant
                i <= assignments@.len(),
                t0 == t@,
                resolve_assignments(t0.columns, av, i as nat) == Ok::<Seq<nat>, LsErrorView>(set_idx@.map_values(|x: usize| x as nat)),
                forall|m: int| 0 <= m < set_idx@.len() ==> set_idx@[m] < t0.columns.len(),
            decreases assignments@.len() - i,
        {
            assert(av[i as int] == (assignments@[i as int].0@, assignments@[i as int].1@));
            let idx = match t.column_index(assignments[i].0.as_str()) {
                Some(x) => x,
                None => {
                    proof {
                        lemma_resolve_err_stable(t0.columns, av, (i + 1) as nat, av.len());
                    }
                    return Err(missing_column(assignments[i].0.as_str()));
                },
            };
            assert(t0.columns[idx as int] == t.columns@[idx as int]@);
            match check_type(t.columns[idx].ty, &assignments[i].1) {
                Ok(()) => {},
                Err(e) => {
                    proof {
                        lemma_resolve_err_stable(t0.columns, av, (i + 1) as nat, av.len());
                    }
                    return Err(e);
                },
            }
            let ghost before = set_idx@;
            set_idx.push(idx);
            assert(set_idx@.map_values(|x: usize| x as nat) =~= before.map_values(|x: usize| x as nat).push(idx as nat));
            i = i + 1;
        }
        (matching_row_ids(t, &where_clause)?, set_idx)
    };
    let ghost idxv = set_idx@.map_values(|x: usize| x as nat);
    assert(resolve_assignments(t0.columns, av, av.len()) == Ok::<Seq<nat>, LsErrorView>(idxv));
    proof {
        lemma_resolve_len(t0.columns, av, av.len());
        assert(idxv.len() == set_idx@.len());
        lemma_logged_start(db@);
        lemma_matching_in_rows(t0, w);
        lemma_ids_below_props(t0.rows.dom(), t0.next_row_id);
        lemma_filter_increasing(t0, w, row_ids_in_order(t0));
        assert(updated_rows(t0.rows, ids@.take(0).to_set(), idxv, av) =~= t0.rows);
        assert(old(db)@.tables.insert(table@, TableView { rows: t0.rows, ..t0 }) =~= old(db)@.tables);
    }
    let mut i: usize = 0;
    while i < ids.len()
        invariant
            i <= ids@.len(),
            db.wf(),
            db@.tables.contains_key(table@),
            db@.tables == old(db)@.tables.insert(table@, TableView { rows: updated_rows(t0.rows, ids@.take(i as int).to_set(), idxv, av), ..t0 }),
            logged_change(old(db)@, db@),
        decreases ids@.len() - i,
    {
        let id = ids[i];
        assert(t0.rows.contains_key(id));
        assert(!ids@.take(i as int).to_set().contains(id)) by {
            if ids@.take(i as int).to_set().contains(id) {
                let q = choose|q: int| 0 <= q < ids@.take(i as int).len() && ids@.take(i as int)[q] == id;
                assert(ids@[q] < ids@[i as int]);
            }
        }
        let mut row = {
            let t = match db.table(table) {
                Ok(t) => t,
                Err(e) => {
                    assert(false);
                    return Err(e);
                },
            };
            match t.rows.get(&id) {
                Some(r) => crate::storage::copy_values(r),
                None => {
                    assert(false);
                    return Err(LsError::Storage(String::from_str("row shorter than schema")));
                },
            }
        };
        assert(values_view(row@) == t0.rows[id]);
        assert(row@.len() == t0.columns.len());
        let mut a: usize = 0;
        while a < set_idx.len()
            invariant
                a <= set_idx@.len(),
                row@.len() == t0.columns.len(),
                values_view(row@) == assign_row(t0.rows[id], idxv, av, a as nat),
            decreases set_idx@.len() - a,
        {
            let ghost before = row@;
            let v = assignments[a].1.duplicate();
            row.set(set_idx[a], v);
            assert(values_view(row@) =~= values_view(before).update(set_idx@[a as int] as int, av[a as int].1));
            a = a + 1;
        }
        let ghost newrow = values_view(row@);
        let ghost mid = db@;
        match db.update_row(table, id, row) {
            Ok(()) => {},
            Err(e) => {
                assert(false);
                return Err(e);
            },
        }
        proof {
            lemma_logged_step(old(db)@, mid, db@, RecordView::Update { table: table@, row_id: id, values: newrow });
            assert(ids@.take(i + 1).to_set() =~= ids@.take(i as int).to_set().insert(id)) by {
                assert(ids@.take(i + 1) =~= ids@.take(i as int).push(id));
                ids@.take(i as int).lemma_push_to_set_commute(id);
            }
            assert(updated_rows(t0.rows, ids@.take(i as int).to_set(), idxv, av).insert(id, newrow)
                =~= updated_rows(t0.rows, ids@.take(i + 1).to_set(), idxv, av));
            assert(db@.tables =~= old(db)@.tables.insert(table@, TableView { rows: updated_rows(t0.rows, ids@.take(i + 1).to_set(), idxv, av), ..t0 }));
        }
        i = i + 1;
    }
    assert(ids@.take(ids@.len() as int) =~= ids@);
    Ok(QueryResult::RowsAffected(ids.len()))
}


fn stored_from_defs(defs: Vec<ColumnDef>) -> (r: Vec<StoredColumn>)
    ensures
        columns_view(r@) == stored_columns(column_defs_view(defs@)),
{
    let mut r: Vec<StoredColumn> = Vec::new();
    let mut i: usize = 0;
    while i < defs.len()
        invariant
            i <= defs@.len(),
            columns_view(r@) == stored_columns(column_defs_view(defs@)).take(i as int),
        decreases defs@.len() - i,
    {
        let ghost before = r@;
        r.push(StoredColumn { name: defs[i].name.clone(), ty: defs[i].ty });
        assert(columns_view(r@) =~= columns_view(before).push(stored_columns(column_defs_view(defs@))[i as int]));
        assert(stored_columns(column_defs_view(defs@)).take(i + 1) =~= stored_columns(column_defs_view(defs@)).take(i as int).push(stored_columns(column_defs_view(defs@))[i as int]));
        i = i + 1;
    }
    assert(stored_columns(column_defs_view(defs@)).take(defs@.len() as int) =~= stored_columns(column_defs_view(defs@)));
    r
}

/// Runs one statement against the database. On success the result and
/// the new tables are those of `execute_spec`, and the log has grown by
/// records whose replay onto the old tables gives the new ones; a
/// statement that fails changes nothing.
pub fn execute(db: &mut Database, stmt: Statement) -> (r: LsResult<QueryResult>)
    requires
        old(db).wf(),
        ids_available(old(db)@.tables),
    ensures
        final(db).wf(),
        match r {
            Ok(res) => execute_spec(old(db)@.tables, stmt@)
                == Ok::<(Map<Seq<char>, TableView>, QueryResultView), LsErrorView>((final(db)@.tables, res@))
                && logged_change(old(db)@, final(db)@),
            Err(e) => execute_spec(old(db)@.tables, stmt@)
                == Err::<(Map<Seq<char>, TableView>, QueryResultView), LsErrorView>(e@)
                && final(db)@ == old(db)@,
        },
{
    let ghost sv = stmt@;
    match stmt {
        Statement::CreateTable { table, columns } => {
            let stored = stored_from_defs(columns);
            let ghost cv = columns_view(stored@);
            match db.create_table(table.as_str(), stored) {
                Ok(()) => {},
                Err(e) => {
                    return Err(e);
                },
            }
            proof {
                let rec = RecordView::CreateTable { table: table@, columns: cv };
                let d0 = old(db)@;
                assert(db@.log.take(d0.log.len() as int) =~= d0.log);
                assert(db@.log.skip(d0.log.len() as int) =~= seq![rec]);
                assert(seq![rec].drop_last() =~= Seq::<RecordView>::empty());
                assert(replay(d0.tables, seq![rec]) == apply_spec(replay(d0.tables, Seq::<RecordView>::empty()), rec));
                lemma_single_record(d0.tables, rec);
            }
            Ok(QueryResult::Done)
        },
        Statement::Insert { table, columns, values } => exec_insert(db, table.as_str(), columns, values),
        Statement::Select { table, columns, where_clause, order_by, limit } => {
            let r = exec_select(db, table.as_str(), columns, where_clause, order_by, limit);
            proof {
                lemma_logged_start(db@);
            }
            r
        },
        Statement::Delete { table, where_clause } => exec_delete(db, table.as_str(), where_clause),
        Statement::Update { table, assignments, where_clause } => exec_update(db, table.as_str(), assignments, where_clause),
    }
}

} // verus!
