//! Properties of the engine as a whole, stated over the meaning of
//! statements (`execute_spec`) and proved from it: what a WHERE clause
//! selects, what UPDATE and DELETE leave alone, that stored values always
//! have their column's type, and that row ids are never handed out twice.

use vstd::prelude::*;
use crate::ast::{CompareOp, ExprView, OrderByView, OrderDir, SelectColumnsView, StatementView};
use crate::error::LsErrorView;
use crate::executor::{
    QueryResultView, assign_row, collect_slots, compare_spec, delete_spec, eval_spec, execute_spec, fill_slots, filter_ids,
    first_type_error, goes_before, insert_sorted, insert_values_spec, lemma_filter_increasing, lemma_sort_members,
    matching_ids_spec, resolve_assignments, row_cell, sort_ids, update_spec, select_spec, ordered_ids,
    column_positions, column_names, project, missing_where_column, select_columns_spec, check_type_spec,
    insert_spec, create_spec,
};
use crate::storage::{
    apply_spec, column_index_spec, replay, RecordView,
    ColumnView, TableView, ids_available, lemma_find_column_in_bound, lemma_ids_below_props,
    row_ids_in_order, table_wf, tables_wf,
};
use crate::types::{ColumnType, ValueView, law_value_order_antisymmetric, law_value_order_reflexive, value_type};

verus! {

/// Whether the optional WHERE expression keeps the row with this id.
pub open spec fn where_keeps(t: TableView, w: Option<ExprView>, id: u64) -> bool {
    match w {
        None => true,
        Some(e) => eval_spec(t, t.rows[id], e) == Ok::<bool, LsErrorView>(true),
    }
}

proof fn lemma_filter_exact(t: TableView, w: Option<ExprView>, ids: Seq<u64>)
    ensures
        filter_ids(t, w, ids) matches Ok(acc) ==> forall|x: u64|
            acc.contains(x) <==> (ids.contains(x) && where_keeps(t, w, x)),
    decreases ids.len(),
{
    if ids.len() > 0 {
        let ids2 = ids.drop_last();
        let last = ids.last();
        lemma_filter_exact(t, w, ids2);
        if let Ok(acc) = filter_ids(t, w, ids) {
            let prev = filter_ids(t, w, ids2)->Ok_0;
            assert forall|x: u64| acc.contains(x) <==> (ids.contains(x) && where_keeps(t, w, x)) by {
                assert(ids =~= ids2.push(last));
                if ids.contains(x) && x != last {
                    let q = choose|q: int| 0 <= q < ids.len() && ids[q] == x;
                    assert(ids2[q] == x);
                }
                if ids2.contains(x) {
                    let q = choose|q: int| 0 <= q < ids2.len() && ids2[q] == x;
                    assert(ids[q] == x);
                }
                assert(ids[ids.len() - 1] == last);
                if acc =~= prev.push(last) {
                    if acc.contains(x) && x != last {
                        let q = choose|q: int| 0 <= q < acc.len() && acc[q] == x;
                        assert(prev[q] == x);
                    }
                    if prev.contains(x) {
                        let q = choose|q: int| 0 <= q < prev.len() && prev[q] == x;
                        assert(acc[q] == x);
                    }
                    assert(acc[acc.len() - 1] == last);
                }
            }
        }
    }
}

/// A WHERE clause selects exactly the live rows for which it evaluates to
/// true (every live row when there is none), each once, in increasing
/// order of row id.
pub proof fn law_where_selects_exactly(t: TableView, w: Option<ExprView>)
    requires
        table_wf(t),
        t.next_row_id <= u64::MAX + 1,
    ensures
        matching_ids_spec(t, w) matches Ok(ids) ==> {
            &&& forall|id: u64| ids.contains(id) <==> (t.rows.contains_key(id) && where_keeps(t, w, id))
            &&& forall|a: int, b: int| 0 <= a < b < ids.len() ==> ids[a] < ids[b]
        },
{
    let all = row_ids_in_order(t);
    lemma_ids_below_props(t.rows.dom(), t.next_row_id);
    lemma_filter_exact(t, w, all);
    lemma_filter_increasing(t, w, all);
    if let Ok(ids) = matching_ids_spec(t, w) {
        assert forall|id: u64| ids.contains(id) <==> (t.rows.contains_key(id) && where_keeps(t, w, id)) by {
            if t.rows.contains_key(id) {
                assert(t.rows.dom().contains(id));
            }
        }
    }
}

/// Every row of a result has one value per result column.
pub proof fn law_result_rows_match_columns(tables: Map<Seq<char>, TableView>, stmt: StatementView)
    ensures
        execute_spec(tables, stmt) matches Ok((_, QueryResultView::Rows { columns, rows })) ==> forall|k: int|
            0 <= k < rows.len() ==> #[trigger] rows[k].len() == columns.len(),
{
}


/// UPDATE changes exactly the rows that its WHERE clause selects: each of
/// them gets the assigned values, applied in order; every other row and
/// every other table stay as they were, as do the schema, the set of row
/// ids and the next row id. The result counts the rows selected.
pub proof fn law_update_changes_only_selected(
    tables: Map<Seq<char>, TableView>,
    table: Seq<char>,
    assigns: Seq<(Seq<char>, ValueView)>,
    w: Option<ExprView>,
)
    requires
        tables_wf(tables),
        ids_available(tables),
    ensures
        update_spec(tables, table, assigns, w) matches Ok((new, res)) ==> {
            let t = tables[table];
            let nt = new[table];
            &&& new.dom() == tables.dom()
            &&& forall|k: Seq<char>| k != table && #[trigger] tables.contains_key(k) ==> new[k] == tables[k]
            &&& nt.columns == t.columns
            &&& nt.next_row_id == t.next_row_id
            &&& nt.rows.dom() == t.rows.dom()
            &&& forall|id: u64| #[trigger] t.rows.contains_key(id) && !where_keeps(t, w, id) ==> nt.rows[id] == t.rows[id]
            &&& forall|id: u64| #[trigger] t.rows.contains_key(id) && where_keeps(t, w, id) ==> match resolve_assignments(t.columns, assigns, assigns.len()) {
                Ok(idx) => nt.rows[id] == assign_row(t.rows[id], idx, assigns, assigns.len()),
                Err(_) => false,
            }
            &&& matching_ids_spec(t, w) matches Ok(ids) && res == QueryResultView::RowsAffected(ids.len() as usize)
        },
{
    if let Ok((new, res)) = update_spec(tables, table, assigns, w) {
        let t = tables[table];
        assert(table_wf(t));
        law_where_selects_exactly(t, w);
        assert(new.dom() =~= tables.dom());
        assert(new[table].rows.dom() =~= t.rows.dom());
        let ids = matching_ids_spec(t, w)->Ok_0;
        assert forall|id: u64| #[trigger] t.rows.contains_key(id) && !where_keeps(t, w, id) implies new[table].rows[id] == t.rows[id] by {
            assert(!ids.to_set().contains(id));
        }
        assert forall|id: u64| #[trigger] t.rows.contains_key(id) && where_keeps(t, w, id) implies match resolve_assignments(t.columns, assigns, assigns.len()) {
            Ok(idx) => new[table].rows[id] == assign_row(t.rows[id], idx, assigns, assigns.len()),
            Err(_) => false,
        } by {
            assert(ids.to_set().contains(id));
        }
    }
}

/// DELETE removes exactly the rows that its WHERE clause selects; the rows
/// that stay keep their values, every other table stays as it was, and the
/// schema and the next row id do not change. The result counts the rows
/// removed.
pub proof fn law_delete_removes_only_selected(tables: Map<Seq<char>, TableView>, table: Seq<char>, w: Option<ExprView>)
    requires
        tables_wf(tables),
        ids_available(tables),
    ensures
        delete_spec(tables, table, w) matches Ok((new, res)) ==> {
            let t = tables[table];
            let nt = new[table];
            &&& new.dom() == tables.dom()
            &&& forall|k: Seq<char>| k != table && #[trigger] tables.contains_key(k) ==> new[k] == tables[k]
            &&& nt.columns == t.columns
            &&& nt.next_row_id == t.next_row_id
            &&& forall|id: u64| #[trigger] nt.rows.contains_key(id) <==> (t.rows.contains_key(id) && !where_keeps(t, w, id))
            &&& forall|id: u64| #[trigger] nt.rows.contains_key(id) ==> nt.rows[id] == t.rows[id]
            &&& matching_ids_spec(t, w) matches Ok(ids) && res == QueryResultView::RowsAffected(ids.len() as usize)
        },
{
    if let Ok((new, res)) = delete_spec(tables, table, w) {
        let t = tables[table];
        assert(table_wf(t));
        law_where_selects_exactly(t, w);
        assert(new.dom() =~= tables.dom());
        let ids = matching_ids_spec(t, w)->Ok_0;
        assert forall|id: u64| #[trigger] new[table].rows.contains_key(id) <==> (t.rows.contains_key(id) && !where_keeps(t, w, id)) by {
            assert(ids.to_set().contains(id) == ids.contains(id));
        }
    }
}

/// How a table's row ids stand after a statement: the next id to hand out
/// never goes down, a row that was not there before has an id at or past
/// the old next id, and an id below the old next id that was free (its row
/// deleted) stays free.
pub open spec fn ids_never_reused(before: TableView, after: TableView) -> bool {
    &&& before.next_row_id <= after.next_row_id
    &&& forall|id: u64| #[trigger] after.rows.contains_key(id) && !before.rows.contains_key(id) ==> before.next_row_id <= id
    &&& forall|id: u64| id < before.next_row_id && !before.rows.contains_key(id) ==> !#[trigger] after.rows.contains_key(id)
}

/// Row ids are never reused: no statement removes a table, and for every
/// table the ids stand as `ids_never_reused` says; a table that a statement
/// creates starts empty, handing out 1 first.
pub proof fn law_row_ids_never_reused(tables: Map<Seq<char>, TableView>, stmt: StatementView)
    requires
        tables_wf(tables),
        ids_available(tables),
    ensures
        execute_spec(tables, stmt) matches Ok((new, _)) ==> {
            &&& forall|k: Seq<char>| #[trigger] tables.contains_key(k) ==> new.contains_key(k) && ids_never_reused(tables[k], new[k])
            &&& forall|k: Seq<char>| #[trigger] new.contains_key(k) && !tables.contains_key(k) ==> new[k].next_row_id == 1 && new[k].rows.dom().is_empty()
        },
{
    if let Ok((new, _)) = execute_spec(tables, stmt) {
        match stmt {
            StatementView::Delete { table, where_clause } => {
                law_delete_removes_only_selected(tables, table, where_clause);
            },
            StatementView::Update { table, assignments, where_clause } => {
                law_update_changes_only_selected(tables, table, assignments, where_clause);
            },
            _ => {},
        }
    }
}


/// Every value of the row has the type of its column, one per column.
pub open spec fn row_typed(cols: Seq<ColumnView>, row: Seq<ValueView>) -> bool {
    &&& row.len() == cols.len()
    &&& forall|j: int| 0 <= j < cols.len() ==> value_type(#[trigger] row[j]) == cols[j].ty
}

pub open spec fn table_typed(t: TableView) -> bool {
    forall|id: u64| #[trigger] t.rows.contains_key(id) ==> row_typed(t.columns, t.rows[id])
}

pub open spec fn tables_typed(tables: Map<Seq<char>, TableView>) -> bool {
    forall|k: Seq<char>| #[trigger] tables.contains_key(k) ==> table_typed(tables[k])
}

proof fn lemma_no_type_error(cols: Seq<ColumnView>, vals: Seq<ValueView>, n: nat)
    requires
        n <= vals.len(),
        n <= cols.len(),
        first_type_error(cols, vals, n) is None,
    ensures
        forall|j: int| 0 <= j < n ==> value_type(#[trigger] vals[j]) == cols[j].ty,
    decreases n,
{
    if n > 0 {
        lemma_no_type_error(cols, vals, (n - 1) as nat);
    }
}

proof fn lemma_fill_slots_typed(cols: Seq<ColumnView>, names: Seq<Seq<char>>, vals: Seq<ValueView>, n: nat)
    requires
        n <= names.len(),
        n <= vals.len(),
    ensures
        fill_slots(cols, names, vals, n) matches Ok(slots) ==> {
            &&& slots.len() == cols.len()
            &&& forall|j: int| 0 <= j < slots.len() ==> (#[trigger] slots[j] matches Some(v) ==> value_type(v) == cols[j].ty)
        },
    decreases n,
{
    if n > 0 {
        lemma_fill_slots_typed(cols, names, vals, (n - 1) as nat);
        lemma_find_column_in_bound(cols, names[n - 1], cols.len());
    }
}

proof fn lemma_collect_slots_values(cols: Seq<ColumnView>, slots: Seq<Option<ValueView>>, n: nat)
    requires
        n <= slots.len(),
    ensures
        collect_slots(cols, slots, n) matches Ok(acc) ==> {
            &&& acc.len() == n
            &&& forall|j: int| 0 <= j < n ==> #[trigger] slots[j] == Some(acc[j])
        },
    decreases n,
{
    if n > 0 {
        lemma_collect_slots_values(cols, slots, (n - 1) as nat);
    }
}

proof fn lemma_insert_row_typed(t: TableView, table: Seq<char>, columns: Option<Seq<Seq<char>>>, values: Seq<ValueView>)
    ensures
        insert_values_spec(t, table, columns, values) matches Ok(row) ==> row_typed(t.columns, row),
{
    match columns {
        None => {
            if values.len() == t.columns.len() && first_type_error(t.columns, values, values.len()) is None {
                lemma_no_type_error(t.columns, values, values.len());
            }
        },
        Some(names) => {
            if names.len() == values.len() {
                lemma_fill_slots_typed(t.columns, names, values, names.len());
                if let Ok(slots) = fill_slots(t.columns, names, values, names.len()) {
                    lemma_collect_slots_values(t.columns, slots, t.columns.len());
                    if let Ok(row) = collect_slots(t.columns, slots, t.columns.len()) {
                        assert forall|j: int| 0 <= j < t.columns.len() implies value_type(#[trigger] row[j]) == t.columns[j].ty by {
                            assert(slots[j] == Some(row[j]));
                        }
                    }
                }
            }
        },
    }
}

proof fn lemma_resolve_typed(cols: Seq<ColumnView>, assigns: Seq<(Seq<char>, ValueView)>, n: nat)
    requires
        n <= assigns.len(),
    ensures
        resolve_assignments(cols, assigns, n) matches Ok(idx) ==> {
            &&& idx.len() == n
            &&& forall|k: int| 0 <= k < n ==> #[trigger] idx[k] < cols.len() && value_type(assigns[k].1) == cols[idx[k] as int].ty
        },
    decreases n,
{
    if n > 0 {
        lemma_resolve_typed(cols, assigns, (n - 1) as nat);
        lemma_find_column_in_bound(cols, assigns[n - 1].0, cols.len());
    }
}

proof fn lemma_assign_row_typed(
    cols: Seq<ColumnView>,
    row: Seq<ValueView>,
    idx: Seq<nat>,
    assigns: Seq<(Seq<char>, ValueView)>,
    n: nat,
)
    requires
        row_typed(cols, row),
        n <= idx.len(),
        n <= assigns.len(),
        forall|k: int| 0 <= k < n ==> #[trigger] idx[k] < cols.len() && value_type(assigns[k].1) == cols[idx[k] as int].ty,
    ensures
        row_typed(cols, assign_row(row, idx, assigns, n)),
    decreases n,
{
    if n > 0 {
        lemma_assign_row_typed(cols, row, idx, assigns, (n - 1) as nat);
        let prev = assign_row(row, idx, assigns, (n - 1) as nat);
        let cur = assign_row(row, idx, assigns, n);
        let k = n - 1;
        assert(idx[k] < cols.len());
        assert forall|j: int| 0 <= j < cols.len() implies value_type(#[trigger] cur[j]) == cols[j].ty by {
            if j == idx[k] as int {
                assert(cur[j] == assigns[k].1);
            } else {
                assert(cur[j] == prev[j]);
            }
        }
    }
}

/// Types are enforced: when every stored value has its column's declared
/// type, it still does after any statement that succeeds. A value of
/// another type never reaches a table, through INSERT or UPDATE.
pub proof fn law_values_have_column_types(tables: Map<Seq<char>, TableView>, stmt: StatementView)
    requires
        tables_wf(tables),
        ids_available(tables),
        tables_typed(tables),
    ensures
        execute_spec(tables, stmt) matches Ok((new, _)) ==> tables_typed(new),
{
    if let Ok((new, _)) = execute_spec(tables, stmt) {
        match stmt {
            StatementView::CreateTable { table, columns } => {
                assert forall|k: Seq<char>| #[trigger] new.contains_key(k) implies table_typed(new[k]) by {
                    if k != table {
                        assert(table_typed(tables[k]));
                    }
                }
            },
            StatementView::Insert { table, columns, values } => {
                let t = tables[table];
                lemma_insert_row_typed(t, table, columns, values);
                assert forall|k: Seq<char>| #[trigger] new.contains_key(k) implies table_typed(new[k]) by {
                    assert(table_typed(tables[k]));
                }
            },
            StatementView::Select { .. } => {},
            StatementView::Delete { table, where_clause } => {
                law_delete_removes_only_selected(tables, table, where_clause);
                assert forall|k: Seq<char>| #[trigger] new.contains_key(k) implies table_typed(new[k]) by {
                    assert(table_typed(tables[k]));
                }
            },
            StatementView::Update { table, assignments, where_clause } => {
                let t = tables[table];
                law_update_changes_only_selected(tables, table, assignments, where_clause);
                lemma_resolve_typed(t.columns, assignments, assignments.len());
                assert(table_typed(t));
                assert forall|k: Seq<char>| #[trigger] new.contains_key(k) implies table_typed(new[k]) by {
                    assert(table_typed(tables[k]));
                    if k == table {
                        assert forall|id: u64| #[trigger] new[k].rows.contains_key(id) implies row_typed(new[k].columns, new[k].rows[id]) by {
                            assert(t.rows.contains_key(id));
                            if where_keeps(t, where_clause, id) {
                                let idx = resolve_assignments(t.columns, assignments, assignments.len())->Ok_0;
                                lemma_assign_row_typed(t.columns, t.rows[id], idx, assignments, assignments.len());
                            }
                        }
                    }
                }
            },
        }
    }
}


/// No row goes strictly before the row above it.
pub open spec fn adjacent_sorted(t: TableView, k: usize, dir: OrderDir, s: Seq<u64>) -> bool {
    forall|i: int| 0 < i < s.len() ==> !goes_before(t, k, dir, #[trigger] s[i], s[i - 1])
}

proof fn lemma_goes_before_asymmetric(t: TableView, k: usize, dir: OrderDir, a: u64, b: u64)
    ensures
        goes_before(t, k, dir, a, b) ==> !goes_before(t, k, dir, b, a),
{
    law_value_order_antisymmetric(row_cell(t, a, k), row_cell(t, b, k));
}

proof fn lemma_insert_sorted_last(t: TableView, k: usize, dir: OrderDir, s: Seq<u64>, x: u64)
    ensures
        insert_sorted(t, k, dir, s, x).len() == s.len() + 1,
        insert_sorted(t, k, dir, s, x).last() == if s.len() > 0 && goes_before(t, k, dir, x, s.last()) {
            s.last()
        } else {
            x
        },
    decreases s.len(),
{
    if s.len() > 0 && goes_before(t, k, dir, x, s.last()) {
        lemma_insert_sorted_last(t, k, dir, s.drop_last(), x);
    }
}

proof fn lemma_insert_sorted_sorted(t: TableView, k: usize, dir: OrderDir, s: Seq<u64>, x: u64)
    requires
        adjacent_sorted(t, k, dir, s),
    ensures
        adjacent_sorted(t, k, dir, insert_sorted(t, k, dir, s, x)),
    decreases s.len(),
{
    let r = insert_sorted(t, k, dir, s, x);
    if s.len() > 0 {
        let last = s.last();
        if goes_before(t, k, dir, x, last) {
            let s2 = s.drop_last();
            assert(adjacent_sorted(t, k, dir, s2)) by {
                assert forall|i: int| 0 < i < s2.len() implies !goes_before(t, k, dir, #[trigger] s2[i], s2[i - 1]) by {
                    assert(s[i] == s2[i]);
                    assert(s[i - 1] == s2[i - 1]);
                }
            }
            lemma_insert_sorted_sorted(t, k, dir, s2, x);
            lemma_insert_sorted_last(t, k, dir, s2, x);
            let r0 = insert_sorted(t, k, dir, s2, x);
            lemma_goes_before_asymmetric(t, k, dir, x, last);
            if s2.len() > 0 && goes_before(t, k, dir, x, s2.last()) {
                assert(s[s.len() - 1] == last);
                assert(s[s.len() - 2] == s2.last());
            }
            assert forall|i: int| 0 < i < r.len() implies !goes_before(t, k, dir, #[trigger] r[i], r[i - 1]) by {
                if i < r0.len() {
                    assert(r[i] == r0[i]);
                    assert(r[i - 1] == r0[i - 1]);
                } else {
                    assert(r[i] == last);
                    assert(r[i - 1] == r0.last());
                }
            }
        } else {
            assert forall|i: int| 0 < i < r.len() implies !goes_before(t, k, dir, #[trigger] r[i], r[i - 1]) by {
                if i < s.len() {
                    assert(r[i] == s[i]);
                    assert(r[i - 1] == s[i - 1]);
                } else {
                    assert(r[i - 1] == s[s.len() - 1]);
                }
            }
        }
    }
}

/// ORDER BY puts the rows in order: the sorted ids are the given ones, as
/// many as were given, and no row goes strictly before the row above it by
/// the ORDER BY column in the chosen direction.
pub proof fn law_order_by_sorts(t: TableView, k: usize, dir: OrderDir, ids: Seq<u64>)
    ensures
        sort_ids(t, k, dir, ids).len() == ids.len(),
        forall|m: int| 0 <= m < ids.len() ==> ids.contains(#[trigger] sort_ids(t, k, dir, ids)[m]),
        adjacent_sorted(t, k, dir, sort_ids(t, k, dir, ids)),
    decreases ids.len(),
{
    lemma_sort_members(t, k, dir, ids);
    if ids.len() > 0 {
        law_order_by_sorts(t, k, dir, ids.drop_last());
        lemma_insert_sorted_sorted(t, k, dir, sort_ids(t, k, dir, ids.drop_last()), ids.last());
    }
}


/// A comparison between TEXT and a number never holds, whatever the
/// operator, `!=` included: TEXT only compares with TEXT.
pub proof fn law_mixed_comparisons_never_hold(cell: ValueView, op: CompareOp, literal: ValueView)
    requires
        (value_type(cell) == ColumnType::Text) != (value_type(literal) == ColumnType::Text),
    ensures
        !compare_spec(cell, op, literal),
{
}


/// Ties keep their order: of two neighbouring rows of the result that
/// neither goes before the other, the one with the smaller id comes first.
pub open spec fn ties_in_id_order(t: TableView, k: usize, dir: OrderDir, s: Seq<u64>) -> bool {
    forall|i: int| 0 < i < s.len() && !goes_before(t, k, dir, s[i - 1], #[trigger] s[i]) ==> s[i - 1] < s[i]
}

proof fn lemma_insert_sorted_stable(t: TableView, k: usize, dir: OrderDir, s: Seq<u64>, x: u64)
    requires
        ties_in_id_order(t, k, dir, s),
        forall|m: int| 0 <= m < s.len() ==> #[trigger] s[m] < x,
    ensures
        ties_in_id_order(t, k, dir, insert_sorted(t, k, dir, s, x)),
    decreases s.len(),
{
    let r = insert_sorted(t, k, dir, s, x);
    if s.len() > 0 {
        let last = s.last();
        if goes_before(t, k, dir, x, last) {
            let s2 = s.drop_last();
            assert(ties_in_id_order(t, k, dir, s2)) by {
                assert forall|i: int| 0 < i < s2.len() && !goes_before(t, k, dir, s2[i - 1], #[trigger] s2[i]) implies s2[i - 1] < s2[i] by {
                    assert(s[i] == s2[i]);
                    assert(s[i - 1] == s2[i - 1]);
                }
            }
            assert forall|m: int| 0 <= m < s2.len() implies #[trigger] s2[m] < x by {
                assert(s[m] == s2[m]);
            }
            lemma_insert_sorted_stable(t, k, dir, s2, x);
            lemma_insert_sorted_last(t, k, dir, s2, x);
            let r0 = insert_sorted(t, k, dir, s2, x);
            if s2.len() > 0 && goes_before(t, k, dir, x, s2.last()) {
                assert(s[s.len() - 1] == last);
                assert(s[s.len() - 2] == s2.last());
            }
            assert forall|i: int| 0 < i < r.len() && !goes_before(t, k, dir, r[i - 1], #[trigger] r[i]) implies r[i - 1] < r[i] by {
                if i < r0.len() {
                    assert(r[i] == r0[i]);
                    assert(r[i - 1] == r0[i - 1]);
                } else {
                    assert(r[i] == last);
                    assert(r[i - 1] == r0.last());
                }
            }
        } else {
            assert forall|i: int| 0 < i < r.len() && !goes_before(t, k, dir, r[i - 1], #[trigger] r[i]) implies r[i - 1] < r[i] by {
                if i < s.len() {
                    assert(r[i] == s[i]);
                    assert(r[i - 1] == s[i - 1]);
                } else {
                    assert(r[i - 1] == s[s.len() - 1]);
                }
            }
        }
    }
}

/// ORDER BY is stable: when the ids come in increasing order (as a WHERE
/// clause gives them), rows that tie on the ORDER BY column stay in
/// increasing id order.
pub proof fn law_order_by_is_stable(t: TableView, k: usize, dir: OrderDir, ids: Seq<u64>)
    requires
        forall|a: int, b: int| 0 <= a < b < ids.len() ==> ids[a] < ids[b],
    ensures
        ties_in_id_order(t, k, dir, sort_ids(t, k, dir, ids)),
    decreases ids.len(),
{
    if ids.len() > 0 {
        let ids2 = ids.drop_last();
        law_order_by_is_stable(t, k, dir, ids2);
        law_order_by_sorts(t, k, dir, ids2);
        let prev = sort_ids(t, k, dir, ids2);
        assert forall|m: int| 0 <= m < prev.len() implies #[trigger] prev[m] < ids.last() by {
            assert(ids2.contains(prev[m]));
            let q = choose|q: int| 0 <= q < ids2.len() && ids2[q] == prev[m];
            assert(ids[q] < ids[ids.len() - 1]);
        }
        lemma_insert_sorted_stable(t, k, dir, prev, ids.last());
    }
}

/// LIMIT keeps the first `n` rows of what the same SELECT gives without
/// it (all of them when there are fewer).
pub proof fn law_limit_keeps_a_prefix(
    t: TableView,
    columns: SelectColumnsView,
    w: Option<ExprView>,
    order_by: Option<OrderByView>,
    n: u64,
)
    ensures
        select_spec(t, columns, w, order_by, None) matches Ok((cs, rows)) ==> select_spec(t, columns, w, order_by, Some(n))
            == Ok::<(Seq<Seq<char>>, Seq<Seq<ValueView>>), LsErrorView>((cs, if n < rows.len() { rows.take(n as int) } else { rows })),
{
    if let Ok((cs, rows)) = select_spec(t, columns, w, order_by, None) {
        let sorted = ordered_ids(t, matching_ids_spec(t, w)->Ok_0, order_by)->Ok_0;
        let idx = column_positions(t.columns, cs);
        if n < rows.len() {
            assert(sorted.take(n as int).map_values(|id: u64| project(t.rows[id], idx))
                =~= sorted.map_values(|id: u64| project(t.rows[id], idx)).take(n as int));
        }
    }
}

/// The value an UPDATE leaves in column `j` after its first `n`
/// assignments: the last of them that names the column, if any.
pub open spec fn last_assigned(idx: Seq<nat>, assigns: Seq<(Seq<char>, ValueView)>, n: nat, j: int) -> Option<ValueView>
    decreases n,
{
    if n == 0 {
        None
    } else if idx[n - 1] == j {
        Some(assigns[n - 1].1)
    } else {
        last_assigned(idx, assigns, (n - 1) as nat, j)
    }
}

/// An UPDATE's assignments are made in order, so a later one for the same
/// column wins: each cell of an updated row holds the last value assigned
/// to its column, or its old value when none was.
pub proof fn law_later_assignment_wins(
    row: Seq<ValueView>,
    idx: Seq<nat>,
    assigns: Seq<(Seq<char>, ValueView)>,
    n: nat,
)
    requires
        n <= idx.len(),
        n <= assigns.len(),
        forall|m: int| 0 <= m < n ==> #[trigger] idx[m] < row.len(),
    ensures
        assign_row(row, idx, assigns, n).len() == row.len(),
        forall|j: int| 0 <= j < row.len() ==> #[trigger] assign_row(row, idx, assigns, n)[j] == match last_assigned(idx, assigns, n, j) {
            Some(v) => v,
            None => row[j],
        },
    decreases n,
{
    if n > 0 {
        law_later_assignment_wins(row, idx, assigns, (n - 1) as nat);
    }
}


/// A SELECT without ORDER BY or LIMIT gives, for each row the WHERE clause
/// selects, in increasing id order, the row's cells of the result columns:
/// all of the table's columns for `*`, else the named ones.
pub proof fn law_plain_select(t: TableView, columns: SelectColumnsView, w: Option<ExprView>)
    ensures
        select_spec(t, columns, w, None, None) matches Ok((cs, rows)) ==> {
            &&& matching_ids_spec(t, w) matches Ok(ids)
                && rows == ids.map_values(|id: u64| project(t.rows[id], column_positions(t.columns, cs)))
            &&& cs == match columns {
                SelectColumnsView::All => column_names(t.columns),
                SelectColumnsView::Named(names) => names,
            }
        },
{
}


/// Whether the optional WHERE expression names only columns of the table
/// and evaluates without error on every live row.
pub open spec fn where_evaluates(t: TableView, w: Option<ExprView>) -> bool {
    match w {
        None => true,
        Some(e) => {
            &&& missing_where_column(t.columns, e) is None
            &&& forall|id: u64| #[trigger] t.rows.contains_key(id) ==> eval_spec(t, t.rows[id], e) is Ok
        },
    }
}

proof fn lemma_filter_ok(t: TableView, w: Option<ExprView>, ids: Seq<u64>)
    ensures
        (forall|m: int| 0 <= m < ids.len() ==> (w matches Some(e) ==> eval_spec(t, t.rows[#[trigger] ids[m]], e) is Ok))
            ==> filter_ids(t, w, ids) is Ok,
        filter_ids(t, w, ids) is Ok ==> forall|m: int| 0 <= m < ids.len()
            ==> (w matches Some(e) ==> eval_spec(t, t.rows[#[trigger] ids[m]], e) is Ok),
    decreases ids.len(),
{
    if ids.len() > 0 {
        let ids2 = ids.drop_last();
        lemma_filter_ok(t, w, ids2);
        assert forall|m: int| 0 <= m < ids2.len() implies ids2[m] == ids[m] by {}
        assert(ids.last() == ids[ids.len() - 1]);
    }
}

/// A WHERE clause that evaluates on some live row with an error makes the
/// statement fail with an error.
pub proof fn law_where_error_fails(t: TableView, e: ExprView, id: u64)
    requires
        table_wf(t),
        t.next_row_id <= u64::MAX + 1,
        t.rows.contains_key(id),
        eval_spec(t, t.rows[id], e) is Err,
    ensures
        matching_ids_spec(t, Some(e)) is Err,
{
    let all = row_ids_in_order(t);
    lemma_ids_below_props(t.rows.dom(), t.next_row_id);
    lemma_filter_ok(t, Some(e), all);
    assert(all.contains(id));
}

/// A WHERE clause that names only columns of the table and evaluates on
/// every live row succeeds, selecting exactly the live rows it keeps.
pub proof fn law_where_succeeds(t: TableView, w: Option<ExprView>)
    requires
        table_wf(t),
        t.next_row_id <= u64::MAX + 1,
        where_evaluates(t, w),
    ensures
        matching_ids_spec(t, w) matches Ok(ids) && forall|id: u64| ids.contains(id)
            <==> (t.rows.contains_key(id) && where_keeps(t, w, id)),
{
    let all = row_ids_in_order(t);
    lemma_ids_below_props(t.rows.dom(), t.next_row_id);
    assert forall|m: int| 0 <= m < all.len() implies (w matches Some(e) ==> eval_spec(t, t.rows[#[trigger] all[m]], e) is Ok) by {
        assert(all.contains(all[m]));
    }
    lemma_filter_ok(t, w, all);
    law_where_selects_exactly(t, w);
}

/// A SELECT without ORDER BY or LIMIT succeeds when its columns exist and
/// its WHERE clause evaluates on every row; it gives the result columns
/// and, for each selected row in increasing id order, its projection.
pub proof fn law_plain_select_succeeds(t: TableView, columns: SelectColumnsView, w: Option<ExprView>)
    requires
        table_wf(t),
        t.next_row_id <= u64::MAX + 1,
        select_columns_spec(t, columns) is Ok,
        where_evaluates(t, w),
    ensures
        select_spec(t, columns, w, None, None) matches Ok((cs, rows)) && matching_ids_spec(t, w) matches Ok(ids)
            && cs == select_columns_spec(t, columns)->Ok_0
            && rows == ids.map_values(|id: u64| project(t.rows[id], column_positions(t.columns, cs))),
{
    law_where_succeeds(t, w);
}

proof fn lemma_insert_sorted_keeps(t: TableView, k: usize, dir: OrderDir, s: Seq<u64>, x: u64)
    ensures
        insert_sorted(t, k, dir, s, x).contains(x),
        forall|y: u64| s.contains(y) ==> #[trigger] insert_sorted(t, k, dir, s, x).contains(y),
    decreases s.len(),
{
    let r = insert_sorted(t, k, dir, s, x);
    if s.len() == 0 {
        assert(r[0] == x);
    } else if goes_before(t, k, dir, x, s.last()) {
        let s2 = s.drop_last();
        lemma_insert_sorted_keeps(t, k, dir, s2, x);
        let r0 = insert_sorted(t, k, dir, s2, x);
        assert(r == r0.push(s.last()));
        let q0 = choose|q: int| 0 <= q < r0.len() && r0[q] == x;
        assert(r[q0] == x);
        assert forall|y: u64| s.contains(y) implies #[trigger] r.contains(y) by {
            let q = choose|q: int| 0 <= q < s.len() && s[q] == y;
            if q == s.len() - 1 {
                assert(r[r.len() - 1] == y);
            } else {
                assert(s2[q] == y);
                assert(s2.contains(y));
                assert(r0.contains(y));
                let q2 = choose|q2: int| 0 <= q2 < r0.len() && r0[q2] == y;
                assert(r[q2] == y);
            }
        }
    } else {
        assert(r[r.len() - 1] == x);
        assert forall|y: u64| s.contains(y) implies #[trigger] r.contains(y) by {
            let q = choose|q: int| 0 <= q < s.len() && s[q] == y;
            assert(r[q] == y);
        }
    }
}

proof fn lemma_sort_keeps(t: TableView, k: usize, dir: OrderDir, ids: Seq<u64>)
    ensures
        forall|y: u64| ids.contains(y) ==> #[trigger] sort_ids(t, k, dir, ids).contains(y),
    decreases ids.len(),
{
    if ids.len() > 0 {
        let ids2 = ids.drop_last();
        lemma_sort_keeps(t, k, dir, ids2);
        lemma_insert_sorted_keeps(t, k, dir, sort_ids(t, k, dir, ids2), ids.last());
        assert forall|y: u64| ids.contains(y) implies #[trigger] sort_ids(t, k, dir, ids).contains(y) by {
            let q = choose|q: int| 0 <= q < ids.len() && ids[q] == y;
            if q < ids.len() - 1 {
                assert(ids2[q] == y);
            }
        }
    }
}

/// A SELECT with ORDER BY on a column of the table succeeds on the same
/// inputs as without it, and its rows are those of the plain SELECT put in
/// order: the same ids, each once, sorted by the column with ties in id
/// order.
pub proof fn law_order_by_permutes_plain_select(
    t: TableView,
    columns: SelectColumnsView,
    w: Option<ExprView>,
    ob: OrderByView,
)
    requires
        table_wf(t),
        t.next_row_id <= u64::MAX + 1,
        select_columns_spec(t, columns) is Ok,
        where_evaluates(t, w),
        column_index_spec(t.columns, ob.column) is Some,
    ensures
        select_spec(t, columns, w, Some(ob), None) matches Ok((cs, rows)) && matching_ids_spec(t, w) matches Ok(ids) && {
            let sorted = sort_ids(t, column_index_spec(t.columns, ob.column)->Some_0 as usize, ob.dir, ids);
            &&& rows == sorted.map_values(|id: u64| project(t.rows[id], column_positions(t.columns, cs)))
            &&& sorted.len() == ids.len()
            &&& forall|id: u64| sorted.contains(id) <==> ids.contains(id)
            &&& adjacent_sorted(t, column_index_spec(t.columns, ob.column)->Some_0 as usize, ob.dir, sorted)
            &&& ties_in_id_order(t, column_index_spec(t.columns, ob.column)->Some_0 as usize, ob.dir, sorted)
        },
{
    law_where_succeeds(t, w);
    law_where_selects_exactly(t, w);
    let ids = matching_ids_spec(t, w)->Ok_0;
    let k = column_index_spec(t.columns, ob.column)->Some_0 as usize;
    law_order_by_sorts(t, k, ob.dir, ids);
    law_order_by_is_stable(t, k, ob.dir, ids);
    lemma_sort_keeps(t, k, ob.dir, ids);
    let sorted = sort_ids(t, k, ob.dir, ids);
    assert forall|id: u64| sorted.contains(id) implies ids.contains(id) by {
        let q = choose|q: int| 0 <= q < sorted.len() && sorted[q] == id;
    }
}

/// The assignment names a column of the table and holds a value of its
/// type.
pub open spec fn assignment_fits(cols: Seq<ColumnView>, a: (Seq<char>, ValueView)) -> bool {
    match column_index_spec(cols, a.0) {
        Some(i) => check_type_spec(cols[i as int].ty, a.1) is None,
        None => false,
    }
}

proof fn lemma_resolve_ok(cols: Seq<ColumnView>, assigns: Seq<(Seq<char>, ValueView)>, n: nat)
    requires
        n <= assigns.len(),
        forall|k: int| 0 <= k < n ==> #[trigger] assignment_fits(cols, assigns[k]),
    ensures
        resolve_assignments(cols, assigns, n) is Ok,
    decreases n,
{
    if n > 0 {
        lemma_resolve_ok(cols, assigns, (n - 1) as nat);
        let k = n - 1;
        assert(assignment_fits(cols, assigns[k]));
    }
}

/// An UPDATE whose assignments each name a column of the table with a
/// value of its type, and whose WHERE clause evaluates on every row,
/// succeeds and counts the rows it selects.
pub proof fn law_update_succeeds(
    tables: Map<Seq<char>, TableView>,
    table: Seq<char>,
    assigns: Seq<(Seq<char>, ValueView)>,
    w: Option<ExprView>,
)
    requires
        tables_wf(tables),
        ids_available(tables),
        tables.contains_key(table),
        forall|k: int| 0 <= k < assigns.len() ==> #[trigger] assignment_fits(tables[table].columns, assigns[k]),
        where_evaluates(tables[table], w),
    ensures
        update_spec(tables, table, assigns, w) matches Ok((_, res)) && matching_ids_spec(tables[table], w) matches Ok(ids)
            && res == QueryResultView::RowsAffected(ids.len() as usize),
{
    assert(table_wf(tables[table]));
    lemma_resolve_ok(tables[table].columns, assigns, assigns.len());
    law_where_succeeds(tables[table], w);
}

/// A DELETE whose WHERE clause evaluates on every row succeeds and counts
/// the rows it removes.
pub proof fn law_delete_succeeds(tables: Map<Seq<char>, TableView>, table: Seq<char>, w: Option<ExprView>)
    requires
        tables_wf(tables),
        ids_available(tables),
        tables.contains_key(table),
        where_evaluates(tables[table], w),
    ensures
        delete_spec(tables, table, w) matches Ok((_, res)) && matching_ids_spec(tables[table], w) matches Ok(ids)
            && res == QueryResultView::RowsAffected(ids.len() as usize),
{
    assert(table_wf(tables[table]));
    law_where_succeeds(tables[table], w);
}

/// A new table hands out row id 1 first: right after CREATE TABLE it has
/// no rows, and an INSERT that succeeds stores its row under id 1.
pub proof fn law_first_row_id_is_one(
    tables: Map<Seq<char>, TableView>,
    table: Seq<char>,
    defs: Seq<crate::ast::ColumnDefView>,
    columns: Option<Seq<Seq<char>>>,
    values: Seq<ValueView>,
)
    ensures
        create_spec(tables, table, defs) matches Ok((t1, _)) ==> {
            &&& t1[table].next_row_id == 1
            &&& t1[table].rows.dom().is_empty()
            &&& insert_spec(t1, table, columns, values) matches Ok((t2, _)) ==> {
                &&& t2[table].rows.dom() == set![1u64]
                &&& t2[table].next_row_id == 2
            }
        },
{
    if let Ok((t1, _)) = create_spec(tables, table, defs) {
        if let Ok((t2, _)) = insert_spec(t1, table, columns, values) {
            assert(t2[table].rows.dom() =~= set![1u64]);
        }
    }
}

/// An UPDATE record replaces a live row and leaves everything else as it
/// was; for a row id that is not live it changes nothing.
pub proof fn law_update_record_effect(
    tables: Map<Seq<char>, TableView>,
    table: Seq<char>,
    row_id: u64,
    values: Seq<ValueView>,
)
    ensures
        ({
            let after = apply_spec(tables, RecordView::Update { table, row_id, values });
            if tables.contains_key(table) && tables[table].rows.contains_key(row_id) {
                &&& after.dom() == tables.dom()
                &&& forall|k: Seq<char>| k != table && #[trigger] tables.contains_key(k) ==> after[k] == tables[k]
                &&& after[table].columns == tables[table].columns
                &&& after[table].next_row_id == tables[table].next_row_id
                &&& after[table].rows == tables[table].rows.insert(row_id, values)
            } else {
                after == tables
            }
        }),
{
    if tables.contains_key(table) && tables[table].rows.contains_key(row_id) {
        let after = apply_spec(tables, RecordView::Update { table, row_id, values });
        assert(after.dom() =~= tables.dom());
    }
}

/// Row ids are fresh over a whole history, reopening included: the id the
/// next INSERT into a table gets is above every id that the table's log
/// has ever inserted since the table was created, and above every live
/// row id.
pub proof fn law_next_id_is_fresh(tables: Map<Seq<char>, TableView>, rs: Seq<RecordView>, k: Seq<char>)
    requires
        replay(tables, rs).contains_key(k),
        tables_wf(replay(tables, rs)),
    ensures
        forall|i: int| 0 <= i < rs.len() && (#[trigger] rs[i] matches RecordView::Insert { table, .. } && table == k)
            && (forall|j: int| i < j < rs.len() ==> !(#[trigger] rs[j] matches RecordView::CreateTable { table, .. } && table == k))
            ==> (rs[i] matches RecordView::Insert { row_id, .. } && row_id < replay(tables, rs)[k].next_row_id),
        forall|id: u64| #[trigger] replay(tables, rs)[k].rows.contains_key(id) ==> id < replay(tables, rs)[k].next_row_id,
{
    assert forall|i: int| 0 <= i < rs.len() && (#[trigger] rs[i] matches RecordView::Insert { table, .. } && table == k)
        && (forall|j: int| i < j < rs.len() ==> !(#[trigger] rs[j] matches RecordView::CreateTable { table, .. } && table == k))
        implies (rs[i] matches RecordView::Insert { row_id, .. } && row_id < replay(tables, rs)[k].next_row_id) by {
        crate::storage::law_next_id_above_inserted(tables, rs, k, i);
    }
    assert(table_wf(replay(tables, rs)[k]));
}


/// How the comparison operators relate: `<=` is `<` or `=`, `>=` is `>`
/// or `=`, `!=` is `<` or `>`, `a < b` is `b > a`; and every value is `=`,
/// `<=` and `>=` to itself, never `<`, `>` or `!=`.
pub proof fn law_comparison_operators(a: ValueView, b: ValueView)
    ensures
        compare_spec(a, CompareOp::Le, b) == (compare_spec(a, CompareOp::Lt, b) || compare_spec(a, CompareOp::Eq, b)),
        compare_spec(a, CompareOp::Ge, b) == (compare_spec(a, CompareOp::Gt, b) || compare_spec(a, CompareOp::Eq, b)),
        compare_spec(a, CompareOp::NotEq, b) == (compare_spec(a, CompareOp::Lt, b) || compare_spec(a, CompareOp::Gt, b)),
        compare_spec(a, CompareOp::Lt, b) == compare_spec(b, CompareOp::Gt, a),
        compare_spec(a, CompareOp::Eq, b) == compare_spec(b, CompareOp::Eq, a),
        compare_spec(a, CompareOp::Eq, a),
        compare_spec(a, CompareOp::Le, a),
        compare_spec(a, CompareOp::Ge, a),
        !compare_spec(a, CompareOp::Lt, a),
        !compare_spec(a, CompareOp::Gt, a),
        !compare_spec(a, CompareOp::NotEq, a),
{
    law_value_order_reflexive(a);
    law_value_order_antisymmetric(a, b);
}

proof fn lemma_fill_slots_places(cols: Seq<ColumnView>, names: Seq<Seq<char>>, vals: Seq<ValueView>, n: nat)
    requires
        n <= names.len(),
        n <= vals.len(),
        forall|k: int| 0 <= k < n ==> #[trigger] column_index_spec(cols, names[k]) is Some,
        forall|k1: int, k2: int| 0 <= k1 < n && 0 <= k2 < n && k1 != k2
            ==> column_index_spec(cols, #[trigger] names[k1]) != column_index_spec(cols, #[trigger] names[k2]),
        forall|k: int| 0 <= k < n ==> check_type_spec(cols[column_index_spec(cols, #[trigger] names[k])->Some_0 as int].ty, vals[k]) is None,
    ensures
        fill_slots(cols, names, vals, n) matches Ok(slots) && {
            &&& slots.len() == cols.len()
            &&& forall|k: int| 0 <= k < n ==> slots[column_index_spec(cols, #[trigger] names[k])->Some_0 as int] == Some(vals[k])
            &&& forall|j: int| 0 <= j < cols.len() && (forall|k: int| 0 <= k < n ==> column_index_spec(cols, #[trigger] names[k]) != Some(j as nat))
                ==> #[trigger] slots[j] is None
        },
    decreases n,
{
    if n > 0 {
        lemma_fill_slots_places(cols, names, vals, (n - 1) as nat);
        let m = n - 1;
        lemma_find_column_in_bound(cols, names[m], cols.len());
        let idx = column_index_spec(cols, names[m])->Some_0;
        let prev = fill_slots(cols, names, vals, (n - 1) as nat)->Ok_0;
        let slots = prev.update(idx as int, Some(vals[m]));
        assert(fill_slots(cols, names, vals, n) == Ok::<Seq<Option<ValueView>>, LsErrorView>(slots));
        assert forall|k: int| 0 <= k < n implies slots[column_index_spec(cols, #[trigger] names[k])->Some_0 as int] == Some(vals[k]) by {
            if k < m {
                assert(column_index_spec(cols, names[k]) != column_index_spec(cols, names[m]));
                lemma_find_column_in_bound(cols, names[k], cols.len());
            }
        }
        assert forall|j: int| 0 <= j < cols.len() && (forall|k: int| 0 <= k < n ==> column_index_spec(cols, #[trigger] names[k]) != Some(j as nat))
            implies #[trigger] slots[j] is None by {
            assert(column_index_spec(cols, names[m]) != Some(j as nat));
        }
    }
}

proof fn lemma_collect_full(cols: Seq<ColumnView>, slots: Seq<Option<ValueView>>, n: nat)
    requires
        n <= slots.len(),
        forall|j: int| 0 <= j < n ==> #[trigger] slots[j] is Some,
    ensures
        collect_slots(cols, slots, n) is Ok,
    decreases n,
{
    if n > 0 {
        lemma_collect_full(cols, slots, (n - 1) as nat);
        assert(slots[n - 1] is Some);
    }
}

/// One of the names is column `j`.
pub open spec fn some_name_is_column(cols: Seq<ColumnView>, names: Seq<Seq<char>>, j: int) -> bool {
    exists|k: int| 0 <= k < names.len() && #[trigger] column_index_spec(cols, names[k]) == Some(j as nat)
}

/// An INSERT with a column list stores each value under the column it
/// names: when the names are distinct columns of the table that cover all
/// of them and each value has its column's type, the insert succeeds and
/// the stored row holds `values[k]` in the column that `names[k]` names.
pub proof fn law_insert_places_values_by_name(
    t: TableView,
    table: Seq<char>,
    names: Seq<Seq<char>>,
    values: Seq<ValueView>,
)
    requires
        names.len() == values.len(),
        forall|k: int| 0 <= k < names.len() ==> #[trigger] column_index_spec(t.columns, names[k]) is Some,
        forall|k1: int, k2: int| 0 <= k1 < names.len() && 0 <= k2 < names.len() && k1 != k2
            ==> column_index_spec(t.columns, #[trigger] names[k1]) != column_index_spec(t.columns, #[trigger] names[k2]),
        forall|j: int| 0 <= j < t.columns.len() ==> #[trigger] some_name_is_column(t.columns, names, j),
        forall|k: int| 0 <= k < names.len()
            ==> value_type(values[k]) == t.columns[column_index_spec(t.columns, #[trigger] names[k])->Some_0 as int].ty,
    ensures
        insert_values_spec(t, table, Some(names), values) matches Ok(row) && {
            &&& row.len() == t.columns.len()
            &&& forall|k: int| 0 <= k < names.len() ==> row[column_index_spec(t.columns, #[trigger] names[k])->Some_0 as int] == values[k]
        },
{
    let cols = t.columns;
    assert forall|k: int| 0 <= k < names.len() implies check_type_spec(cols[column_index_spec(cols, #[trigger] names[k])->Some_0 as int].ty, values[k]) is None by {}
    lemma_fill_slots_places(cols, names, values, names.len());
    let slots = fill_slots(cols, names, values, names.len())->Ok_0;
    assert forall|j: int| 0 <= j < cols.len() implies #[trigger] slots[j] is Some by {
        assert(some_name_is_column(cols, names, j));
        let k = choose|k: int| 0 <= k < names.len() && #[trigger] column_index_spec(cols, names[k]) == Some(j as nat);
        assert(slots[column_index_spec(cols, names[k])->Some_0 as int] == Some(values[k]));
    }
    lemma_collect_full(cols, slots, cols.len());
    lemma_collect_slots_values(cols, slots, cols.len());
    let row = collect_slots(cols, slots, cols.len())->Ok_0;
    assert forall|k: int| 0 <= k < names.len() implies row[column_index_spec(cols, #[trigger] names[k])->Some_0 as int] == values[k] by {
        lemma_find_column_in_bound(cols, names[k], cols.len());
        let j = column_index_spec(cols, names[k])->Some_0 as int;
        assert(slots[j] == Some(row[j]));
    }
}

/// An INSERT without a column list stores the values in the order given,
/// when there is one per column and each has its column's type.
pub proof fn law_insert_places_values_in_order(t: TableView, table: Seq<char>, values: Seq<ValueView>)
    requires
        values.len() == t.columns.len(),
        forall|k: int| 0 <= k < values.len() ==> value_type(#[trigger] values[k]) == t.columns[k].ty,
    ensures
        insert_values_spec(t, table, None, values) == Ok::<Seq<ValueView>, LsErrorView>(values),
{
    lemma_no_type_error_back(t.columns, values, values.len());
}

proof fn lemma_no_type_error_back(cols: Seq<ColumnView>, vals: Seq<ValueView>, n: nat)
    requires
        n <= vals.len(),
        n <= cols.len(),
        forall|k: int| 0 <= k < n ==> value_type(#[trigger] vals[k]) == cols[k].ty,
    ensures
        first_type_error(cols, vals, n) is None,
    decreases n,
{
    if n > 0 {
        lemma_no_type_error_back(cols, vals, (n - 1) as nat);
        assert(value_type(vals[n - 1]) == cols[n - 1].ty);
    }
}

} // verus!
