//! The in-memory table store and the operation records that describe every
//! change made to it.
//!
//! A database is persisted as an append-only log of operation records.
//! Every change made through `Database` appends the record that describes
//! it to `Database::log`; whoever owns the file writes those records out.
//! Opening a database replays the records of the file, in order, through
//! `apply_record`. Replaying the records that an operation logged onto the
//! state before the operation gives the state after it (see
//! `lemma_replay_log`), so replaying a whole log rebuilds the database.
//!
//! Each table keeps its live rows in a map from row id to row values, the
//! in-memory index that lookups go through. Row ids are assigned in order
//! starting at 1 and are never reused.

use vstd::prelude::*;
use std::collections::BTreeMap;
use vstd::std_specs::iter::IteratorSpec;
use vstd::std_specs::cmp::OrdSpec;
use crate::error::{LsError, LsErrorView, LsResult};
use crate::types::{ColumnType, Value, ValueView, values_view};
use crate::text::{concat3};
use crate::lexer::collect_chars;

verus! {

broadcast use {vstd::std_specs::btree::group_btree_axioms, vstd::laws_cmp::group_laws_cmp};

#[derive(Debug, Clone)]
pub struct StoredColumn {
    pub name: String,
    pub ty: ColumnType,
}

pub struct ColumnView {
    pub name: Seq<char>,
    pub ty: ColumnType,
}

impl View for StoredColumn {
    type V = ColumnView;

    open spec fn view(&self) -> ColumnView {
        ColumnView { name: self.name@, ty: self.ty }
    }
}

pub open spec fn columns_view(cs: Seq<StoredColumn>) -> Seq<ColumnView> {
    cs.map_values(|c: StoredColumn| c@)
}

/// A table: its schema, its live rows by row id, and the id the next
/// inserted row receives.
#[derive(Debug, Clone)]
pub struct Table {
    pub columns: Vec<StoredColumn>,
    /// The in-memory index: row id to row values. Row ids are never reused.
    pub rows: BTreeMap<u64, Vec<Value>>,
    pub next_row_id: u64,
}

pub struct TableView {
    pub columns: Seq<ColumnView>,
    pub rows: Map<u64, Seq<ValueView>>,
    pub next_row_id: nat,
}

pub open spec fn rows_view(rows: Map<u64, Vec<Value>>) -> Map<u64, Seq<ValueView>> {
    rows.map_values(|r: Vec<Value>| values_view(r@))
}

impl View for Table {
    type V = TableView;

    open spec fn view(&self) -> TableView {
        TableView {
            columns: columns_view(self.columns@),
            rows: rows_view(self.rows@),
            next_row_id: self.next_row_id as nat,
        }
    }
}

/// A table is well formed when every row id is below the next one to be
/// assigned and every row has one value per column.
pub open spec fn table_wf(t: TableView) -> bool {
    &&& t.rows.dom().finite()
    &&& forall|id: u64| #[trigger] t.rows.contains_key(id) ==> id < t.next_row_id
    &&& forall|id: u64| #[trigger] t.rows.contains_key(id) ==> t.rows[id].len() == t.columns.len()
}

/// The empty table with the given schema.
pub open spec fn empty_table(columns: Seq<ColumnView>) -> TableView {
    TableView { columns, rows: Map::empty(), next_row_id: 1 }
}

/// The row ids of `ids` that are below `n`, in increasing order.
pub open spec fn ids_below(ids: Set<u64>, n: nat) -> Seq<u64>
    decreases n,
{
    if n == 0 {
        Seq::empty()
    } else {
        let rest = ids_below(ids, (n - 1) as nat);
        if ids.contains((n - 1) as u64) {
            rest.push((n - 1) as u64)
        } else {
            rest
        }
    }
}

/// The ids of the live rows of a table, in increasing order.
pub open spec fn row_ids_in_order(t: TableView) -> Seq<u64> {
    ids_below(t.rows.dom(), t.next_row_id)
}

/// One change to the database, as written to the log.
#[derive(Debug, Clone)]
pub enum Record {
    CreateTable { table: String, columns: Vec<StoredColumn> },
    Insert { table: String, row_id: u64, values: Vec<Value> },
    Update { table: String, row_id: u64, values: Vec<Value> },
    Delete { table: String, row_id: u64 },
}

pub enum RecordView {
    CreateTable { table: Seq<char>, columns: Seq<ColumnView> },
    Insert { table: Seq<char>, row_id: u64, values: Seq<ValueView> },
    Update { table: Seq<char>, row_id: u64, values: Seq<ValueView> },
    Delete { table: Seq<char>, row_id: u64 },
}

impl View for Record {
    type V = RecordView;

    open spec fn view(&self) -> RecordView {
        match self {
            Record::CreateTable { table, columns } => RecordView::CreateTable {
                table: table@,
                columns: columns_view(columns@),
            },
            Record::Insert { table, row_id, values } => RecordView::Insert {
                table: table@,
                row_id: *row_id,
                values: values_view(values@),
            },
            Record::Update { table, row_id, values } => RecordView::Update {
                table: table@,
                row_id: *row_id,
                values: values_view(values@),
            },
            Record::Delete { table, row_id } => RecordView::Delete { table: table@, row_id: *row_id },
        }
    }
}

pub open spec fn records_view(rs: Seq<Record>) -> Seq<RecordView> {
    rs.map_values(|r: Record| r@)
}

impl Record {
    /// A copy of the record.
    pub fn duplicate(&self) -> (r: Record)
        ensures
            r@ == self@,
    {
        match self {
            Record::CreateTable { table, columns } => Record::CreateTable {
                table: table.clone(),
                columns: copy_columns(columns),
            },
            Record::Insert { table, row_id, values } => Record::Insert {
                table: table.clone(),
                row_id: *row_id,
                values: copy_values(values),
            },
            Record::Update { table, row_id, values } => Record::Update {
                table: table.clone(),
                row_id: *row_id,
                values: copy_values(values),
            },
            Record::Delete { table, row_id } => Record::Delete { table: table.clone(), row_id: *row_id },
        }
    }
}

/// The tables after one record has been applied: CREATE TABLE (re)creates
/// an empty table; a row record on a table that does not exist changes
/// nothing; INSERT sets the row and moves the next row id past it; UPDATE
/// replaces a live row and changes nothing when the row id is not live;
/// DELETE removes the row if it is there.
pub open spec fn apply_spec(tables: Map<Seq<char>, TableView>, r: RecordView) -> Map<Seq<char>, TableView> {
    match r {
        RecordView::CreateTable { table, columns } => tables.insert(table, empty_table(columns)),
        RecordView::Insert { table, row_id, values } => {
            if tables.contains_key(table) {
                let t = tables[table];
                tables.insert(
                    table,
                    TableView {
                        columns: t.columns,
                        rows: t.rows.insert(row_id, values),
                        next_row_id: if row_id >= t.next_row_id { (row_id + 1) as nat } else { t.next_row_id },
                    },
                )
            } else {
                tables
            }
        },
        RecordView::Update { table, row_id, values } => {
            if tables.contains_key(table) && tables[table].rows.contains_key(row_id) {
                let t = tables[table];
                tables.insert(table, TableView { rows: t.rows.insert(row_id, values), ..t })
            } else {
                tables
            }
        },
        RecordView::Delete { table, row_id } => {
            if tables.contains_key(table) {
                let t = tables[table];
                tables.insert(table, TableView { rows: t.rows.remove(row_id), ..t })
            } else {
                tables
            }
        },
    }
}

/// The tables after the records have been applied in order.
pub open spec fn replay(tables: Map<Seq<char>, TableView>, rs: Seq<RecordView>) -> Map<Seq<char>, TableView>
    decreases rs.len(),
{
    if rs.len() == 0 {
        tables
    } else {
        apply_spec(replay(tables, rs.drop_last()), rs.last())
    }
}

/// Whether every record of the log fits the tables it is applied to, when
/// the records are applied in order (see `record_fits`).
pub open spec fn log_fits(tables: Map<Seq<char>, TableView>, rs: Seq<RecordView>) -> bool
    decreases rs.len(),
{
    if rs.len() == 0 {
        true
    } else {
        log_fits(tables, rs.drop_last()) && record_fits(replay(tables, rs.drop_last()), rs.last())
    }
}

/// Whether applying the record keeps the tables well formed: a row that an
/// INSERT or UPDATE stores carries one value per column, and an inserted
/// row id leaves room for a next one.
pub open spec fn record_fits(tables: Map<Seq<char>, TableView>, r: RecordView) -> bool {
    match r {
        RecordView::CreateTable { .. } => true,
        RecordView::Insert { table, row_id, values } => tables.contains_key(table) ==> {
            &&& values.len() == tables[table].columns.len()
            &&& row_id < u64::MAX
        },
        RecordView::Update { table, row_id, values } => tables.contains_key(table)
            && tables[table].rows.contains_key(row_id) ==> values.len() == tables[table].columns.len(),
        RecordView::Delete { .. } => true,
    }
}

/// A table together with its name.
#[derive(Debug, Clone)]
pub struct NamedTable {
    pub name: String,
    pub table: Table,
}

pub open spec fn has_table_at(s: Seq<NamedTable>, name: Seq<char>, i: int) -> bool {
    0 <= i < s.len() && s[i].name@ == name
}

/// The tables by name.
pub open spec fn tables_view(s: Seq<NamedTable>) -> Map<Seq<char>, TableView> {
    Map::new(
        |k: Seq<char>| exists|i: int| has_table_at(s, k, i),
        |k: Seq<char>| s[choose|i: int| has_table_at(s, k, i)].table@,
    )
}

pub open spec fn names_unique(s: Seq<NamedTable>) -> bool {
    forall|i: int, j: int| 0 <= i < s.len() && 0 <= j < s.len() && i != j ==> s[i].name@ != s[j].name@
}

/// An embedded database: its tables, and the records of the changes made
/// to it that are still to be written to its file.
#[derive(Debug, Clone)]
pub struct Database {
    pub tables: Vec<NamedTable>,
    pub log: Vec<Record>,
}

pub struct DatabaseView {
    pub tables: Map<Seq<char>, TableView>,
    pub log: Seq<RecordView>,
}

impl View for Database {
    type V = DatabaseView;

    open spec fn view(&self) -> DatabaseView {
        DatabaseView { tables: tables_view(self.tables@), log: records_view(self.log@) }
    }
}

pub open spec fn tables_wf(tables: Map<Seq<char>, TableView>) -> bool {
    forall|k: Seq<char>| #[trigger] tables.contains_key(k) ==> table_wf(tables[k])
}

/// Every table leaves room for a next row id.
pub open spec fn ids_available(tables: Map<Seq<char>, TableView>) -> bool {
    forall|k: Seq<char>| #[trigger] tables.contains_key(k) ==> tables[k].next_row_id < u64::MAX
}

impl Database {
    /// The database is well formed: table names are unique and every table
    /// is well formed.
    pub open spec fn wf(&self) -> bool {
        &&& names_unique(self.tables@)
        &&& tables_wf(self@.tables)
    }
}

/// The message of the error for a log record that does not fit its table.
pub open spec fn misfit_message() -> Seq<char> {
    "corrupt record: a row does not fit its table"@
}

/// The message of the error for a table that does not exist.
pub open spec fn missing_table_message(name: Seq<char>) -> Seq<char> {
    "table '"@ + name + "' does not exist"@
}

pub open spec fn missing_table_error(name: Seq<char>) -> LsErrorView {
    LsErrorView::NotFound(missing_table_message(name))
}

/// Whether two strings are equal.
pub(crate) fn str_equal(a: &str, b: &str) -> (r: bool)
    ensures
        r == (a@ == b@),
{
    let x = collect_chars(a);
    let y = collect_chars(b);
    if x.len() != y.len() {
        return false;
    }
    let mut i: usize = 0;
    while i < x.len()
        invariant
            i <= x@.len(),
            x@ == a@,
            y@ == b@,
            x@.len() == y@.len(),
            forall|k: int| 0 <= k < i ==> x@[k] == y@[k],
        decreases x@.len() - i,
    {
        if x[i] != y[i] {
            assert(a@[i as int] != b@[i as int]);
            return false;
        }
        i = i + 1;
    }
    assert(x@ =~= y@);
    true
}

/// ASCII lowercase of a character: `A`-`Z` become `a`-`z`, every other
/// character is left as it is.
pub open spec fn ascii_lower(c: char) -> char {
    if 'A' <= c && c <= 'Z' {
        ((c as u32) + 32) as char
    } else {
        c
    }
}

/// Equality of two strings ignoring ASCII case.
pub open spec fn eq_ignore_ascii_case_spec(a: Seq<char>, b: Seq<char>) -> bool {
    &&& a.len() == b.len()
    &&& forall|i: int| 0 <= i < a.len() ==> ascii_lower(#[trigger] a[i]) == ascii_lower(b[i])
}

/// Whether two strings are equal ignoring ASCII case.
fn lower_exec(c: char) -> (r: char)
    ensures
        r == ascii_lower(c),
{
    if 'A' <= c && c <= 'Z' {
        ((c as u32) + 32) as u8 as char
    } else {
        c
    }
}

pub(crate) fn eq_ignore_ascii_case(a: &str, b: &str) -> (r: bool)
    ensures
        r == eq_ignore_ascii_case_spec(a@, b@),
{
    let x = collect_chars(a);
    let y = collect_chars(b);
    if x.len() != y.len() {
        return false;
    }
    let mut i: usize = 0;
    while i < x.len()
        invariant
            i <= x@.len(),
            x@ == a@,
            y@ == b@,
            x@.len() == y@.len(),
            forall|k: int| 0 <= k < i ==> ascii_lower(#[trigger] x@[k]) == ascii_lower(y@[k]),
        decreases x@.len() - i,
    {
        if lower_exec(x[i]) != lower_exec(y[i]) {
            return false;
        }
        i = i + 1;
    }
    true
}

/// The position of the first of the first `n` columns whose name equals
/// `name` ignoring ASCII case.
pub open spec fn find_column_in(cols: Seq<ColumnView>, name: Seq<char>, n: nat) -> Option<nat>
    decreases n,
{
    if n == 0 {
        None
    } else {
        match find_column_in(cols, name, (n - 1) as nat) {
            Some(i) => Some(i),
            None => if eq_ignore_ascii_case_spec(cols[n - 1].name, name) {
                Some((n - 1) as nat)
            } else {
                None
            },
        }
    }
}

/// The position of the first column whose name equals `name` ignoring
/// ASCII case.
pub open spec fn column_index_spec(cols: Seq<ColumnView>, name: Seq<char>) -> Option<nat> {
    find_column_in(cols, name, cols.len())
}

pub proof fn lemma_find_column_in_bound(cols: Seq<ColumnView>, name: Seq<char>, n: nat)
    ensures
        find_column_in(cols, name, n) matches Some(i) ==> i < n,
    decreases n,
{
    if n > 0 {
        lemma_find_column_in_bound(cols, name, (n - 1) as nat);
    }
}

pub proof fn lemma_find_column_stable(cols: Seq<ColumnView>, name: Seq<char>, k: nat, m: nat)
    requires
        find_column_in(cols, name, k) is Some,
        k <= m,
    ensures
        find_column_in(cols, name, m) == find_column_in(cols, name, k),
    decreases m,
{
    if m > k {
        lemma_find_column_stable(cols, name, k, (m - 1) as nat);
    }
}

impl Table {
    pub fn column_index(&self, name: &str) -> (r: Option<usize>)
        ensures
            r matches Some(i) ==> column_index_spec(self@.columns, name@) == Some(i as nat),
            r is None ==> column_index_spec(self@.columns, name@) is None,
            r matches Some(i) ==> i < self.columns@.len(),
    {
        let mut i: usize = 0;
        while i < self.columns.len()
            invariant
                i <= self.columns@.len(),
                find_column_in(self@.columns, name@, i as nat) is None,
            decreases self.columns@.len() - i,
        {
            if eq_ignore_ascii_case(self.columns[i].name.as_str(), name) {
                assert(self@.columns[i as int] == self.columns@[i as int]@);
                assert(find_column_in(self@.columns, name@, (i + 1) as nat) == Some(i as nat));
                proof {
                    lemma_find_column_stable(self@.columns, name@, (i + 1) as nat, self@.columns.len());
                }
                return Some(i);
            }
            assert(self@.columns[i as int] == self.columns@[i as int]@);
            i = i + 1;
        }
        None
    }
}


pub proof fn lemma_tables_view_index(s: Seq<NamedTable>, i: int)
    requires
        names_unique(s),
        0 <= i < s.len(),
    ensures
        tables_view(s).contains_key(s[i].name@),
        tables_view(s)[s[i].name@] == s[i].table@,
{
    let k = s[i].name@;
    assert(has_table_at(s, k, i));
    let j = choose|j: int| has_table_at(s, k, j);
    assert(j == i);
}

pub proof fn lemma_tables_view_update(s: Seq<NamedTable>, i: int, nt: NamedTable)
    requires
        names_unique(s),
        0 <= i < s.len(),
        nt.name@ == s[i].name@,
    ensures
        names_unique(s.update(i, nt)),
        tables_view(s.update(i, nt)) == tables_view(s).insert(nt.name@, nt.table@),
{
    let s2 = s.update(i, nt);
    assert(names_unique(s2)) by {
        assert forall|a: int, b: int| 0 <= a < s2.len() && 0 <= b < s2.len() && a != b implies s2[a].name@ != s2[b].name@ by {
            if a == i {
                assert(s[a].name@ != s[b].name@);
            } else if b == i {
                assert(s[a].name@ != s[b].name@);
            } else {
                assert(s[a].name@ != s[b].name@);
            }
        }
    }
    let m1 = tables_view(s2);
    let m2 = tables_view(s).insert(nt.name@, nt.table@);
    assert forall|k: Seq<char>| m1.contains_key(k) <==> m2.contains_key(k) by {
        if m1.contains_key(k) {
            let j = choose|j: int| has_table_at(s2, k, j);
            if j != i {
                assert(has_table_at(s, k, j));
            }
        }
        if m2.contains_key(k) && k != nt.name@ {
            let j = choose|j: int| has_table_at(s, k, j);
            assert(has_table_at(s2, k, j));
        }
        if k == nt.name@ {
            assert(has_table_at(s2, k, i));
        }
    }
    assert forall|k: Seq<char>| m1.contains_key(k) implies m1[k] == m2[k] by {
        let j = choose|j: int| has_table_at(s2, k, j);
        lemma_tables_view_index(s2, j);
        if j != i {
            lemma_tables_view_index(s, j);
        }
    }
    assert(m1 =~= m2);
}

pub proof fn lemma_tables_view_push(s: Seq<NamedTable>, nt: NamedTable)
    requires
        names_unique(s),
        !tables_view(s).contains_key(nt.name@),
    ensures
        names_unique(s.push(nt)),
        tables_view(s.push(nt)) == tables_view(s).insert(nt.name@, nt.table@),
{
    let s2 = s.push(nt);
    let n = s.len() as int;
    assert(names_unique(s2)) by {
        assert forall|a: int, b: int| 0 <= a < s2.len() && 0 <= b < s2.len() && a != b implies s2[a].name@ != s2[b].name@ by {
            if a == n {
                assert(!has_table_at(s, nt.name@, b));
            } else if b == n {
                assert(!has_table_at(s, nt.name@, a));
            } else {
                assert(s[a].name@ != s[b].name@);
            }
        }
    }
    let m1 = tables_view(s2);
    let m2 = tables_view(s).insert(nt.name@, nt.table@);
    assert forall|k: Seq<char>| m1.contains_key(k) <==> m2.contains_key(k) by {
        if m1.contains_key(k) {
            let j = choose|j: int| has_table_at(s2, k, j);
            if j != n {
                assert(has_table_at(s, k, j));
            }
        }
        if m2.contains_key(k) && k != nt.name@ {
            let j = choose|j: int| has_table_at(s, k, j);
            assert(has_table_at(s2, k, j));
        }
        if k == nt.name@ {
            assert(has_table_at(s2, k, n));
        }
    }
    assert forall|k: Seq<char>| m1.contains_key(k) implies m1[k] == m2[k] by {
        let j = choose|j: int| has_table_at(s2, k, j);
        lemma_tables_view_index(s2, j);
        if j != n {
            lemma_tables_view_index(s, j);
        }
    }
    assert(m1 =~= m2);
}

/// Applying a record that fits keeps the tables well formed.
pub proof fn lemma_apply_keeps_wf(tables: Map<Seq<char>, TableView>, r: RecordView)
    requires
        tables_wf(tables),
        record_fits(tables, r),
    ensures
        tables_wf(apply_spec(tables, r)),
{
    let t2 = apply_spec(tables, r);
    assert forall|k: Seq<char>| #[trigger] t2.contains_key(k) implies table_wf(t2[k]) by {
        match r {
            RecordView::CreateTable { table, columns } => {
                if k == table {
                    assert(empty_table(columns).rows =~= Map::<u64, Seq<ValueView>>::empty());
                } else {
                    assert(table_wf(tables[k]));
                }
            },
            RecordView::Insert { table, row_id, values } => {
                assert(table_wf(tables[k]));
            },
            RecordView::Update { table, row_id, values } => {
                assert(table_wf(tables[k]));
            },
            RecordView::Delete { table, row_id } => {
                assert(table_wf(tables[k]));
            },
        }
    }
}

/// A copy of a row of values.
pub fn copy_values(v: &Vec<Value>) -> (r: Vec<Value>)
    ensures
        values_view(r@) == values_view(v@),
        r@.len() == v@.len(),
{
    let mut r: Vec<Value> = Vec::new();
    let mut i: usize = 0;
    while i < v.len()
        invariant
            i <= v@.len(),
            values_view(r@) == values_view(v@.take(i as int)),
            r@.len() == i,
        decreases v@.len() - i,
    {
        let x = v[i].duplicate();
        let ghost old_r = r@;
        r.push(x);
        assert(values_view(r@) =~= values_view(old_r).push(x@));
        assert(v@.take(i + 1) =~= v@.take(i as int).push(v@[i as int]));
        assert(values_view(v@.take(i + 1)) =~= values_view(v@.take(i as int)).push(v@[i as int]@));
        i = i + 1;
    }
    assert(v@.take(v@.len() as int) =~= v@);
    r
}

/// A copy of a list of columns.
pub fn copy_columns(v: &Vec<StoredColumn>) -> (r: Vec<StoredColumn>)
    ensures
        columns_view(r@) == columns_view(v@),
        r@.len() == v@.len(),
{
    let mut r: Vec<StoredColumn> = Vec::new();
    let mut i: usize = 0;
    while i < v.len()
        invariant
            i <= v@.len(),
            columns_view(r@) == columns_view(v@.take(i as int)),
            r@.len() == i,
        decreases v@.len() - i,
    {
        let c = StoredColumn { name: v[i].name.clone(), ty: v[i].ty };
        let ghost old_r = r@;
        r.push(c);
        assert(columns_view(r@) =~= columns_view(old_r).push(c@));
        assert(v@.take(i + 1) =~= v@.take(i as int).push(v@[i as int]));
        assert(columns_view(v@.take(i + 1)) =~= columns_view(v@.take(i as int)).push(v@[i as int]@));
        i = i + 1;
    }
    assert(v@.take(v@.len() as int) =~= v@);
    r
}

/// A copy of a string slice as a `String`.
pub fn to_owned_string(s: &str) -> (r: String)
    ensures
        r@ == s@,
{
    s.to_owned()
}

impl Database {
    /// An empty database with nothing logged.
    pub fn new() -> (db: Database)
        ensures
            db.wf(),
            db@.tables == Map::<Seq<char>, TableView>::empty(),
            db@.log == Seq::<RecordView>::empty(),
    {
        let db = Database { tables: Vec::new(), log: Vec::new() };
        assert(db@.tables =~= Map::<Seq<char>, TableView>::empty());
        assert(db@.log =~= Seq::<RecordView>::empty());
        db
    }

    /// The position of the table named `name`, if there is one.
    pub fn find_table(&self, name: &str) -> (r: Option<usize>)
        requires
            self.wf(),
        ensures
            r matches Some(i) ==> i < self.tables@.len() && self.tables@[i as int].name@ == name@,
            r is Some <==> self@.tables.contains_key(name@),
    {
        let mut i: usize = 0;
        while i < self.tables.len()
            invariant
                i <= self.tables@.len(),
                forall|j: int| 0 <= j < i ==> self.tables@[j].name@ != name@,
            decreases self.tables@.len() - i,
        {
            if str_equal(self.tables[i].name.as_str(), name) {
                assert(has_table_at(self.tables@, name@, i as int));
                return Some(i);
            }
            i = i + 1;
        }
        assert(!self@.tables.contains_key(name@)) by {
            if self@.tables.contains_key(name@) {
                let j = choose|j: int| has_table_at(self.tables@, name@, j);
                assert(self.tables@[j].name@ != name@);
            }
        }
        None
    }

    pub fn table(&self, name: &str) -> (r: LsResult<&Table>)
        requires
            self.wf(),
        ensures
            match r {
                Ok(t) => self@.tables.contains_key(name@) && t@ == self@.tables[name@],
                Err(e) => !self@.tables.contains_key(name@) && e@ == missing_table_error(name@),
            },
    {
        match self.find_table(name) {
            Some(i) => {
                proof {
                    lemma_tables_view_index(self.tables@, i as int);
                }
                Ok(&self.tables[i].table)
            },
            None => Err(LsError::NotFound(concat3("table '", name, "' does not exist"))),
        }
    }

    pub fn create_table(&mut self, table: &str, columns: Vec<StoredColumn>) -> (r: LsResult<()>)
        requires
            old(self).wf(),
        ensures
            final(self).wf(),
            match r {
                Ok(_) => {
                    let rec = RecordView::CreateTable { table: table@, columns: columns_view(columns@) };
                    &&& !old(self)@.tables.contains_key(table@)
                    &&& final(self)@.tables == apply_spec(old(self)@.tables, rec)
                    &&& final(self)@.log == old(self)@.log.push(rec)
                },
                Err(e) => {
                    &&& old(self)@.tables.contains_key(table@)
                    &&& e@ == LsErrorView::Duplicate("table '"@ + table@ + "' already exists"@)
                    &&& final(self)@ == old(self)@
                },
            },
    {
        if self.find_table(table).is_some() {
            return Err(LsError::Duplicate(concat3("table '", table, "' already exists")));
        }
        let rec = Record::CreateTable { table: to_owned_string(table), columns: copy_columns(&columns) };
        self.log.push(rec);
        let nt = NamedTable {
            name: to_owned_string(table),
            table: Table { columns, rows: BTreeMap::new(), next_row_id: 1 },
        };
        proof {
            assert(nt.table@.rows =~= Map::<u64, Seq<ValueView>>::empty());
            lemma_tables_view_push(self.tables@, nt);
            lemma_apply_keeps_wf(old(self)@.tables, rec@);
        }
        self.tables.push(nt);
        assert(records_view(self.log@) =~= records_view(old(self).log@).push(rec@));
        Ok(())
    }

    pub fn insert_row(&mut self, table: &str, values: Vec<Value>) -> (r: LsResult<u64>)
        requires
            old(self).wf(),
            old(self)@.tables.contains_key(table@) ==> {
                &&& values@.len() == old(self)@.tables[table@].columns.len()
                &&& old(self)@.tables[table@].next_row_id < u64::MAX
            },
        ensures
            final(self).wf(),
            match r {
                Ok(id) => {
                    let rec = RecordView::Insert { table: table@, row_id: id, values: values_view(values@) };
                    &&& old(self)@.tables.contains_key(table@)
                    &&& id == old(self)@.tables[table@].next_row_id
                    &&& final(self)@.tables == apply_spec(old(self)@.tables, rec)
                    &&& final(self)@.log == old(self)@.log.push(rec)
                },
                Err(e) => {
                    &&& !old(self)@.tables.contains_key(table@)
                    &&& e@ == missing_table_error(table@)
                    &&& final(self)@ == old(self)@
                },
            },
    {
        let i = match self.find_table(table) {
            Some(i) => i,
            None => {
                return Err(LsError::NotFound(concat3("table '", table, "' does not exist")));
            },
        };
        proof {
            lemma_tables_view_index(self.tables@, i as int);
        }
        let row_id = self.tables[i].table.next_row_id;
        let rec = Record::Insert { table: to_owned_string(table), row_id, values: copy_values(&values) };
        let ghost rv = rec@;
        self.log.push(rec);
        let ghost before = self.tables@;
        let ghost vv = values_view(values@);
        {
            let nt = &mut self.tables[i];
            nt.table.next_row_id = row_id + 1;
            nt.table.rows.insert(row_id, values);
        }
        proof {
            let nt = self.tables@[i as int];
            let t_old = before[i as int].table@;
            assert(nt.table@.rows =~= t_old.rows.insert(row_id, vv));
            lemma_tables_view_update(before, i as int, nt);
            assert(self.tables@ =~= before.update(i as int, nt));
            lemma_apply_keeps_wf(old(self)@.tables, rv);
            assert(nt.table@ == (TableView {
                columns: t_old.columns,
                rows: t_old.rows.insert(row_id, vv),
                next_row_id: (row_id + 1) as nat,
            }));
        }
        assert(self@.tables =~= apply_spec(old(self)@.tables, rv));
        assert(records_view(self.log@) =~= records_view(old(self).log@).push(rv));
        Ok(row_id)
    }

    pub fn update_row(&mut self, table: &str, row_id: u64, values: Vec<Value>) -> (r: LsResult<()>)
        requires
            old(self).wf(),
            old(self)@.tables.contains_key(table@) && old(self)@.tables[table@].rows.contains_key(row_id)
                ==> values@.len() == old(self)@.tables[table@].columns.len(),
        ensures
            final(self).wf(),
            ({
                let rec = RecordView::Update { table: table@, row_id, values: values_view(values@) };
                &&& final(self)@.log == old(self)@.log.push(rec)
                &&& final(self)@.tables == apply_spec(old(self)@.tables, rec)
            }),
            r is Ok <==> old(self)@.tables.contains_key(table@),
            r matches Err(e) ==> e@ == missing_table_error(table@),
    {
        let rec = Record::Update { table: to_owned_string(table), row_id, values: copy_values(&values) };
        let ghost rv = rec@;
        self.log.push(rec);
        assert(records_view(self.log@) =~= records_view(old(self).log@).push(rv));
        let i = match self.find_table(table) {
            Some(i) => i,
            None => {
                return Err(LsError::NotFound(concat3("table '", table, "' does not exist")));
            },
        };
        proof {
            lemma_tables_view_index(self.tables@, i as int);
        }
        proof {
            lemma_apply_keeps_wf(old(self)@.tables, rv);
        }
        if !self.tables[i].table.rows.contains_key(&row_id) {
            assert(!old(self)@.tables[table@].rows.contains_key(row_id));
            assert(self@.tables =~= apply_spec(old(self)@.tables, rv));
            return Ok(());
        }
        let ghost before = self.tables@;
        let ghost vv = values_view(values@);
        {
            let nt = &mut self.tables[i];
            nt.table.rows.insert(row_id, values);
        }
        proof {
            let nt = self.tables@[i as int];
            let t_old = before[i as int].table@;
            assert(nt.table@.rows =~= t_old.rows.insert(row_id, vv));
            lemma_tables_view_update(before, i as int, nt);
            assert(self.tables@ =~= before.update(i as int, nt));
            assert(nt.table@ == (TableView { rows: t_old.rows.insert(row_id, vv), ..t_old }));
        }
        assert(self@.tables =~= apply_spec(old(self)@.tables, rv));
        Ok(())
    }

    pub fn delete_row(&mut self, table: &str, row_id: u64) -> (r: LsResult<()>)
        requires
            old(self).wf(),
        ensures
            final(self).wf(),
            ({
                let rec = RecordView::Delete { table: table@, row_id };
                &&& final(self)@.log == old(self)@.log.push(rec)
                &&& final(self)@.tables == apply_spec(old(self)@.tables, rec)
            }),
            r is Ok <==> old(self)@.tables.contains_key(table@),
            r matches Err(e) ==> e@ == missing_table_error(table@),
    {
        let rec = Record::Delete { table: to_owned_string(table), row_id };
        let ghost rv = rec@;
        self.log.push(rec);
        assert(records_view(self.log@) =~= records_view(old(self).log@).push(rv));
        let i = match self.find_table(table) {
            Some(i) => i,
            None => {
                return Err(LsError::NotFound(concat3("table '", table, "' does not exist")));
            },
        };
        proof {
            lemma_tables_view_index(self.tables@, i as int);
        }
        let ghost before = self.tables@;
        {
            let nt = &mut self.tables[i];
            nt.table.rows.remove(&row_id);
        }
        proof {
            let nt = self.tables@[i as int];
            let t_old = before[i as int].table@;
            assert(nt.table@.rows =~= t_old.rows.remove(row_id));
            lemma_tables_view_update(before, i as int, nt);
            assert(self.tables@ =~= before.update(i as int, nt));
            lemma_apply_keeps_wf(old(self)@.tables, rv);
            assert(nt.table@ == (TableView { rows: t_old.rows.remove(row_id), ..t_old }));
        }
        assert(self@.tables =~= apply_spec(old(self)@.tables, rv));
        Ok(())
    }

    /// Replays one record of a log into the tables; nothing is logged.
    pub fn apply_record(&mut self, record: Record)
        requires
            old(self).wf(),
            record_fits(old(self)@.tables, record@),
        ensures
            final(self).wf(),
            final(self)@.tables == apply_spec(old(self)@.tables, record@),
            final(self)@.log == old(self)@.log,
    {
        let ghost rv = record@;
        proof {
            lemma_apply_keeps_wf(old(self)@.tables, rv);
        }
        match record {
            Record::CreateTable { table, columns } => {
                let nt = NamedTable {
                    name: table,
                    table: Table { columns, rows: BTreeMap::new(), next_row_id: 1 },
                };
                assert(nt.table@.rows =~= Map::<u64, Seq<ValueView>>::empty());
                match self.find_table(nt.name.as_str()) {
                    Some(i) => {
                        let ghost before = self.tables@;
                        self.tables.set(i, nt);
                        proof {
                            lemma_tables_view_update(before, i as int, nt);
                        }
                    },
                    None => {
                        proof {
                            lemma_tables_view_push(self.tables@, nt);
                        }
                        self.tables.push(nt);
                    },
                }
                assert(self@.tables =~= apply_spec(old(self)@.tables, rv));
            },
            Record::Insert { table, row_id, values } => {
                if let Some(i) = self.find_table(table.as_str()) {
                    proof {
                        lemma_tables_view_index(self.tables@, i as int);
                    }
                    let ghost before = self.tables@;
                    let ghost vv = values_view(values@);
                    {
                        let nt = &mut self.tables[i];
                        nt.table.rows.insert(row_id, values);
                        if row_id >= nt.table.next_row_id {
                            nt.table.next_row_id = row_id + 1;
                        }
                    }
                    proof {
                        let nt = self.tables@[i as int];
                        let t_old = before[i as int].table@;
                        assert(nt.table@.rows =~= t_old.rows.insert(row_id, vv));
                        lemma_tables_view_update(before, i as int, nt);
                        assert(self.tables@ =~= before.update(i as int, nt));
                    }
                }
                assert(self@.tables =~= apply_spec(old(self)@.tables, rv));
            },
            Record::Update { table, row_id, values } => {
                if let Some(i) = self.find_table(table.as_str()) {
                    proof {
                        lemma_tables_view_index(self.tables@, i as int);
                    }
                    if !self.tables[i].table.rows.contains_key(&row_id) {
                        assert(self@.tables =~= apply_spec(old(self)@.tables, rv));
                        return;
                    }
                    let ghost before = self.tables@;
                    let ghost vv = values_view(values@);
                    {
                        let nt = &mut self.tables[i];
                        nt.table.rows.insert(row_id, values);
                    }
                    proof {
                        let nt = self.tables@[i as int];
                        let t_old = before[i as int].table@;
                        assert(nt.table@.rows =~= t_old.rows.insert(row_id, vv));
                        lemma_tables_view_update(before, i as int, nt);
                        assert(self.tables@ =~= before.update(i as int, nt));
                        assert(nt.table@ == (TableView { rows: t_old.rows.insert(row_id, vv), ..t_old }));
                    }
                }
                assert(self@.tables =~= apply_spec(old(self)@.tables, rv));
            },
            Record::Delete { table, row_id } => {
                if let Some(i) = self.find_table(table.as_str()) {
                    proof {
                        lemma_tables_view_index(self.tables@, i as int);
                    }
                    let ghost before = self.tables@;
                    {
                        let nt = &mut self.tables[i];
                        nt.table.rows.remove(&row_id);
                    }
                    proof {
                        let nt = self.tables@[i as int];
                        let t_old = before[i as int].table@;
                        assert(nt.table@.rows =~= t_old.rows.remove(row_id));
                        lemma_tables_view_update(before, i as int, nt);
                        assert(self.tables@ =~= before.update(i as int, nt));
                        assert(nt.table@ == (TableView { rows: t_old.rows.remove(row_id), ..t_old }));
                    }
                }
                assert(self@.tables =~= apply_spec(old(self)@.tables, rv));
            },
        }
    }

    /// Hands out the records logged so far and empties the log.
    pub fn take_log(&mut self) -> (r: Vec<Record>)
        ensures
            records_view(r@) == old(self)@.log,
            final(self)@.tables == old(self)@.tables,
            final(self)@.log == Seq::<RecordView>::empty(),
            final(self).tables@ == old(self).tables@,
    {
        let mut r: Vec<Record> = Vec::new();
        std::mem::swap(&mut r, &mut self.log);
        assert(records_view(self.log@) =~= Seq::<RecordView>::empty());
        r
    }
}

impl Table {
    /// The ids of the live rows, in increasing order.
    pub fn row_ids(&self) -> (r: Vec<u64>)
        requires
            table_wf(self@),
        ensures
            r@ == row_ids_in_order(self@),
    {
        let mut r: Vec<u64> = Vec::new();
        let ghost ks = vstd::std_specs::btree::spec_keys_iter(&self.rows).remaining();
        for k in it: self.rows.keys()
            invariant
                it.seq() == ks,
                r@ == it.seq().take(it.index() as int).map_values(|x: &u64| *x),
        {
            r.push(*k);
            assert(it.seq().take(it.index() + 1).map_values(|x: &u64| *x) =~= r@);
        }
        assert(r@ =~= ks.map_values(|x: &u64| *x));
        assert(ks.unref() =~= r@);
        proof {
            lemma_increasing_keys(ks);
            assert(self@.rows.dom() =~= self.rows@.dom());
            lemma_increasing_is_ids_below(r@, self@.rows.dom(), self@.next_row_id);
        }
        r
    }
}

proof fn lemma_increasing_generic<K: Ord>(s: Seq<K>)
    requires
        vstd::laws_cmp::obeys_cmp::<K>(),
        vstd::std_specs::btree::increasing_seq(s),
    ensures
        forall|i: int, j: int| #![trigger s[i], s[j]] 0 <= i < j < s.len() ==> s[i].cmp_spec(&s[j]) is Less,
{
}

proof fn lemma_increasing_keys(ks: Seq<&u64>)
    requires
        vstd::std_specs::btree::increasing_seq(ks),
    ensures
        forall|i: int, j: int| 0 <= i < j < ks.len() ==> *ks[i] < *ks[j],
{
    assert(vstd::laws_cmp::obeys_cmp::<u64>());
    assert(vstd::laws_cmp::obeys_cmp::<&u64>());
    lemma_increasing_generic(ks);
}

/// `ids_below` looks only at the ids below its bound.
pub proof fn lemma_ids_below_congruent(d1: Set<u64>, d2: Set<u64>, n: nat)
    requires
        forall|x: u64| x < n ==> (d1.contains(x) <==> d2.contains(x)),
    ensures
        ids_below(d1, n) == ids_below(d2, n),
    decreases n,
{
    if n > 0 {
        lemma_ids_below_congruent(d1, d2, (n - 1) as nat);
    }
}

/// A strictly increasing sequence of ids below `n` is the sequence of its
/// own elements in increasing order.
pub proof fn lemma_increasing_is_ids_below(s: Seq<u64>, d: Set<u64>, n: nat)
    requires
        forall|i: int, j: int| 0 <= i < j < s.len() ==> s[i] < s[j],
        s.to_set() == d,
        forall|x: u64| #[trigger] d.contains(x) ==> x < n,
        n <= u64::MAX + 1,
    ensures
        s == ids_below(d, n),
    decreases n,
{
    if n == 0 {
        if s.len() > 0 {
            assert(s.to_set().contains(s[0]));
        }
        assert(s =~= Seq::<u64>::empty());
    } else {
        let m = (n - 1) as nat;
        if d.contains(m as u64) {
            assert(s.to_set().contains(m as u64));
            let k = choose|k: int| 0 <= k < s.len() && s[k] == m as u64;
            let last = s.len() - 1;
            assert(s.to_set().contains(s[last]));
            assert(s[last] == m as u64) by {
                if k < last {
                    assert(s[k] < s[last]);
                }
            }
            let s2 = s.drop_last();
            let d2 = d.remove(m as u64);
            assert(s2.to_set() =~= d2) by {
                assert forall|x: u64| s2.to_set().contains(x) implies d2.contains(x) by {
                    let j = choose|j: int| 0 <= j < s2.len() && s2[j] == x;
                    assert(s.to_set().contains(s[j]));
                    assert(s[j] < s[last]);
                }
                assert forall|x: u64| d2.contains(x) implies s2.to_set().contains(x) by {
                    assert(s.to_set().contains(x));
                    let j = choose|j: int| 0 <= j < s.len() && s[j] == x;
                    assert(j != last);
                    assert(s2[j] == x);
                }
            }
            assert forall|x: u64| #[trigger] d2.contains(x) implies x < m by {
                assert(d.contains(x));
            }
            lemma_increasing_is_ids_below(s2, d2, m);
            lemma_ids_below_congruent(d, d2, m);
            assert(s =~= s2.push(m as u64));
        } else {
            assert forall|x: u64| #[trigger] d.contains(x) implies x < m by {}
            lemma_increasing_is_ids_below(s, d, m);
        }
    }
}

/// The ids of `ids_below` are the members of the set below the bound, in
/// strictly increasing order.
pub proof fn lemma_ids_below_props(d: Set<u64>, n: nat)
    requires
        n <= u64::MAX + 1,
    ensures
        forall|i: int| 0 <= i < ids_below(d, n).len() ==> #[trigger] ids_below(d, n)[i] < n && d.contains(ids_below(d, n)[i]),
        forall|i: int, j: int| 0 <= i < j < ids_below(d, n).len() ==> ids_below(d, n)[i] < ids_below(d, n)[j],
        forall|x: u64| d.contains(x) && x < n ==> ids_below(d, n).contains(x),
        forall|x: u64| ids_below(d, n).contains(x) ==> d.contains(x) && x < n,
    decreases n,
{
    if n > 0 {
        let m = (n - 1) as nat;
        lemma_ids_below_props(d, m);
        let rest = ids_below(d, m);
        if d.contains(m as u64) {
            let s = rest.push(m as u64);
            assert forall|x: u64| d.contains(x) && x < n implies s.contains(x) by {
                if x < m {
                    assert(rest.contains(x));
                    let j = choose|j: int| 0 <= j < rest.len() && rest[j] == x;
                    assert(s[j] == x);
                } else {
                    assert(s[rest.len() as int] == x);
                }
            }
            assert forall|x: u64| s.contains(x) implies d.contains(x) && x < n by {
                let j = choose|j: int| 0 <= j < s.len() && s[j] == x;
                if j < rest.len() {
                    assert(rest[j] == x);
                }
            }
        } else {
            assert forall|x: u64| d.contains(x) && x < n implies rest.contains(x) by {
                assert(x != m);
            }
        }
    }
}

/// A log of one record.
pub proof fn lemma_single_record(tables: Map<Seq<char>, TableView>, r: RecordView)
    ensures
        replay(tables, seq![r]) == apply_spec(tables, r),
        log_fits(tables, seq![r]) == record_fits(tables, r),
{
    let e = Seq::<RecordView>::empty();
    assert(seq![r].drop_last() =~= e);
    assert(seq![r].last() == r);
    assert(replay(tables, e) == tables);
    assert(log_fits(tables, e));
}

/// Replaying one log and then another is replaying the two joined, and the
/// joined log fits exactly when the first fits and the second fits what the
/// first leaves behind.
pub proof fn law_replay_concat(tables: Map<Seq<char>, TableView>, xs: Seq<RecordView>, ys: Seq<RecordView>)
    ensures
        replay(tables, xs + ys) == replay(replay(tables, xs), ys),
        log_fits(tables, xs + ys) == (log_fits(tables, xs) && log_fits(replay(tables, xs), ys)),
    decreases ys.len(),
{
    if ys.len() == 0 {
        assert(xs + ys =~= xs);
    } else {
        law_replay_concat(tables, xs, ys.drop_last());
        assert((xs + ys).drop_last() =~= xs + ys.drop_last());
        assert((xs + ys).last() == ys.last());
    }
}

/// Row ids are never handed out twice, over a whole history, reopening
/// included: once a table's log holds an INSERT of some row id, the table's
/// next row id stays above it for as long as the table is not created
/// again.
pub proof fn law_next_id_above_inserted(tables: Map<Seq<char>, TableView>, rs: Seq<RecordView>, k: Seq<char>, i: int)
    requires
        0 <= i < rs.len(),
        rs[i] matches RecordView::Insert { table, .. } && table == k,
        forall|j: int| i < j < rs.len() ==> !(#[trigger] rs[j] matches RecordView::CreateTable { table, .. } && table == k),
        replay(tables, rs).contains_key(k),
    ensures
        rs[i] matches RecordView::Insert { row_id, .. } && replay(tables, rs)[k].next_row_id > row_id,
    decreases rs.len(),
{
    let prev = replay(tables, rs.drop_last());
    let last = rs.last();
    assert(rs.len() - 1 >= i);
    if i == rs.len() - 1 {
        assert(last == rs[i]);
    } else {
        assert(!(last matches RecordView::CreateTable { table, .. } && table == k)) by {
            assert(last == rs[rs.len() - 1]);
        }
        assert(prev.contains_key(k));
        assert forall|j: int| i < j < rs.drop_last().len() implies !(#[trigger] rs.drop_last()[j] matches RecordView::CreateTable { table, .. } && table == k) by {
            assert(rs.drop_last()[j] == rs[j]);
        }
        assert(rs.drop_last()[i] == rs[i]);
        law_next_id_above_inserted(tables, rs.drop_last(), k, i);
        assert(replay(tables, rs)[k].next_row_id >= prev[k].next_row_id);
    }
}

/// Applying one more record after a replay is replaying the longer log.
pub proof fn lemma_replay_push(tables: Map<Seq<char>, TableView>, rs: Seq<RecordView>, r: RecordView)
    ensures
        replay(tables, rs.push(r)) == apply_spec(replay(tables, rs), r),
{
    assert(rs.push(r).drop_last() =~= rs);
}


impl Database {
    /// Whether every table leaves room for a next row id, which running a
    /// statement needs.
    pub fn row_ids_available(&self) -> (r: bool)
        requires
            self.wf(),
        ensures
            r == ids_available(self@.tables),
    {
        let mut i: usize = 0;
        while i < self.tables.len()
            invariant
                i <= self.tables@.len(),
                self.wf(),
                forall|j: int| 0 <= j < i ==> self.tables@[j].table.next_row_id < u64::MAX,
            decreases self.tables@.len() - i,
        {
            if self.tables[i].table.next_row_id == u64::MAX {
                proof {
                    lemma_tables_view_index(self.tables@, i as int);
                }
                return false;
            }
            i = i + 1;
        }
        assert forall|k: Seq<char>| #[trigger] self@.tables.contains_key(k) implies self@.tables[k].next_row_id < u64::MAX by {
            let j = choose|j: int| has_table_at(self.tables@, k, j);
            lemma_tables_view_index(self.tables@, j);
        }
        true
    }

    /// The database that a log rebuilds: its records replayed in order,
    /// starting from no tables. A record that does not fit the tables it
    /// meets (a row of the wrong width, or a row id that leaves no room for
    /// a next one) makes the log corrupt.
    pub fn restore(records: &Vec<Record>) -> (r: LsResult<Database>)
        ensures
            match r {
                Ok(db) => {
                    &&& db.wf()
                    &&& log_fits(Map::empty(), records_view(records@))
                    &&& db@.tables == replay(Map::empty(), records_view(records@))
                    &&& db@.log == Seq::<RecordView>::empty()
                },
                Err(e) => {
                    &&& !log_fits(Map::empty(), records_view(records@))
                    &&& e@ == LsErrorView::Storage(misfit_message())
                },
            },
    {
        let mut db = Database::new();
        let ghost rv = records_view(records@);
        let mut i: usize = 0;
        while i < records.len()
            invariant
                i <= records@.len(),
                rv == records_view(records@),
                db.wf(),
                db@.log == Seq::<RecordView>::empty(),
                log_fits(Map::empty(), rv.take(i as int)),
                db@.tables == replay(Map::empty(), rv.take(i as int)),
            decreases records@.len() - i,
        {
            proof {
                assert(rv.take(i + 1).drop_last() =~= rv.take(i as int));
                assert(rv.take(i + 1).last() == records@[i as int]@);
            }
            if !db.record_fits(&records[i]) {
                proof {
                    law_replay_concat(Map::empty(), rv.take(i + 1), rv.skip(i + 1));
                    assert(rv.take(i + 1) + rv.skip(i + 1) =~= rv);
                }
                return Err(LsError::Storage(String::from_str("corrupt record: a row does not fit its table")));
            }
            let rec = records[i].duplicate();
            db.apply_record(rec);
            i = i + 1;
        }
        assert(rv.take(rv.len() as int) =~= rv);
        Ok(db)
    }

    /// Whether a record read from a log can be replayed (see `record_fits`).
    pub fn record_fits(&self, record: &Record) -> (r: bool)
        requires
            self.wf(),
        ensures
            r == record_fits(self@.tables, record@),
    {
        match record {
            Record::CreateTable { .. } => true,
            Record::Delete { .. } => true,
            Record::Insert { table, row_id, values } => match self.find_table(table.as_str()) {
                None => true,
                Some(i) => {
                    proof {
                        lemma_tables_view_index(self.tables@, i as int);
                    }
                    values.len() == self.tables[i].table.columns.len() && *row_id < u64::MAX
                },
            },
            Record::Update { table, row_id, values } => match self.find_table(table.as_str()) {
                None => true,
                Some(i) => {
                    proof {
                        lemma_tables_view_index(self.tables@, i as int);
                    }
                    !self.tables[i].table.rows.contains_key(row_id) || values.len() == self.tables[i].table.columns.len()
                },
            },
        }
    }
}

} // verus!
