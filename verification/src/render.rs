//! Text renderings of query results: the pipe-separated listing handed to
//! agents, the aligned table printed on the console, and the one-line
//! replies for statements that return no rows.

use vstd::prelude::*;
use vstd::string::StringExecFns;
use vstd::utf8::encode_utf8;
use crate::ast::strings_view;
use crate::error::{LsResult, error_text};
use crate::executor::{QueryResult, QueryResultView, rows_list_view};
use crate::text::{nat_text, push_char, push_u64_text};
use crate::types::{Value, ValueView, value_text, values_view};

verus! {

/// The parts written one after the other with `sep` between each two
/// (`[T]::join`).
pub open spec fn join(parts: Seq<Seq<char>>, sep: Seq<char>) -> Seq<char>
    decreases parts.len(),
{
    if parts.len() == 0 {
        Seq::empty()
    } else if parts.len() == 1 {
        parts[0]
    } else {
        join(parts.drop_last(), sep) + sep + parts.last()
    }
}

/// The texts of the values of a row.
pub open spec fn cells_text(row: Seq<ValueView>) -> Seq<Seq<char>> {
    row.map_values(|v: ValueView| value_text(v))
}

/// One line per row, each the row's values joined by ` | `.
pub open spec fn rows_lines(rows: Seq<Seq<ValueView>>) -> Seq<char>
    decreases rows.len(),
{
    if rows.len() == 0 {
        Seq::empty()
    } else {
        rows_lines(rows.drop_last()) + join(cells_text(rows.last()), " | "@) + "\n"@
    }
}

/// The listing of a result: the column names, then the rows, each on a
/// line of its own with ` | ` between the cells, and `(0 rows)` when there
/// are none.
pub open spec fn format_rows_spec(columns: Seq<Seq<char>>, rows: Seq<Seq<ValueView>>) -> Seq<char> {
    join(columns, " | "@) + "\n"@ + rows_lines(rows) + if rows.len() == 0 {
        "(0 rows)\n"@
    } else {
        Seq::empty()
    }
}

proof fn lemma_join_push(parts: Seq<Seq<char>>, sep: Seq<char>, x: Seq<char>)
    ensures
        join(parts.push(x), sep) == if parts.len() == 0 {
            x
        } else {
            join(parts, sep) + sep + x
        },
{
    assert(parts.push(x).drop_last() =~= parts);
    assert(parts.push(x).last() == x);
    if parts.len() == 0 {
        assert(parts.push(x).len() == 1);
        assert(parts.push(x)[0] == x);
    }
}

/// Appends `s`.
fn push_str(out: &mut String, s: &str)
    ensures
        final(out)@ == old(out)@ + s@,
{
    out.append(s);
}

/// The text of a value, as `Display` writes it.
pub fn value_string(v: &Value) -> (r: String)
    ensures
        r@ == value_text(v@),
{
    let mut r = String::new();
    v.push_text(&mut r);
    assert(r@ =~= value_text(v@));
    r
}

/// Appends the strings joined by `sep`.
fn push_joined(out: &mut String, parts: &[String], sep: &str)
    ensures
        final(out)@ == old(out)@ + join(strings_view(parts@), sep@),
{
    let mut i: usize = 0;
    while i < parts.len()
        invariant
            i <= parts@.len(),
            out@ == old(out)@ + join(strings_view(parts@.take(i as int)), sep@),
        decreases parts@.len() - i,
    {
        proof {
            assert(strings_view(parts@.take(i + 1)) =~= strings_view(parts@.take(i as int)).push(parts@[i as int]@));
            lemma_join_push(strings_view(parts@.take(i as int)), sep@, parts@[i as int]@);
        }
        if i > 0 {
            push_str(out, sep);
        }
        push_str(out, parts[i].as_str());
        i = i + 1;
    }
    assert(parts@.take(parts@.len() as int) =~= parts@);
}

/// Appends the texts of the values joined by ` | `.
fn push_row_cells(out: &mut String, row: &Vec<Value>)
    ensures
        final(out)@ == old(out)@ + join(cells_text(values_view(row@)), " | "@),
{
    let ghost vs = values_view(row@);
    let mut i: usize = 0;
    while i < row.len()
        invariant
            i <= row@.len(),
            vs == values_view(row@),
            out@ == old(out)@ + join(cells_text(vs.take(i as int)), " | "@),
        decreases row@.len() - i,
    {
        proof {
            assert(cells_text(vs.take(i + 1)) =~= cells_text(vs.take(i as int)).push(value_text(row@[i as int]@)));
            lemma_join_push(cells_text(vs.take(i as int)), " | "@, value_text(row@[i as int]@));
        }
        if i > 0 {
            push_str(out, " | ");
        }
        row[i].push_text(out);
        i = i + 1;
    }
    assert(vs.take(vs.len() as int) =~= vs);
}

/// The listing of a result as handed to an agent: the column names joined
/// by ` | `, then each row the same way, one per line; `(0 rows)` follows
/// when there are none.
pub fn format_rows(columns: &[String], rows: &[Vec<Value>]) -> (r: String)
    ensures
        r@ == format_rows_spec(strings_view(columns@), rows_list_view(rows@)),
{
    let ghost rv = rows_list_view(rows@);
    let mut out = String::new();
    push_joined(&mut out, columns, " | ");
    push_char(&mut out, '\n');
    let ghost head = out@;
    proof {
        reveal_strlit("\n");
    }
    assert(head =~= join(strings_view(columns@), " | "@) + "\n"@);
    let mut i: usize = 0;
    while i < rows.len()
        invariant
            i <= rows@.len(),
            rv == rows_list_view(rows@),
            out@ == head + rows_lines(rv.take(i as int)),
        decreases rows@.len() - i,
    {
        proof {
            assert(rv.take(i + 1).drop_last() =~= rv.take(i as int));
            assert(rv.take(i + 1).last() == values_view(rows@[i as int]@));
        }
        push_row_cells(&mut out, &rows[i]);
        push_char(&mut out, '\n');
        proof {
            reveal_strlit("\n");
        }
        assert(out@ =~= head + rows_lines(rv.take(i + 1)));
        i = i + 1;
    }
    assert(rv.take(rv.len() as int) =~= rv);
    if rows.len() == 0 {
        push_str(&mut out, "(0 rows)\n");
    } else {
        assert(head + rows_lines(rv) =~= head + rows_lines(rv) + Seq::<char>::empty());
    }
    out
}

/// The length of a text in bytes of UTF-8, as `str::len` gives it.
pub open spec fn byte_len(s: Seq<char>) -> nat {
    (encode_utf8(s).len() as usize) as nat
}

/// The widest of the cells in column `i` of the first `n` rows (zero when
/// there are none); a row too short to have the column does not count.
pub open spec fn cells_width(cells: Seq<Seq<Seq<char>>>, i: int, n: int) -> nat
    decreases n,
{
    if n <= 0 {
        0
    } else {
        let w = cells_width(cells, i, n - 1);
        let row = cells[n - 1];
        if i < row.len() && w < byte_len(row[i]) {
            byte_len(row[i])
        } else {
            w
        }
    }
}

/// The width of column `i` over the first `n` rows: its name's or its
/// widest cell's, whichever is wider.
pub open spec fn width_upto(columns: Seq<Seq<char>>, cells: Seq<Seq<Seq<char>>>, i: int, n: int) -> nat {
    let c = byte_len(columns[i]);
    let w = cells_width(cells, i, n);
    if c < w { w } else { c }
}

pub open spec fn column_widths(columns: Seq<Seq<char>>, cells: Seq<Seq<Seq<char>>>) -> Seq<nat> {
    Seq::new(columns.len(), |i: int| width_upto(columns, cells, i, cells.len() as int))
}

/// The text followed by spaces up to `width` characters (`{:<width$}`).
pub open spec fn pad(s: Seq<char>, width: nat) -> Seq<char> {
    if s.len() < width {
        s + Seq::new((width - s.len()) as nat, |k: int| ' ')
    } else {
        s
    }
}

pub open spec fn padded(parts: Seq<Seq<char>>, widths: Seq<nat>) -> Seq<Seq<char>> {
    Seq::new(parts.len(), |i: int| pad(parts[i], widths[i]))
}

pub open spec fn dashes(w: nat) -> Seq<char> {
    Seq::new(w, |k: int| '-')
}

/// The body of the console table: one line per row, each cell padded to
/// its column's width.
pub open spec fn table_rows(cells: Seq<Seq<Seq<char>>>, widths: Seq<nat>) -> Seq<char>
    decreases cells.len(),
{
    if cells.len() == 0 {
        Seq::empty()
    } else {
        table_rows(cells.drop_last(), widths) + join(padded(cells.last(), widths), " | "@) + "\n"@
    }
}

/// The closing line of the console table, such as `(1 row)` or `(3 rows)`.
pub open spec fn count_line(n: nat) -> Seq<char> {
    "("@ + nat_text(n) + " row"@ + (if n == 1 { Seq::empty() } else { "s"@ }) + ")\n"@
}

pub open spec fn rows_cells(rows: Seq<Seq<ValueView>>) -> Seq<Seq<Seq<char>>> {
    rows.map_values(|r: Seq<ValueView>| cells_text(r))
}

/// The aligned table printed on the console: the header, a rule of dashes,
/// the rows, and the row count; every column as wide as its widest entry.
pub open spec fn render_table_spec(columns: Seq<Seq<char>>, rows: Seq<Seq<ValueView>>) -> Seq<char> {
    if columns.len() == 0 {
        "(0 columns)\n"@
    } else {
        let cells = rows_cells(rows);
        let widths = column_widths(columns, cells);
        join(padded(columns, widths), " | "@) + "\n"@
            + join(widths.map_values(|w: nat| dashes(w)), "-+-"@) + "\n"@
            + table_rows(cells, widths)
            + count_line(rows.len())
    }
}

/// The texts of the cells of every row.
fn cell_strings(rows: &[Vec<Value>]) -> (r: Vec<Vec<String>>)
    ensures
        r@.len() == rows@.len(),
        forall|i: int| 0 <= i < r@.len() ==> strings_view(#[trigger] r@[i]@) == cells_text(values_view(rows@[i]@)),
{
    let mut r: Vec<Vec<String>> = Vec::new();
    let mut i: usize = 0;
    while i < rows.len()
        invariant
            i <= rows@.len(),
            r@.len() == i,
            forall|k: int| 0 <= k < i ==> strings_view(#[trigger] r@[k]@) == cells_text(values_view(rows@[k]@)),
        decreases rows@.len() - i,
    {
        let row = &rows[i];
        let mut line: Vec<String> = Vec::new();
        let mut j: usize = 0;
        while j < row.len()
            invariant
                j <= row@.len(),
                line@.len() == j,
                forall|k: int| 0 <= k < j ==> (#[trigger] line@[k])@ == value_text(row@[k]@),
            decreases row@.len() - j,
        {
            line.push(value_string(&row[j]));
            j = j + 1;
        }
        assert(strings_view(line@) =~= cells_text(values_view(row@)));
        r.push(line);
        i = i + 1;
    }
    r
}

/// Appends `s`, then spaces up to `width` characters.
fn push_padded(out: &mut String, s: &str, width: usize)
    ensures
        final(out)@ == old(out)@ + pad(s@, width as nat),
{
    push_str(out, s);
    let n = crate::lexer::collect_chars(s).len();
    if n < width {
        let mut k: usize = n;
        while k < width
            invariant
                n <= k <= width,
                n == s@.len(),
                out@ == old(out)@ + s@ + Seq::new((k - n) as nat, |q: int| ' '),
            decreases width - k,
        {
            push_char(out, ' ');
            assert(Seq::new((k + 1 - n) as nat, |q: int| ' ') =~= Seq::new((k - n) as nat, |q: int| ' ').push(' '));
            k = k + 1;
        }
        assert(out@ =~= old(out)@ + pad(s@, width as nat));
    } else {
        assert(out@ =~= old(out)@ + pad(s@, width as nat));
    }
}

/// Appends the strings, each padded to its width, joined by ` | `.
fn push_padded_line(out: &mut String, parts: &[String], widths: &Vec<usize>, Ghost(wv): Ghost<Seq<nat>>)
    requires
        parts@.len() <= widths@.len(),
        widths@.len() == wv.len(),
        forall|i: int| 0 <= i < wv.len() ==> wv[i] == #[trigger] widths@[i] as nat,
    ensures
        final(out)@ == old(out)@ + join(padded(strings_view(parts@), wv), " | "@),
{
    let ghost ps = strings_view(parts@);
    let mut i: usize = 0;
    while i < parts.len()
        invariant
            i <= parts@.len() <= widths@.len(),
            ps == strings_view(parts@),
            widths@.len() == wv.len(),
            forall|k: int| 0 <= k < wv.len() ==> wv[k] == #[trigger] widths@[k] as nat,
            out@ == old(out)@ + join(padded(ps.take(i as int), wv), " | "@),
        decreases parts@.len() - i,
    {
        proof {
            assert(padded(ps.take(i + 1), wv) =~= padded(ps.take(i as int), wv).push(pad(ps[i as int], wv[i as int])));
            lemma_join_push(padded(ps.take(i as int), wv), " | "@, pad(ps[i as int], wv[i as int]));
        }
        if i > 0 {
            push_str(out, " | ");
        }
        push_padded(out, parts[i].as_str(), widths[i]);
        i = i + 1;
    }
    assert(ps.take(ps.len() as int) =~= ps);
}

/// Appends the rule under the header: a run of dashes per column, joined by
/// `-+-`.
fn push_rule(out: &mut String, widths: &Vec<usize>, Ghost(wv): Ghost<Seq<nat>>)
    requires
        widths@.len() == wv.len(),
        forall|i: int| 0 <= i < wv.len() ==> wv[i] == #[trigger] widths@[i] as nat,
    ensures
        final(out)@ == old(out)@ + join(wv.map_values(|w: nat| dashes(w)), "-+-"@),
{
    let ghost ds = wv.map_values(|w: nat| dashes(w));
    let mut i: usize = 0;
    while i < widths.len()
        invariant
            i <= widths@.len(),
            widths@.len() == wv.len(),
            ds == wv.map_values(|w: nat| dashes(w)),
            forall|k: int| 0 <= k < wv.len() ==> wv[k] == #[trigger] widths@[k] as nat,
            out@ == old(out)@ + join(ds.take(i as int), "-+-"@),
        decreases widths@.len() - i,
    {
        proof {
            assert(ds.take(i + 1) =~= ds.take(i as int).push(dashes(wv[i as int])));
            lemma_join_push(ds.take(i as int), "-+-"@, dashes(wv[i as int]));
        }
        if i > 0 {
            push_str(out, "-+-");
        }
        let ghost before = out@;
        let w = widths[i];
        let mut k: usize = 0;
        while k < w
            invariant
                k <= w,
                out@ == before + dashes(k as nat),
            decreases w - k,
        {
            push_char(out, '-');
            assert(dashes((k + 1) as nat) =~= dashes(k as nat).push('-'));
            k = k + 1;
        }
        i = i + 1;
    }
    assert(ds.take(ds.len() as int) =~= ds);
}

proof fn lemma_width_step(columns: Seq<Seq<char>>, cells: Seq<Seq<Seq<char>>>, i: int, n: int)
    requires
        0 <= n < cells.len(),
    ensures
        width_upto(columns, cells, i, n + 1) == if i < cells[n].len() && width_upto(columns, cells, i, n) < byte_len(cells[n][i]) {
            byte_len(cells[n][i])
        } else {
            width_upto(columns, cells, i, n)
        },
{
}

/// The width of each column: the byte length of its name or of its widest
/// cell, whichever is larger.
fn column_width_values(columns: &[String], cells: &Vec<Vec<String>>) -> (r: Vec<usize>)
    ensures
        r@.len() == columns@.len(),
        forall|i: int| 0 <= i < r@.len() ==> #[trigger] r@[i] as nat
            == width_upto(strings_view(columns@), cells@.map_values(|row: Vec<String>| strings_view(row@)), i, cells@.len() as int),
{
    let ghost cv = strings_view(columns@);
    let ghost cs = cells@.map_values(|row: Vec<String>| strings_view(row@));
    let mut widths: Vec<usize> = Vec::new();
    let mut j: usize = 0;
    while j < columns.len()
        invariant
            j <= columns@.len(),
            cv == strings_view(columns@),
            widths@.len() == j,
            forall|k: int| 0 <= k < j ==> #[trigger] widths@[k] as nat == byte_len(cv[k]),
        decreases columns@.len() - j,
    {
        widths.push(columns[j].as_str().len());
        j = j + 1;
    }
    let mut r: usize = 0;
    while r < cells.len()
        invariant
            r <= cells@.len(),
            cv == strings_view(columns@),
            cs == cells@.map_values(|row: Vec<String>| strings_view(row@)),
            widths@.len() == columns@.len(),
            forall|k: int| 0 <= k < widths@.len() ==> #[trigger] widths@[k] as nat == width_upto(cv, cs, k, r as int),
        decreases cells@.len() - r,
    {
        let row = &cells[r];
        assert(cs[r as int] == strings_view(row@));
        let mut j: usize = 0;
        while j < row.len()
            invariant
                j <= row@.len(),
                r < cells@.len(),
                row == &cells@[r as int],
                cs[r as int] == strings_view(row@),
                cv == strings_view(columns@),
                cs == cells@.map_values(|row: Vec<String>| strings_view(row@)),
                widths@.len() == columns@.len(),
                forall|k: int| 0 <= k < widths@.len() ==> #[trigger] widths@[k] as nat == width_upto(cv, cs, k, if k < j { r + 1 } else { r as int }),
            decreases row@.len() - j,
        {
            proof {
                lemma_width_step(cv, cs, j as int, r as int);
            }
            if j < widths.len() {
                let len = row[j].as_str().len();
                if widths[j] < len {
                    widths.set(j, len);
                }
            }
            j = j + 1;
        }
        proof {
            assert forall|k: int| 0 <= k < widths@.len() implies #[trigger] widths@[k] as nat == width_upto(cv, cs, k, r + 1) by {
                lemma_width_step(cv, cs, k, r as int);
            }
        }
        r = r + 1;
    }
    widths
}

/// Appends the closing row count line.
fn push_count_line(out: &mut String, n: usize)
    ensures
        final(out)@ == old(out)@ + count_line(n as nat),
{
    push_char(out, '(');
    push_u64_text(out, n as u64);
    push_str(out, " row");
    if n != 1 {
        push_char(out, 's');
    }
    push_str(out, ")\n");
    proof {
        reveal_strlit("(");
        reveal_strlit("s");
    }
    assert(out@ =~= old(out)@ + count_line(n as nat));
}

/// The aligned table that the console shows for a result: the header, a
/// rule, one line per row with every cell padded to its column's width,
/// and the row count. A row has no more cells than there are columns.
pub fn render_table(columns: &[String], rows: &[Vec<Value>]) -> (r: String)
    requires
        forall|i: int| 0 <= i < rows@.len() ==> (#[trigger] rows@[i])@.len() <= columns@.len(),
    ensures
        r@ == render_table_spec(strings_view(columns@), rows_list_view(rows@)),
{
    if columns.len() == 0 {
        return String::from_str("(0 columns)\n");
    }
    let ghost cv = strings_view(columns@);
    let ghost rv = rows_list_view(rows@);
    let cells = cell_strings(rows);
    let ghost cs = cells@.map_values(|row: Vec<String>| strings_view(row@));
    assert(cs =~= rows_cells(rv));
    let widths = column_width_values(columns, &cells);
    let ghost wv = column_widths(cv, cs);
    assert forall|i: int| 0 <= i < wv.len() implies wv[i] == #[trigger] widths@[i] as nat by {}
    let mut out = String::new();
    push_padded_line(&mut out, columns, &widths, Ghost(wv));
    push_char(&mut out, '\n');
    push_rule(&mut out, &widths, Ghost(wv));
    push_char(&mut out, '\n');
    let ghost head = out@;
    proof {
        reveal_strlit("\n");
        assert(head =~= join(padded(cv, wv), " | "@) + "\n"@ + join(wv.map_values(|w: nat| dashes(w)), "-+-"@) + "\n"@);
    }
    let mut i: usize = 0;
    while i < cells.len()
        invariant
            i <= cells@.len(),
            cells@.len() == rows@.len(),
            cs == cells@.map_values(|row: Vec<String>| strings_view(row@)),
            forall|k: int| 0 <= k < cells@.len() ==> strings_view(#[trigger] cells@[k]@) == cells_text(values_view(rows@[k]@)),
            forall|k: int| 0 <= k < rows@.len() ==> (#[trigger] rows@[k])@.len() <= columns@.len(),
            widths@.len() == wv.len(),
            wv.len() == columns@.len(),
            forall|k: int| 0 <= k < wv.len() ==> wv[k] == #[trigger] widths@[k] as nat,
            out@ == head + table_rows(cs.take(i as int), wv),
        decreases cells@.len() - i,
    {
        proof {
            assert(cs.take(i + 1).drop_last() =~= cs.take(i as int));
            assert(cs.take(i + 1).last() == strings_view(cells@[i as int]@));
            assert(strings_view(cells@[i as int]@).len() == cells@[i as int]@.len());
            assert(cells_text(values_view(rows@[i as int]@)).len() == rows@[i as int]@.len());
            reveal_strlit("\n");
        }
        push_padded_line(&mut out, cells[i].as_slice(), &widths, Ghost(wv));
        push_char(&mut out, '\n');
        assert(out@ =~= head + table_rows(cs.take(i + 1), wv));
        i = i + 1;
    }
    assert(cs.take(cs.len() as int) =~= cs);
    push_count_line(&mut out, rows.len());
    assert(rv.len() == rows@.len());
    out
}

/// What the console shows for the outcome of a statement: the text for
/// standard output, or, as the error, the text for standard error.
pub open spec fn console_text_spec(r: Result<QueryResultView, crate::error::LsErrorView>) -> Result<Seq<char>, Seq<char>> {
    match r {
        Ok(QueryResultView::Done) => Ok("OK\n"@),
        Ok(QueryResultView::RowsAffected(n)) => Ok(nat_text(n as nat) + " row(s) affected\n"@),
        Ok(QueryResultView::Rows { columns, rows }) => Ok(render_table_spec(columns, rows)),
        Err(e) => Err("error: "@ + error_text(e) + "\n"@),
    }
}

/// What an agent is answered for the outcome of a statement: the reply
/// text, or, as the error, the text of an error reply.
pub open spec fn reply_text_spec(r: Result<QueryResultView, crate::error::LsErrorView>) -> Result<Seq<char>, Seq<char>> {
    match r {
        Ok(QueryResultView::Done) => Ok("OK"@),
        Ok(QueryResultView::RowsAffected(n)) => Ok(nat_text(n as nat) + " row(s) affected"@),
        Ok(QueryResultView::Rows { columns, rows }) => Ok(format_rows_spec(columns, rows)),
        Err(e) => Err(error_text(e)),
    }
}

/// The console's text for the outcome of a statement (see
/// `console_text_spec`). A row of a result has no more cells than there
/// are columns.
pub fn console_text(r: &LsResult<QueryResult>) -> (out: Result<String, String>)
    requires
        r matches Ok(QueryResult::Rows { columns, rows }) ==> forall|i: int|
            0 <= i < rows@.len() ==> (#[trigger] rows@[i])@.len() <= columns@.len(),
    ensures
        out matches Ok(s) ==> console_text_spec(crate::error::result_view(*r)) == Ok::<Seq<char>, Seq<char>>(s@),
        out matches Err(s) ==> console_text_spec(crate::error::result_view(*r)) == Err::<Seq<char>, Seq<char>>(s@),
{
    match r {
        Ok(QueryResult::Done) => Ok(String::from_str("OK\n")),
        Ok(QueryResult::RowsAffected(n)) => {
            let mut s = String::new();
            push_u64_text(&mut s, *n as u64);
            push_str(&mut s, " row(s) affected\n");
            assert(s@ =~= nat_text(*n as nat) + " row(s) affected\n"@);
            Ok(s)
        },
        Ok(QueryResult::Rows { columns, rows }) => Ok(render_table(columns.as_slice(), rows.as_slice())),
        Err(e) => {
            let mut s = String::from_str("error: ");
            let t = e.to_text();
            push_str(&mut s, t.as_str());
            push_str(&mut s, "\n");
            Err(s)
        },
    }
}

/// The agent's reply for the outcome of a statement (see
/// `reply_text_spec`).
pub fn reply_text(r: &LsResult<QueryResult>) -> (out: Result<String, String>)
    ensures
        out matches Ok(s) ==> reply_text_spec(crate::error::result_view(*r)) == Ok::<Seq<char>, Seq<char>>(s@),
        out matches Err(s) ==> reply_text_spec(crate::error::result_view(*r)) == Err::<Seq<char>, Seq<char>>(s@),
{
    match r {
        Ok(QueryResult::Done) => Ok(String::from_str("OK")),
        Ok(QueryResult::RowsAffected(n)) => {
            let mut s = String::new();
            push_u64_text(&mut s, *n as u64);
            push_str(&mut s, " row(s) affected");
            assert(s@ =~= nat_text(*n as nat) + " row(s) affected"@);
            Ok(s)
        },
        Ok(QueryResult::Rows { columns, rows }) => Ok(format_rows(columns.as_slice(), rows.as_slice())),
        Err(e) => Err(e.to_text()),
    }
}

} // verus!
