//! The query executor: SELECT statements over the B-tree traversals.
use vstd::prelude::*;

use crate::btree::{
    depth_budget, lookup_rows, scan_rows, search_index, search_rows, select_with_index,
    select_without_index, RowView,
};
use crate::btree_page::{rows_view, TableRow};
use crate::db_file::{
    db_page_size, db_schemas, index_root, indexes, load_page, table_schema, DBFile,
};
use crate::error::DbError;
use crate::record::values_view;
use crate::schema_object::{columns_of, last_position, ColumnMap};
use crate::serial_value::{text_form, SerialValue, ValueView};
use crate::sql::{count_star_upper, sql_statement, strings_view, Statement, StatementView};
use crate::text::text_eq;

verus! {

/// What a query produces: a row count, or the projected rows.
pub enum QueryOutput {
    Count(usize),
    Rows(Vec<Vec<SerialValue>>),
}

/// What a [`QueryOutput`] holds.
pub enum OutputView {
    Count(nat),
    Rows(Seq<Seq<ValueView>>),
}

impl View for QueryOutput {
    type V = OutputView;

    open spec fn view(&self) -> OutputView {
        match self {
            QueryOutput::Count(n) => OutputView::Count(*n as nat),
            QueryOutput::Rows(rows) => OutputView::Rows(crate::btree_page::cells_view(rows@)),
        }
    }
}

/// Column `i` of `row`; a column past the end of the record is NULL.
pub open spec fn value_at(row: Seq<ValueView>, i: nat) -> ValueView {
    if i < row.len() {
        row[i as int]
    } else {
        ValueView::Null
    }
}

/// The columns `idx` of `row`, in that order.
pub open spec fn project(row: Seq<ValueView>, idx: Seq<nat>) -> Seq<ValueView> {
    Seq::new(idx.len(), |k: int| value_at(row, idx[k]))
}

/// Whether `row` passes the filter `w`: no filter, or column `w.0` whose
/// text form is `w.1`.
pub open spec fn passes(row: Seq<ValueView>, w: Option<(nat, Seq<char>)>) -> bool {
    match w {
        None => true,
        Some((i, v)) => text_form(value_at(row, i)) == Some(v),
    }
}

/// The rows that pass `w`, projected to the columns `idx`, in order.
pub open spec fn filter_project(rows: Seq<RowView>, idx: Seq<nat>, w: Option<(nat, Seq<char>)>) -> Seq<
    Seq<ValueView>,
>
    decreases rows.len(),
{
    if rows.len() == 0 {
        Seq::empty()
    } else if passes(rows.last().1, w) {
        filter_project(rows.drop_last(), idx, w).push(project(rows.last().1, idx))
    } else {
        filter_project(rows.drop_last(), idx, w)
    }
}

/// The positions among `cols` of each of `items`, or `None` when one is
/// missing.
pub open spec fn positions(cols: Seq<Seq<char>>, items: Seq<Seq<char>>) -> Option<Seq<nat>>
    decreases items.len(),
{
    if items.len() == 0 {
        Some(Seq::empty())
    } else {
        match (positions(cols, items.drop_last()), last_position(cols, items.last())) {
            (Some(ps), Some(p)) => Some(ps.push(p)),
            _ => None,
        }
    }
}

/// The rows that a SELECT of table `root` reads: through an index on the
/// WHERE column when there is one, else by a full scan.
pub open spec fn candidate_rows(
    db: Seq<u8>,
    root: nat,
    from: Seq<char>,
    w: Option<(Seq<char>, Seq<char>)>,
) -> Result<Seq<RowView>, DbError> {
    let ps = db_page_size(db);
    let fuel = depth_budget(db, ps);
    match w {
        None => scan_rows(db, ps, root, fuel),
        Some((col, v)) => match db_schemas(db) {
            Err(e) => Err(e),
            Ok(m) => match index_root(indexes(m), from, col) {
                Some(ir) => match search_rows(db, ps, ir, v, fuel) {
                    Err(e) => Err(e),
                    Ok(ids) => lookup_rows(db, ps, root, ids, fuel),
                },
                None => scan_rows(db, ps, root, fuel),
            },
        },
    }
}

/// The projected rows of a SELECT of table `root`, whose CREATE TABLE
/// statement is `sql`.
pub open spec fn projection_result(
    db: Seq<u8>,
    sql: Seq<char>,
    root: nat,
    items: Seq<Seq<char>>,
    from: Seq<char>,
    w: Option<(Seq<char>, Seq<char>)>,
) -> Result<OutputView, DbError> {
    match columns_of(sql) {
        Err(e) => Err(e),
        Ok(cols) => match positions(cols, items) {
            None => Err(DbError::Query),
            Some(idx) => match candidate_rows(db, root, from, w) {
                Err(e) => Err(e),
                Ok(rows) => match w {
                    None => Ok(OutputView::Rows(filter_project(rows, idx, None))),
                    Some((col, v)) => match last_position(cols, col) {
                        None => Err(DbError::Query),
                        Some(wi) => Ok(OutputView::Rows(filter_project(rows, idx, Some((wi, v))))),
                    },
                },
            },
        },
    }
}

/// What `SELECT items FROM from [WHERE w]` gives on `db`.
pub open spec fn select_result(
    db: Seq<u8>,
    items: Seq<Seq<char>>,
    from: Seq<char>,
    w: Option<(Seq<char>, Seq<char>)>,
) -> Result<OutputView, DbError> {
    let ps = db_page_size(db);
    let fuel = depth_budget(db, ps);
    match table_schema(db, from) {
        Err(e) => Err(e),
        Ok(o) => match o.root_page {
            None => Err(DbError::Schema),
            Some(root) => match load_page(db, ps, root) {
                Err(e) => Err(e),
                Ok(_) => if items.len() == 1 && items[0] == count_star_upper() {
                    match scan_rows(db, ps, root, fuel) {
                        Err(e) => Err(e),
                        Ok(rows) => Ok(OutputView::Count(rows.len())),
                    }
                } else {
                    projection_result(db, o.sql, root, items, from, w)
                },
            },
        },
    }
}

/// What the statement `q` gives on `db`: a SELECT is run, CREATE
/// statements fail with [`DbError::Query`], other text with
/// [`DbError::Parse`].
pub open spec fn query_result(db: Seq<u8>, q: Seq<char>) -> Result<OutputView, DbError> {
    match crate::sql::parse_statement(q) {
        None => Err(DbError::Parse),
        Some(StatementView::Select(items, from, w)) => select_result(db, items, from, w),
        Some(_) => Err(DbError::Query),
    }
}

/// The positions of the selected columns.
fn column_positions(map: &ColumnMap, items: &Vec<String>) -> (r: Option<Vec<usize>>)
    ensures
        match positions(strings_view(map.columns@), strings_view(items@)) {
            Some(ps) => r matches Some(v) && v@.map_values(|i: usize| i as nat) == ps,
            None => r is None,
        },
{
    let ghost cols = strings_view(map.columns@);
    let ghost iv = strings_view(items@);
    let mut r: Vec<usize> = Vec::new();
    let mut i: usize = 0;
    proof {
        assert(iv.subrange(0, 0) == Seq::<Seq<char>>::empty());
        assert(r@.map_values(|i: usize| i as nat) == Seq::<nat>::empty());
    }
    while i < items.len()
        invariant
            i <= items@.len(),
            cols == strings_view(map.columns@),
            iv == strings_view(items@),
            positions(cols, iv.subrange(0, i as int)) == Some(r@.map_values(|i: usize| i as nat)),
        decreases items@.len() - i,
    {
        let ghost sub = iv.subrange(0, i + 1);
        proof {
            assert(sub.drop_last() == iv.subrange(0, i as int));
            assert(sub.last() == items@[i as int]@);
        }
        match map.get(items[i].as_str()) {
            None => {
                proof {
                    lemma_positions_none(cols, iv, (i + 1) as nat);
                }
                return None;
            },
            Some(p) => {
                let ghost before = r@;
                r.push(p);
                proof {
                    assert(r@.map_values(|i: usize| i as nat) == before.map_values(
                        |i: usize| i as nat,
                    ).push(p as nat));
                }
            },
        }
        i = i + 1;
    }
    proof {
        assert(iv.subrange(0, iv.len() as int) == iv);
    }
    Some(r)
}

/// Once a prefix of the items has a missing column, so has the whole list.
proof fn lemma_positions_none(cols: Seq<Seq<char>>, items: Seq<Seq<char>>, k: nat)
    requires
        k <= items.len(),
        positions(cols, items.subrange(0, k as int)) is None,
    ensures
        positions(cols, items) is None,
    decreases items.len() - k,
{
    if k < items.len() {
        assert(items.subrange(0, (k + 1) as int).drop_last() == items.subrange(0, k as int));
        lemma_positions_none(cols, items, k + 1);
    } else {
        assert(items.subrange(0, k as int) == items);
    }
}

/// Whether `row` passes the filter on column `wi` with value `v`.
fn row_passes(row: &Vec<SerialValue>, w: Option<(usize, &str)>) -> (r: bool)
    ensures
        r == passes(
            values_view(row@),
            match w {
                Some((i, v)) => Some((i as nat, v@)),
                None => None,
            },
        ),
{
    match w {
        None => true,
        Some((i, v)) => {
            let text = if i < row.len() {
                proof {
                    assert(values_view(row@)[i as int] == row@[i as int]@);
                }
                row[i].text_form()
            } else {
                SerialValue::Null.text_form()
            };
            match text {
                Some(t) => text_eq(t.as_str(), v),
                None => false,
            }
        },
    }
}

/// The columns `idx` of `row`.
fn project_row(row: &Vec<SerialValue>, idx: &Vec<usize>) -> (r: Vec<SerialValue>)
    ensures
        values_view(r@) == project(values_view(row@), idx@.map_values(|i: usize| i as nat)),
{
    let ghost rv = values_view(row@);
    let ghost ix = idx@.map_values(|i: usize| i as nat);
    let mut r: Vec<SerialValue> = Vec::new();
    let mut k: usize = 0;
    while k < idx.len()
        invariant
            k <= idx@.len(),
            rv == values_view(row@),
            ix == idx@.map_values(|i: usize| i as nat),
            values_view(r@) == project(rv, ix).subrange(0, k as int),
        decreases idx@.len() - k,
    {
        let i = idx[k];
        let v = if i < row.len() {
            proof {
                assert(rv[i as int] == row@[i as int]@);
            }
            row[i].copied()
        } else {
            SerialValue::Null
        };
        let ghost before = values_view(r@);
        r.push(v);
        proof {
            assert(values_view(r@) == before.push(v@));
            assert(project(rv, ix).subrange(0, k + 1) == project(rv, ix).subrange(0, k as int).push(
                value_at(rv, ix[k as int]),
            ));
        }
        k = k + 1;
    }
    proof {
        assert(project(rv, ix).subrange(0, idx@.len() as int) == project(rv, ix));
    }
    r
}

/// The rows that pass the filter, projected.
fn filter_rows(rows: &Vec<TableRow>, idx: &Vec<usize>, w: Option<(usize, &str)>) -> (r: Vec<
    Vec<SerialValue>,
>)
    ensures
        crate::btree_page::cells_view(r@) == filter_project(
            rows_view(rows@),
            idx@.map_values(|i: usize| i as nat),
            match w {
                Some((i, v)) => Some((i as nat, v@)),
                None => None,
            },
        ),
{
    let ghost rv = rows_view(rows@);
    let ghost ix = idx@.map_values(|i: usize| i as nat);
    let ghost wv = match w {
        Some((i, v)) => Some((i as nat, v@)),
        None => None,
    };
    let mut r: Vec<Vec<SerialValue>> = Vec::new();
    let mut i: usize = 0;
    proof {
        assert(rv.subrange(0, 0) == Seq::<RowView>::empty());
    }
    while i < rows.len()
        invariant
            i <= rows@.len(),
            rv == rows_view(rows@),
            ix == idx@.map_values(|i: usize| i as nat),
            wv == match w {
                Some((i, v)) => Some((i as nat, v@)),
                None => None,
            },
            crate::btree_page::cells_view(r@) == filter_project(rv.subrange(0, i as int), ix, wv),
        decreases rows@.len() - i,
    {
        let ghost sub = rv.subrange(0, i + 1);
        proof {
            assert(sub.drop_last() == rv.subrange(0, i as int));
            assert(sub.last() == rows@[i as int]@);
        }
        if row_passes(&rows[i].values, w) {
            let p = project_row(&rows[i].values, idx);
            let ghost before = crate::btree_page::cells_view(r@);
            let ghost pv = values_view(p@);
            r.push(p);
            proof {
                assert(crate::btree_page::cells_view(r@) == before.push(pv));
            }
        }
        i = i + 1;
    }
    proof {
        assert(rv.subrange(0, rv.len() as int) == rv);
    }
    r
}

/// The rows a SELECT reads from table `root`: through an index on the
/// WHERE column when there is one, else by a full scan.
pub fn select_rows(db: &mut DBFile, root: usize, select_statement: &crate::sql::SelectStatement) -> (r: Result<
    Vec<TableRow>,
    DbError,
>)
    requires
        old(db).wf(),
    ensures
        final(db).same_file(old(db)),
        final(db).wf(),
        match (r, candidate_rows(old(db).data@, root as nat, select_statement.from@, match select_statement.where_clause {
            Some(w) => Some((w.column@, w.value@)),
            None => None,
        })) {
            (Ok(rows), Ok(m)) => rows_view(rows@) == m,
            (Err(e), Err(f)) => e == f,
            _ => false,
        },
{
    match &select_statement.where_clause {
        None => select_without_index(db, root),
        Some(w) => {
            let index_page = match db.get_index_page(select_statement.from.as_str(), w.column.as_str()) {
                Err(e) => {
                    return Err(e);
                },
                Ok(p) => p,
            };
            match index_page {
                Some(pos) => {
                    let ids = match search_index(db, pos, w.value.as_str()) {
                        Err(e) => {
                            return Err(e);
                        },
                        Ok(ids) => ids,
                    };
                    select_with_index(db, root, &ids)
                },
                None => select_without_index(db, root),
            }
        },
    }
}

/// Whether `item` is `COUNT(*)`.
fn is_count_star(item: &String) -> (r: bool)
    ensures
        r == (item@ == count_star_upper()),
{
    let mut c = String::new();
    crate::text::push_char(&mut c, 'C');
    crate::text::push_char(&mut c, 'O');
    crate::text::push_char(&mut c, 'U');
    crate::text::push_char(&mut c, 'N');
    crate::text::push_char(&mut c, 'T');
    crate::text::push_char(&mut c, '(');
    crate::text::push_char(&mut c, '*');
    crate::text::push_char(&mut c, ')');
    proof {
        assert(c@ == count_star_upper());
    }
    text_eq(item.as_str(), c.as_str())
}

/// Runs the statement `query` on the database.
pub fn execute(db: &mut DBFile, query: &str) -> (r: Result<QueryOutput, DbError>)
    requires
        old(db).wf(),
    ensures
        final(db).same_file(old(db)),
        final(db).wf(),
        match (r, query_result(old(db).data@, query@)) {
            (Ok(out), Ok(m)) => out@ == m,
            (Err(e), Err(f)) => e == f,
            _ => false,
        },
{
    let s = match sql_statement(query) {
        Err(e) => {
            return Err(e);
        },
        Ok(Statement::Select(s)) => s,
        Ok(_) => {
            return Err(DbError::Query);
        },
    };
    let (schema, _root_page) = match db.load_table(s.from.as_str()) {
        Err(e) => {
            return Err(e);
        },
        Ok(x) => x,
    };
    let root = match schema.root_page {
        Some(r) => r,
        None => {
            return Err(DbError::Schema);
        },
    };
    let is_count = s.select.len() == 1 && is_count_star(&s.select[0]);
    proof {
        if s.select@.len() == 1 {
            assert(strings_view(s.select@)[0] == s.select@[0]@);
        }
    }
    if is_count {
        let rows = match select_without_index(db, root) {
            Err(e) => {
                return Err(e);
            },
            Ok(rows) => rows,
        };
        return Ok(QueryOutput::Count(rows.len()));
    }
    project_select(db, &schema, root, &s)
}

/// The projected rows of the SELECT `s` of table `root`.
fn project_select(
    db: &mut DBFile,
    schema: &crate::schema_object::SchemaObject,
    root: usize,
    s: &crate::sql::SelectStatement,
) -> (r: Result<QueryOutput, DbError>)
    requires
        old(db).wf(),
    ensures
        final(db).same_file(old(db)),
        final(db).wf(),
        match (r, projection_result(old(db).data@, schema.sql@, root as nat, strings_view(s.select@), s.from@, match s.where_clause {
            Some(w) => Some((w.column@, w.value@)),
            None => None,
        })) {
            (Ok(out), Ok(m)) => out@ == m,
            (Err(e), Err(f)) => e == f,
            _ => false,
        },
{
    let map = match schema.column_map() {
        Err(e) => {
            return Err(e);
        },
        Ok(m) => m,
    };
    let idx = match column_positions(&map, &s.select) {
        None => {
            return Err(DbError::Query);
        },
        Some(idx) => idx,
    };
    let rows = match select_rows(db, root, s) {
        Err(e) => {
            return Err(e);
        },
        Ok(rows) => rows,
    };
    match &s.where_clause {
        None => Ok(QueryOutput::Rows(filter_rows(&rows, &idx, None))),
        Some(w) => match map.get(w.column.as_str()) {
            None => Err(DbError::Query),
            Some(wi) => Ok(QueryOutput::Rows(filter_rows(&rows, &idx, Some((wi, w.value.as_str()))))),
        },
    }
}

} // verus!
