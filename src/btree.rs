//! B-tree traversal: full table scans, index searches and row-id lookups.
//!
//! Every traversal carries a depth budget; a tree deeper than the budget
//! (which a tree with a cycle always is) fails with [`DbError::Page`].
use std::cmp::Ordering;
use vstd::prelude::*;

use crate::btree_page::{
    interior_cell_parser, leaf_cell_parser, parse_each, row_parser, rows_view,
    InteriorCell, InteriorCellView, PageType, TableRow,
};
use crate::db_file::{counted, lemma_counted_add, load_page, DBFile};
use crate::error::DbError;
use crate::serial_value::{text_form, ValueView};
use crate::text::{
    compare_text, lemma_lex_cmp_antisymmetric, lemma_lex_cmp_transitive, lemma_text_cmp_equal,
    text_cmp,
};
use vstd::utf8::encode_utf8;

verus! {

/// A row as the traversals see it: row-id and values.
pub type RowView = (u64, Seq<ValueView>);

/// The child page of an interior cell.
pub open spec fn left_of(c: InteriorCellView) -> u32 {
    match c {
        InteriorCellView::Table(l, _) => l,
        InteriorCellView::Index(l, _, _) => l,
    }
}

/// The child pages of an interior page in order: the left child of each
/// cell, then the right-most child.
pub open spec fn child_pages(cells: Seq<InteriorCellView>, right_most: Option<u32>) -> Seq<u32> {
    let lefts = cells.map_values(|c: InteriorCellView| left_of(c));
    match right_most {
        Some(r) => lefts.push(r),
        None => lefts,
    }
}

/// The rows of the table B-tree rooted at page `n` of `db`, in traversal
/// order, with `fuel` levels left.
pub open spec fn scan_rows(db: Seq<u8>, ps: nat, n: nat, fuel: nat) -> Result<
    Seq<RowView>,
    DbError,
>
    decreases fuel, 0nat,
{
    if fuel == 0 {
        Err(DbError::Page)
    } else {
        match load_page(db, ps, n) {
            Err(e) => Err(e),
            Ok((b, v)) => if v.page_type == PageType::LeafTable {
                parse_each(v.cell_pointers, row_parser(b))
            } else if v.page_type == PageType::InteriorTable {
                match parse_each(v.cell_pointers, interior_cell_parser(v.page_type, b)) {
                    Err(e) => Err(e),
                    Ok(cells) => scan_children(
                        db,
                        ps,
                        child_pages(cells, v.right_most_pointer),
                        (fuel - 1) as nat,
                    ),
                }
            } else {
                Err(DbError::Page)
            },
        }
    }
}

/// The rows of the subtrees rooted at `kids`, one after another.
pub open spec fn scan_children(db: Seq<u8>, ps: nat, kids: Seq<u32>, fuel: nat) -> Result<
    Seq<RowView>,
    DbError,
>
    decreases fuel, kids.len() + 1,
{
    if kids.len() == 0 {
        Ok(Seq::empty())
    } else {
        match scan_rows(db, ps, kids[0] as nat, fuel) {
            Err(e) => Err(e),
            Ok(first) => match scan_children(db, ps, kids.drop_first(), fuel) {
                Err(e) => Err(e),
                Ok(rest) => Ok(first + rest),
            },
        }
    }
}

/// The depth budget for a traversal of `db`: its number of pages.
pub open spec fn depth_budget(db: Seq<u8>, ps: nat) -> nat {
    db.len() / ps
}

/// The child pages of an interior page, as [`child_pages`] gives them.
fn children(cells: &Vec<InteriorCell>, right_most: Option<u32>) -> (r: Vec<u32>)
    ensures
        r@ == child_pages(crate::btree_page::interior_cells_view(cells@), right_most),
{
    let ghost cv = crate::btree_page::interior_cells_view(cells@);
    let mut r: Vec<u32> = Vec::new();
    let mut i: usize = 0;
    while i < cells.len()
        invariant
            i <= cells@.len(),
            cv == crate::btree_page::interior_cells_view(cells@),
            r@ == cv.subrange(0, i as int).map_values(|c: InteriorCellView| left_of(c)),
        decreases cells@.len() - i,
    {
        let left = match &cells[i] {
            InteriorCell::Table(c) => c.left_child_page,
            InteriorCell::Index(c) => c.left_child_page,
        };
        r.push(left);
        proof {
            assert(cv[i as int] == cells@[i as int]@);
            assert(cv.subrange(0, i + 1).map_values(|c: InteriorCellView| left_of(c)) == cv.subrange(
                0,
                i as int,
            ).map_values(|c: InteriorCellView| left_of(c)).push(left_of(cv[i as int])));
        }
        i = i + 1;
    }
    proof {
        assert(cv.subrange(0, cv.len() as int) == cv);
    }
    match right_most {
        Some(rm) => {
            r.push(rm);
        },
        None => {},
    }
    r
}

/// Scans the table B-tree rooted at page `n` with `fuel` levels left.
fn scan_from(db: &mut DBFile, n: usize, fuel: usize) -> (r: Result<Vec<TableRow>, DbError>)
    requires
        old(db).wf(),
    ensures
        final(db).same_file(old(db)),
        final(db).wf(),
        match (r, scan_rows(old(db).data@, old(db).spec_page_size(), n as nat, fuel as nat)) {
            (Ok(rows), Ok(m)) => rows_view(rows@) == m,
            (Err(e), Err(f)) => e == f,
            _ => false,
        },
    decreases fuel,
{
    if fuel == 0 {
        return Err(DbError::Page);
    }
    let ghost d0 = db.data@;
    let ghost ps = db.spec_page_size();
    let page = match db.load_page_at(n) {
        Err(e) => {
            return Err(e);
        },
        Ok(p) => p,
    };
    match page.page_type {
        PageType::LeafTable => page.read_table_rows(),
        PageType::InteriorTable => {
            let cells = match page.read_interior_cells() {
                Err(e) => {
                    return Err(e);
                },
                Ok(c) => c,
            };
            let kids = children(&cells, page.right_most_pointer);
            let ghost whole = scan_children(d0, ps, kids@, (fuel - 1) as nat);
            let mut rows: Vec<TableRow> = Vec::new();
            let mut i: usize = 0;
            proof {
                assert(kids@.subrange(0, kids@.len() as int) == kids@);
                assert(rows_view(rows@) + Seq::<RowView>::empty() == Seq::<RowView>::empty());
                assert(scan_rows(d0, ps, n as nat, fuel as nat) == whole);
            }
            while i < kids.len()
                invariant
                    scan_rows(d0, ps, n as nat, fuel as nat) == whole,
                    d0 == old(db).data@,
                    ps == old(db).spec_page_size(),
                    db.wf(),
                    db.data@ == d0,
                    db.spec_page_size() == ps,
                    db.same_file(old(db)),
                    i <= kids@.len(),
                    fuel > 0,
                    whole == scan_children(d0, ps, kids@, (fuel - 1) as nat),
                    whole == match scan_children(
                        d0,
                        ps,
                        kids@.subrange(i as int, kids@.len() as int),
                        (fuel - 1) as nat,
                    ) {
                        Ok(rest) => Ok(rows_view(rows@) + rest),
                        Err(e) => Err::<Seq<RowView>, DbError>(e),
                    },
                decreases kids@.len() - i,
            {
                let ghost sub = kids@.subrange(i as int, kids@.len() as int);
                proof {
                    assert(sub[0] == kids@[i as int]);
                    assert(sub.drop_first() == kids@.subrange(i + 1, kids@.len() as int));
                }
                match scan_from(db, kids[i] as usize, fuel - 1) {
                    Err(e) => {
                        return Err(e);
                    },
                    Ok(mut more) => {
                        let ghost before = rows_view(rows@);
                        let ghost added = rows_view(more@);
                        rows.append(&mut more);
                        proof {
                            assert(rows_view(rows@) == before + added);
                            match scan_children(
                                d0,
                                ps,
                                kids@.subrange(i + 1, kids@.len() as int),
                                (fuel - 1) as nat,
                            ) {
                                Ok(rest) => {
                                    assert(before + (added + rest) == (before + added) + rest);
                                },
                                Err(_) => {},
                            }
                        }
                    },
                }
                i = i + 1;
            }
            proof {
                assert(rows_view(rows@) + Seq::<RowView>::empty() == rows_view(rows@));
            }
            Ok(rows)
        },
        _ => Err(DbError::Page),
    }
}

/// The rows of the table B-tree rooted at page `root`, with the number of
/// pages of the image as depth budget.
pub fn select_without_index(db: &mut DBFile, root: usize) -> (r: Result<Vec<TableRow>, DbError>)
    requires
        old(db).wf(),
    ensures
        final(db).same_file(old(db)),
        final(db).wf(),
        match (r, scan_rows(old(db).data@, old(db).spec_page_size(), root as nat, depth_budget(old(db).data@, old(db).spec_page_size()))) {
            (Ok(rows), Ok(m)) => rows_view(rows@) == m,
            (Err(e), Err(f)) => e == f,
            _ => false,
        },
{
    let fuel = db.data.len() / (db.header.page_size() as usize);
    scan_from(db, root, fuel)
}

/// How the first key column of an index entry compares with `q` as text;
/// `None` when there is no key column or it has no text form.
pub open spec fn key_cmp(cols: Seq<ValueView>, q: Seq<char>) -> Option<Ordering> {
    if cols.len() == 0 {
        None
    } else {
        match text_form(cols[0]) {
            Some(t) => Some(text_cmp(t, q)),
            None => None,
        }
    }
}

/// Whether a leaf index entry's first column has text form `q`.
pub open spec fn entry_matches(cell: Seq<ValueView>, q: Seq<char>) -> bool {
    cell.len() > 0 && text_form(cell[0]) == Some(q)
}

/// The row-id of a leaf index entry: its last column, or 0 when that is no
/// row-id.
pub open spec fn entry_rowid(cell: Seq<ValueView>) -> u64 {
    if cell.len() == 0 {
        0
    } else {
        match crate::btree_page::rowid_of(cell.last()) {
            Some(r) => r,
            None => 0,
        }
    }
}

/// The row-ids of the leaf index entries `cells` that match `q`, in order.
pub open spec fn leaf_matches(cells: Seq<Seq<ValueView>>, q: Seq<char>) -> Seq<u64>
    decreases cells.len(),
{
    if cells.len() == 0 {
        Seq::empty()
    } else if entry_matches(cells.last(), q) {
        leaf_matches(cells.drop_last(), q).push(entry_rowid(cells.last()))
    } else {
        leaf_matches(cells.drop_last(), q)
    }
}

/// The key columns and row-id of an interior index cell.
pub open spec fn index_entry(c: InteriorCellView) -> (Seq<ValueView>, u64) {
    match c {
        InteriorCellView::Index(_, r, cols) => (cols, r),
        InteriorCellView::Table(_, r) => (Seq::empty(), r),
    }
}

/// The row-ids that the index B-tree rooted at page `n` holds for key
/// `q`, with `fuel` levels left. A subtree is searched unless the cell
/// after it holds a smaller key.
pub open spec fn search_rows(db: Seq<u8>, ps: nat, n: nat, q: Seq<char>, fuel: nat) -> Result<
    Seq<u64>,
    DbError,
>
    decreases fuel, 0nat,
{
    if fuel == 0 {
        Err(DbError::Page)
    } else {
        match load_page(db, ps, n) {
            Err(e) => Err(e),
            Ok((b, v)) => if v.page_type == PageType::LeafIndex {
                match parse_each(v.cell_pointers, leaf_cell_parser(v.page_type, b)) {
                    Err(e) => Err(e),
                    Ok(cells) => Ok(leaf_matches(cells, q)),
                }
            } else if v.page_type == PageType::InteriorIndex {
                match parse_each(v.cell_pointers, interior_cell_parser(v.page_type, b)) {
                    Err(e) => Err(e),
                    Ok(cells) => search_cells(
                        db,
                        ps,
                        cells,
                        0,
                        v.right_most_pointer,
                        q,
                        (fuel - 1) as nat,
                    ),
                }
            } else {
                Err(DbError::Page)
            },
        }
    }
}

/// The search of an interior index page from cell `i` on: the left child
/// of a cell whose key is not smaller than `q`, the cell's own row-id when
/// its key equals `q`, and after the last cell the right-most child. A
/// cell whose key is greater than `q` ends the page.
pub open spec fn search_cells(
    db: Seq<u8>,
    ps: nat,
    cells: Seq<InteriorCellView>,
    i: nat,
    right_most: Option<u32>,
    q: Seq<char>,
    fuel: nat,
) -> Result<Seq<u64>, DbError>
    decreases fuel, cells.len() - i + 1,
{
    if i >= cells.len() {
        Ok(Seq::empty())
    } else {
        let (cols, rowid) = index_entry(cells[i as int]);
        let c = key_cmp(cols, q);
        let left = if c == Some(Ordering::Less) {
            Ok(Seq::empty())
        } else {
            search_rows(db, ps, left_of(cells[i as int]) as nat, q, fuel)
        };
        match left {
            Err(e) => Err(e),
            Ok(l) => if c == Some(Ordering::Greater) {
                Ok(l)
            } else {
                let mid: Seq<u64> = if c == Some(Ordering::Equal) {
                    seq![rowid]
                } else {
                    Seq::empty()
                };
                let right = if i == cells.len() - 1 && right_most is Some {
                    search_rows(db, ps, right_most.unwrap() as nat, q, fuel)
                } else {
                    Ok(Seq::empty())
                };
                match right {
                    Err(e) => Err(e),
                    Ok(r) => match search_cells(db, ps, cells, i + 1, right_most, q, fuel) {
                        Err(e) => Err(e),
                        Ok(rest) => Ok(l + mid + r + rest),
                    },
                }
            },
        }
    }
}

/// The row-ids of the leaf index entries of `cells` that match `q`.
fn leaf_rowids(cells: &Vec<Vec<crate::serial_value::SerialValue>>, q: &str) -> (r: Vec<u64>)
    ensures
        r@ == leaf_matches(crate::btree_page::cells_view(cells@), q@),
{
    let ghost cv = crate::btree_page::cells_view(cells@);
    let mut r: Vec<u64> = Vec::new();
    let mut i: usize = 0;
    proof {
        assert(cv.subrange(0, 0) == Seq::<Seq<ValueView>>::empty());
    }
    while i < cells.len()
        invariant
            i <= cells@.len(),
            cv == crate::btree_page::cells_view(cells@),
            r@ == leaf_matches(cv.subrange(0, i as int), q@),
        decreases cells@.len() - i,
    {
        let ghost sub = cv.subrange(0, i + 1);
        let cell = &cells[i];
        proof {
            assert(sub.drop_last() == cv.subrange(0, i as int));
            assert(sub.last() == crate::record::values_view(cell@));
        }
        let ghost cvv = crate::record::values_view(cell@);
        if cell.len() > 0 {
            proof {
                assert(cvv[0] == cell@[0]@);
                assert(cvv.last() == cell@[cell@.len() - 1]@);
            }
            let matched = match cell[0].text_form() {
                Some(t) => crate::text::text_eq(t.as_str(), q),
                None => false,
            };
            if matched {
                let id = match cell[cell.len() - 1].as_rowid() {
                    Some(id) => id,
                    None => 0,
                };
                r.push(id);
            }
        }
        i = i + 1;
    }
    proof {
        assert(cv.subrange(0, cv.len() as int) == cv);
    }
    r
}

/// Searches the index B-tree rooted at page `n` for key `q`.
#[verifier::rlimit(80)]
fn search_from(db: &mut DBFile, n: usize, q: &str, fuel: usize) -> (r: Result<Vec<u64>, DbError>)
    requires
        old(db).wf(),
    ensures
        final(db).same_file(old(db)),
        final(db).wf(),
        match (r, search_rows(old(db).data@, old(db).spec_page_size(), n as nat, q@, fuel as nat)) {
            (Ok(ids), Ok(m)) => ids@ == m,
            (Err(e), Err(f)) => e == f,
            _ => false,
        },
    decreases fuel,
{
    if fuel == 0 {
        return Err(DbError::Page);
    }
    let ghost d0 = db.data@;
    let ghost ps = db.spec_page_size();
    let page = match db.load_page_at(n) {
        Err(e) => {
            return Err(e);
        },
        Ok(p) => p,
    };
    match page.page_type {
        PageType::LeafIndex => match page.read_cells() {
            Err(e) => Err(e),
            Ok(cells) => Ok(leaf_rowids(&cells, q)),
        },
        PageType::InteriorIndex => {
            let cells = match page.read_interior_cells() {
                Err(e) => {
                    return Err(e);
                },
                Ok(c) => c,
            };
            let ghost cv = crate::btree_page::interior_cells_view(cells@);
            let ghost rm = page.right_most_pointer;
            let ghost whole = search_cells(d0, ps, cv, 0, rm, q@, (fuel - 1) as nat);
            let mut ids: Vec<u64> = Vec::new();
            let mut i: usize = 0;
            proof {
                assert(search_rows(d0, ps, n as nat, q@, fuel as nat) == whole);
                assert(ids@ + Seq::<u64>::empty() == Seq::<u64>::empty());
            }
            while i < cells.len()
                invariant
                    search_rows(d0, ps, n as nat, q@, fuel as nat) == whole,
                    d0 == old(db).data@,
                    ps == old(db).spec_page_size(),
                    db.wf(),
                    db.same_file(old(db)),
                    db.data@ == d0,
                    db.spec_page_size() == ps,
                    fuel > 0,
                    i <= cells@.len(),
                    cv == crate::btree_page::interior_cells_view(cells@),
                    rm == page.right_most_pointer,
                    whole == match search_cells(d0, ps, cv, i as nat, rm, q@, (fuel - 1) as nat) {
                        Ok(rest) => Ok(ids@ + rest),
                        Err(e) => Err::<Seq<u64>, DbError>(e),
                    },
                decreases cells@.len() - i,
            {
                let (left, rowid, cmp) = match &cells[i] {
                    InteriorCell::Index(c) => {
                        let cmp = if c.columns.len() > 0 {
                            match c.columns[0].text_form() {
                                Some(t) => Some(compare_text(t.as_str(), q)),
                                None => None,
                            }
                        } else {
                            None
                        };
                        proof {
                            if c.columns@.len() > 0 {
                                assert(crate::record::values_view(c.columns@)[0] == c.columns@[0]@);
                            }
                        }
                        (c.left_child_page, c.rowid, cmp)
                    },
                    InteriorCell::Table(c) => (c.left_child_page, c.row_id, None),
                };
                proof {
                    assert(cv[i as int] == cells@[i as int]@);
                    assert(cmp == key_cmp(index_entry(cv[i as int]).0, q@));
                }
                let ghost before = ids@;
                let ghost fl = (fuel - 1) as nat;
                let is_less = match cmp {
                    Some(Ordering::Less) => true,
                    _ => false,
                };
                let ghost mut lpart: Seq<u64> = Seq::empty();
                if !is_less {
                    match search_from(db, left as usize, q, fuel - 1) {
                        Err(e) => {
                            return Err(e);
                        },
                        Ok(mut more) => {
                            proof {
                                lpart = more@;
                            }
                            ids.append(&mut more);
                        },
                    }
                }
                let is_greater = match cmp {
                    Some(Ordering::Greater) => true,
                    _ => false,
                };
                if is_greater {
                    proof {
                        assert(whole == Ok::<Seq<u64>, DbError>(ids@));
                    }
                    return Ok(ids);
                }
                let is_equal = match cmp {
                    Some(Ordering::Equal) => true,
                    _ => false,
                };
                let ghost mid: Seq<u64> = if is_equal {
                    seq![rowid]
                } else {
                    Seq::empty()
                };
                if is_equal {
                    ids.push(rowid);
                }
                let ghost mut rpart: Seq<u64> = Seq::empty();
                if i == cells.len() - 1 {
                    match page.right_most_pointer {
                        Some(right) => match search_from(db, right as usize, q, fuel - 1) {
                            Err(e) => {
                                return Err(e);
                            },
                            Ok(mut more) => {
                                proof {
                                    rpart = more@;
                                }
                                ids.append(&mut more);
                            },
                        },
                        None => {},
                    }
                }
                proof {
                    assert(ids@ == before + lpart + mid + rpart);
                    match search_cells(d0, ps, cv, (i + 1) as nat, rm, q@, fl) {
                        Ok(rest) => {
                            assert(before + (lpart + mid + rpart + rest) == ids@ + rest);
                        },
                        Err(_) => {},
                    }
                }
                i = i + 1;
            }
            proof {
                assert(ids@ + Seq::<u64>::empty() == ids@);
            }
            Ok(ids)
        },
        _ => Err(DbError::Page),
    }
}

/// The row-ids of index B-tree `root` whose first key column has text
/// form `query`, with the number of pages of the image as depth budget.
pub fn search_index(db: &mut DBFile, root: usize, query: &str) -> (r: Result<Vec<u64>, DbError>)
    requires
        old(db).wf(),
    ensures
        final(db).same_file(old(db)),
        final(db).wf(),
        match (r, search_rows(old(db).data@, old(db).spec_page_size(), root as nat, query@, depth_budget(old(db).data@, old(db).spec_page_size()))) {
            (Ok(ids), Ok(m)) => ids@ == m,
            (Err(e), Err(f)) => e == f,
            _ => false,
        },
{
    let fuel = db.data.len() / (db.header.page_size() as usize);
    search_from(db, root, query, fuel)
}

/// The length of the longest prefix of `ids` whose members are at most `k`.
pub open spec fn prefix_at_most(ids: Seq<u64>, k: u64) -> nat
    decreases ids.len(),
{
    if ids.len() == 0 || ids[0] > k {
        0
    } else {
        1 + prefix_at_most(ids.drop_first(), k)
    }
}

/// The first position from `j` of a row whose row-id is at least `id`.
pub open spec fn advance(rows: Seq<RowView>, j: nat, id: u64) -> nat
    decreases rows.len() - j,
{
    if j < rows.len() && rows[j as int].0 < id {
        advance(rows, j + 1, id)
    } else {
        j
    }
}

/// The rows of a leaf page with the row-ids `ids`, in the order of `ids`,
/// moving forward from row `j`; a row-id that is not found fails with
/// [`DbError::Consistency`].
pub open spec fn match_rows(rows: Seq<RowView>, j: nat, ids: Seq<u64>) -> Result<
    Seq<RowView>,
    DbError,
>
    decreases ids.len(),
{
    if ids.len() == 0 {
        Ok(Seq::empty())
    } else {
        let k = advance(rows, j, ids[0]);
        if k < rows.len() && rows[k as int].0 == ids[0] {
            match match_rows(rows, k + 1, ids.drop_first()) {
                Err(e) => Err(e),
                Ok(rest) => Ok(seq![rows[k as int]] + rest),
            }
        } else {
            Err(DbError::Consistency)
        }
    }
}

/// The key of an interior table cell.
pub open spec fn table_key(c: InteriorCellView) -> u64 {
    match c {
        InteriorCellView::Table(_, k) => k,
        InteriorCellView::Index(_, k, _) => k,
    }
}

/// The rows with row-ids `ids` of the table B-tree rooted at page `n`, in
/// the order of `ids`, with `fuel` levels left.
pub open spec fn lookup_rows(db: Seq<u8>, ps: nat, n: nat, ids: Seq<u64>, fuel: nat) -> Result<
    Seq<RowView>,
    DbError,
>
    decreases fuel, 0nat,
{
    if fuel == 0 {
        Err(DbError::Page)
    } else {
        match load_page(db, ps, n) {
            Err(e) => Err(e),
            Ok((b, v)) => if v.page_type == PageType::LeafTable {
                match parse_each(v.cell_pointers, row_parser(b)) {
                    Err(e) => Err(e),
                    Ok(rows) => match_rows(rows, 0, ids),
                }
            } else if v.page_type == PageType::InteriorTable {
                match parse_each(v.cell_pointers, interior_cell_parser(v.page_type, b)) {
                    Err(e) => Err(e),
                    Ok(cells) => lookup_cells(
                        db,
                        ps,
                        cells,
                        0,
                        ids,
                        v.right_most_pointer,
                        (fuel - 1) as nat,
                    ),
                }
            } else {
                Err(DbError::Page)
            },
        }
    }
}

/// The lookup on an interior table page from cell `i` on: the ids up to a
/// cell's key go to its left child, the rest on; after the last cell, any
/// ids left go to the right-most child.
pub open spec fn lookup_cells(
    db: Seq<u8>,
    ps: nat,
    cells: Seq<InteriorCellView>,
    i: nat,
    ids: Seq<u64>,
    right_most: Option<u32>,
    fuel: nat,
) -> Result<Seq<RowView>, DbError>
    decreases fuel, cells.len() - i + 1,
{
    if i >= cells.len() {
        Ok(Seq::empty())
    } else {
        let p = prefix_at_most(ids, table_key(cells[i as int]));
        let rest = ids.subrange(p as int, ids.len() as int);
        let left = if p > 0 {
            lookup_rows(db, ps, left_of(cells[i as int]) as nat, ids.subrange(0, p as int), fuel)
        } else {
            Ok(Seq::empty())
        };
        match left {
            Err(e) => Err(e),
            Ok(l) => if rest.len() == 0 {
                Ok(l)
            } else {
                let right = if i == cells.len() - 1 && right_most is Some {
                    lookup_rows(db, ps, right_most.unwrap() as nat, rest, fuel)
                } else {
                    Ok(Seq::empty())
                };
                match right {
                    Err(e) => Err(e),
                    Ok(r) => match lookup_cells(db, ps, cells, i + 1, rest, right_most, fuel) {
                        Err(e) => Err(e),
                        Ok(more) => Ok(l + r + more),
                    },
                }
            },
        }
    }
}

/// The number of pages that the lookup of `ids` in the table B-tree rooted
/// at page `n` loads: the page itself, then on an interior page only the
/// children whose share of `ids` is not empty.
pub open spec fn lookup_loads(db: Seq<u8>, ps: nat, n: nat, ids: Seq<u64>, fuel: nat) -> nat
    decreases fuel, 0nat,
{
    if fuel == 0 {
        0
    } else {
        1 + match load_page(db, ps, n) {
            Ok((b, v)) => if v.page_type == PageType::InteriorTable {
                match parse_each(v.cell_pointers, interior_cell_parser(v.page_type, b)) {
                    Ok(cells) => lookup_cells_loads(
                        db,
                        ps,
                        cells,
                        0,
                        ids,
                        v.right_most_pointer,
                        (fuel - 1) as nat,
                    ),
                    Err(_) => 0,
                }
            } else {
                0
            },
            Err(_) => 0,
        }
    }
}

/// The pages that the lookup on an interior table page loads from cell `i`
/// on: a cell's left child only when some of `ids` fall to it, the
/// right-most child only when ids are left after the last cell.
pub open spec fn lookup_cells_loads(
    db: Seq<u8>,
    ps: nat,
    cells: Seq<InteriorCellView>,
    i: nat,
    ids: Seq<u64>,
    right_most: Option<u32>,
    fuel: nat,
) -> nat
    decreases fuel, cells.len() - i + 1,
{
    if i >= cells.len() {
        0
    } else {
        let p = prefix_at_most(ids, table_key(cells[i as int]));
        let rest = ids.subrange(p as int, ids.len() as int);
        let l = if p > 0 {
            lookup_loads(db, ps, left_of(cells[i as int]) as nat, ids.subrange(0, p as int), fuel)
        } else {
            0
        };
        if rest.len() == 0 {
            l
        } else {
            let r = if i == cells.len() - 1 && right_most is Some {
                lookup_loads(db, ps, right_most.unwrap() as nat, rest, fuel)
            } else {
                0
            };
            l + r + lookup_cells_loads(db, ps, cells, i + 1, rest, right_most, fuel)
        }
    }
}

/// The number of leading members of `ids[from..]` that are at most `k`.
fn count_at_most(ids: &Vec<u64>, from: usize, k: u64) -> (r: usize)
    requires
        from <= ids@.len(),
    ensures
        r as nat == prefix_at_most(ids@.subrange(from as int, ids@.len() as int), k),
        from + r <= ids@.len(),
{
    let mut j = from;
    while j < ids.len() && ids[j] <= k
        invariant
            from <= j <= ids@.len(),
            prefix_at_most(ids@.subrange(from as int, ids@.len() as int), k) == (j - from)
                + prefix_at_most(ids@.subrange(j as int, ids@.len() as int), k),
        decreases ids@.len() - j,
    {
        proof {
            let sub = ids@.subrange(j as int, ids@.len() as int);
            assert(sub.drop_first() == ids@.subrange(j + 1, ids@.len() as int));
        }
        j = j + 1;
    }
    j - from
}

/// A copy of `ids[a..b]`.
fn slice_ids(ids: &Vec<u64>, a: usize, b: usize) -> (r: Vec<u64>)
    requires
        a <= b <= ids@.len(),
    ensures
        r@ == ids@.subrange(a as int, b as int),
{
    let mut r: Vec<u64> = Vec::new();
    let mut i = a;
    while i < b
        invariant
            a <= i <= b,
            b <= ids@.len(),
            r@ == ids@.subrange(a as int, i as int),
        decreases b - i,
    {
        r.push(ids[i]);
        i = i + 1;
        proof {
            assert(r@ == ids@.subrange(a as int, i as int));
        }
    }
    r
}

/// The rows of `rows` with row-ids `ids`, in the order of `ids`.
fn pick_rows(rows: &Vec<TableRow>, ids: &Vec<u64>) -> (r: Result<Vec<TableRow>, DbError>)
    ensures
        match (r, match_rows(rows_view(rows@), 0, ids@)) {
            (Ok(out), Ok(m)) => rows_view(out@) == m,
            (Err(e), Err(f)) => e == f,
            _ => false,
        },
{
    let ghost rv = rows_view(rows@);
    let mut out: Vec<TableRow> = Vec::new();
    let mut j: usize = 0;
    let mut i: usize = 0;
    proof {
        assert(ids@.subrange(0, ids@.len() as int) == ids@);
        assert(rows_view(out@) + Seq::<RowView>::empty() == Seq::<RowView>::empty());
    }
    while i < ids.len()
        invariant
            i <= ids@.len(),
            j <= rows@.len(),
            rv == rows_view(rows@),
            match_rows(rv, 0, ids@) == match match_rows(
                rv,
                j as nat,
                ids@.subrange(i as int, ids@.len() as int),
            ) {
                Ok(rest) => Ok(rows_view(out@) + rest),
                Err(e) => Err::<Seq<RowView>, DbError>(e),
            },
        decreases ids@.len() - i,
    {
        let id = ids[i];
        let ghost sub = ids@.subrange(i as int, ids@.len() as int);
        proof {
            assert(sub[0] == id);
            assert(sub.drop_first() == ids@.subrange(i + 1, ids@.len() as int));
        }
        let ghost j0 = j;
        while j < rows.len() && rows[j].row_id < id
            invariant
                j0 <= j <= rows@.len(),
                rv == rows_view(rows@),
                advance(rv, j0 as nat, id) == advance(rv, j as nat, id),
            decreases rows@.len() - j,
        {
            proof {
                assert(rv[j as int] == rows@[j as int]@);
            }
            j = j + 1;
        }
        proof {
            if j < rows@.len() {
                assert(rv[j as int] == rows@[j as int]@);
            }
        }
        if j >= rows.len() || rows[j].row_id != id {
            return Err(DbError::Consistency);
        }
        let ghost before = rows_view(out@);
        out.push(rows[j].copied());
        proof {
            assert(rows_view(out@) == before.push(rv[j as int]));
            match match_rows(rv, (j + 1) as nat, ids@.subrange(i + 1, ids@.len() as int)) {
                Ok(rest) => {
                    assert(before + (seq![rv[j as int]] + rest) == rows_view(out@) + rest);
                },
                Err(_) => {},
            }
        }
        j = j + 1;
        i = i + 1;
    }
    proof {
        assert(rows_view(out@) + Seq::<RowView>::empty() == rows_view(out@));
    }
    Ok(out)
}

/// Looks up the rows with row-ids `ids` in the table B-tree rooted at page `n`.
#[verifier::rlimit(80)]
fn lookup_from(db: &mut DBFile, n: usize, ids: &Vec<u64>, fuel: usize) -> (r: Result<
    Vec<TableRow>,
    DbError,
>)
    requires
        old(db).wf(),
    ensures
        final(db).same_file(old(db)),
        final(db).wf(),
        match (r, lookup_rows(old(db).data@, old(db).spec_page_size(), n as nat, ids@, fuel as nat)) {
            (Ok(rows), Ok(m)) => rows_view(rows@) == m,
            (Err(e), Err(f)) => e == f,
            _ => false,
        },
        r is Ok ==> final(db).pages_loaded as nat == counted(
            old(db).pages_loaded as nat,
            lookup_loads(old(db).data@, old(db).spec_page_size(), n as nat, ids@, fuel as nat),
        ),
    decreases fuel,
{
    if fuel == 0 {
        return Err(DbError::Page);
    }
    let ghost d0 = db.data@;
    let ghost ps = db.spec_page_size();
    let page = match db.load_page_at(n) {
        Err(e) => {
            return Err(e);
        },
        Ok(p) => p,
    };
    match page.page_type {
        PageType::LeafTable => match page.read_table_rows() {
            Err(e) => Err(e),
            Ok(rows) => pick_rows(&rows, ids),
        },
        PageType::InteriorTable => {
            let cells = match page.read_interior_cells() {
                Err(e) => {
                    return Err(e);
                },
                Ok(c) => c,
            };
            let ghost cv = crate::btree_page::interior_cells_view(cells@);
            let ghost rm = page.right_most_pointer;
            let ghost fl = (fuel - 1) as nat;
            let ghost whole = lookup_cells(d0, ps, cv, 0, ids@, rm, fl);
            let ghost all_loads = lookup_cells_loads(d0, ps, cv, 0, ids@, rm, fl);
            let ghost base = old(db).pages_loaded as nat;
            let ghost mut consumed: nat = 0;
            let mut out: Vec<TableRow> = Vec::new();
            let mut start: usize = 0;
            let mut i: usize = 0;
            let total = ids.len();
            proof {
                assert(lookup_rows(d0, ps, n as nat, ids@, fuel as nat) == whole);
                assert(lookup_loads(d0, ps, n as nat, ids@, fuel as nat) == 1 + all_loads);
                assert(rows_view(out@) + Seq::<RowView>::empty() == Seq::<RowView>::empty());
                assert(ids@.subrange(0, ids@.len() as int) == ids@);
            }
            while i < cells.len()
                invariant
                    lookup_rows(d0, ps, n as nat, ids@, fuel as nat) == whole,
                    lookup_loads(d0, ps, n as nat, ids@, fuel as nat) == 1 + all_loads,
                    base == old(db).pages_loaded as nat,
                    db.pages_loaded as nat == counted(base, 1 + consumed),
                    consumed + lookup_cells_loads(
                        d0,
                        ps,
                        cv,
                        i as nat,
                        ids@.subrange(start as int, ids@.len() as int),
                        rm,
                        fl,
                    ) == all_loads,
                    d0 == old(db).data@,
                    ps == old(db).spec_page_size(),
                    db.wf(),
                    db.same_file(old(db)),
                    db.data@ == d0,
                    db.spec_page_size() == ps,
                    fuel > 0,
                    fl == (fuel - 1) as nat,
                    i <= cells@.len(),
                    total == ids@.len(),
                    start <= ids@.len(),
                    cv == crate::btree_page::interior_cells_view(cells@),
                    rm == page.right_most_pointer,
                    whole == match lookup_cells(
                        d0,
                        ps,
                        cv,
                        i as nat,
                        ids@.subrange(start as int, ids@.len() as int),
                        rm,
                        fl,
                    ) {
                        Ok(rest) => Ok(rows_view(out@) + rest),
                        Err(e) => Err::<Seq<RowView>, DbError>(e),
                    },
                decreases cells@.len() - i,
            {
                let (left, key) = match &cells[i] {
                    InteriorCell::Table(c) => (c.left_child_page, c.row_id),
                    InteriorCell::Index(c) => (c.left_child_page, c.rowid),
                };
                proof {
                    assert(cv[i as int] == cells@[i as int]@);
                }
                let ghost remaining = ids@.subrange(start as int, ids@.len() as int);
                let p = count_at_most(ids, start, key);
                let ghost before = rows_view(out@);
                let ghost mut lpart: Seq<RowView> = Seq::empty();
                if p > 0 {
                    let left_ids = slice_ids(ids, start, start + p);
                    proof {
                        assert(left_ids@ == remaining.subrange(0, p as int));
                    }
                    match lookup_from(db, left as usize, &left_ids, fuel - 1) {
                        Err(e) => {
                            return Err(e);
                        },
                        Ok(mut more) => {
                            proof {
                                lpart = rows_view(more@);
                                lemma_counted_add(
                                    base,
                                    1 + consumed,
                                    lookup_loads(d0, ps, left as nat, left_ids@, fl),
                                );
                                consumed = consumed + lookup_loads(
                                    d0,
                                    ps,
                                    left as nat,
                                    left_ids@,
                                    fl,
                                );
                            }
                            out.append(&mut more);
                        },
                    }
                }
                let ghost rest_ids = remaining.subrange(p as int, remaining.len() as int);
                proof {
                    assert(rest_ids == ids@.subrange(start + p, ids@.len() as int));
                }
                start = start + p;
                if start == ids.len() {
                    proof {
                        assert(rest_ids.len() == 0);
                        assert(rows_view(out@) == before + lpart);
                        assert(whole == Ok::<Seq<RowView>, DbError>(rows_view(out@)));
                    }
                    return Ok(out);
                }
                let ghost mut rpart: Seq<RowView> = Seq::empty();
                if i == cells.len() - 1 {
                    match page.right_most_pointer {
                        Some(right) => {
                            let right_ids = slice_ids(ids, start, ids.len());
                            match lookup_from(db, right as usize, &right_ids, fuel - 1) {
                                Err(e) => {
                                    return Err(e);
                                },
                                Ok(mut more) => {
                                    proof {
                                        rpart = rows_view(more@);
                                        lemma_counted_add(
                                            base,
                                            1 + consumed,
                                            lookup_loads(d0, ps, right as nat, right_ids@, fl),
                                        );
                                        consumed = consumed + lookup_loads(
                                            d0,
                                            ps,
                                            right as nat,
                                            right_ids@,
                                            fl,
                                        );
                                    }
                                    out.append(&mut more);
                                },
                            }
                        },
                        None => {},
                    }
                }
                proof {
                    assert(rows_view(out@) == before + lpart + rpart);
                    match lookup_cells(d0, ps, cv, (i + 1) as nat, rest_ids, rm, fl) {
                        Ok(more) => {
                            assert(before + (lpart + rpart + more) == rows_view(out@) + more);
                        },
                        Err(_) => {},
                    }
                }
                i = i + 1;
            }
            proof {
                assert(rows_view(out@) + Seq::<RowView>::empty() == rows_view(out@));
            }
            Ok(out)
        },
        _ => Err(DbError::Page),
    }
}

/// The rows with row-ids `ids` of the table B-tree rooted at page `root`,
/// in the order of `ids`, with the number of pages of the image as depth
/// budget.
pub fn select_with_index(db: &mut DBFile, root: usize, ids: &Vec<u64>) -> (r: Result<
    Vec<TableRow>,
    DbError,
>)
    requires
        old(db).wf(),
    ensures
        final(db).same_file(old(db)),
        final(db).wf(),
        match (r, lookup_rows(old(db).data@, old(db).spec_page_size(), root as nat, ids@, depth_budget(old(db).data@, old(db).spec_page_size()))) {
            (Ok(rows), Ok(m)) => rows_view(rows@) == m,
            (Err(e), Err(f)) => e == f,
            _ => false,
        },
        r is Ok ==> final(db).pages_loaded as nat == counted(
            old(db).pages_loaded as nat,
            lookup_loads(
                old(db).data@,
                old(db).spec_page_size(),
                root as nat,
                ids@,
                depth_budget(old(db).data@, old(db).spec_page_size()),
            ),
        ),
{
    let fuel = db.data.len() / (db.header.page_size() as usize);
    lookup_from(db, root, ids, fuel)
}

/// Whether the row-ids of `rows` strictly ascend and lie in `(lo, hi]`.
pub open spec fn ascending_within(rows: Seq<RowView>, lo: int, hi: int) -> bool {
    &&& forall|j: int, k: int| 0 <= j < k < rows.len() ==> rows[j].0 < rows[k].0
    &&& forall|j: int| 0 <= j < rows.len() ==> lo < #[trigger] rows[j].0 && rows[j].0 <= hi
}

/// Whether the table B-tree rooted at page `n` is well formed with its
/// row-ids in `(lo, hi]`, within `fuel` levels: every page decodes, a leaf's
/// row-ids ascend, and an interior page has at least one cell, a
/// right-most child and keys that bound its children.
pub open spec fn table_tree_ok(db: Seq<u8>, ps: nat, n: nat, lo: int, hi: int, fuel: nat) -> bool
    decreases fuel, 0nat,
{
    fuel > 0 && match load_page(db, ps, n) {
        Err(_) => false,
        Ok((b, v)) => if v.page_type == PageType::LeafTable {
            match parse_each(v.cell_pointers, row_parser(b)) {
                Ok(rows) => ascending_within(rows, lo, hi),
                Err(_) => false,
            }
        } else if v.page_type == PageType::InteriorTable {
            match parse_each(v.cell_pointers, interior_cell_parser(v.page_type, b)) {
                Ok(cells) => cells.len() > 0 && v.right_most_pointer is Some && children_ok(
                    db,
                    ps,
                    cells,
                    0,
                    lo,
                    hi,
                    v.right_most_pointer.unwrap(),
                    (fuel - 1) as nat,
                ),
                Err(_) => false,
            }
        } else {
            false
        },
    }
}

/// Whether the children of an interior table page from cell `i` on are
/// well formed: the child left of a cell with key `k` holds row-ids in
/// `(lo, k]`, the next ones start above `k`, the right-most child ends at `hi`.
pub open spec fn children_ok(
    db: Seq<u8>,
    ps: nat,
    cells: Seq<InteriorCellView>,
    i: nat,
    lo: int,
    hi: int,
    right_most: u32,
    fuel: nat,
) -> bool
    decreases fuel, cells.len() - i + 1,
{
    if i == cells.len() {
        table_tree_ok(db, ps, right_most as nat, lo, hi, fuel)
    } else if i > cells.len() {
        false
    } else {
        let k = table_key(cells[i as int]) as int;
        &&& lo <= k <= hi
        &&& table_tree_ok(db, ps, left_of(cells[i as int]) as nat, lo, k, fuel)
        &&& children_ok(db, ps, cells, i + 1, k, hi, right_most, fuel)
    }
}

/// The number of cells on the leaf pages of the table B-tree rooted at
/// page `n`, within `fuel` levels.
pub open spec fn leaf_cells(db: Seq<u8>, ps: nat, n: nat, fuel: nat) -> nat
    decreases fuel, 0nat,
{
    if fuel == 0 {
        0
    } else {
        match load_page(db, ps, n) {
            Err(_) => 0,
            Ok((b, v)) => if v.page_type == PageType::LeafTable {
                v.cell_pointers.len()
            } else if v.page_type == PageType::InteriorTable {
                match parse_each(v.cell_pointers, interior_cell_parser(v.page_type, b)) {
                    Ok(cells) => leaf_cells_below(
                        db,
                        ps,
                        child_pages(cells, v.right_most_pointer),
                        (fuel - 1) as nat,
                    ),
                    Err(_) => 0,
                }
            } else {
                0
            },
        }
    }
}

/// The number of leaf cells under the pages `kids`.
pub open spec fn leaf_cells_below(db: Seq<u8>, ps: nat, kids: Seq<u32>, fuel: nat) -> nat
    decreases fuel, kids.len() + 1,
{
    if kids.len() == 0 {
        0
    } else {
        leaf_cells(db, ps, kids[0] as nat, fuel) + leaf_cells_below(db, ps, kids.drop_first(), fuel)
    }
}

/// A list decoded from `ptrs` has one item per pointer.
pub proof fn lemma_parse_each_len<T>(ptrs: Seq<u16>, f: spec_fn(nat) -> Result<T, DbError>)
    ensures
        parse_each(ptrs, f) matches Ok(xs) ==> xs.len() == ptrs.len(),
    decreases ptrs.len(),
{
    if ptrs.len() > 0 {
        lemma_parse_each_len(ptrs.drop_last(), f);
    }
}

proof fn lemma_ascending_concat(a: Seq<RowView>, b: Seq<RowView>, lo: int, mid: int, hi: int)
    requires
        lo <= mid <= hi,
        ascending_within(a, lo, mid),
        ascending_within(b, mid, hi),
    ensures
        ascending_within(a + b, lo, hi),
{
    let c = a + b;
    assert forall|j: int, k: int| 0 <= j < k < c.len() implies c[j].0 < c[k].0 by {
        if k < a.len() {
        } else if j >= a.len() {
            assert(c[j] == b[j - a.len()] && c[k] == b[k - a.len()]);
        } else {
            assert(c[j] == a[j] && c[k] == b[k - a.len()]);
            assert(a[j].0 <= mid);
            assert(mid < b[k - a.len()].0);
        }
    }
    assert forall|j: int| 0 <= j < c.len() implies lo < #[trigger] c[j].0 && c[j].0 <= hi by {
        if j < a.len() {
            assert(c[j] == a[j]);
        } else {
            assert(c[j] == b[j - a.len()]);
        }
    }
}

/// A full scan of a well-formed table B-tree yields its rows in strictly
/// ascending row-id order, all within the tree's bounds, and as many rows
/// as its leaf pages hold cells.
pub proof fn lemma_scan_ascending(db: Seq<u8>, ps: nat, root: nat, lo: int, hi: int, fuel: nat)
    requires
        table_tree_ok(db, ps, root, lo, hi, fuel),
    ensures
        scan_rows(db, ps, root, fuel) matches Ok(rows) && ascending_within(rows, lo, hi)
            && rows.len() == leaf_cells(db, ps, root, fuel),
    decreases fuel, 0nat,
{
    match load_page(db, ps, root) {
        Err(_) => {},
        Ok((b, v)) => {
            if v.page_type == PageType::LeafTable {
                lemma_parse_each_len(v.cell_pointers, row_parser(b));
            } else if v.page_type == PageType::InteriorTable {
                match parse_each(v.cell_pointers, interior_cell_parser(v.page_type, b)) {
                    Ok(cells) => {
                        let rm = v.right_most_pointer.unwrap();
                        lemma_children_ascending(db, ps, cells, 0, lo, hi, rm, (fuel - 1) as nat);
                        assert(child_pages(cells, v.right_most_pointer).subrange(
                            0,
                            cells.len() + 1int,
                        ) == child_pages(cells, v.right_most_pointer));
                    },
                    Err(_) => {},
                }
            }
        },
    }
}

proof fn lemma_children_ascending(
    db: Seq<u8>,
    ps: nat,
    cells: Seq<InteriorCellView>,
    i: nat,
    lo: int,
    hi: int,
    rm: u32,
    fuel: nat,
)
    requires
        i <= cells.len(),
        children_ok(db, ps, cells, i, lo, hi, rm, fuel),
    ensures
        ({
            let kids = child_pages(cells, Some(rm)).subrange(i as int, cells.len() + 1int);
            scan_children(db, ps, kids, fuel) matches Ok(rows) && ascending_within(rows, lo, hi)
                && rows.len() == leaf_cells_below(db, ps, kids, fuel)
        }),
    decreases fuel, cells.len() - i + 1,
{
    let all = child_pages(cells, Some(rm));
    let kids = all.subrange(i as int, cells.len() + 1int);
    assert(all.len() == cells.len() + 1);
    if i == cells.len() {
        lemma_scan_ascending(db, ps, rm as nat, lo, hi, fuel);
        assert(kids[0] == rm);
        assert(kids.drop_first().len() == 0);
        assert(scan_children(db, ps, kids.drop_first(), fuel) == Ok::<Seq<RowView>, DbError>(
            Seq::empty(),
        ));
        assert(leaf_cells_below(db, ps, kids.drop_first(), fuel) == 0);
        let rows = scan_rows(db, ps, rm as nat, fuel).unwrap();
        assert(rows + Seq::<RowView>::empty() == rows);
    } else {
        let k = table_key(cells[i as int]) as int;
        let left = left_of(cells[i as int]);
        assert(kids[0] == left);
        assert(kids.drop_first() == all.subrange(i + 1int, cells.len() + 1int));
        lemma_scan_ascending(db, ps, left as nat, lo, k, fuel);
        lemma_children_ascending(db, ps, cells, i + 1, k, hi, rm, fuel);
        let a = scan_rows(db, ps, left as nat, fuel).unwrap();
        let rest = scan_children(db, ps, kids.drop_first(), fuel).unwrap();
        lemma_ascending_concat(a, rest, lo, k, hi);
    }
}

/// An index entry in key order: its key columns and its row-id.
pub type EntryView = (Seq<ValueView>, u64);

/// The key text of an entry: the text form of its first column.
pub open spec fn entry_text(e: EntryView) -> Option<Seq<char>> {
    if e.0.len() > 0 {
        text_form(e.0[0])
    } else {
        None
    }
}

/// The entries of the index B-tree rooted at page `n` in key order: for
/// each interior cell, the entries of its left child and then its own, and
/// last those of the right-most child.
pub open spec fn index_entries(db: Seq<u8>, ps: nat, n: nat, fuel: nat) -> Seq<EntryView>
    decreases fuel, 0nat,
{
    if fuel == 0 {
        Seq::empty()
    } else {
        match load_page(db, ps, n) {
            Err(_) => Seq::empty(),
            Ok((b, v)) => if v.page_type == PageType::LeafIndex {
                match parse_each(v.cell_pointers, leaf_cell_parser(v.page_type, b)) {
                    Ok(cells) => cells.map_values(|c: Seq<ValueView>| (c, entry_rowid(c))),
                    Err(_) => Seq::empty(),
                }
            } else if v.page_type == PageType::InteriorIndex {
                match parse_each(v.cell_pointers, interior_cell_parser(v.page_type, b)) {
                    Ok(cells) => entries_from(
                        db,
                        ps,
                        cells,
                        0,
                        v.right_most_pointer,
                        (fuel - 1) as nat,
                    ),
                    Err(_) => Seq::empty(),
                }
            } else {
                Seq::empty()
            },
        }
    }
}

/// The entries under an interior index page from cell `i` on.
pub open spec fn entries_from(
    db: Seq<u8>,
    ps: nat,
    cells: Seq<InteriorCellView>,
    i: nat,
    right_most: Option<u32>,
    fuel: nat,
) -> Seq<EntryView>
    decreases fuel, cells.len() - i + 1,
{
    if i == cells.len() {
        match right_most {
            Some(r) => index_entries(db, ps, r as nat, fuel),
            None => Seq::empty(),
        }
    } else if i > cells.len() {
        Seq::empty()
    } else {
        index_entries(db, ps, left_of(cells[i as int]) as nat, fuel) + seq![
            index_entry(cells[i as int]),
        ] + entries_from(db, ps, cells, i + 1, right_most, fuel)
    }
}

/// The row-ids of the entries whose key text is `q`, in order.
pub open spec fn matching(es: Seq<EntryView>, q: Seq<char>) -> Seq<u64>
    decreases es.len(),
{
    if es.len() == 0 {
        Seq::empty()
    } else if entry_text(es.last()) == Some(q) {
        matching(es.drop_last(), q).push(es.last().1)
    } else {
        matching(es.drop_last(), q)
    }
}

/// Whether text `t` is at or above the bound `lo`, if there is one.
pub open spec fn above(lo: Option<Seq<char>>, t: Seq<char>) -> bool {
    match lo {
        Some(l) => text_cmp(l, t) != Ordering::Greater,
        None => true,
    }
}

/// Whether text `t` is at or below the bound `hi`, if there is one.
pub open spec fn below(t: Seq<char>, hi: Option<Seq<char>>) -> bool {
    match hi {
        Some(h) => text_cmp(t, h) != Ordering::Greater,
        None => true,
    }
}

/// Whether an entry has a key text within `[lo, hi]`.
pub open spec fn entry_within(e: EntryView, lo: Option<Seq<char>>, hi: Option<Seq<char>>) -> bool {
    match entry_text(e) {
        Some(t) => above(lo, t) && below(t, hi),
        None => false,
    }
}

/// Whether every entry has a key text within `[lo, hi]`.
pub open spec fn all_within(es: Seq<EntryView>, lo: Option<Seq<char>>, hi: Option<Seq<char>>) -> bool {
    forall|j: int| 0 <= j < es.len() ==> #[trigger] entry_within(es[j], lo, hi)
}

/// Whether the index B-tree rooted at page `n` is well formed with key
/// texts in `[lo, hi]`, within `fuel` levels: every page decodes, every
/// key has a text form within its bounds, and an interior page has at
/// least one cell and a right-most child, its keys bounding its children.
pub open spec fn index_tree_ok(
    db: Seq<u8>,
    ps: nat,
    n: nat,
    lo: Option<Seq<char>>,
    hi: Option<Seq<char>>,
    fuel: nat,
) -> bool
    decreases fuel, 0nat,
{
    fuel > 0 && match load_page(db, ps, n) {
        Err(_) => false,
        Ok((b, v)) => if v.page_type == PageType::LeafIndex {
            match parse_each(v.cell_pointers, leaf_cell_parser(v.page_type, b)) {
                Ok(cells) => all_within(
                    cells.map_values(|c: Seq<ValueView>| (c, entry_rowid(c))),
                    lo,
                    hi,
                ),
                Err(_) => false,
            }
        } else if v.page_type == PageType::InteriorIndex {
            match parse_each(v.cell_pointers, interior_cell_parser(v.page_type, b)) {
                Ok(cells) => cells.len() > 0 && v.right_most_pointer is Some && index_cells_ok(
                    db,
                    ps,
                    cells,
                    0,
                    lo,
                    hi,
                    v.right_most_pointer,
                    (fuel - 1) as nat,
                ),
                Err(_) => false,
            }
        } else {
            false
        },
    }
}

/// Whether the cells of an interior index page from `i` on, with the
/// right-most child, are well formed within `[lo, hi]`.
pub open spec fn index_cells_ok(
    db: Seq<u8>,
    ps: nat,
    cells: Seq<InteriorCellView>,
    i: nat,
    lo: Option<Seq<char>>,
    hi: Option<Seq<char>>,
    right_most: Option<u32>,
    fuel: nat,
) -> bool
    decreases fuel, cells.len() - i + 1,
{
    if i == cells.len() {
        right_most is Some && index_tree_ok(db, ps, right_most.unwrap() as nat, lo, hi, fuel)
    } else if i > cells.len() {
        false
    } else {
        match entry_text(index_entry(cells[i as int])) {
            None => false,
            Some(k) => {
                &&& above(lo, k)
                &&& below(k, hi)
                &&& index_tree_ok(db, ps, left_of(cells[i as int]) as nat, lo, Some(k), fuel)
                &&& index_cells_ok(db, ps, cells, i + 1, Some(k), hi, right_most, fuel)
            },
        }
    }
}

proof fn lemma_matching_concat(a: Seq<EntryView>, b: Seq<EntryView>, q: Seq<char>)
    ensures
        matching(a + b, q) == matching(a, q) + matching(b, q),
    decreases b.len(),
{
    if b.len() == 0 {
        assert(a + b == a);
        assert(matching(a, q) + Seq::<u64>::empty() == matching(a, q));
    } else {
        lemma_matching_concat(a, b.drop_last(), q);
        assert((a + b).drop_last() == a + b.drop_last());
        assert((a + b).last() == b.last());
    }
}

proof fn lemma_matching_none(es: Seq<EntryView>, q: Seq<char>)
    requires
        forall|j: int| 0 <= j < es.len() ==> #[trigger] entry_text(es[j]) != Some(q),
    ensures
        matching(es, q) == Seq::<u64>::empty(),
    decreases es.len(),
{
    if es.len() > 0 {
        assert(entry_text(es[es.len() - 1]) != Some(q));
        lemma_matching_none(es.drop_last(), q);
    }
}

proof fn lemma_within_widen(
    es: Seq<EntryView>,
    lo: Option<Seq<char>>,
    hi: Option<Seq<char>>,
    lo2: Option<Seq<char>>,
    hi2: Option<Seq<char>>,
)
    requires
        all_within(es, lo, hi),
        lo2 is None || lo2 == lo || (lo is Some && above(lo2, lo.unwrap())),
        hi2 is None || hi2 == hi || (hi is Some && below(hi.unwrap(), hi2)),
    ensures
        all_within(es, lo2, hi2),
{
    assert forall|j: int| 0 <= j < es.len() implies #[trigger] entry_within(es[j], lo2, hi2) by {
        assert(entry_within(es[j], lo, hi));
        let t = entry_text(es[j]).unwrap();
        if lo2 is Some && lo2 != lo {
            lemma_lex_cmp_transitive(
                encode_utf8(lo2.unwrap()),
                encode_utf8(lo.unwrap()),
                encode_utf8(t),
            );
        }
        if hi2 is Some && hi2 != hi {
            lemma_lex_cmp_transitive(
                encode_utf8(t),
                encode_utf8(hi.unwrap()),
                encode_utf8(hi2.unwrap()),
            );
        }
    }
}

/// The entries of a well-formed index tree have key texts within its bounds.
proof fn lemma_entries_within(
    db: Seq<u8>,
    ps: nat,
    n: nat,
    lo: Option<Seq<char>>,
    hi: Option<Seq<char>>,
    fuel: nat,
)
    requires
        index_tree_ok(db, ps, n, lo, hi, fuel),
    ensures
        all_within(index_entries(db, ps, n, fuel), lo, hi),
    decreases fuel, 0nat,
{
    match load_page(db, ps, n) {
        Err(_) => {},
        Ok((b, v)) => {
            if v.page_type == PageType::InteriorIndex {
                match parse_each(v.cell_pointers, interior_cell_parser(v.page_type, b)) {
                    Ok(cells) => {
                        lemma_cells_within(
                            db,
                            ps,
                            cells,
                            0,
                            lo,
                            hi,
                            v.right_most_pointer,
                            (fuel - 1) as nat,
                        );
                    },
                    Err(_) => {},
                }
            }
        },
    }
}

proof fn lemma_cells_within(
    db: Seq<u8>,
    ps: nat,
    cells: Seq<InteriorCellView>,
    i: nat,
    lo: Option<Seq<char>>,
    hi: Option<Seq<char>>,
    rm: Option<u32>,
    fuel: nat,
)
    requires
        index_cells_ok(db, ps, cells, i, lo, hi, rm, fuel),
    ensures
        all_within(entries_from(db, ps, cells, i, rm, fuel), lo, hi),
    decreases fuel, cells.len() - i + 1,
{
    if i == cells.len() {
        lemma_entries_within(db, ps, rm.unwrap() as nat, lo, hi, fuel);
    } else if i < cells.len() {
        let k = entry_text(index_entry(cells[i as int])).unwrap();
        let left = index_entries(db, ps, left_of(cells[i as int]) as nat, fuel);
        let rest = entries_from(db, ps, cells, i + 1, rm, fuel);
        lemma_entries_within(db, ps, left_of(cells[i as int]) as nat, lo, Some(k), fuel);
        lemma_cells_within(db, ps, cells, i + 1, Some(k), hi, rm, fuel);
        lemma_within_widen(left, lo, Some(k), lo, hi);
        lemma_within_widen(rest, Some(k), hi, lo, hi);
        let all = left + seq![index_entry(cells[i as int])] + rest;
        assert forall|j: int| 0 <= j < all.len() implies #[trigger] entry_within(all[j], lo, hi) by {
            if j < left.len() {
                assert(all[j] == left[j]);
                assert(entry_within(left[j], lo, hi));
            } else if j == left.len() {
                assert(all[j] == index_entry(cells[i as int]));
            } else {
                assert(all[j] == rest[j - left.len() - 1]);
                assert(entry_within(rest[j - left.len() - 1], lo, hi));
            }
        }
    }
}

proof fn lemma_leaf_matching(cells: Seq<Seq<ValueView>>, q: Seq<char>)
    ensures
        leaf_matches(cells, q) == matching(
            cells.map_values(|c: Seq<ValueView>| (c, entry_rowid(c))),
            q,
        ),
    decreases cells.len(),
{
    let es = cells.map_values(|c: Seq<ValueView>| (c, entry_rowid(c)));
    if cells.len() > 0 {
        lemma_leaf_matching(cells.drop_last(), q);
        assert(es.drop_last() == cells.drop_last().map_values(
            |c: Seq<ValueView>| (c, entry_rowid(c)),
        ));
        assert(es.last() == (cells.last(), entry_rowid(cells.last())));
    }
}

/// No entry below `k` has key text `q` when `k` is below `q`, and none
/// above `k` when `k` is above `q`.
proof fn lemma_no_match_beyond(es: Seq<EntryView>, lo: Option<Seq<char>>, hi: Option<Seq<char>>, k: Seq<char>, q: Seq<char>)
    requires
        all_within(es, lo, hi),
        (hi == Some(k) && text_cmp(k, q) == Ordering::Less) || (lo == Some(k) && text_cmp(k, q)
            == Ordering::Greater),
    ensures
        matching(es, q) == Seq::<u64>::empty(),
{
    assert forall|j: int| 0 <= j < es.len() implies #[trigger] entry_text(es[j]) != Some(q) by {
        assert(entry_within(es[j], lo, hi));
        if entry_text(es[j]) == Some(q) {
            lemma_lex_cmp_antisymmetric(encode_utf8(k), encode_utf8(q));
            lemma_lex_cmp_antisymmetric(encode_utf8(q), encode_utf8(k));
        }
    }
    lemma_matching_none(es, q);
}

/// Searching a well-formed index B-tree for `q` yields exactly the row-ids
/// of its entries whose key text is `q`, in key order.
pub proof fn lemma_search_exact(
    db: Seq<u8>,
    ps: nat,
    n: nat,
    lo: Option<Seq<char>>,
    hi: Option<Seq<char>>,
    q: Seq<char>,
    fuel: nat,
)
    requires
        index_tree_ok(db, ps, n, lo, hi, fuel),
    ensures
        search_rows(db, ps, n, q, fuel) == Ok::<Seq<u64>, DbError>(
            matching(index_entries(db, ps, n, fuel), q),
        ),
    decreases fuel, 0nat,
{
    match load_page(db, ps, n) {
        Err(_) => {},
        Ok((b, v)) => {
            if v.page_type == PageType::LeafIndex {
                match parse_each(v.cell_pointers, leaf_cell_parser(v.page_type, b)) {
                    Ok(cells) => {
                        lemma_leaf_matching(cells, q);
                    },
                    Err(_) => {},
                }
            } else if v.page_type == PageType::InteriorIndex {
                match parse_each(v.cell_pointers, interior_cell_parser(v.page_type, b)) {
                    Ok(cells) => {
                        lemma_search_cells_exact(
                            db,
                            ps,
                            cells,
                            0,
                            lo,
                            hi,
                            v.right_most_pointer,
                            q,
                            (fuel - 1) as nat,
                        );
                    },
                    Err(_) => {},
                }
            }
        },
    }
}

proof fn lemma_search_cells_exact(
    db: Seq<u8>,
    ps: nat,
    cells: Seq<InteriorCellView>,
    i: nat,
    lo: Option<Seq<char>>,
    hi: Option<Seq<char>>,
    rm: Option<u32>,
    q: Seq<char>,
    fuel: nat,
)
    requires
        i < cells.len(),
        index_cells_ok(db, ps, cells, i, lo, hi, rm, fuel),
    ensures
        search_cells(db, ps, cells, i, rm, q, fuel) == Ok::<Seq<u64>, DbError>(
            matching(entries_from(db, ps, cells, i, rm, fuel), q),
        ),
    decreases fuel, cells.len() - i + 1,
{
    let e = index_entry(cells[i as int]);
    let k = entry_text(e).unwrap();
    let left = left_of(cells[i as int]) as nat;
    let l_es = index_entries(db, ps, left, fuel);
    let r_es = entries_from(db, ps, cells, i + 1, rm, fuel);
    let last = i + 1 == cells.len();
    assert(key_cmp(e.0, q) == Some(text_cmp(k, q)));
    lemma_matching_concat(l_es + seq![e], r_es, q);
    lemma_matching_concat(l_es, seq![e], q);
    assert(matching(seq![e], q) == if k == q {
        seq![e.1]
    } else {
        Seq::<u64>::empty()
    }) by {
        assert(seq![e].drop_last() == Seq::<EntryView>::empty());
        assert(seq![e].last() == e);
        assert(matching(Seq::<EntryView>::empty(), q) == Seq::<u64>::empty());
        assert(Seq::<u64>::empty().push(e.1) == seq![e.1]);
    }
    lemma_text_cmp_equal(k, q);
    lemma_search_exact(db, ps, left, lo, Some(k), q, fuel);
    lemma_entries_within(db, ps, left, lo, Some(k), fuel);
    assert(index_cells_ok(db, ps, cells, i + 1, Some(k), hi, rm, fuel));
    if last {
        assert(rm is Some && index_tree_ok(db, ps, rm.unwrap() as nat, Some(k), hi, fuel));
        lemma_search_exact(db, ps, rm.unwrap() as nat, Some(k), hi, q, fuel);
        lemma_entries_within(db, ps, rm.unwrap() as nat, Some(k), hi, fuel);
        assert(r_es == index_entries(db, ps, rm.unwrap() as nat, fuel));
    } else {
        lemma_search_cells_exact(db, ps, cells, i + 1, Some(k), hi, rm, q, fuel);
        lemma_cells_within(db, ps, cells, i + 1, Some(k), hi, rm, fuel);
    }
    let ml = matching(l_es, q);
    let mr = matching(r_es, q);
    if text_cmp(k, q) == Ordering::Less {
        lemma_no_match_beyond(l_es, lo, Some(k), k, q);
        if last {
            assert(Seq::<u64>::empty() + Seq::<u64>::empty() + mr + Seq::<u64>::empty() == ml
                + matching(seq![e], q) + mr);
        } else {
            assert(Seq::<u64>::empty() + Seq::<u64>::empty() + Seq::<u64>::empty() + mr == ml
                + matching(seq![e], q) + mr);
        }
    } else if text_cmp(k, q) == Ordering::Greater {
        lemma_no_match_beyond(r_es, Some(k), hi, k, q);
        assert(ml == ml + matching(seq![e], q) + mr);
    } else {
        if last {
            assert(ml + seq![e.1] + mr + Seq::<u64>::empty() == ml + matching(seq![e], q) + mr);
        } else {
            assert(ml + seq![e.1] + Seq::<u64>::empty() + mr == ml + matching(seq![e], q) + mr);
        }
    }
}

/// Searching a well-formed index for `q` from its root, with the number of
/// pages of the image as depth budget, yields exactly the row-ids of the
/// index entries whose key text is `q`, in key order.
pub proof fn lemma_search_index_exact(db: Seq<u8>, ps: nat, root: nat, q: Seq<char>)
    requires
        index_tree_ok(db, ps, root, None, None, depth_budget(db, ps)),
    ensures
        search_rows(db, ps, root, q, depth_budget(db, ps)) == Ok::<Seq<u64>, DbError>(
            matching(index_entries(db, ps, root, depth_budget(db, ps)), q),
        ),
{
    lemma_search_exact(db, ps, root, None, None, q, depth_budget(db, ps));
}

/// Whether each index entry names a row of `rows` whose column `col` has
/// the entry's key text: the index indexes that column of that table.
pub open spec fn index_consistent(es: Seq<EntryView>, rows: Seq<RowView>, col: nat) -> bool {
    forall|j: int|
        0 <= j < es.len() ==> exists|r: int|
            0 <= r < rows.len() && rows[r].0 == (#[trigger] es[j]).1 && text_form(
                crate::query::value_at(rows[r].1, col),
            ) == entry_text(es[j])
}

proof fn lemma_matching_source(es: Seq<EntryView>, q: Seq<char>)
    ensures
        forall|j: int|
            0 <= j < matching(es, q).len() ==> exists|e: int|
                0 <= e < es.len() && es[e].1 == #[trigger] matching(es, q)[j] && entry_text(es[e])
                    == Some(q),
    decreases es.len(),
{
    if es.len() > 0 {
        let init = es.drop_last();
        lemma_matching_source(init, q);
        let m = matching(es, q);
        assert forall|j: int| 0 <= j < m.len() implies exists|e: int|
            0 <= e < es.len() && es[e].1 == #[trigger] m[j] && entry_text(es[e]) == Some(q) by {
            if entry_text(es.last()) == Some(q) && j == m.len() - 1 {
                assert(es[es.len() - 1].1 == m[j]);
            } else {
                let mi = matching(init, q);
                assert(m[j] == mi[j]);
                let e = choose|e: int|
                    0 <= e < init.len() && init[e].1 == #[trigger] mi[j] && entry_text(init[e])
                        == Some(q);
                assert(es[e] == init[e]);
            }
        }
    }
}

/// When an index indexes column `col` of a table, every row-id that a
/// search of the index for `q` yields names a row that a full scan of the
/// table keeps under `WHERE col = q`.
pub proof fn lemma_search_within_scan(
    db: Seq<u8>,
    ps: nat,
    index_root: nat,
    table_root: nat,
    col: nat,
    q: Seq<char>,
)
    requires
        index_tree_ok(db, ps, index_root, None, None, depth_budget(db, ps)),
        scan_rows(db, ps, table_root, depth_budget(db, ps)) is Ok,
        index_consistent(
            index_entries(db, ps, index_root, depth_budget(db, ps)),
            scan_rows(db, ps, table_root, depth_budget(db, ps)).unwrap(),
            col,
        ),
    ensures
        search_rows(db, ps, index_root, q, depth_budget(db, ps)) matches Ok(ids) && forall|j: int|
            0 <= j < ids.len() ==> exists|r: int|
                0 <= r < scan_rows(db, ps, table_root, depth_budget(db, ps)).unwrap().len()
                    && scan_rows(db, ps, table_root, depth_budget(db, ps)).unwrap()[r].0
                    == #[trigger] ids[j] && crate::query::passes(
                    scan_rows(db, ps, table_root, depth_budget(db, ps)).unwrap()[r].1,
                    Some((col, q)),
                ),
{
    let fuel = depth_budget(db, ps);
    let es = index_entries(db, ps, index_root, fuel);
    let rows = scan_rows(db, ps, table_root, fuel).unwrap();
    lemma_search_exact(db, ps, index_root, None, None, q, fuel);
    lemma_matching_source(es, q);
    let ids = matching(es, q);
    assert forall|j: int| 0 <= j < ids.len() implies exists|r: int|
        0 <= r < rows.len() && rows[r].0 == #[trigger] ids[j] && crate::query::passes(
            rows[r].1,
            Some((col, q)),
        ) by {
        let e = choose|e: int|
            0 <= e < es.len() && es[e].1 == #[trigger] ids[j] && entry_text(es[e]) == Some(q);
        assert(0 <= e < es.len());
        let x = es[e];
        let r = choose|r: int|
            0 <= r < rows.len() && rows[r].0 == x.1 && text_form(
                crate::query::value_at(rows[r].1, col),
            ) == entry_text(x);
        assert(rows[r].0 == ids[j]);
    }
}

/// The rows of `a` and then those of `b`, or the first failure.
pub open spec fn then_concat(a: Result<Seq<RowView>, DbError>, b: Result<Seq<RowView>, DbError>) -> Result<
    Seq<RowView>,
    DbError,
> {
    match a {
        Err(e) => Err(e),
        Ok(x) => match b {
            Err(e) => Err(e),
            Ok(y) => Ok(x + y),
        },
    }
}

proof fn lemma_advance_in_first(a: Seq<RowView>, b: Seq<RowView>, j: nat, id: u64, k: int)
    requires
        j <= a.len(),
        id <= k,
        forall|x: int| 0 <= x < b.len() ==> k < #[trigger] b[x].0,
    ensures
        advance(a + b, j, id) == advance(a, j, id),
    decreases a.len() - j,
{
    if j < a.len() {
        assert((a + b)[j as int] == a[j as int]);
        lemma_advance_in_first(a, b, j + 1, id, k);
    } else if b.len() > 0 {
        assert((a + b)[j as int] == b[0]);
    }
}

proof fn lemma_advance_shift(a: Seq<RowView>, b: Seq<RowView>, j: nat, id: u64)
    requires
        j <= b.len(),
    ensures
        advance(a + b, a.len() + j, id) == a.len() + advance(b, j, id),
    decreases b.len() - j,
{
    if j < b.len() {
        assert((a + b)[(a.len() + j) as int] == b[j as int]);
        lemma_advance_shift(a, b, j + 1, id);
    }
}

proof fn lemma_advance_past_first(a: Seq<RowView>, b: Seq<RowView>, j: nat, id: u64)
    requires
        j <= a.len(),
        forall|x: int| 0 <= x < a.len() ==> #[trigger] a[x].0 < id,
    ensures
        advance(a + b, j, id) == advance(a + b, a.len(), id),
    decreases a.len() - j,
{
    if j < a.len() {
        assert((a + b)[j as int] == a[j as int]);
        lemma_advance_past_first(a, b, j + 1, id);
    }
}

proof fn lemma_match_shift(a: Seq<RowView>, b: Seq<RowView>, j: nat, ids: Seq<u64>)
    requires
        j <= b.len(),
    ensures
        match_rows(a + b, a.len() + j, ids) == match_rows(b, j, ids),
    decreases ids.len(),
{
    if ids.len() > 0 {
        lemma_advance_shift(a, b, j, ids[0]);
        let x = advance(b, j, ids[0]);
        lemma_advance_range(b, j, ids[0]);
        if x < b.len() {
            assert((a + b)[(a.len() + x) as int] == b[x as int]);
            if b[x as int].0 == ids[0] {
                lemma_match_shift(a, b, x + 1, ids.drop_first());
            }
        }
    }
}

proof fn lemma_advance_range(rows: Seq<RowView>, j: nat, id: u64)
    requires
        j <= rows.len(),
    ensures
        j <= advance(rows, j, id) <= rows.len(),
    decreases rows.len() - j,
{
    if j < rows.len() && rows[j as int].0 < id {
        lemma_advance_range(rows, j + 1, id);
    }
}

/// Matching ids against rows `a` then `b`, where the rows of `a` are at
/// most `k` and those of `b` above it, splits at the ids that are at most
/// `k`.
proof fn lemma_match_split(a: Seq<RowView>, b: Seq<RowView>, j: nat, ids: Seq<u64>, k: int)
    requires
        j <= a.len(),
        forall|x: int| 0 <= x < a.len() ==> #[trigger] a[x].0 <= k,
        forall|x: int| 0 <= x < b.len() ==> k < #[trigger] b[x].0,
        0 <= k <= u64::MAX,
    ensures
        match_rows(a + b, j, ids) == then_concat(
            match_rows(a, j, ids.subrange(0, prefix_at_most(ids, k as u64) as int)),
            match_rows(b, 0, ids.subrange(prefix_at_most(ids, k as u64) as int, ids.len() as int)),
        ),
    decreases ids.len(),
{
    let p = prefix_at_most(ids, k as u64);
    lemma_prefix_at_most_range(ids, k as u64);
    let front = ids.subrange(0, p as int);
    let back = ids.subrange(p as int, ids.len() as int);
    let c = a + b;
    if ids.len() == 0 {
        assert(front.len() == 0 && back.len() == 0);
        assert(Seq::<RowView>::empty() + Seq::<RowView>::empty() == Seq::<RowView>::empty());
    } else if ids[0] as int <= k {
        let id = ids[0];
        lemma_advance_in_first(a, b, j, id, k);
        lemma_advance_range(a, j, id);
        let x = advance(a, j, id);
        assert(front[0] == id);
        assert(front.drop_first() == ids.drop_first().subrange(0, p - 1));
        assert(prefix_at_most(ids.drop_first(), k as u64) == p - 1);
        assert(back == ids.drop_first().subrange(p - 1, ids.drop_first().len() as int));
        if x < a.len() {
            assert(c[x as int] == a[x as int]);
            if a[x as int].0 == id {
                lemma_match_split(a, b, x + 1, ids.drop_first(), k);
                match (match_rows(a, x + 1, front.drop_first()), match_rows(b, 0, back)) {
                    (Ok(l), Ok(r)) => {
                        assert(seq![a[x as int]] + (l + r) == (seq![a[x as int]] + l) + r);
                    },
                    _ => {},
                }
            }
        } else if b.len() > 0 {
            assert(c[x as int] == b[0]);
        }
    } else {
        assert(p == 0);
        assert(front.len() == 0);
        assert(back == ids);
        assert forall|x: int| 0 <= x < a.len() implies #[trigger] a[x].0 < ids[0] by {}
        lemma_advance_past_first(a, b, j, ids[0]);
        lemma_advance_shift(a, b, 0, ids[0]);
        lemma_match_shift(a, b, 0, ids);
        assert(a.len() + 0 == a.len());
        lemma_advance_range(b, 0, ids[0]);
        let y = advance(b, 0, ids[0]);
        if y < b.len() {
            assert(c[(a.len() + y) as int] == b[y as int]);
            if b[y as int].0 == ids[0] {
                lemma_match_shift(a, b, y + 1, ids.drop_first());
            }
        }
        match match_rows(b, 0, ids) {
            Ok(r) => {
                assert(Seq::<RowView>::empty() + r == r);
            },
            Err(_) => {},
        }
    }
}

proof fn lemma_prefix_at_most_range(ids: Seq<u64>, k: u64)
    ensures
        prefix_at_most(ids, k) <= ids.len(),
    decreases ids.len(),
{
    if ids.len() > 0 && ids[0] <= k {
        lemma_prefix_at_most_range(ids.drop_first(), k);
    }
}

/// Looking up row-ids in a well-formed table B-tree gives what matching
/// them, in order, against the rows of a full scan gives: the row of each
/// id in the order of the ids, or [`DbError::Consistency`] when one is
/// missing.
pub proof fn lemma_lookup_matches_scan(
    db: Seq<u8>,
    ps: nat,
    n: nat,
    lo: int,
    hi: int,
    ids: Seq<u64>,
    fuel: nat,
)
    requires
        table_tree_ok(db, ps, n, lo, hi, fuel),
    ensures
        scan_rows(db, ps, n, fuel) matches Ok(rows) && lookup_rows(db, ps, n, ids, fuel)
            == match_rows(rows, 0, ids),
    decreases fuel, 0nat,
{
    lemma_scan_ascending(db, ps, n, lo, hi, fuel);
    match load_page(db, ps, n) {
        Err(_) => {},
        Ok((b, v)) => {
            if v.page_type == PageType::InteriorTable {
                match parse_each(v.cell_pointers, interior_cell_parser(v.page_type, b)) {
                    Ok(cells) => {
                        let rm = v.right_most_pointer.unwrap();
                        lemma_lookup_cells_match(db, ps, cells, 0, lo, hi, rm, ids, (fuel - 1) as nat);
                        assert(child_pages(cells, v.right_most_pointer).subrange(
                            0,
                            cells.len() + 1int,
                        ) == child_pages(cells, v.right_most_pointer));
                    },
                    Err(_) => {},
                }
            }
        },
    }
}

proof fn lemma_lookup_cells_match(
    db: Seq<u8>,
    ps: nat,
    cells: Seq<InteriorCellView>,
    i: nat,
    lo: int,
    hi: int,
    rm: u32,
    ids: Seq<u64>,
    fuel: nat,
)
    requires
        i < cells.len(),
        children_ok(db, ps, cells, i, lo, hi, rm, fuel),
    ensures
        scan_children(
            db,
            ps,
            child_pages(cells, Some(rm)).subrange(i as int, cells.len() + 1int),
            fuel,
        ) matches Ok(rows) && lookup_cells(db, ps, cells, i, ids, Some(rm), fuel) == match_rows(
            rows,
            0,
            ids,
        ),
    decreases fuel, cells.len() - i + 1,
{
    let all = child_pages(cells, Some(rm));
    let kids = all.subrange(i as int, cells.len() + 1int);
    assert(all.len() == cells.len() + 1);
    lemma_children_ascending(db, ps, cells, i, lo, hi, rm, fuel);
    let k = table_key(cells[i as int]) as int;
    let left = left_of(cells[i as int]);
    assert(kids[0] == left);
    assert(kids.drop_first() == all.subrange(i + 1int, cells.len() + 1int));
    assert(children_ok(db, ps, cells, i + 1, k, hi, rm, fuel));
    lemma_scan_ascending(db, ps, left as nat, lo, k, fuel);
    lemma_children_ascending(db, ps, cells, i + 1, k, hi, rm, fuel);
    let a = scan_rows(db, ps, left as nat, fuel).unwrap();
    let bb = scan_children(db, ps, kids.drop_first(), fuel).unwrap();
    let p = prefix_at_most(ids, k as u64);
    lemma_prefix_at_most_range(ids, k as u64);
    let front = ids.subrange(0, p as int);
    let rest = ids.subrange(p as int, ids.len() as int);
    assert forall|x: int| 0 <= x < a.len() implies #[trigger] a[x].0 <= k by {}
    assert forall|x: int| 0 <= x < bb.len() implies k < #[trigger] bb[x].0 by {}
    lemma_match_split(a, bb, 0, ids, k);
    lemma_lookup_matches_scan(db, ps, left as nat, lo, k, front, fuel);
    if p == 0 {
        assert(front.len() == 0);
        assert(match_rows(a, 0, front) == Ok::<Seq<RowView>, DbError>(Seq::empty()));
    }
    if rest.len() == 0 {
        assert(match_rows(bb, 0, rest) == Ok::<Seq<RowView>, DbError>(Seq::empty()));
        match match_rows(a, 0, front) {
            Ok(l) => {
                assert(l + Seq::<RowView>::empty() == l);
            },
            Err(_) => {},
        }
    } else if i + 1 == cells.len() {
        assert(kids.drop_first()[0] == rm);
        assert(kids.drop_first().drop_first().len() == 0);
        assert(scan_children(db, ps, kids.drop_first().drop_first(), fuel) == Ok::<
            Seq<RowView>,
            DbError,
        >(Seq::empty()));
        assert(children_ok(db, ps, cells, i + 1, k, hi, rm, fuel) == table_tree_ok(
            db,
            ps,
            rm as nat,
            k,
            hi,
            fuel,
        ));
        lemma_lookup_matches_scan(db, ps, rm as nat, k, hi, rest, fuel);
        let sr = scan_rows(db, ps, rm as nat, fuel).unwrap();
        assert(bb == sr + Seq::<RowView>::empty());
        assert(sr + Seq::<RowView>::empty() == sr);
        match (match_rows(a, 0, front), match_rows(sr, 0, rest)) {
            (Ok(l), Ok(r)) => {
                assert(l + r + Seq::<RowView>::empty() == l + r);
            },
            _ => {},
        }
    } else {
        lemma_lookup_cells_match(db, ps, cells, i + 1, k, hi, rm, rest, fuel);
        match (match_rows(a, 0, front), match_rows(bb, 0, rest)) {
            (Ok(l), Ok(r)) => {
                assert(l + Seq::<RowView>::empty() + r == l + r);
            },
            _ => {},
        }
    }
}

/// Whether every member of `ids` is the row-id of some row of `rows`.
pub open spec fn all_present(rows: Seq<RowView>, ids: Seq<u64>) -> bool {
    forall|t: int| 0 <= t < ids.len() ==> exists|x: int| 0 <= x < rows.len() && rows[x].0 == #[trigger] ids[t]
}

/// Whether `out` holds, for each of `ids` in order, a row of `rows` with
/// that row-id.
pub open spec fn rows_for(out: Seq<RowView>, rows: Seq<RowView>, ids: Seq<u64>) -> bool {
    &&& out.len() == ids.len()
    &&& forall|t: int| 0 <= t < ids.len() ==> (#[trigger] out[t]).0 == ids[t] && rows.contains(out[t])
}

proof fn lemma_match_rows_sound(rows: Seq<RowView>, j: nat, ids: Seq<u64>)
    ensures
        match match_rows(rows, j, ids) {
            Ok(out) => rows_for(out, rows, ids),
            Err(e) => e == DbError::Consistency,
        },
    decreases ids.len(),
{
    if ids.len() > 0 {
        let x = advance(rows, j, ids[0]);
        lemma_match_rows_sound(rows, x + 1, ids.drop_first());
        if x < rows.len() && rows[x as int].0 == ids[0] {
            if let Ok(rest) = match_rows(rows, x + 1, ids.drop_first()) {
                let out = seq![rows[x as int]] + rest;
                assert forall|t: int| 0 <= t < ids.len() implies (#[trigger] out[t]).0 == ids[t]
                    && rows.contains(out[t]) by {
                    if t == 0 {
                        assert(out[0] == rows[x as int]);
                    } else {
                        assert(out[t] == rest[t - 1]);
                        assert(ids.drop_first()[t - 1] == ids[t]);
                    }
                }
            }
        }
    }
}

proof fn lemma_advance_lands(rows: Seq<RowView>, j: nat, x0: int, id: u64)
    requires
        j <= x0 < rows.len(),
        rows[x0].0 == id,
        forall|y: int| j <= y < x0 ==> #[trigger] rows[y].0 < id,
    ensures
        advance(rows, j, id) == x0,
    decreases x0 - j,
{
    if j < x0 {
        lemma_advance_lands(rows, j + 1, x0, id);
    }
}

/// Whether some row of `rows` from position `j` on has row-id `id`.
pub open spec fn present_from(rows: Seq<RowView>, j: int, id: u64) -> bool {
    exists|x: int| j <= x < rows.len() && rows[x].0 == id
}

proof fn lemma_match_rows_complete(rows: Seq<RowView>, j: nat, ids: Seq<u64>)
    requires
        forall|x: int, y: int| 0 <= x < y < rows.len() ==> rows[x].0 < rows[y].0,
        forall|s: int, t: int| 0 <= s < t < ids.len() ==> ids[s] < ids[t],
        forall|t: int| 0 <= t < ids.len() ==> present_from(rows, j as int, #[trigger] ids[t]),
    ensures
        match_rows(rows, j, ids) is Ok,
    decreases ids.len(),
{
    if ids.len() > 0 {
        let id = ids[0];
        assert(present_from(rows, j as int, ids[0]));
        let x0 = choose|x: int| j <= x < rows.len() && rows[x].0 == ids[0];
        lemma_advance_lands(rows, j, x0, id);
        let tail = ids.drop_first();
        assert forall|t: int| 0 <= t < tail.len() implies present_from(
            rows,
            x0 + 1,
            #[trigger] tail[t],
        ) by {
            assert(tail[t] == ids[t + 1]);
            assert(present_from(rows, j as int, ids[t + 1]));
            let x = choose|x: int| j <= x < rows.len() && rows[x].0 == ids[t + 1];
            assert(ids[0] < ids[t + 1]);
            if x < x0 {
                assert(rows[x].0 < rows[x0].0);
            }
            assert(x > x0);
        }
        assert forall|s: int, t: int| 0 <= s < t < tail.len() implies tail[s] < tail[t] by {
            assert(tail[s] == ids[s + 1] && tail[t] == ids[t + 1]);
        }
        lemma_match_rows_complete(rows, (x0 + 1) as nat, tail);
    }
}

/// Looking up strictly ascending row-ids in a well-formed table B-tree
/// yields, when each of them is the row-id of a row of the table, one row
/// of the table per id with that row-id, in the order of the ids; when one
/// is missing, it fails with [`DbError::Consistency`].
pub proof fn lemma_lookup_exact(
    db: Seq<u8>,
    ps: nat,
    n: nat,
    lo: int,
    hi: int,
    ids: Seq<u64>,
    fuel: nat,
)
    requires
        table_tree_ok(db, ps, n, lo, hi, fuel),
        forall|s: int, t: int| 0 <= s < t < ids.len() ==> ids[s] < ids[t],
    ensures
        scan_rows(db, ps, n, fuel) matches Ok(rows) && if all_present(rows, ids) {
            lookup_rows(db, ps, n, ids, fuel) matches Ok(out) && rows_for(out, rows, ids)
        } else {
            lookup_rows(db, ps, n, ids, fuel) == Err::<Seq<RowView>, DbError>(DbError::Consistency)
        },
{
    lemma_lookup_matches_scan(db, ps, n, lo, hi, ids, fuel);
    lemma_scan_ascending(db, ps, n, lo, hi, fuel);
    let rows = scan_rows(db, ps, n, fuel).unwrap();
    lemma_match_rows_sound(rows, 0, ids);
    if all_present(rows, ids) {
        assert forall|t: int| 0 <= t < ids.len() implies present_from(rows, 0, #[trigger] ids[t]) by {
            let x = choose|x: int| 0 <= x < rows.len() && rows[x].0 == ids[t];
        }
        lemma_match_rows_complete(rows, 0, ids);
    } else {
        let t = choose|t: int|
            0 <= t < ids.len() && !(exists|x: int| 0 <= x < rows.len() && rows[x].0 == #[trigger] ids[t]);
        if let Ok(out) = match_rows(rows, 0, ids) {
            assert(rows.contains(out[t]));
            let x = choose|x: int| 0 <= x < rows.len() && rows[x] == out[t];
            assert(rows[x].0 == ids[t]);
        }
    }
}

} // verus!
