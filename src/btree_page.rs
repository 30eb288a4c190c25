//! B-tree pages: the page header, the cell pointer array and the cells.
use vstd::prelude::*;

use crate::db_header::{field, DBHeader};
use crate::error::DbError;
use crate::record::{parse_record, read_record, values_view};
use crate::serial_value::{
    integer_of, lemma_be_uint_bound, lemma_pow256_values, read_be, SerialValue, ValueView,
};
use crate::varint::{parse_varint, read_varint_at};

verus! {

/// The kind of a B-tree page.
#[derive(Debug, Clone, Copy, PartialEq, Eq, Structural)]
pub enum PageType {
    InteriorIndex,
    InteriorTable,
    LeafIndex,
    LeafTable,
}

/// The page kind that a kind byte names.
pub open spec fn page_type_of(b: u8) -> Option<PageType> {
    if b == 0x02 {
        Some(PageType::InteriorIndex)
    } else if b == 0x05 {
        Some(PageType::InteriorTable)
    } else if b == 0x0a {
        Some(PageType::LeafIndex)
    } else if b == 0x0d {
        Some(PageType::LeafTable)
    } else {
        None
    }
}

impl PageType {
    pub open spec fn spec_is_interior(self) -> bool {
        self == PageType::InteriorIndex || self == PageType::InteriorTable
    }

    /// The page kind of a kind byte; any other byte fails with [`DbError::Page`].
    pub fn from(page_type_byte: u8) -> (r: Result<PageType, DbError>)
        ensures
            match page_type_of(page_type_byte) {
                Some(t) => r == Ok::<PageType, DbError>(t),
                None => r == Err::<PageType, DbError>(DbError::Page),
            },
    {
        match page_type_byte {
            0x02 => Ok(PageType::InteriorIndex),
            0x05 => Ok(PageType::InteriorTable),
            0x0a => Ok(PageType::LeafIndex),
            0x0d => Ok(PageType::LeafTable),
            _ => Err(DbError::Page),
        }
    }

    /// Whether pages of this kind are interior pages.
    pub fn is_interior(&self) -> (r: bool)
        ensures
            r == self.spec_is_interior(),
    {
        match self {
            PageType::InteriorIndex | PageType::InteriorTable => true,
            PageType::LeafIndex | PageType::LeafTable => false,
        }
    }
}

/// The decoded header and cell pointer array of a page.
pub struct PageView {
    pub page_type: PageType,
    pub first_freeblock: u16,
    pub num_cells: u16,
    pub cell_content_start: u16,
    pub num_fragmented_free_bytes: u8,
    pub right_most_pointer: Option<u32>,
    pub cell_pointers: Seq<u16>,
}

/// The offset at which the B-tree page header starts: after the database
/// header on the first page.
pub open spec fn header_offset(first: bool) -> nat {
    if first {
        100
    } else {
        0
    }
}

/// Where the cell content area starts, with the field value 0 read as 65536.
pub open spec fn content_start(raw: u16) -> nat {
    if raw == 0 {
        65536
    } else {
        raw as nat
    }
}

/// Cell pointer `i` of the array that starts at `base` in `b`.
pub open spec fn pointer_at(b: Seq<u8>, base: int, i: int) -> u16 {
    field(b, base + 2 * i, 2) as u16
}

/// Whether the `n` cell pointers from `base` in `b` lie within the cell
/// content area `[content_start(start), b.len())`.
pub open spec fn pointers_ok(b: Seq<u8>, base: int, n: nat, start: u16) -> bool {
    forall|i: int|
        0 <= i < n ==> content_start(start) <= #[trigger] pointer_at(b, base, i) < b.len()
}

/// Decodes the page header and cell pointer array of the page `b`. A
/// truncated header, an unknown kind byte, or a cell pointer outside
/// `[cell content start, page size)` fails with [`DbError::Page`].
pub open spec fn parse_page(b: Seq<u8>, first: bool) -> Result<PageView, DbError> {
    let h = header_offset(first) as int;
    if b.len() < h + 8 {
        Err(DbError::Page)
    } else {
        match page_type_of(b[h as int]) {
            None => Err(DbError::Page),
            Some(t) => {
                let size: int = if t.spec_is_interior() {
                    12
                } else {
                    8
                };
                let n = field(b, h + 3, 2);
                if b.len() < h + size + 2 * n {
                    Err(DbError::Page)
                } else {
                    let start = field(b, h + 5, 2) as u16;
                    let ptrs = Seq::new(n, |i: int| pointer_at(b, h + size, i));
                    if !pointers_ok(b, h + size, n, start) {
                        Err(DbError::Page)
                    } else {
                        Ok(
                            PageView {
                                page_type: t,
                                first_freeblock: field(b, h + 1, 2) as u16,
                                num_cells: n as u16,
                                cell_content_start: start,
                                num_fragmented_free_bytes: field(b, h + 7, 1) as u8,
                                right_most_pointer: if t.spec_is_interior() {
                                    Some(field(b, h + 8, 4) as u32)
                                } else {
                                    None
                                },
                                cell_pointers: ptrs,
                            },
                        )
                    }
                }
            },
        }
    }
}

/// A page that decodes has as many cell pointers as its header's cell
/// count, and each lies within the cell content area: at or after the
/// cell content start, before the end of the page.
pub proof fn lemma_cell_pointers_in_range(b: Seq<u8>, first: bool)
    ensures
        parse_page(b, first) matches Ok(v) ==> v.cell_pointers.len() == v.num_cells && forall|i: int|
            0 <= i < v.cell_pointers.len() ==> content_start(v.cell_content_start)
                <= #[trigger] v.cell_pointers[i] < b.len(),
{
    let h = header_offset(first) as int;
    if b.len() >= h + 8 {
        lemma_pow256_values();
        lemma_be_uint_bound(b.subrange(h + 3, b.len() as int), 2);
    }
}

/// The size of the B-tree page header of a page of kind `t`.
pub open spec fn page_header_size(t: PageType) -> int {
    if t.spec_is_interior() {
        12
    } else {
        8
    }
}

/// A page whose kind byte is known, whose header and cell pointer array fit
/// in it, and whose cell pointers lie in the cell content area decodes,
/// with one pointer per cell of the header's cell count.
pub proof fn lemma_well_formed_page_decodes(b: Seq<u8>, first: bool)
    requires
        b.len() >= header_offset(first) + 8,
        page_type_of(b[header_offset(first) as int]) is Some,
        b.len() >= header_offset(first) + page_header_size(
            page_type_of(b[header_offset(first) as int]).unwrap(),
        ) + 2 * field(b, header_offset(first) as int + 3, 2),
        pointers_ok(
            b,
            header_offset(first) + page_header_size(
                page_type_of(b[header_offset(first) as int]).unwrap(),
            ),
            field(b, header_offset(first) as int + 3, 2),
            field(b, header_offset(first) as int + 5, 2) as u16,
        ),
    ensures
        parse_page(b, first) matches Ok(v) && v.page_type == page_type_of(
            b[header_offset(first) as int],
        ).unwrap() && v.cell_pointers.len() == v.num_cells && v.num_cells == field(
            b,
            header_offset(first) as int + 3,
            2,
        ),
{
    lemma_pow256_values();
    lemma_be_uint_bound(b.subrange(header_offset(first) as int + 3, b.len() as int), 2);
}

/// The row-id a value holds: a non-negative integer.
pub open spec fn rowid_of(v: ValueView) -> Option<u64> {
    match integer_of(v) {
        Some(i) => if i >= 0 {
            Some(i as u64)
        } else {
            None
        },
        None => None,
    }
}

/// A leaf table row whose first column is NULL gets the row-id there, as
/// a column declared `INTEGER PRIMARY KEY` stores it. The declaration is
/// not consulted: every leading NULL is replaced.
pub open spec fn with_rowid(vs: Seq<ValueView>, row_id: u64) -> Seq<ValueView> {
    if vs.len() > 0 && vs[0] == ValueView::Null {
        vs.update(0, ValueView::Int64(row_id as i64))
    } else {
        vs
    }
}

/// The varint at `pos` in `b`, or `None` when `b` ends inside it.
pub open spec fn varint_at(b: Seq<u8>, pos: nat) -> Option<(u64, nat)> {
    if pos > b.len() {
        None
    } else {
        parse_varint(b.subrange(pos as int, b.len() as int))
    }
}

/// The leaf table cell at `ptr`: payload size, row-id, record. The record
/// has the row-id put into a leading NULL column. A payload that does not
/// end on the page needs overflow pages and fails with [`DbError::Record`].
#[verifier::opaque]
pub open spec fn parse_leaf_table_cell(b: Seq<u8>, ptr: nat) -> Result<
    (u64, Seq<ValueView>),
    DbError,
> {
    match varint_at(b, ptr) {
        None => Err(DbError::Record),
        Some((size, n1)) => match varint_at(b, ptr + n1) {
            None => Err(DbError::Record),
            Some((row_id, n2)) => if ptr + n1 + n2 + size > b.len() {
                Err(DbError::Record)
            } else {
                match parse_record(b, ptr + n1 + n2) {
                    Err(e) => Err(e),
                    Ok(vs) => Ok((row_id, with_rowid(vs, row_id))),
                }
            },
        },
    }
}

/// The leaf index cell at `ptr`: payload size, record. A payload that
/// does not end on the page fails with [`DbError::Record`].
pub open spec fn parse_leaf_index_cell(b: Seq<u8>, ptr: nat) -> Result<Seq<ValueView>, DbError> {
    match varint_at(b, ptr) {
        None => Err(DbError::Record),
        Some((size, n1)) => if ptr + n1 + size > b.len() {
            Err(DbError::Record)
        } else {
            parse_record(b, ptr + n1)
        },
    }
}

/// What an interior cell holds.
pub enum InteriorCellView {
    /// Left child page and row-id key.
    Table(u32, u64),
    /// Left child page, row-id, and the key columns.
    Index(u32, u64, Seq<ValueView>),
}

/// The interior cell at `ptr` of a page of kind `t`. A leaf kind, or an
/// index cell whose record does not end in a row-id, fails with
/// [`DbError::Page`]; an index payload that does not end on the page, with
/// [`DbError::Record`].
#[verifier::opaque]
pub open spec fn parse_interior_cell(t: PageType, b: Seq<u8>, ptr: nat) -> Result<
    InteriorCellView,
    DbError,
> {
    if !t.spec_is_interior() {
        Err(DbError::Page)
    } else if ptr + 4 > b.len() {
        Err(DbError::Record)
    } else {
        let left = field(b, ptr as int, 4) as u32;
        if t == PageType::InteriorTable {
            match varint_at(b, ptr + 4) {
                None => Err(DbError::Record),
                Some((row_id, _)) => Ok(InteriorCellView::Table(left, row_id)),
            }
        } else {
            match varint_at(b, ptr + 4) {
                None => Err(DbError::Record),
                Some((size, n1)) => if ptr + 4 + n1 + size > b.len() {
                    Err(DbError::Record)
                } else {
                    match parse_record(b, ptr + 4 + n1) {
                        Err(e) => Err(e),
                        Ok(vs) => if vs.len() == 0 {
                            Err(DbError::Page)
                        } else {
                            match rowid_of(vs.last()) {
                                None => Err(DbError::Page),
                                Some(r) => Ok(InteriorCellView::Index(left, r, vs.drop_last())),
                            }
                        },
                    }
                },
            }
        }
    }
}

/// The leaf cell at `ptr` of a page of kind `t`, as a list of values. An
/// interior kind fails with [`DbError::Page`].
#[verifier::opaque]
pub open spec fn parse_leaf_cell(t: PageType, b: Seq<u8>, ptr: nat) -> Result<
    Seq<ValueView>,
    DbError,
> {
    if t == PageType::LeafTable {
        match parse_leaf_table_cell(b, ptr) {
            Err(e) => Err(e),
            Ok((_, vs)) => Ok(vs),
        }
    } else if t == PageType::LeafIndex {
        parse_leaf_index_cell(b, ptr)
    } else {
        Err(DbError::Page)
    }
}

/// Decodes each of `ptrs` with `f`, stopping at the first failure.
pub open spec fn parse_each<T>(ptrs: Seq<u16>, f: spec_fn(nat) -> Result<T, DbError>) -> Result<
    Seq<T>,
    DbError,
>
    decreases ptrs.len(),
{
    if ptrs.len() == 0 {
        Ok(Seq::empty())
    } else {
        match parse_each(ptrs.drop_last(), f) {
            Err(e) => Err(e),
            Ok(xs) => match f(ptrs.last() as nat) {
                Err(e) => Err(e),
                Ok(x) => Ok(xs.push(x)),
            },
        }
    }
}

/// The parser of leaf cells of a page of kind `t` with bytes `b`.
pub open spec fn leaf_cell_parser(t: PageType, b: Seq<u8>) -> spec_fn(nat) -> Result<
    Seq<ValueView>,
    DbError,
> {
    |p: nat| parse_leaf_cell(t, b, p)
}

/// The parser of interior cells of a page of kind `t` with bytes `b`.
pub open spec fn interior_cell_parser(t: PageType, b: Seq<u8>) -> spec_fn(nat) -> Result<
    InteriorCellView,
    DbError,
> {
    |p: nat| parse_interior_cell(t, b, p)
}

/// The parser of leaf table cells of a page with bytes `b`.
pub open spec fn row_parser(b: Seq<u8>) -> spec_fn(nat) -> Result<(u64, Seq<ValueView>), DbError> {
    |p: nat| parse_leaf_table_cell(b, p)
}

/// The rows of a page: those of its cells on a leaf table page; any other
/// kind fails with [`DbError::Page`].
pub open spec fn page_rows(t: PageType, b: Seq<u8>, ptrs: Seq<u16>) -> Result<
    Seq<(u64, Seq<ValueView>)>,
    DbError,
> {
    if t == PageType::LeafTable {
        parse_each(ptrs, row_parser(b))
    } else {
        Err(DbError::Page)
    }
}

/// Once a prefix of the pointers fails to decode, the whole list fails
/// with the same error.
pub proof fn lemma_parse_each_err<T>(
    ptrs: Seq<u16>,
    f: spec_fn(nat) -> Result<T, DbError>,
    k: nat,
    m: nat,
)
    requires
        k <= m <= ptrs.len(),
        parse_each(ptrs.subrange(0, k as int), f) is Err,
    ensures
        parse_each(ptrs.subrange(0, m as int), f) == parse_each(ptrs.subrange(0, k as int), f),
    decreases m - k,
{
    if k < m {
        lemma_parse_each_err(ptrs, f, k, (m - 1) as nat);
        assert(ptrs.subrange(0, m as int).drop_last() == ptrs.subrange(0, m - 1));
    }
}

/// A row of a table: its row-id and its values.
#[derive(Debug, Clone)]
pub struct TableRow {
    pub row_id: u64,
    pub values: Vec<SerialValue>,
}

impl View for TableRow {
    type V = (u64, Seq<ValueView>);

    open spec fn view(&self) -> (u64, Seq<ValueView>) {
        (self.row_id, values_view(self.values@))
    }
}

/// A copy of the values `vs`.
pub fn copy_values(vs: &Vec<SerialValue>) -> (r: Vec<SerialValue>)
    ensures
        values_view(r@) == values_view(vs@),
{
    let mut r: Vec<SerialValue> = Vec::new();
    let mut i: usize = 0;
    while i < vs.len()
        invariant
            i <= vs@.len(),
            values_view(r@) == values_view(vs@).subrange(0, i as int),
        decreases vs@.len() - i,
    {
        let ghost before = r@;
        r.push(vs[i].copied());
        proof {
            assert(values_view(r@) == values_view(before).push(vs@[i as int]@));
            assert(values_view(vs@).subrange(0, i + 1) == values_view(vs@).subrange(0, i as int).push(
                vs@[i as int]@,
            ));
        }
        i = i + 1;
    }
    proof {
        assert(values_view(vs@).subrange(0, vs@.len() as int) == values_view(vs@));
    }
    r
}

impl TableRow {
    /// A copy of this row.
    pub fn copied(&self) -> (r: TableRow)
        ensures
            r@ == self@,
    {
        TableRow { row_id: self.row_id, values: copy_values(&self.values) }
    }
}

/// The contents of a vector of rows.
pub open spec fn rows_view(rows: Seq<TableRow>) -> Seq<(u64, Seq<ValueView>)> {
    rows.map_values(|r: TableRow| r@)
}

/// The contents of a vector of cells.
pub open spec fn cells_view(cells: Seq<Vec<SerialValue>>) -> Seq<Seq<ValueView>> {
    cells.map_values(|c: Vec<SerialValue>| values_view(c@))
}

/// An interior table cell: a left child page and the largest row-id in it.
#[derive(Debug, Clone, Copy)]
pub struct InteriorTableCell {
    pub left_child_page: u32,
    pub row_id: u64,
}

/// An interior index cell: a left child page, the key columns and the
/// row-id of the entry.
#[derive(Debug, Clone)]
pub struct InteriorIndexCell {
    pub left_child_page: u32,
    pub columns: Vec<SerialValue>,
    pub rowid: u64,
}

/// A cell of an interior page.
#[derive(Debug, Clone)]
pub enum InteriorCell {
    Table(InteriorTableCell),
    Index(InteriorIndexCell),
}

impl View for InteriorCell {
    type V = InteriorCellView;

    open spec fn view(&self) -> InteriorCellView {
        match self {
            InteriorCell::Table(c) => InteriorCellView::Table(c.left_child_page, c.row_id),
            InteriorCell::Index(c) => InteriorCellView::Index(
                c.left_child_page,
                c.rowid,
                values_view(c.columns@),
            ),
        }
    }
}

/// The contents of a vector of interior cells.
pub open spec fn interior_cells_view(cells: Seq<InteriorCell>) -> Seq<InteriorCellView> {
    cells.map_values(|c: InteriorCell| c@)
}

/// A vector holding the bytes of `data`.
pub fn copy_bytes(data: &[u8]) -> (r: Vec<u8>)
    ensures
        r@ == data@,
{
    let mut r: Vec<u8> = Vec::new();
    let mut i: usize = 0;
    while i < data.len()
        invariant
            i <= data@.len(),
            r@ == data@.subrange(0, i as int),
        decreases data@.len() - i,
    {
        r.push(data[i]);
        i = i + 1;
        proof {
            assert(r@ == data@.subrange(0, i as int));
        }
    }
    proof {
        assert(r@ == data@);
    }
    r
}

/// A decoded B-tree page: its bytes, header fields and cell pointers.
#[derive(Debug)]
pub struct BTreePage {
    pub page_data: Vec<u8>,
    /// Present on the first page only.
    pub db_header: Option<DBHeader>,
    pub page_type: PageType,
    pub first_freeblock: u16,
    pub num_cells: u16,
    pub cell_content_start: u16,
    pub num_fragmented_free_bytes: u8,
    pub right_most_pointer: Option<u32>,
    pub cell_pointers: Vec<u16>,
}

impl BTreePage {
    /// The header fields and cell pointers, as a [`PageView`].
    pub open spec fn header_view(&self) -> PageView {
        PageView {
            page_type: self.page_type,
            first_freeblock: self.first_freeblock,
            num_cells: self.num_cells,
            cell_content_start: self.cell_content_start,
            num_fragmented_free_bytes: self.num_fragmented_free_bytes,
            right_most_pointer: self.right_most_pointer,
            cell_pointers: self.cell_pointers@,
        }
    }

    /// The fields are those decoded from the page bytes.
    pub open spec fn wf(&self) -> bool {
        parse_page(self.page_data@, self.db_header is Some) == Ok::<PageView, DbError>(
            self.header_view(),
        )
    }

    /// Decodes the page `data`; `db_header` is given for the first page,
    /// whose B-tree header follows the database header.
    #[verifier::loop_isolation(false)]
    pub fn new(data: &[u8], db_header: Option<DBHeader>) -> (r: Result<BTreePage, DbError>)
        ensures
            match (r, parse_page(data@, db_header is Some)) {
                (Ok(p), Ok(v)) => p.header_view() == v && p.page_data@ == data@ && p.db_header
                    == db_header && p.wf(),
                (Err(e), Err(f)) => e == f,
                _ => false,
            },
            r matches Ok(p) ==> p.cell_pointers@.len() == p.num_cells && forall|i: int|
                0 <= i < p.cell_pointers@.len() ==> content_start(p.cell_content_start)
                    <= #[trigger] p.cell_pointers@[i] < data@.len(),
    {
        let ghost b = data@;
        let ghost first = db_header is Some;
        proof {
            lemma_pow256_values();
        }
        let h: usize = match db_header {
            Some(_) => 100,
            None => 0,
        };
        let len = data.len();
        if len < h + 8 {
            return Err(DbError::Page);
        }
        let page_type = match PageType::from(data[h]) {
            Ok(t) => t,
            Err(e) => {
                return Err(e);
            },
        };
        let size: usize = if page_type.is_interior() {
            12
        } else {
            8
        };
        let num_cells = read_be(data, h + 3, 2) as u16;
        if len < h + size {
            return Err(DbError::Page);
        }
        if (len - h - size) / 2 < num_cells as usize {
            return Err(DbError::Page);
        }
        let cell_content_start = read_be(data, h + 5, 2) as u16;
        let start: usize = if cell_content_start == 0 {
            65536
        } else {
            cell_content_start as usize
        };
        let first_freeblock = read_be(data, h + 1, 2) as u16;
        let num_fragmented_free_bytes = read_be(data, h + 7, 1) as u8;
        let right_most_pointer = if page_type.is_interior() {
            Some(read_be(data, h + 8, 4) as u32)
        } else {
            None
        };
        let ghost n = field(b, h + 3, 2);
        let ghost ptrs = Seq::new(n, |i: int| pointer_at(b, h + size, i));
        let mut cell_pointers: Vec<u16> = Vec::new();
        let mut i: usize = 0;
        while i < num_cells as usize
            invariant
                b == data@,
                len == data@.len(),
                i <= num_cells,
                num_cells as nat == n,
                h + size + 2 * n <= len,
                start == content_start(cell_content_start),
                ptrs == Seq::new(n, |i: int| pointer_at(b, h + size, i)),
                cell_pointers@ == ptrs.subrange(0, i as int),
                forall|j: int| 0 <= j < i ==> start <= #[trigger] pointer_at(b, h + size, j) < len,
            decreases num_cells - i,
        {
            proof {
                lemma_pow256_values();
            }
            let p = read_be(data, h + size + 2 * i, 2) as u16;
            if (p as usize) < start || p as usize >= len {
                proof {
                    assert(pointer_at(b, h + size, i as int) == p);
                    assert(!pointers_ok(b, h + size, n, cell_content_start));
                }
                return Err(DbError::Page);
            }
            cell_pointers.push(p);
            i = i + 1;
            proof {
                assert(cell_pointers@ == ptrs.subrange(0, i as int));
            }
        }
        proof {
            assert(cell_pointers@ == ptrs);
            assert(pointers_ok(b, h + size, n, cell_content_start));
            assert(num_cells as nat == n);
            assert(h == header_offset(first));
            assert(page_type_of(b[h as int]) == Some(page_type));
        }
        Ok(BTreePage {
            page_data: copy_bytes(data),
            db_header,
            page_type,
            first_freeblock,
            num_cells,
            cell_content_start,
            num_fragmented_free_bytes,
            right_most_pointer,
            cell_pointers,
        })
    }

    /// The leaf table cell at offset `ptr`: its row-id and its values, with
    /// the row-id put into a leading NULL column.
    pub fn read_leaf_table_cell(&self, ptr: usize) -> (r: Result<TableRow, DbError>)
        ensures
            match (r, parse_leaf_table_cell(self.page_data@, ptr as nat)) {
                (Ok(row), Ok(m)) => row@ == m,
                (Err(e), Err(f)) => e == f,
                _ => false,
            },
    {
        reveal(parse_leaf_table_cell);
        let data = self.page_data.as_slice();
        if ptr > data.len() {
            return Err(DbError::Record);
        }
        let (size, next) = match read_varint_at(data, ptr) {
            None => {
                return Err(DbError::Record);
            },
            Some(x) => x,
        };
        let (row_id, next) = match read_varint_at(data, next) {
            None => {
                return Err(DbError::Record);
            },
            Some((row_id, next)) => (row_id, next),
        };
        if size > (data.len() - next) as u64 {
            return Err(DbError::Record);
        }
        let mut values = match read_record(data, next) {
            Err(e) => {
                return Err(e);
            },
            Ok(values) => values,
        };
        let ghost before = values@;
        if values.len() > 0 && values[0].is_null() {
            let id = #[verifier::truncate] (row_id as i64);
            values.set(0, SerialValue::Int64(id));
            proof {
                assert(values_view(values@) == values_view(before).update(0, ValueView::Int64(id)));
            }
        }
        Ok(TableRow { row_id, values })
    }

    /// The cell at offset `ptr` of a leaf page, as a list of values; the
    /// row-id of a table cell is put into a leading NULL column.
    pub fn read_cell(&self, ptr: usize) -> (r: Result<Vec<SerialValue>, DbError>)
        ensures
            match (r, parse_leaf_cell(self.page_type, self.page_data@, ptr as nat)) {
                (Ok(vs), Ok(m)) => values_view(vs@) == m,
                (Err(e), Err(f)) => e == f,
                _ => false,
            },
    {
        reveal(parse_leaf_cell);
        match self.page_type {
            PageType::LeafTable => match self.read_leaf_table_cell(ptr) {
                Ok(row) => Ok(row.values),
                Err(e) => Err(e),
            },
            PageType::LeafIndex => {
                let data = self.page_data.as_slice();
                if ptr > data.len() {
                    return Err(DbError::Record);
                }
                match read_varint_at(data, ptr) {
                    None => Err(DbError::Record),
                    Some((size, next)) => if size > (data.len() - next) as u64 {
                        Err(DbError::Record)
                    } else {
                        read_record(data, next)
                    },
                }
            },
            _ => Err(DbError::Page),
        }
    }

    /// The interior cell at offset `ptr`.
    pub fn read_interior_cell(&self, ptr: usize) -> (r: Result<InteriorCell, DbError>)
        ensures
            match (r, parse_interior_cell(self.page_type, self.page_data@, ptr as nat)) {
                (Ok(c), Ok(m)) => c@ == m,
                (Err(e), Err(f)) => e == f,
                _ => false,
            },
    {
        reveal(parse_interior_cell);
        if !self.page_type.is_interior() {
            return Err(DbError::Page);
        }
        let data = self.page_data.as_slice();
        if ptr > data.len() || 4 > data.len() - ptr {
            return Err(DbError::Record);
        }
        proof {
            lemma_pow256_values();
        }
        let left_child_page = read_be(data, ptr, 4) as u32;
        match self.page_type {
            PageType::InteriorTable => match read_varint_at(data, ptr + 4) {
                None => Err(DbError::Record),
                Some((row_id, _)) => Ok(
                    InteriorCell::Table(InteriorTableCell { left_child_page, row_id }),
                ),
            },
            _ => {
                let (size, next) = match read_varint_at(data, ptr + 4) {
                    None => {
                        return Err(DbError::Record);
                    },
                    Some(x) => x,
                };
                if size > (data.len() - next) as u64 {
                    return Err(DbError::Record);
                }
                let mut columns = match read_record(data, next) {
                    Err(e) => {
                        return Err(e);
                    },
                    Ok(vs) => vs,
                };
                let ghost all = values_view(columns@);
                match columns.pop() {
                    None => Err(DbError::Page),
                    Some(last) => {
                        proof {
                            assert(all.last() == last@);
                            assert(values_view(columns@) == all.drop_last());
                        }
                        match last.as_rowid() {
                            None => Err(DbError::Page),
                            Some(rowid) => Ok(
                                InteriorCell::Index(
                                    InteriorIndexCell { left_child_page, columns, rowid },
                                ),
                            ),
                        }
                    },
                }
            },
        }
    }

    /// The cells of a leaf page, in cell pointer order.
    pub fn read_cells(&self) -> (r: Result<Vec<Vec<SerialValue>>, DbError>)
        ensures
            match (r, parse_each(self.cell_pointers@, leaf_cell_parser(self.page_type, self.page_data@))) {
                (Ok(cs), Ok(m)) => cells_view(cs@) == m,
                (Err(e), Err(f)) => e == f,
                _ => false,
            },
    {
        let ghost f = leaf_cell_parser(self.page_type, self.page_data@);
        let ghost ptrs = self.cell_pointers@;
        let mut result: Vec<Vec<SerialValue>> = Vec::new();
        let mut i: usize = 0;
        proof {
            assert(cells_view(result@) == Seq::<Seq<ValueView>>::empty());
            assert(ptrs.subrange(0, 0) == Seq::<u16>::empty());
        }
        while i < self.cell_pointers.len()
            invariant
                i <= ptrs.len(),
                ptrs == self.cell_pointers@,
                f == leaf_cell_parser(self.page_type, self.page_data@),
                parse_each(ptrs.subrange(0, i as int), f) == Ok::<Seq<Seq<ValueView>>, DbError>(
                    cells_view(result@),
                ),
            decreases ptrs.len() - i,
        {
            let cell = self.read_cell(self.cell_pointers[i] as usize);
            proof {
                let sub = ptrs.subrange(0, i + 1);
                assert(sub.drop_last() == ptrs.subrange(0, i as int));
                assert(sub.last() == ptrs[i as int]);
            }
            match cell {
                Err(e) => {
                    proof {
                        lemma_parse_each_err(ptrs, f, (i + 1) as nat, ptrs.len());
                        assert(ptrs.subrange(0, ptrs.len() as int) == ptrs);
                    }
                    return Err(e);
                },
                Ok(c) => {
                    let ghost before = result@;
                    result.push(c);
                    proof {
                        assert(cells_view(result@) == cells_view(before).push(values_view(c@)));
                    }
                },
            }
            i = i + 1;
        }
        proof {
            assert(ptrs.subrange(0, ptrs.len() as int) == ptrs);
        }
        Ok(result)
    }
    /// The cells of an interior page, in cell pointer order.
    pub fn read_interior_cells(&self) -> (r: Result<Vec<InteriorCell>, DbError>)
        ensures
            match (r, parse_each(self.cell_pointers@, interior_cell_parser(self.page_type, self.page_data@))) {
                (Ok(cs), Ok(m)) => interior_cells_view(cs@) == m,
                (Err(e), Err(f)) => e == f,
                _ => false,
            },
    {
        let ghost f = interior_cell_parser(self.page_type, self.page_data@);
        let ghost ptrs = self.cell_pointers@;
        let mut result: Vec<InteriorCell> = Vec::new();
        let mut i: usize = 0;
        proof {
            assert(interior_cells_view(result@) == Seq::<InteriorCellView>::empty());
            assert(ptrs.subrange(0, 0) == Seq::<u16>::empty());
        }
        while i < self.cell_pointers.len()
            invariant
                i <= ptrs.len(),
                ptrs == self.cell_pointers@,
                f == interior_cell_parser(self.page_type, self.page_data@),
                parse_each(ptrs.subrange(0, i as int), f) == Ok::<Seq<InteriorCellView>, DbError>(
                    interior_cells_view(result@),
                ),
            decreases ptrs.len() - i,
        {
            let cell = self.read_interior_cell(self.cell_pointers[i] as usize);
            proof {
                let sub = ptrs.subrange(0, i + 1);
                assert(sub.drop_last() == ptrs.subrange(0, i as int));
                assert(sub.last() == ptrs[i as int]);
            }
            match cell {
                Err(e) => {
                    proof {
                        lemma_parse_each_err(ptrs, f, (i + 1) as nat, ptrs.len());
                        assert(ptrs.subrange(0, ptrs.len() as int) == ptrs);
                    }
                    return Err(e);
                },
                Ok(c) => {
                    let ghost before = result@;
                    result.push(c);
                    proof {
                        assert(interior_cells_view(result@) == interior_cells_view(before).push(c@));
                    }
                },
            }
            i = i + 1;
        }
        proof {
            assert(ptrs.subrange(0, ptrs.len() as int) == ptrs);
        }
        Ok(result)
    }

    /// The rows of a leaf table page, in cell pointer order; any other kind
    /// of page fails with [`DbError::Page`].
    pub fn read_table_rows(&self) -> (r: Result<Vec<TableRow>, DbError>)
        ensures
            match (r, page_rows(self.page_type, self.page_data@, self.cell_pointers@)) {
                (Ok(rows), Ok(m)) => rows_view(rows@) == m,
                (Err(e), Err(f)) => e == f,
                _ => false,
            },
    {
        if self.page_type != PageType::LeafTable {
            return Err(DbError::Page);
        }
        let ghost f = row_parser(self.page_data@);
        let ghost ptrs = self.cell_pointers@;
        let mut result: Vec<TableRow> = Vec::new();
        let mut i: usize = 0;
        proof {
            assert(rows_view(result@) == Seq::<(u64, Seq<ValueView>)>::empty());
            assert(ptrs.subrange(0, 0) == Seq::<u16>::empty());
        }
        while i < self.cell_pointers.len()
            invariant
                i <= ptrs.len(),
                ptrs == self.cell_pointers@,
                f == row_parser(self.page_data@),
                self.page_type == PageType::LeafTable,
                parse_each(ptrs.subrange(0, i as int), f) == Ok::<
                    Seq<(u64, Seq<ValueView>)>,
                    DbError,
                >(rows_view(result@)),
            decreases ptrs.len() - i,
        {
            let row = self.read_leaf_table_cell(self.cell_pointers[i] as usize);
            proof {
                let sub = ptrs.subrange(0, i + 1);
                assert(sub.drop_last() == ptrs.subrange(0, i as int));
                assert(sub.last() == ptrs[i as int]);
            }
            match row {
                Err(e) => {
                    proof {
                        lemma_parse_each_err(ptrs, f, (i + 1) as nat, ptrs.len());
                        assert(ptrs.subrange(0, ptrs.len() as int) == ptrs);
                    }
                    return Err(e);
                },
                Ok(c) => {
                    let ghost before = result@;
                    result.push(c);
                    proof {
                        assert(rows_view(result@) == rows_view(before).push(c@));
                    }
                },
            }
            i = i + 1;
        }
        proof {
            assert(ptrs.subrange(0, ptrs.len() as int) == ptrs);
        }
        Ok(result)
    }
}

} // verus!
