//! The database image: its header, its pages and its schema.
use vstd::prelude::*;

use crate::btree_page::{leaf_cell_parser, parse_each, parse_page, BTreePage, PageView};
use crate::db_header::{field, header_ok, page_size_of, DBHeader};
use crate::error::DbError;
use crate::record::values_view;
use crate::schema_object::{schema_of, ObjectType, SchemaObject, SchemaView};
use crate::serial_value::ValueView;
use crate::sql::{parse_statement, sql_statement, Statement, StatementView};
use crate::text::text_eq;

verus! {

/// The bytes of page `n` (counted from 1) of `db`, with pages of `ps` bytes,
/// and its decoded header; a page beyond the end of `db` fails with
/// [`DbError::Io`].
pub open spec fn load_page(db: Seq<u8>, ps: nat, n: nat) -> Result<(Seq<u8>, PageView), DbError> {
    if n == 0 || n * ps > db.len() {
        Err(DbError::Io)
    } else {
        let b = db.subrange((n - 1) * ps, (n * ps) as int);
        match parse_page(b, n == 1) {
            Ok(v) => Ok((b, v)),
            Err(e) => Err(e),
        }
    }
}

/// The schema objects of the decoded schema rows `cells`, stopping at the
/// first row that is not a schema object.
pub open spec fn schema_list(cells: Seq<Seq<ValueView>>) -> Result<Seq<SchemaView>, DbError>
    decreases cells.len(),
{
    if cells.len() == 0 {
        Ok(Seq::empty())
    } else {
        match schema_list(cells.drop_last()) {
            Err(e) => Err(e),
            Ok(objs) => match schema_of(cells.last()) {
                Err(e) => Err(e),
                Ok(o) => Ok(objs.push(o)),
            },
        }
    }
}

/// A list of schema objects that decodes has one object per row, each the
/// object of its row, in row order.
pub proof fn lemma_schema_list_shape(cells: Seq<Seq<ValueView>>)
    ensures
        schema_list(cells) matches Ok(objs) ==> objs.len() == cells.len() && forall|i: int|
            0 <= i < cells.len() ==> schema_of(#[trigger] cells[i]) == Ok::<SchemaView, DbError>(
                objs[i],
            ),
    decreases cells.len(),
{
    if cells.len() > 0 {
        lemma_schema_list_shape(cells.drop_last());
        if let Ok(objs) = schema_list(cells) {
            let init = schema_list(cells.drop_last()).unwrap();
            assert forall|i: int| 0 <= i < cells.len() implies schema_of(#[trigger] cells[i])
                == Ok::<SchemaView, DbError>(objs[i]) by {
                if i < cells.len() - 1 {
                    assert(cells[i] == cells.drop_last()[i]);
                    assert(objs[i] == init[i]);
                }
            }
        }
    }
}

/// The schema objects of a page that decode are one per cell, in cell
/// pointer order, each the object of its cell's record.
pub proof fn lemma_page_schemas_shape(b: Seq<u8>, v: PageView)
    ensures
        page_schemas(b, v) matches Ok(objs) ==> objs.len() == v.cell_pointers.len() && (
        parse_each(v.cell_pointers, leaf_cell_parser(v.page_type, b)) matches Ok(cells) && forall|
            i: int,
        |
            0 <= i < cells.len() ==> schema_of(#[trigger] cells[i]) == Ok::<SchemaView, DbError>(
                objs[i],
            )),
{
    crate::btree::lemma_parse_each_len(v.cell_pointers, leaf_cell_parser(v.page_type, b));
    if let Ok(cells) = parse_each(v.cell_pointers, leaf_cell_parser(v.page_type, b)) {
        lemma_schema_list_shape(cells);
    }
}

/// Once a prefix of the rows fails, the whole list fails with the same error.
pub proof fn lemma_schema_list_err(cells: Seq<Seq<ValueView>>, k: nat, m: nat)
    requires
        k <= m <= cells.len(),
        schema_list(cells.subrange(0, k as int)) is Err,
    ensures
        schema_list(cells.subrange(0, m as int)) == schema_list(cells.subrange(0, k as int)),
    decreases m - k,
{
    if k < m {
        lemma_schema_list_err(cells, k, (m - 1) as nat);
        assert(cells.subrange(0, m as int).drop_last() == cells.subrange(0, m - 1));
    }
}

/// The schema objects stored on a page with bytes `b` and header `v`.
pub open spec fn page_schemas(b: Seq<u8>, v: PageView) -> Result<Seq<SchemaView>, DbError> {
    match parse_each(v.cell_pointers, leaf_cell_parser(v.page_type, b)) {
        Err(e) => Err(e),
        Ok(cells) => schema_list(cells),
    }
}

/// The characters `sqlite_`.
pub open spec fn internal_prefix() -> Seq<char> {
    seq!['s', 'q', 'l', 'i', 't', 'e', '_']
}

/// Whether a schema object is a table of the user: its table name does
/// not start with `sqlite_`.
pub open spec fn is_user_table(o: SchemaView) -> bool {
    o.object_type == ObjectType::Table && !(o.table_name.len() >= 7 && o.table_name.subrange(0, 7)
        == internal_prefix())
}

/// The user tables among `objs`, in order.
pub open spec fn user_tables(objs: Seq<SchemaView>) -> Seq<SchemaView>
    decreases objs.len(),
{
    if objs.len() == 0 {
        Seq::empty()
    } else if is_user_table(objs.last()) {
        user_tables(objs.drop_last()).push(objs.last())
    } else {
        user_tables(objs.drop_last())
    }
}

/// The indexes among `objs`, in order.
pub open spec fn indexes(objs: Seq<SchemaView>) -> Seq<SchemaView>
    decreases objs.len(),
{
    if objs.len() == 0 {
        Seq::empty()
    } else if objs.last().object_type == ObjectType::Index {
        indexes(objs.drop_last()).push(objs.last())
    } else {
        indexes(objs.drop_last())
    }
}

/// The first table among `objs` whose name is `name`.
pub open spec fn first_named(objs: Seq<SchemaView>, name: Seq<char>) -> Option<SchemaView>
    decreases objs.len(),
{
    if objs.len() == 0 {
        None
    } else if objs[0].object_type == ObjectType::Table && objs[0].name == name {
        Some(objs[0])
    } else {
        first_named(objs.drop_first(), name)
    }
}

/// Whether `o` is an index on `table` whose CREATE INDEX statement lists
/// `column` among its columns.
pub open spec fn index_covers(o: SchemaView, table: Seq<char>, column: Seq<char>) -> bool {
    &&& o.table_name == table
    &&& match parse_statement(o.sql) {
        Some(StatementView::CreateIndex(_, _, cols)) => cols.contains(column),
        _ => false,
    }
}

/// The root page of the first of `idxs` that covers `column` of `table`.
pub open spec fn index_root(idxs: Seq<SchemaView>, table: Seq<char>, column: Seq<char>) -> Option<
    nat,
>
    decreases idxs.len(),
{
    if idxs.len() == 0 {
        None
    } else if index_covers(idxs[0], table, column) {
        idxs[0].root_page
    } else {
        index_root(idxs.drop_first(), table, column)
    }
}

/// The contents of a vector of schema objects.
pub open spec fn schemas_view(v: Seq<SchemaObject>) -> Seq<SchemaView> {
    v.map_values(|o: SchemaObject| o@)
}

impl BTreePage {
    /// The schema objects stored in the cells of this page.
    pub fn load_schemas(&self) -> (r: Result<Vec<SchemaObject>, DbError>)
        ensures
            match (r, page_schemas(self.page_data@, self.header_view())) {
                (Ok(objs), Ok(m)) => schemas_view(objs@) == m,
                (Err(e), Err(f)) => e == f,
                _ => false,
            },
    {
        let cells = match self.read_cells() {
            Err(e) => {
                return Err(e);
            },
            Ok(cells) => cells,
        };
        let ghost cv = crate::btree_page::cells_view(cells@);
        let mut result: Vec<SchemaObject> = Vec::new();
        let mut i: usize = 0;
        proof {
            assert(cv.subrange(0, 0) == Seq::<Seq<ValueView>>::empty());
            assert(schemas_view(result@) == Seq::<SchemaView>::empty());
        }
        while i < cells.len()
            invariant
                i <= cells@.len(),
                cv == crate::btree_page::cells_view(cells@),
                parse_each(self.cell_pointers@, leaf_cell_parser(self.page_type, self.page_data@))
                    == Ok::<Seq<Seq<ValueView>>, DbError>(cv),
                schema_list(cv.subrange(0, i as int)) == Ok::<Seq<SchemaView>, DbError>(
                    schemas_view(result@),
                ),
            decreases cells@.len() - i,
        {
            let ghost sub = cv.subrange(0, i + 1);
            proof {
                assert(sub.drop_last() == cv.subrange(0, i as int));
                assert(sub.last() == values_view(cells@[i as int]@));
            }
            match SchemaObject::from_values(&cells[i]) {
                Err(e) => {
                    proof {
                        lemma_schema_list_err(cv, (i + 1) as nat, cv.len());
                        assert(cv.subrange(0, cv.len() as int) == cv);
                    }
                    return Err(e);
                },
                Ok(o) => {
                    let ghost before = result@;
                    result.push(o);
                    proof {
                        assert(schemas_view(result@) == schemas_view(before).push(o@));
                    }
                },
            }
            i = i + 1;
        }
        proof {
            assert(cv.subrange(0, cv.len() as int) == cv);
        }
        Ok(result)
    }
}

/// The page count `x` after `k` more loads; the count stops at its maximum.
pub open spec fn counted(x: nat, k: nat) -> nat {
    if x + k > usize::MAX {
        usize::MAX as nat
    } else {
        x + k
    }
}

/// Counting `a` loads and then `b` more is counting `a + b`.
pub proof fn lemma_counted_add(x: nat, a: nat, b: nat)
    ensures
        counted(counted(x, a), b) == counted(x, a + b),
{
}

/// The page size that the header of `db` gives.
pub open spec fn db_page_size(db: Seq<u8>) -> nat {
    page_size_of(field(db, 16, 2))
}

/// Whether `db` is a database image this library can open: a readable
/// header, then a first page that decodes. Otherwise the error it fails with.
pub open spec fn open_result(db: Seq<u8>) -> Result<(), DbError> {
    if !header_ok(db) {
        Err(DbError::Header)
    } else {
        match load_page(db, db_page_size(db), 1) {
            Err(e) => Err(e),
            Ok(_) => Ok(()),
        }
    }
}

/// The schema objects of `db`, from the schema table on its first page.
pub open spec fn db_schemas(db: Seq<u8>) -> Result<Seq<SchemaView>, DbError> {
    match load_page(db, db_page_size(db), 1) {
        Err(e) => Err(e),
        Ok((b, v)) => page_schemas(b, v),
    }
}

/// Whether `s` starts with `sqlite_`.
fn has_internal_prefix(s: &str) -> (r: bool)
    ensures
        r == (s@.len() >= 7 && s@.subrange(0, 7) == internal_prefix()),
{
    let c = crate::sql::chars_of(s);
    if c.len() < 7 {
        return false;
    }
    let p = ['s', 'q', 'l', 'i', 't', 'e', '_'];
    proof {
        assert(p@ == internal_prefix());
    }
    let mut i: usize = 0;
    while i < 7
        invariant
            i <= 7,
            c@ == s@,
            c@.len() >= 7,
            p@ == internal_prefix(),
            forall|j: int| 0 <= j < i ==> c@[j] == p@[j],
        decreases 7 - i,
    {
        if c[i] != p[i] {
            proof {
                assert(s@.subrange(0, 7)[i as int] != internal_prefix()[i as int]);
            }
            return false;
        }
        i = i + 1;
    }
    proof {
        assert(s@.subrange(0, 7) == internal_prefix());
    }
    true
}

/// The table of `db` named `name`, internal tables included; a missing one
/// fails with [`DbError::Query`].
pub open spec fn table_schema(db: Seq<u8>, name: Seq<char>) -> Result<SchemaView, DbError> {
    match db_schemas(db) {
        Err(e) => Err(e),
        Ok(m) => match first_named(m, name) {
            None => Err(DbError::Query),
            Some(o) => Ok(o),
        },
    }
}

/// Whether `o` is an index on `table` that lists `column`.
#[verifier::loop_isolation(false)]
fn covers(o: &SchemaObject, table: &str, column: &str) -> (r: bool)
    ensures
        r == index_covers(o@, table@, column@),
{
    if !text_eq(o.table_name.as_str(), table) {
        return false;
    }
    match sql_statement(o.sql.as_str()) {
        Ok(Statement::CreateIndex(c)) => {
            let ghost cols = crate::sql::strings_view(c.columns@);
            let mut i: usize = 0;
            while i < c.columns.len()
                invariant
                    i <= c.columns@.len(),
                    cols == crate::sql::strings_view(c.columns@),
                    forall|j: int| 0 <= j < i ==> cols[j] != column@,
                decreases c.columns@.len() - i,
            {
                if text_eq(c.columns[i].as_str(), column) {
                    proof {
                        assert(cols[i as int] == column@);
                        assert(cols.contains(column@));
                    }
                    return true;
                }
                i = i + 1;
            }
            false
        },
        _ => false,
    }
}

/// An in-memory database image with its header and first page decoded.
pub struct DBFile {
    pub data: Vec<u8>,
    pub header: DBHeader,
    pub first_page: BTreePage,
    /// How many pages have been loaded through [`DBFile::load_page_at`].
    pub pages_loaded: usize,
}

impl DBFile {
    /// The page size in bytes.
    pub open spec fn spec_page_size(&self) -> nat {
        self.header.spec_page_size()
    }

    /// The header and first page are those decoded from the image.
    pub open spec fn wf(&self) -> bool {
        &&& header_ok(self.data@)
        &&& self.header.decodes(self.data@)
        &&& self.spec_page_size() == db_page_size(self.data@)
        &&& load_page(self.data@, self.spec_page_size(), 1) == Ok::<(Seq<u8>, PageView), DbError>(
            (self.first_page.page_data@, self.first_page.header_view()),
        )
        &&& self.first_page.wf()
    }

    /// The same image, header and first page as `other`.
    pub open spec fn same_file(&self, other: &DBFile) -> bool {
        &&& self.data@ == other.data@
        &&& self.header == other.header
        &&& self.first_page == other.first_page
    }

    /// Opens a database image: decodes its header and its first page.
    pub fn new(data: Vec<u8>) -> (r: Result<DBFile, DbError>)
        ensures
            match (r, open_result(data@)) {
                (Ok(f), Ok(_)) => f.wf() && f.data@ == data@ && f.pages_loaded == 0,
                (Err(e), Err(g)) => e == g,
                _ => false,
            },
    {
        let header = match DBHeader::from_bytes(data.as_slice()) {
            Err(e) => {
                return Err(e);
            },
            Ok(h) => h,
        };
        let ps = header.page_size() as usize;
        if ps > data.len() {
            return Err(DbError::Io);
        }
        let first_page = match BTreePage::new(&data.as_slice()[0..ps], Some(header)) {
            Err(e) => {
                return Err(e);
            },
            Ok(p) => p,
        };
        proof {
            assert(data@.subrange(0, ps as int) == data@.subrange((1 - 1) * ps, (1 * ps) as int));
        }
        Ok(DBFile { data, header, first_page, pages_loaded: 0 })
    }

    /// Loads page `page` (counted from 1) of the image.
    pub fn load_page_at(&mut self, page: usize) -> (r: Result<BTreePage, DbError>)
        requires
            old(self).wf(),
        ensures
            final(self).same_file(old(self)),
            final(self).wf(),
            final(self).pages_loaded as nat == counted(old(self).pages_loaded as nat, 1),
            match (r, load_page(old(self).data@, old(self).spec_page_size(), page as nat)) {
                (Ok(p), Ok((b, v))) => p.page_data@ == b && p.header_view() == v && p.wf() && (
                p.db_header is Some <==> page == 1),
                (Err(e), Err(f)) => e == f,
                _ => false,
            },
    {
        if self.pages_loaded < usize::MAX {
            self.pages_loaded = self.pages_loaded + 1;
        }
        let ps = self.header.page_size() as usize;
        let len = self.data.len();
        if page == 0 || page > len / ps {
            proof {
                if page > 0 {
                    assert(page * ps > len) by (nonlinear_arith)
                        requires
                            page > len / ps,
                            ps > 0,
                    ;
                }
            }
            return Err(DbError::Io);
        }
        proof {
            assert(page * ps <= len) by (nonlinear_arith)
                requires
                    page <= len / ps,
                    ps > 0,
            ;
            assert((page - 1) * ps + ps == page * ps) by (nonlinear_arith);
        }
        let start = (page - 1) * ps;
        let end = start + ps;
        let header = if page == 1 {
            Some(self.header)
        } else {
            None
        };
        BTreePage::new(&self.data.as_slice()[start..end], header)
    }

    /// The schema objects of the database, in the order of the schema table.
    pub fn schema_objects(&self) -> (r: Result<Vec<SchemaObject>, DbError>)
        requires
            self.wf(),
        ensures
            match (r, db_schemas(self.data@)) {
                (Ok(objs), Ok(m)) => schemas_view(objs@) == m,
                (Err(e), Err(f)) => e == f,
                _ => false,
            },
    {
        self.first_page.load_schemas()
    }

    /// The tables of the user: those whose name does not start with `sqlite_`.
    pub fn table_objects(&self) -> (r: Result<Vec<SchemaObject>, DbError>)
        requires
            self.wf(),
        ensures
            match (r, db_schemas(self.data@)) {
                (Ok(objs), Ok(m)) => schemas_view(objs@) == user_tables(m),
                (Err(e), Err(f)) => e == f,
                _ => false,
            },
    {
        let all = match self.schema_objects() {
            Err(e) => {
                return Err(e);
            },
            Ok(all) => all,
        };
        let ghost m = schemas_view(all@);
        let mut result: Vec<SchemaObject> = Vec::new();
        let mut i: usize = 0;
        proof {
            assert(m.subrange(0, 0) == Seq::<SchemaView>::empty());
            assert(schemas_view(result@) == Seq::<SchemaView>::empty());
        }
        while i < all.len()
            invariant
                i <= all@.len(),
                m == schemas_view(all@),
                schemas_view(result@) == user_tables(m.subrange(0, i as int)),
            decreases all@.len() - i,
        {
            let ghost sub = m.subrange(0, i + 1);
            proof {
                assert(sub.drop_last() == m.subrange(0, i as int));
                assert(sub.last() == all@[i as int]@);
            }
            let o = &all[i];
            if o.object_type == ObjectType::Table && !has_internal_prefix(o.table_name.as_str()) {
                let ghost before = result@;
                result.push(o.copied());
                proof {
                    assert(schemas_view(result@) == schemas_view(before).push(o@));
                }
            }
            i = i + 1;
        }
        proof {
            assert(m.subrange(0, m.len() as int) == m);
        }
        Ok(result)
    }

    /// The indexes of the database.
    pub fn index_objects(&self) -> (r: Result<Vec<SchemaObject>, DbError>)
        requires
            self.wf(),
        ensures
            match (r, db_schemas(self.data@)) {
                (Ok(objs), Ok(m)) => schemas_view(objs@) == indexes(m),
                (Err(e), Err(f)) => e == f,
                _ => false,
            },
    {
        let all = match self.schema_objects() {
            Err(e) => {
                return Err(e);
            },
            Ok(all) => all,
        };
        let ghost m = schemas_view(all@);
        let mut result: Vec<SchemaObject> = Vec::new();
        let mut i: usize = 0;
        proof {
            assert(m.subrange(0, 0) == Seq::<SchemaView>::empty());
            assert(schemas_view(result@) == Seq::<SchemaView>::empty());
        }
        while i < all.len()
            invariant
                i <= all@.len(),
                m == schemas_view(all@),
                schemas_view(result@) == indexes(m.subrange(0, i as int)),
            decreases all@.len() - i,
        {
            let ghost sub = m.subrange(0, i + 1);
            proof {
                assert(sub.drop_last() == m.subrange(0, i as int));
                assert(sub.last() == all@[i as int]@);
            }
            let o = &all[i];
            if o.object_type == ObjectType::Index {
                let ghost before = result@;
                result.push(o.copied());
                proof {
                    assert(schemas_view(result@) == schemas_view(before).push(o@));
                }
            }
            i = i + 1;
        }
        proof {
            assert(m.subrange(0, m.len() as int) == m);
        }
        Ok(result)
    }
    /// The table named `table_name`, internal tables included; a missing one fails with
    /// [`DbError::Query`].
    #[verifier::loop_isolation(false)]
    pub fn schema_for_table(&self, table_name: &str) -> (r: Result<SchemaObject, DbError>)
        requires
            self.wf(),
        ensures
            match (r, table_schema(self.data@, table_name@)) {
                (Ok(o), Ok(m)) => o@ == m,
                (Err(e), Err(f)) => e == f,
                _ => false,
            },
    {
        let tables = match self.schema_objects() {
            Err(e) => {
                return Err(e);
            },
            Ok(t) => t,
        };
        let ghost m = schemas_view(tables@);
        let mut i: usize = 0;
        proof {
            assert(m.subrange(0, m.len() as int) == m);
        }
        while i < tables.len()
            invariant
                i <= tables@.len(),
                m == schemas_view(tables@),
                first_named(m, table_name@) == first_named(
                    m.subrange(i as int, m.len() as int),
                    table_name@,
                ),
            decreases tables@.len() - i,
        {
            let ghost sub = m.subrange(i as int, m.len() as int);
            proof {
                assert(sub[0] == tables@[i as int]@);
                assert(sub.drop_first() == m.subrange(i + 1, m.len() as int));
            }
            if tables[i].object_type == ObjectType::Table && text_eq(
                tables[i].name.as_str(),
                table_name,
            ) {
                return Ok(tables[i].copied());
            }
            i = i + 1;
        }
        Err(DbError::Query)
    }

    /// The root page of an index on `table_name` whose CREATE INDEX
    /// statement lists `column_name`; `None` when there is none. An index
    /// whose SQL does not parse is passed over.
    #[verifier::loop_isolation(false)]
    pub fn get_index_page(&self, table_name: &str, column_name: &str) -> (r: Result<
        Option<usize>,
        DbError,
    >)
        requires
            self.wf(),
        ensures
            match (r, db_schemas(self.data@)) {
                (Ok(p), Ok(m)) => index_root(indexes(m), table_name@, column_name@) == match p {
                    Some(u) => Some(u as nat),
                    None => None::<nat>,
                },
                (Err(e), Err(f)) => e == f,
                _ => false,
            },
    {
        let idxs = match self.index_objects() {
            Err(e) => {
                return Err(e);
            },
            Ok(t) => t,
        };
        let ghost m = schemas_view(idxs@);
        let mut i: usize = 0;
        proof {
            assert(m.subrange(0, m.len() as int) == m);
        }
        while i < idxs.len()
            invariant
                i <= idxs@.len(),
                m == schemas_view(idxs@),
                index_root(m, table_name@, column_name@) == index_root(
                    m.subrange(i as int, m.len() as int),
                    table_name@,
                    column_name@,
                ),
            decreases idxs@.len() - i,
        {
            let ghost sub = m.subrange(i as int, m.len() as int);
            proof {
                assert(sub[0] == idxs@[i as int]@);
                assert(sub.drop_first() == m.subrange(i + 1, m.len() as int));
            }
            if covers(&idxs[i], table_name, column_name) {
                return Ok(idxs[i].root_page);
            }
            i = i + 1;
        }
        Ok(None)
    }

    /// The schema object of table `table_name` and its root page.
    /// A table without a root page fails with [`DbError::Schema`].
    pub fn load_table(&mut self, table_name: &str) -> (r: Result<(SchemaObject, BTreePage), DbError>)
        requires
            old(self).wf(),
        ensures
            final(self).same_file(old(self)),
            final(self).wf(),
            match table_schema(old(self).data@, table_name@) {
                Err(e) => r == Err::<(SchemaObject, BTreePage), DbError>(e),
                Ok(o) => match o.root_page {
                    None => r == Err::<(SchemaObject, BTreePage), DbError>(DbError::Schema),
                    Some(root) => match load_page(old(self).data@, old(self).spec_page_size(), root) {
                        Err(e) => r == Err::<(SchemaObject, BTreePage), DbError>(e),
                        Ok((b, v)) => r matches Ok((so, p)) && so@ == o && p.page_data@ == b
                            && p.header_view() == v && p.wf(),
                    },
                },
            },
    {
        let schema = match self.schema_for_table(table_name) {
            Err(e) => {
                return Err(e);
            },
            Ok(s) => s,
        };
        let root = match schema.root_page {
            None => {
                return Err(DbError::Schema);
            },
            Some(r) => r,
        };
        match self.load_page_at(root) {
            Err(e) => Err(e),
            Ok(p) => Ok((schema, p)),
        }
    }
}

} // verus!
