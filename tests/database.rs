use sqlite_reader::btree::{search_index, select_with_index, select_without_index};
use sqlite_reader::commands::{dbinfo, index_lines, join_fields, tables, tables_long};
use sqlite_reader::db_file::DBFile;
use sqlite_reader::sql::sql_statement;
use sqlite_reader::error::DbError;
use sqlite_reader::query::{execute, QueryOutput};
use sqlite_reader::serial_value::SerialValue;

const PAGE_SIZE: usize = 4096;

#[derive(Clone)]
enum Val {
    Null,
    Int(i64),
    Text(String),
}

fn text(s: &str) -> Val {
    Val::Text(s.to_string())
}

fn varint(mut v: u64) -> Vec<u8> {
    if v > 0x00ff_ffff_ffff_ffff {
        let mut out = Vec::new();
        let last = (v & 0xff) as u8;
        v >>= 8;
        for k in (0..8).rev() {
            out.push((((v >> (7 * k)) & 0x7f) as u8) | 0x80);
        }
        out.push(last);
        return out;
    }
    let mut groups = vec![(v & 0x7f) as u8];
    v >>= 7;
    while v > 0 {
        groups.push(((v & 0x7f) as u8) | 0x80);
        v >>= 7;
    }
    groups.reverse();
    groups
}

fn record(values: &[Val]) -> Vec<u8> {
    let mut types = Vec::new();
    let mut body = Vec::new();
    for v in values {
        match v {
            Val::Null => types.extend(varint(0)),
            Val::Int(i) => {
                if *i >= -128 && *i <= 127 {
                    types.extend(varint(1));
                    body.push(*i as i8 as u8);
                } else if *i >= -32768 && *i <= 32767 {
                    types.extend(varint(2));
                    body.extend((*i as i16).to_be_bytes());
                } else {
                    types.extend(varint(6));
                    body.extend(i.to_be_bytes());
                }
            }
            Val::Text(s) => {
                types.extend(varint(13 + 2 * s.len() as u64));
                body.extend(s.as_bytes());
            }
        }
    }
    let header_len = if types.len() + 1 < 128 { types.len() + 1 } else { types.len() + 2 };
    let mut out = varint(header_len as u64);
    out.extend(types);
    out.extend(body);
    out
}

fn leaf_table_cell(rowid: u64, values: &[Val]) -> Vec<u8> {
    let payload = record(values);
    let mut out = varint(payload.len() as u64);
    out.extend(varint(rowid));
    out.extend(payload);
    out
}

fn interior_table_cell(left: u32, rowid: u64) -> Vec<u8> {
    let mut out = left.to_be_bytes().to_vec();
    out.extend(varint(rowid));
    out
}

fn leaf_index_cell(key: &str, rowid: i64) -> Vec<u8> {
    let payload = record(&[text(key), Val::Int(rowid)]);
    let mut out = varint(payload.len() as u64);
    out.extend(payload);
    out
}

fn interior_index_cell(left: u32, key: &str, rowid: i64) -> Vec<u8> {
    let payload = record(&[text(key), Val::Int(rowid)]);
    let mut out = left.to_be_bytes().to_vec();
    out.extend(varint(payload.len() as u64));
    out.extend(payload);
    out
}

/// A page of `kind` holding `cells` in order; `offset` is 100 on page 1.
fn page(kind: u8, cells: &[Vec<u8>], right_most: Option<u32>, offset: usize) -> Vec<u8> {
    let mut p = vec![0u8; PAGE_SIZE];
    let header_len = if right_most.is_some() { 12 } else { 8 };
    let mut end = PAGE_SIZE;
    let mut pointers = Vec::new();
    for c in cells {
        end -= c.len();
        p[end..end + c.len()].copy_from_slice(c);
        pointers.push(end as u16);
    }
    p[offset] = kind;
    p[offset + 3..offset + 5].copy_from_slice(&(cells.len() as u16).to_be_bytes());
    p[offset + 5..offset + 7].copy_from_slice(&(end as u16).to_be_bytes());
    if let Some(r) = right_most {
        p[offset + 8..offset + 12].copy_from_slice(&r.to_be_bytes());
    }
    let mut at = offset + header_len;
    for ptr in pointers {
        p[at..at + 2].copy_from_slice(&ptr.to_be_bytes());
        at += 2;
    }
    p
}

fn schema_row(rowid: u64, kind: &str, name: &str, table: &str, root: i64, sql: &str) -> Vec<u8> {
    leaf_table_cell(rowid, &[text(kind), text(name), text(table), Val::Int(root), text(sql)])
}

/// A database image whose first page holds `schema` and whose later pages
/// are `pages`, in order from page 2.
fn database(schema: &[Vec<u8>], pages: &[Vec<u8>]) -> Vec<u8> {
    let mut first = page(0x0d, schema, None, 100);
    first[0..16].copy_from_slice(b"SQLite format 3\0");
    first[16..18].copy_from_slice(&(PAGE_SIZE as u16).to_be_bytes());
    first[18] = 1;
    first[19] = 1;
    first[21] = 64;
    first[22] = 32;
    first[23] = 32;
    first[28..32].copy_from_slice(&((pages.len() + 1) as u32).to_be_bytes());
    first[44..48].copy_from_slice(&4u32.to_be_bytes());
    first[56..60].copy_from_slice(&1u32.to_be_bytes());
    let mut image = first;
    for p in pages {
        image.extend(p);
    }
    image
}

const APPLES_SQL: &str = "CREATE TABLE apples\n(\n\tid integer primary key autoincrement,\n\tname text,\n\tcolor text\n)";

fn apples_db() -> Vec<u8> {
    let rows = [
        (1, "Granny Smith", "Light Green"),
        (2, "Fuji", "Red"),
        (3, "Honeycrisp", "Blush Red"),
        (4, "Golden Delicious", "Yellow"),
    ];
    let cells: Vec<Vec<u8>> = rows
        .iter()
        .map(|(id, name, color)| leaf_table_cell(*id, &[Val::Null, text(name), text(color)]))
        .collect();
    let schema = vec![
        schema_row(1, "table", "apples", "apples", 2, APPLES_SQL),
        schema_row(
            2,
            "table",
            "sqlite_sequence",
            "sqlite_sequence",
            3,
            "CREATE TABLE sqlite_sequence(name,seq)",
        ),
        schema_row(
            3,
            "table",
            "oranges",
            "oranges",
            4,
            "CREATE TABLE oranges\n(\n\tid integer primary key autoincrement,\n\tname text,\n\tdescription text\n)",
        ),
    ];
    let seq_page = page(0x0d, &[leaf_table_cell(1, &[text("apples"), Val::Int(4)])], None, 0);
    let oranges = page(
        0x0d,
        &[leaf_table_cell(1, &[Val::Null, text("Mandarin"), text("great for snacking")])],
        None,
        0,
    );
    database(&schema, &[page(0x0d, &cells, None, 0), seq_page, oranges])
}

const HEROES_SQL: &str = "CREATE TABLE superheroes (id integer primary key autoincrement, name text not null, eye_color text, hair_color text)";
const HERO_INDEX_SQL: &str = "CREATE INDEX idx_sh_eye_color\n\ton superheroes (eye_color)";

fn eye_color(id: u64) -> &'static str {
    if id == 12 || id == 17 {
        return "Pink Eyes";
    }
    match id % 4 {
        0 => "Blue Eyes",
        1 => "Brown Eyes",
        2 => "Green Eyes",
        _ => "Black Eyes",
    }
}

/// Eighty heroes on eight leaf pages under an interior root, and, when
/// `with_index`, an index on eye colour.
fn heroes_db(with_index: bool) -> Vec<u8> {
    let mut leaves = Vec::new();
    for l in 0..8u64 {
        let cells: Vec<Vec<u8>> = (1..=10)
            .map(|k| {
                let id = l * 10 + k;
                leaf_table_cell(
                    id,
                    &[Val::Null, text(&format!("Hero {}", id)), text(eye_color(id)), text("Black")],
                )
            })
            .collect();
        leaves.push(page(0x0d, &cells, None, 0));
    }
    let separators: Vec<Vec<u8>> =
        (0..7u32).map(|l| interior_table_cell(3 + l, (l as u64 + 1) * 10)).collect();
    let root = page(0x05, &separators, Some(10), 0);
    let mut entries: Vec<(String, i64)> =
        (1..=80u64).map(|id| (eye_color(id).to_string(), id as i64)).collect();
    entries.sort();
    let left: Vec<Vec<u8>> = entries[..40].iter().map(|(k, r)| leaf_index_cell(k, *r)).collect();
    let sep = &entries[40];
    let right: Vec<Vec<u8>> = entries[41..].iter().map(|(k, r)| leaf_index_cell(k, *r)).collect();
    let index_root = page(0x02, &[interior_index_cell(12, &sep.0, sep.1)], Some(13), 0);
    let mut schema = vec![schema_row(1, "table", "superheroes", "superheroes", 2, HEROES_SQL)];
    if with_index {
        schema.push(schema_row(2, "index", "idx_sh_eye_color", "superheroes", 11, HERO_INDEX_SQL));
    }
    let mut pages = vec![root];
    pages.extend(leaves);
    pages.push(index_root);
    pages.push(page(0x0a, &left, None, 0));
    pages.push(page(0x0a, &right, None, 0));
    database(&schema, &pages)
}

fn render(v: &SerialValue) -> String {
    v.text_form().unwrap()
}

fn lines_of(out: QueryOutput) -> Vec<String> {
    match out {
        QueryOutput::Rows(rows) => rows
            .iter()
            .map(|r| join_fields(&r.iter().map(render).collect::<Vec<String>>()))
            .collect(),
        QueryOutput::Count(n) => vec![n.to_string()],
    }
}

#[test]
fn dbinfo_reports_page_size_and_table_count() {
    let db = DBFile::new(apples_db()).unwrap();
    assert_eq!(
        dbinfo(&db),
        vec![String::from("database page size: 4096"), String::from("number of tables: 3")]
    );
}

#[test]
fn tables_skips_internal_tables() {
    let db = DBFile::new(apples_db()).unwrap();
    assert_eq!(tables(&db).unwrap(), "apples oranges");
}

#[test]
fn tables_long_and_indexes_lines() {
    let db = DBFile::new(apples_db()).unwrap();
    let lines = tables_long(&db).unwrap();
    assert_eq!(lines.len(), 2);
    assert_eq!(lines[0], format!("apples: {}", APPLES_SQL));
    let db = DBFile::new(heroes_db(true)).unwrap();
    assert_eq!(
        index_lines(&db).unwrap(),
        vec![format!("idx_sh_eye_color on superheroes:\n\t{}", HERO_INDEX_SQL)]
    );
}

#[test]
fn count_rows() {
    let mut db = DBFile::new(apples_db()).unwrap();
    let out = execute(&mut db, "SELECT COUNT(*) FROM apples").unwrap();
    assert_eq!(lines_of(out), vec![String::from("4")]);
}

#[test]
fn select_columns_with_rowid_alias() {
    let mut db = DBFile::new(apples_db()).unwrap();
    let out = execute(&mut db, "SELECT id, name FROM apples").unwrap();
    assert_eq!(
        lines_of(out),
        vec!["1|Granny Smith", "2|Fuji", "3|Honeycrisp", "4|Golden Delicious"]
    );
}

#[test]
fn select_with_where_without_index() {
    let mut db = DBFile::new(apples_db()).unwrap();
    let out = execute(&mut db, "SELECT name, color FROM apples WHERE color = 'Red'").unwrap();
    assert_eq!(lines_of(out), vec!["Fuji|Red"]);
}

#[test]
fn index_lookup_matches_full_scan_with_fewer_pages() {
    let query = "SELECT id, name FROM superheroes WHERE eye_color = 'Pink Eyes'";
    let mut indexed = DBFile::new(heroes_db(true)).unwrap();
    let before = indexed.pages_loaded;
    let with_index = lines_of(execute(&mut indexed, query).unwrap());
    let index_pages = indexed.pages_loaded - before;

    let mut plain = DBFile::new(heroes_db(false)).unwrap();
    let before = plain.pages_loaded;
    let without_index = lines_of(execute(&mut plain, query).unwrap());
    let scan_pages = plain.pages_loaded - before;

    let expected: Vec<String> = (1..=80u64)
        .filter(|id| eye_color(*id) == "Pink Eyes")
        .map(|id| format!("{}|Hero {}", id, id))
        .collect();
    assert_eq!(with_index, expected);
    assert_eq!(without_index, expected);
    assert!(index_pages < scan_pages);
}

#[test]
fn full_scan_yields_rows_in_rowid_order() {
    let mut db = DBFile::new(heroes_db(false)).unwrap();
    let rows = select_without_index(&mut db, 2).unwrap();
    let ids: Vec<u64> = rows.iter().map(|r| r.row_id).collect();
    assert_eq!(ids, (1..=80).collect::<Vec<u64>>());
}

#[test]
fn index_search_finds_exactly_the_matching_rowids() {
    let mut db = DBFile::new(heroes_db(true)).unwrap();
    for color in ["Blue Eyes", "Brown Eyes", "Pink Eyes", "Green Eyes", "Black Eyes", "Red Eyes"] {
        let ids = search_index(&mut db, 11, color).unwrap();
        let expected: Vec<u64> = (1..=80u64).filter(|id| eye_color(*id) == color).collect();
        assert_eq!(ids, expected, "{}", color);
    }
}

#[test]
fn lookup_by_rowids_in_input_order() {
    let mut db = DBFile::new(heroes_db(false)).unwrap();
    let rows = select_with_index(&mut db, 2, &vec![3, 10, 11, 25, 40]).unwrap();
    let ids: Vec<u64> = rows.iter().map(|r| r.row_id).collect();
    assert_eq!(ids, vec![3, 10, 11, 25, 40]);
    assert_eq!(render(&rows[1].values[1]), "Hero 10");
}

#[test]
fn missing_rowid_is_a_consistency_error() {
    let mut db = DBFile::new(heroes_db(false)).unwrap();
    assert_eq!(select_with_index(&mut db, 2, &vec![5, 81]).err(), Some(DbError::Consistency));
}

#[test]
fn bad_magic_is_a_header_error() {
    let mut image = apples_db();
    image[0] = b'X';
    assert_eq!(DBFile::new(image).err(), Some(DbError::Header));
}

#[test]
fn invalid_page_size_is_a_header_error() {
    let mut image = apples_db();
    image[16..18].copy_from_slice(&1000u16.to_be_bytes());
    assert_eq!(DBFile::new(image).err(), Some(DbError::Header));
}

#[test]
fn short_image_is_an_io_error() {
    let image = apples_db();
    assert_eq!(DBFile::new(image[..2000].to_vec()).err(), Some(DbError::Io));
    let mut db = DBFile::new(apples_db()).unwrap();
    assert_eq!(db.load_page_at(99).err(), Some(DbError::Io));
    assert_eq!(db.load_page_at(0).err(), Some(DbError::Io));
}

#[test]
fn unknown_page_kind_is_a_page_error() {
    let mut image = apples_db();
    image[PAGE_SIZE] = 0x07;
    let mut db = DBFile::new(image).unwrap();
    assert_eq!(db.load_page_at(2).err(), Some(DbError::Page));
}

#[test]
fn unknown_table_and_ddl_are_query_errors() {
    let mut db = DBFile::new(apples_db()).unwrap();
    assert_eq!(execute(&mut db, "SELECT name FROM pears").err(), Some(DbError::Query));
    assert_eq!(execute(&mut db, "SELECT flavour FROM apples").err(), Some(DbError::Query));
    assert_eq!(
        execute(&mut db, "CREATE TABLE t (a integer)").err(),
        Some(DbError::Query)
    );
    assert_eq!(execute(&mut db, "SELEKT name FROM apples").err(), Some(DbError::Parse));
}

#[test]
fn unknown_schema_type_is_a_schema_error() {
    let schema = vec![schema_row(1, "gadget", "g", "g", 2, "CREATE TABLE g (a int)")];
    let db = DBFile::new(database(&schema, &[page(0x0d, &[], None, 0)])).unwrap();
    assert_eq!(tables(&db).err(), Some(DbError::Schema));
}

#[test]
fn reserved_serial_type_is_a_record_error() {
    let mut payload = vec![2u8, 10u8];
    payload.push(0);
    let mut cell = varint(payload.len() as u64);
    cell.extend(varint(1));
    cell.extend(payload);
    let schema = vec![schema_row(1, "table", "t", "t", 2, "CREATE TABLE t (a int)")];
    let mut db = DBFile::new(database(&schema, &[page(0x0d, &[cell], None, 0)])).unwrap();
    assert_eq!(execute(&mut db, "SELECT a FROM t").err(), Some(DbError::Record));
}

#[test]
fn empty_table_has_no_rows() {
    let schema = vec![schema_row(1, "table", "t", "t", 2, "CREATE TABLE t (a int)")];
    let mut db = DBFile::new(database(&schema, &[page(0x0d, &[], None, 0)])).unwrap();
    assert_eq!(lines_of(execute(&mut db, "SELECT COUNT(*) FROM t").unwrap()), vec!["0"]);
    assert!(lines_of(execute(&mut db, "SELECT a FROM t").unwrap()).is_empty());
}

#[test]
fn root_page_zero_is_a_schema_error() {
    let schema = vec![schema_row(1, "table", "t", "t", 0, "CREATE TABLE t (a int)")];
    let db = DBFile::new(database(&schema, &[page(0x0d, &[], None, 0)])).unwrap();
    assert_eq!(tables(&db).err(), Some(DbError::Schema));
}

#[test]
fn internal_tables_can_be_queried() {
    let mut db = DBFile::new(apples_db()).unwrap();
    let out = execute(&mut db, "SELECT COUNT(*) FROM sqlite_sequence").unwrap();
    assert_eq!(lines_of(out), vec!["1"]);
    assert_eq!(db.schema_for_table("sqlite_sequence").unwrap().root_page, Some(3));
}

#[test]
fn payload_needing_overflow_pages_is_a_record_error() {
    let mut cell = varint(5000);
    cell.extend(varint(1));
    cell.extend(record(&[Val::Int(1)]));
    let schema = vec![schema_row(1, "table", "t", "t", 2, "CREATE TABLE t (a int)")];
    let mut db = DBFile::new(database(&schema, &[page(0x0d, &[cell], None, 0)])).unwrap();
    assert_eq!(execute(&mut db, "SELECT a FROM t").err(), Some(DbError::Record));
}

#[test]
fn lookup_loads_only_subtrees_holding_requested_ids() {
    let mut db = DBFile::new(heroes_db(false)).unwrap();
    let before = db.pages_loaded;
    select_with_index(&mut db, 2, &vec![12, 17]).unwrap();
    assert_eq!(db.pages_loaded - before, 2);
    let before = db.pages_loaded;
    select_with_index(&mut db, 2, &vec![5, 75]).unwrap();
    assert_eq!(db.pages_loaded - before, 3);
}

#[test]
fn each_page_load_counts_once() {
    let mut db = DBFile::new(apples_db()).unwrap();
    let before = db.pages_loaded;
    db.load_page_at(2).unwrap();
    assert!(db.load_page_at(42).is_err());
    assert_eq!(db.pages_loaded - before, 2);
    assert!(sql_statement("SELECT a FROM t").is_ok());
}
