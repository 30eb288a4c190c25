//! The dot-commands and the output conventions.
use vstd::prelude::*;
use vstd::string::StringExecFns;

use crate::db_file::{db_schemas, indexes, user_tables, DBFile};
use crate::schema_object::SchemaView;
use crate::error::DbError;
use crate::schema_object::SchemaObject;
use crate::sql::strings_view;
use crate::text::{decimal, push_char, push_decimal};

verus! {

/// `items` joined by `sep`.
pub open spec fn join_with(items: Seq<Seq<char>>, sep: char) -> Seq<char>
    decreases items.len(),
{
    if items.len() == 0 {
        Seq::empty()
    } else if items.len() == 1 {
        items[0]
    } else {
        join_with(items.drop_last(), sep).push(sep) + items.last()
    }
}

/// Joins `items` with the single character `sep`.
pub fn join(items: &Vec<String>, sep: char) -> (r: String)
    ensures
        r@ == join_with(strings_view(items@), sep),
{
    let ghost iv = strings_view(items@);
    let mut r = String::new();
    let mut i: usize = 0;
    proof {
        assert(iv.subrange(0, 0) == Seq::<Seq<char>>::empty());
    }
    while i < items.len()
        invariant
            i <= items@.len(),
            iv == strings_view(items@),
            r@ == join_with(iv.subrange(0, i as int), sep),
        decreases items@.len() - i,
    {
        let ghost sub = iv.subrange(0, i + 1);
        proof {
            assert(sub.drop_last() == iv.subrange(0, i as int));
            assert(sub.last() == items@[i as int]@);
        }
        if i > 0 {
            push_char(&mut r, sep);
        }
        r.append(items[i].as_str());
        proof {
            if i == 0 {
                assert(sub.len() == 1);
                assert(r@ == sub[0]);
            }
        }
        i = i + 1;
    }
    proof {
        assert(iv.subrange(0, iv.len() as int) == iv);
    }
    r
}

/// The fields of an output row joined by `|`.
pub fn join_fields(fields: &Vec<String>) -> (r: String)
    ensures
        r@ == join_with(strings_view(fields@), '|'),
{
    join(fields, '|')
}

/// The two lines of `.dbinfo`: the page size, and the number of cells on
/// the first page, which holds one schema row per object.
pub fn dbinfo(db: &DBFile) -> (r: Vec<String>)
    requires
        db.wf(),
    ensures
        r@.len() == 2,
        r@[0]@ == "database page size: "@ + decimal(db.spec_page_size() as int),
        r@[1]@ == "number of tables: "@ + decimal(db.first_page.num_cells as int),
{
    let mut a = String::from_str("database page size: ");
    push_decimal(&mut a, db.header.page_size() as i64);
    let mut b = String::from_str("number of tables: ");
    push_decimal(&mut b, db.first_page.num_cells as i64);
    let mut r: Vec<String> = Vec::new();
    r.push(a);
    r.push(b);
    r
}

/// The table names of `objs`.
pub open spec fn table_names(objs: Seq<SchemaView>) -> Seq<Seq<char>> {
    objs.map_values(|o: SchemaView| o.table_name)
}

/// The line of `.tables`: the names of the user tables, in schema order,
/// separated by single spaces.
pub fn tables(db: &DBFile) -> (r: Result<String, DbError>)
    requires
        db.wf(),
    ensures
        match (r, db_schemas(db.data@)) {
            (Ok(line), Ok(m)) => line@ == join_with(table_names(user_tables(m)), ' '),
            (Err(e), Err(f)) => e == f,
            _ => false,
        },
{
    let objs = match db.table_objects() {
        Err(e) => {
            return Err(e);
        },
        Ok(o) => o,
    };
    let ghost ov = crate::db_file::schemas_view(objs@);
    let mut names: Vec<String> = Vec::new();
    let mut i: usize = 0;
    while i < objs.len()
        invariant
            i <= objs@.len(),
            ov == crate::db_file::schemas_view(objs@),
            strings_view(names@) == table_names(ov).subrange(0, i as int),
        decreases objs@.len() - i,
    {
        let ghost before = strings_view(names@);
        names.push(objs[i].table_name.clone());
        proof {
            assert(ov[i as int] == objs@[i as int]@);
            assert(strings_view(names@) == before.push(objs@[i as int].table_name@));
            assert(table_names(ov).subrange(0, i + 1) == table_names(ov).subrange(0, i as int).push(
                ov[i as int].table_name,
            ));
        }
        i = i + 1;
    }
    proof {
        assert(table_names(ov).subrange(0, ov.len() as int) == table_names(ov));
    }
    Ok(join(&names, ' '))
}

/// The line of `.tableslong` for a table: `<name>: <create sql>`.
pub open spec fn long_line(o: SchemaView) -> Seq<char> {
    o.table_name + seq![':', ' '] + o.sql
}

/// The line of `.indexes` for an index: `<name> on <table>:`, a newline, a
/// tab, and its SQL.
pub open spec fn index_line(o: SchemaView) -> Seq<char> {
    o.name + seq![' ', 'o', 'n', ' '] + o.table_name + seq![':', '\n', '\t'] + o.sql
}

fn table_long_line(o: &SchemaObject) -> (r: String)
    ensures
        r@ == long_line(o@),
{
    let mut s = o.table_name.clone();
    push_char(&mut s, ':');
    push_char(&mut s, ' ');
    s.append(o.sql.as_str());
    s
}

fn index_line_of(o: &SchemaObject) -> (r: String)
    ensures
        r@ == index_line(o@),
{
    let mut s = o.name.clone();
    push_char(&mut s, ' ');
    push_char(&mut s, 'o');
    push_char(&mut s, 'n');
    push_char(&mut s, ' ');
    s.append(o.table_name.as_str());
    push_char(&mut s, ':');
    push_char(&mut s, '\n');
    push_char(&mut s, '\t');
    s.append(o.sql.as_str());
    proof {
        assert(s@ == index_line(o@));
    }
    s
}

/// The lines of `.tableslong`, one per user table.
pub fn tables_long(db: &DBFile) -> (r: Result<Vec<String>, DbError>)
    requires
        db.wf(),
    ensures
        match (r, db_schemas(db.data@)) {
            (Ok(lines), Ok(m)) => strings_view(lines@) == user_tables(m).map_values(
                |o: SchemaView| long_line(o),
            ),
            (Err(e), Err(f)) => e == f,
            _ => false,
        },
{
    let objs = match db.table_objects() {
        Err(e) => {
            return Err(e);
        },
        Ok(o) => o,
    };
    let ghost ov = crate::db_file::schemas_view(objs@);
    let mut lines: Vec<String> = Vec::new();
    let mut i: usize = 0;
    while i < objs.len()
        invariant
            i <= objs@.len(),
            ov == crate::db_file::schemas_view(objs@),
            strings_view(lines@) == ov.map_values(|o: SchemaView| long_line(o)).subrange(0, i as int),
        decreases objs@.len() - i,
    {
        let line = table_long_line(&objs[i]);
        let ghost before = strings_view(lines@);
        let ghost lv = line@;
        lines.push(line);
        proof {
            assert(ov[i as int] == objs@[i as int]@);
            assert(strings_view(lines@) == before.push(lv));
            assert(ov.map_values(|o: SchemaView| long_line(o)).subrange(0, i + 1) == ov.map_values(
                |o: SchemaView| long_line(o),
            ).subrange(0, i as int).push(long_line(ov[i as int])));
        }
        i = i + 1;
    }
    proof {
        assert(ov.map_values(|o: SchemaView| long_line(o)).subrange(0, ov.len() as int)
            == ov.map_values(|o: SchemaView| long_line(o)));
    }
    Ok(lines)
}

/// The entries of `.indexes`, one per index.
pub fn index_lines(db: &DBFile) -> (r: Result<Vec<String>, DbError>)
    requires
        db.wf(),
    ensures
        match (r, db_schemas(db.data@)) {
            (Ok(lines), Ok(m)) => strings_view(lines@) == indexes(m).map_values(
                |o: SchemaView| index_line(o),
            ),
            (Err(e), Err(f)) => e == f,
            _ => false,
        },
{
    let objs = match db.index_objects() {
        Err(e) => {
            return Err(e);
        },
        Ok(o) => o,
    };
    let ghost ov = crate::db_file::schemas_view(objs@);
    let mut lines: Vec<String> = Vec::new();
    let mut i: usize = 0;
    while i < objs.len()
        invariant
            i <= objs@.len(),
            ov == crate::db_file::schemas_view(objs@),
            strings_view(lines@) == ov.map_values(|o: SchemaView| index_line(o)).subrange(0, i as int),
        decreases objs@.len() - i,
    {
        let line = index_line_of(&objs[i]);
        let ghost before = strings_view(lines@);
        let ghost lv = line@;
        lines.push(line);
        proof {
            assert(ov[i as int] == objs@[i as int]@);
            assert(strings_view(lines@) == before.push(lv));
            assert(ov.map_values(|o: SchemaView| index_line(o)).subrange(0, i + 1) == ov.map_values(
                |o: SchemaView| index_line(o),
            ).subrange(0, i as int).push(index_line(ov[i as int])));
        }
        i = i + 1;
    }
    proof {
        assert(ov.map_values(|o: SchemaView| index_line(o)).subrange(0, ov.len() as int)
            == ov.map_values(|o: SchemaView| index_line(o)));
    }
    Ok(lines)
}

} // verus!
