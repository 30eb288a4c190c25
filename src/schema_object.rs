//! Rows of the schema table: the tables, indexes, views and triggers.
use vstd::prelude::*;

use crate::error::DbError;
use crate::record::values_view;
use crate::serial_value::{integer_of, SerialValue, ValueView};
use crate::sql::{parse_statement, sql_statement, Statement, StatementView};
use crate::text::text_eq;

verus! {

/// The kind of a schema object.
#[derive(Debug, Clone, Copy, PartialEq, Eq, Structural)]
pub enum ObjectType {
    Table,
    Index,
    View,
    Trigger,
}

/// The object kind that a `type` column names.
pub open spec fn object_type_of(s: Seq<char>) -> Option<ObjectType> {
    if s == seq!['t', 'a', 'b', 'l', 'e'] {
        Some(ObjectType::Table)
    } else if s == seq!['i', 'n', 'd', 'e', 'x'] {
        Some(ObjectType::Index)
    } else if s == seq!['v', 'i', 'e', 'w'] {
        Some(ObjectType::View)
    } else if s == seq!['t', 'r', 'i', 'g', 'g', 'e', 'r'] {
        Some(ObjectType::Trigger)
    } else {
        None
    }
}

impl ObjectType {
    /// The object kind named by `type_str`; any other name fails with
    /// [`DbError::Schema`].
    pub fn from(type_str: &str) -> (r: Result<ObjectType, DbError>)
        ensures
            match object_type_of(type_str@) {
                Some(t) => r == Ok::<ObjectType, DbError>(t),
                None => r == Err::<ObjectType, DbError>(DbError::Schema),
            },
    {
        proof {
            reveal_strlit("table");
            reveal_strlit("index");
            reveal_strlit("view");
            reveal_strlit("trigger");
            assert("table"@ == seq!['t', 'a', 'b', 'l', 'e']);
            assert("index"@ == seq!['i', 'n', 'd', 'e', 'x']);
            assert("view"@ == seq!['v', 'i', 'e', 'w']);
            assert("trigger"@ == seq!['t', 'r', 'i', 'g', 'g', 'e', 'r']);
        }
        if text_eq(type_str, "table") {
            Ok(ObjectType::Table)
        } else if text_eq(type_str, "index") {
            Ok(ObjectType::Index)
        } else if text_eq(type_str, "view") {
            Ok(ObjectType::View)
        } else if text_eq(type_str, "trigger") {
            Ok(ObjectType::Trigger)
        } else {
            Err(DbError::Schema)
        }
    }
}

/// What a [`SchemaObject`] holds.
pub struct SchemaView {
    pub object_type: ObjectType,
    pub name: Seq<char>,
    pub table_name: Seq<char>,
    pub root_page: Option<nat>,
    pub sql: Seq<char>,
}

/// A row of the schema table.
#[derive(Debug, Clone)]
pub struct SchemaObject {
    pub object_type: ObjectType,
    pub name: String,
    pub table_name: String,
    pub root_page: Option<usize>,
    pub sql: String,
}

impl View for SchemaObject {
    type V = SchemaView;

    open spec fn view(&self) -> SchemaView {
        SchemaView {
            object_type: self.object_type,
            name: self.name@,
            table_name: self.table_name@,
            root_page: match self.root_page {
                Some(p) => Some(p as nat),
                None => None,
            },
            sql: self.sql@,
        }
    }
}

/// The text a value holds, if it is text.
pub open spec fn text_of(v: ValueView) -> Option<Seq<char>> {
    match v {
        ValueView::Text(t) => Some(t),
        _ => None,
    }
}

/// The schema object of a five-column schema row: type, name, table name,
/// root page, SQL. Any other shape fails with [`DbError::Schema`]; the root
/// page may be NULL, and otherwise is a positive integer.
pub open spec fn schema_of(cell: Seq<ValueView>) -> Result<SchemaView, DbError> {
    if cell.len() != 5 {
        Err(DbError::Schema)
    } else {
        match (text_of(cell[0]), text_of(cell[1]), text_of(cell[2]), text_of(cell[4])) {
            (Some(t), Some(name), Some(table_name), Some(sql)) => match object_type_of(t) {
                None => Err(DbError::Schema),
                Some(object_type) => {
                    let root = if cell[3] == ValueView::Null {
                        Some(None)
                    } else {
                        match integer_of(cell[3]) {
                            Some(i) => if 1 <= i <= usize::MAX {
                                Some(Some(i as nat))
                            } else {
                                None
                            },
                            None => None,
                        }
                    };
                    match root {
                        None => Err(DbError::Schema),
                        Some(root_page) => Ok(
                            SchemaView { object_type, name, table_name, root_page, sql },
                        ),
                    }
                },
            },
            _ => Err(DbError::Schema),
        }
    }
}

/// The names of the columns of a CREATE TABLE statement.
pub open spec fn columns_of(sql: Seq<char>) -> Result<Seq<Seq<char>>, DbError> {
    match parse_statement(sql) {
        None => Err(DbError::Parse),
        Some(StatementView::CreateTable(_, cols)) => Ok(cols),
        Some(_) => Err(DbError::Schema),
    }
}

/// The last position of `name` among `cols`.
pub open spec fn last_position(cols: Seq<Seq<char>>, name: Seq<char>) -> Option<nat>
    decreases cols.len(),
{
    if cols.len() == 0 {
        None
    } else if cols.last() == name {
        Some((cols.len() - 1) as nat)
    } else {
        last_position(cols.drop_last(), name)
    }
}

fn text_value(v: &SerialValue) -> (r: Option<String>)
    ensures
        match text_of(v@) {
            Some(t) => r matches Some(s) && s@ == t,
            None => r is None,
        },
{
    match v {
        SerialValue::Text(t) => Some(t.clone()),
        _ => None,
    }
}

/// The column names of a table, in order, for looking up a column's index.
pub struct ColumnMap {
    pub columns: Vec<String>,
}

impl ColumnMap {
    /// The index of column `name`; where a name repeats, the last one.
    pub fn get(&self, name: &str) -> (r: Option<usize>)
        ensures
            match last_position(crate::sql::strings_view(self.columns@), name@) {
                Some(i) => r matches Some(u) && u as nat == i && i < self.columns@.len(),
                None => r is None,
            },
    {
        let ghost cols = crate::sql::strings_view(self.columns@);
        let mut i = self.columns.len();
        proof {
            assert(cols.subrange(0, i as int) == cols);
        }
        while i > 0
            invariant
                i <= self.columns@.len(),
                cols == crate::sql::strings_view(self.columns@),
                last_position(cols, name@) == last_position(cols.subrange(0, i as int), name@),
            decreases i,
        {
            let ghost sub = cols.subrange(0, i as int);
            proof {
                assert(sub.last() == self.columns@[i - 1]@);
                assert(sub.drop_last() == cols.subrange(0, i - 1));
            }
            if text_eq(self.columns[i - 1].as_str(), name) {
                return Some(i - 1);
            }
            i = i - 1;
        }
        None
    }
}

impl SchemaObject {
    /// A copy of this object.
    pub fn copied(&self) -> (r: SchemaObject)
        ensures
            r@ == self@,
    {
        SchemaObject {
            object_type: self.object_type,
            name: self.name.clone(),
            table_name: self.table_name.clone(),
            root_page: self.root_page,
            sql: self.sql.clone(),
        }
    }

    /// The schema object of a row of the schema table.
    pub fn from(cell: Vec<SerialValue>) -> (r: Result<SchemaObject, DbError>)
        ensures
            match (r, schema_of(values_view(cell@))) {
                (Ok(o), Ok(m)) => o@ == m,
                (Err(e), Err(f)) => e == f,
                _ => false,
            },
    {
        SchemaObject::from_values(&cell)
    }

    /// The schema object of a row of the schema table, read in place.
    pub fn from_values(cell: &Vec<SerialValue>) -> (r: Result<SchemaObject, DbError>)
        ensures
            match (r, schema_of(values_view(cell@))) {
                (Ok(o), Ok(m)) => o@ == m,
                (Err(e), Err(f)) => e == f,
                _ => false,
            },
    {
        let ghost cv = values_view(cell@);
        if cell.len() != 5 {
            return Err(DbError::Schema);
        }
        proof {
            assert(cv[0] == cell@[0]@ && cv[1] == cell@[1]@ && cv[2] == cell@[2]@);
            assert(cv[3] == cell@[3]@ && cv[4] == cell@[4]@);
        }
        let t = text_value(&cell[0]);
        let name = text_value(&cell[1]);
        let table_name = text_value(&cell[2]);
        let sql = text_value(&cell[4]);
        match (t, name, table_name, sql) {
            (Some(t), Some(name), Some(table_name), Some(sql)) => {
                let object_type = match ObjectType::from(t.as_str()) {
                    Ok(o) => o,
                    Err(e) => {
                        return Err(e);
                    },
                };
                let root_page = if cell[3].is_null() {
                    None
                } else {
                    match cell[3].as_usize() {
                        Some(u) if u >= 1 => Some(u),
                        _ => {
                            return Err(DbError::Schema);
                        },
                    }
                };
                Ok(SchemaObject { object_type, name, table_name, root_page, sql })
            },
            _ => Err(DbError::Schema),
        }
    }

    /// The column names of the table, from its CREATE TABLE statement.
    /// Unparsable SQL fails with [`DbError::Parse`]; another statement,
    /// with [`DbError::Schema`].
    pub fn column_order(&self) -> (r: Result<Vec<String>, DbError>)
        ensures
            match (r, columns_of(self.sql@)) {
                (Ok(cols), Ok(m)) => crate::sql::strings_view(cols@) == m,
                (Err(e), Err(f)) => e == f,
                _ => false,
            },
    {
        match sql_statement(self.sql.as_str()) {
            Err(e) => Err(e),
            Ok(Statement::CreateTable(c)) => Ok(c.columns),
            Ok(_) => Err(DbError::Schema),
        }
    }

    /// The column names of the table, for looking up column indexes.
    pub fn column_map(&self) -> (r: Result<ColumnMap, DbError>)
        ensures
            match (r, columns_of(self.sql@)) {
                (Ok(m), Ok(cols)) => crate::sql::strings_view(m.columns@) == cols,
                (Err(e), Err(f)) => e == f,
                _ => false,
            },
    {
        match self.column_order() {
            Ok(columns) => Ok(ColumnMap { columns }),
            Err(e) => Err(e),
        }
    }
}

} // verus!
