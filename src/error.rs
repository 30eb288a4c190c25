use vstd::prelude::*;

verus! {

/// The kinds of failure that an operation of this library can report.
#[derive(Debug, Clone, Copy, PartialEq, Eq, Structural)]
pub enum DbError {
    /// Missing command-line arguments.
    InvalidArguments,
    /// A read past the end of the database image.
    Io,
    /// Wrong magic string, invalid page size or truncated header.
    Header,
    /// Unknown page kind, cell pointer out of range, inconsistent record header.
    Page,
    /// Reserved serial type, invalid UTF-8, or a record that needs overflow pages.
    Record,
    /// Unknown schema object type or malformed schema row.
    Schema,
    /// SQL text outside the supported grammar.
    Parse,
    /// Unknown table or column, or an unsupported statement.
    Query,
    /// An index names a row-id that its table does not hold.
    Consistency,
}

} // verus!
