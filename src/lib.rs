//! A read-only query engine over single-file SQLite 3 databases.
//!
//! The library decodes the file header, B-tree pages, varints and record
//! payloads from an in-memory image of the database file, walks table and
//! index B-trees, parses the supported SQL subset and executes queries.
pub mod btree;
pub mod btree_page;
pub mod commands;
pub mod db_file;
pub mod db_header;
pub mod error;
pub mod query;
pub mod record;
pub mod schema_object;
pub mod serial_value;
pub mod sql;
pub mod text;
pub mod varint;

pub use varint::ReadVarint;
