//! The 100-byte header at the start of a database file.
use vstd::prelude::*;

use crate::error::DbError;
use crate::serial_value::{be_uint, lemma_pow256_values, read_be};

verus! {

/// The size of the database header in bytes.
pub const HEADER_SIZE: usize = 100;

/// The header string every database file starts with: "SQLite format 3" and a NUL.
pub open spec fn magic() -> Seq<u8> {
    seq![
        0x53u8, 0x51, 0x4c, 0x69, 0x74, 0x65, 0x20, 0x66, 0x6f, 0x72, 0x6d, 0x61, 0x74, 0x20,
        0x33, 0x00,
    ]
}

/// The big-endian unsigned integer of `n` bytes at offset `off` of `b`.
pub open spec fn field(b: Seq<u8>, off: int, n: nat) -> nat {
    be_uint(b.subrange(off, b.len() as int), n)
}

/// Whether `raw`, the two-byte page size field, is a valid page size: a
/// power of two from 512 to 32768, or 1 for 65536.
pub open spec fn valid_page_size_field(raw: nat) -> bool {
    raw == 1 || raw == 512 || raw == 1024 || raw == 2048 || raw == 4096 || raw == 8192 || raw
        == 16384 || raw == 32768
}

/// The page size that the two-byte field `raw` stands for.
pub open spec fn page_size_of(raw: nat) -> nat {
    if raw == 1 {
        65536
    } else {
        raw
    }
}

/// Whether `b` starts with a database header this library can read: the
/// header string, a valid page size and a text encoding that is not UTF-16.
pub open spec fn header_ok(b: Seq<u8>) -> bool {
    &&& b.len() >= 100
    &&& b.subrange(0, 16) == magic()
    &&& valid_page_size_field(field(b, 16, 2))
    &&& field(b, 56, 4) != 2 && field(b, 56, 4) != 3
}

/// The fields of the database header.
#[derive(Debug, Clone, Copy)]
pub struct DBHeader {
    /// The raw page size field; 1 stands for 65536.
    pub page_size_field: u16,
    /// File format write version: 1 for legacy, 2 for WAL.
    pub write_version: u8,
    /// File format read version: 1 for legacy, 2 for WAL.
    pub read_version: u8,
    /// Bytes of unused space at the end of each page.
    pub page_reserved_bytes: u8,
    /// The file change counter.
    pub file_change_counter: u32,
    /// The size of the database file in pages.
    pub in_header_db_size: u32,
    /// The schema cookie.
    pub schema_cookie: u32,
    /// The schema format number.
    pub schema_format_number: u32,
    /// The text encoding: 1 for UTF-8, 2 for UTF-16le, 3 for UTF-16be.
    pub db_text_encoding: u32,
    /// The SQLite version number that last wrote the file.
    pub version_number: u32,
}

impl DBHeader {
    /// Whether the fields are those of the header at the start of `b`.
    pub open spec fn decodes(&self, b: Seq<u8>) -> bool {
        &&& self.page_size_field as nat == field(b, 16, 2)
        &&& self.write_version as nat == field(b, 18, 1)
        &&& self.read_version as nat == field(b, 19, 1)
        &&& self.page_reserved_bytes as nat == field(b, 20, 1)
        &&& self.file_change_counter as nat == field(b, 24, 4)
        &&& self.in_header_db_size as nat == field(b, 28, 4)
        &&& self.schema_cookie as nat == field(b, 40, 4)
        &&& self.schema_format_number as nat == field(b, 44, 4)
        &&& self.db_text_encoding as nat == field(b, 56, 4)
        &&& self.version_number as nat == field(b, 96, 4)
    }

    /// The page size in bytes.
    pub open spec fn spec_page_size(&self) -> nat {
        page_size_of(self.page_size_field as nat)
    }

    /// Decodes the header at the start of `data`. Fails with
    /// [`DbError::Header`] when `data` is shorter than the header, does not
    /// start with the header string, gives an invalid page size, or declares
    /// a UTF-16 text encoding.
    pub fn from_bytes(data: &[u8]) -> (r: Result<DBHeader, DbError>)
        ensures
            header_ok(data@) ==> (r matches Ok(h) && h.decodes(data@)),
            !header_ok(data@) ==> r == Err::<DBHeader, DbError>(DbError::Header),
    {
        proof {
            lemma_pow256_values();
        }
        if data.len() < HEADER_SIZE {
            return Err(DbError::Header);
        }
        let expected: [u8; 16] = [
            0x53, 0x51, 0x4c, 0x69, 0x74, 0x65, 0x20, 0x66, 0x6f, 0x72, 0x6d, 0x61, 0x74, 0x20,
            0x33, 0x00,
        ];
        let mut i: usize = 0;
        while i < 16
            invariant
                i <= 16,
                data@.len() >= 100,
                expected@ == magic(),
                forall|j: int| 0 <= j < i ==> data@[j] == magic()[j],
            decreases 16 - i,
        {
            if data[i] != expected[i] {
                proof {
                    assert(data@.subrange(0, 16)[i as int] != magic()[i as int]);
                }
                return Err(DbError::Header);
            }
            i = i + 1;
        }
        proof {
            assert(data@.subrange(0, 16) == magic());
        }
        let page_size_field = read_be(data, 16, 2) as u16;
        if !(page_size_field == 1 || page_size_field == 512 || page_size_field == 1024
            || page_size_field == 2048 || page_size_field == 4096 || page_size_field == 8192
            || page_size_field == 16384 || page_size_field == 32768) {
            return Err(DbError::Header);
        }
        let db_text_encoding = read_be(data, 56, 4) as u32;
        if db_text_encoding == 2 || db_text_encoding == 3 {
            return Err(DbError::Header);
        }
        Ok(DBHeader {
            page_size_field,
            write_version: read_be(data, 18, 1) as u8,
            read_version: read_be(data, 19, 1) as u8,
            page_reserved_bytes: read_be(data, 20, 1) as u8,
            file_change_counter: read_be(data, 24, 4) as u32,
            in_header_db_size: read_be(data, 28, 4) as u32,
            schema_cookie: read_be(data, 40, 4) as u32,
            schema_format_number: read_be(data, 44, 4) as u32,
            db_text_encoding,
            version_number: read_be(data, 96, 4) as u32,
        })
    }

    /// The page size in bytes, with the field value 1 read as 65536.
    pub fn page_size(&self) -> (r: u32)
        ensures
            r as nat == self.spec_page_size(),
    {
        if self.page_size_field == 1 {
            65536
        } else {
            self.page_size_field as u32
        }
    }
}

} // verus!
