//! The 100-byte database file header.
use vstd::prelude::*;
use crate::bytes::{be_value, bytes_at, read_u16, read_u32};
use crate::error::DbError;

verus! {

/// The journal mode that a file format version byte names.
#[derive(Debug, Clone, Copy, PartialEq, Eq, Structural)]
pub enum FileFormat {
    Legacy,
    Wal,
}

#[derive(Debug, Clone, Copy, PartialEq, Eq, Structural)]
pub enum SchemaFormat {
    One,
    Two,
    Three,
    Four,
}

#[derive(Debug, Clone, Copy, PartialEq, Eq, Structural)]
pub enum TextEncoding {
    Utf8,
    Utf16le,
    Utf16be,
}

/// The fields of the database file header.
#[derive(Debug, Clone, Copy, PartialEq, Eq, Structural)]
pub struct DbHeader {
    pub page_size: u32,
    pub file_format_write_version: FileFormat,
    pub file_format_read_version: FileFormat,
    pub reserved_space: u8,
    pub max_embedded_payload_fraction: u8,
    pub min_embedded_payload_fraction: u8,
    pub leaf_payload_fraction: u8,
    pub file_change_counter: u32,
    pub database_size_in_pages: u32,
    pub first_freelist_trunk_page: u32,
    pub number_of_freelist_pages: u32,
    pub schema_cookie: u32,
    pub schema_format: SchemaFormat,
    pub default_page_cache_size: u32,
    pub largest_root_btree_page_number: u32,
    pub text_encoding: TextEncoding,
    pub user_version: u32,
    pub incremental_vacuum_mode: bool,
    pub application_id: u32,
    pub version_valid_for: u32,
    pub sqlite_version_number: u32,
}

/// The 16 bytes that every database file starts with: "SQLite format 3\0".
pub open spec fn magic() -> Seq<u8> {
    seq![
        0x53u8, 0x51, 0x4c, 0x69, 0x74, 0x65, 0x20, 0x66, 0x6f, 0x72, 0x6d, 0x61, 0x74, 0x20,
        0x33, 0x00,
    ]
}

pub open spec fn file_format_of(b: u8) -> Option<FileFormat> {
    if b == 1 {
        Some(FileFormat::Legacy)
    } else if b == 2 {
        Some(FileFormat::Wal)
    } else {
        None
    }
}

pub open spec fn schema_format_of(n: nat) -> Option<SchemaFormat> {
    if n == 1 {
        Some(SchemaFormat::One)
    } else if n == 2 {
        Some(SchemaFormat::Two)
    } else if n == 3 {
        Some(SchemaFormat::Three)
    } else if n == 4 {
        Some(SchemaFormat::Four)
    } else {
        None
    }
}

pub open spec fn text_encoding_of(n: nat) -> Option<TextEncoding> {
    if n == 1 {
        Some(TextEncoding::Utf8)
    } else if n == 2 {
        Some(TextEncoding::Utf16le)
    } else if n == 3 {
        Some(TextEncoding::Utf16be)
    } else {
        None
    }
}

/// The big-endian four-byte value at `pos`.
pub open spec fn be32(b: Seq<u8>, pos: int) -> nat {
    be_value(bytes_at(b, pos, 4))
}

/// The page size that the two bytes at offset 16 give: 1 stands for 65536.
pub open spec fn page_size_of(b: Seq<u8>) -> u32 {
    let v = be_value(bytes_at(b, 16, 2));
    if v == 1 {
        65536
    } else {
        v as u32
    }
}

/// The first thing wrong with header bytes `b`, checked in the order they
/// are read: a short file, the magic string, the payload fractions, the
/// vacuum flags, then each named field.
pub open spec fn header_error(b: Seq<u8>) -> Option<DbError> {
    if b.len() < 16 {
        Some(DbError::ShortRead)
    } else if b.subrange(0, 16) != magic() {
        Some(DbError::BadMagic)
    } else if b.len() < 100 {
        Some(DbError::ShortRead)
    } else if b[21] != 64 || b[22] != 32 || b[23] != 32 {
        Some(DbError::BadPayloadFractions)
    } else if be32(b, 52) == 0 && be32(b, 64) != 0 {
        Some(DbError::BadVacuumMode)
    } else if file_format_of(b[18]) is None || file_format_of(b[19]) is None {
        Some(DbError::BadFileFormat)
    } else if schema_format_of(be32(b, 44)) is None {
        Some(DbError::BadSchemaFormat)
    } else if text_encoding_of(be32(b, 56)) is None {
        Some(DbError::BadTextEncoding)
    } else {
        None
    }
}

/// The header that well-formed header bytes `b` describe.
pub open spec fn header_of(b: Seq<u8>) -> DbHeader {
    DbHeader {
        page_size: page_size_of(b),
        file_format_write_version: file_format_of(b[18])->Some_0,
        file_format_read_version: file_format_of(b[19])->Some_0,
        reserved_space: b[20],
        max_embedded_payload_fraction: b[21],
        min_embedded_payload_fraction: b[22],
        leaf_payload_fraction: b[23],
        file_change_counter: be32(b, 24) as u32,
        database_size_in_pages: be32(b, 28) as u32,
        first_freelist_trunk_page: be32(b, 32) as u32,
        number_of_freelist_pages: be32(b, 36) as u32,
        schema_cookie: be32(b, 40) as u32,
        schema_format: schema_format_of(be32(b, 44))->Some_0,
        default_page_cache_size: be32(b, 48) as u32,
        largest_root_btree_page_number: be32(b, 52) as u32,
        text_encoding: text_encoding_of(be32(b, 56))->Some_0,
        user_version: be32(b, 60) as u32,
        incremental_vacuum_mode: be32(b, 64) != 0,
        application_id: be32(b, 68) as u32,
        version_valid_for: be32(b, 92) as u32,
        sqlite_version_number: be32(b, 96) as u32,
    }
}

/// Reading a header succeeds exactly on well-formed header bytes; a wrong
/// magic string and wrong payload fractions are each reported as such; the
/// page-size value 1 stands for 65536.
pub proof fn lemma_header_checks(b: Seq<u8>)
    requires
        b.len() >= 100,
    ensures
        header_error(b) is None <==> (b.subrange(0, 16) == magic() && b[21] == 64 && b[22] == 32
            && b[23] == 32 && !(be32(b, 52) == 0 && be32(b, 64) != 0) && file_format_of(b[18]) is Some
            && file_format_of(b[19]) is Some && schema_format_of(be32(b, 44)) is Some
            && text_encoding_of(be32(b, 56)) is Some),
        b.subrange(0, 16) != magic() ==> header_error(b) == Some(DbError::BadMagic),
        b.subrange(0, 16) == magic() && (b[21] != 64 || b[22] != 32 || b[23] != 32) ==> header_error(b)
            == Some(DbError::BadPayloadFractions),
        b[16] == 0 && b[17] == 1 ==> header_of(b).page_size == 65536,
{
    reveal_with_fuel(be_value, 3);
    assert(bytes_at(b, 16, 2).drop_last() =~= seq![b[16]]);
    assert(seq![b[16]].drop_last() =~= Seq::<u8>::empty());
}

impl FileFormat {
    pub fn from_byte(b: u8) -> (r: Option<FileFormat>)
        ensures
            r == file_format_of(b),
    {
        if b == 1 {
            Some(FileFormat::Legacy)
        } else if b == 2 {
            Some(FileFormat::Wal)
        } else {
            None
        }
    }
}

impl SchemaFormat {
    pub fn from_u32(n: u32) -> (r: Option<SchemaFormat>)
        ensures
            r == schema_format_of(n as nat),
    {
        if n == 1 {
            Some(SchemaFormat::One)
        } else if n == 2 {
            Some(SchemaFormat::Two)
        } else if n == 3 {
            Some(SchemaFormat::Three)
        } else if n == 4 {
            Some(SchemaFormat::Four)
        } else {
            None
        }
    }
}

impl TextEncoding {
    pub fn from_u32(n: u32) -> (r: Option<TextEncoding>)
        ensures
            r == text_encoding_of(n as nat),
    {
        if n == 1 {
            Some(TextEncoding::Utf8)
        } else if n == 2 {
            Some(TextEncoding::Utf16le)
        } else if n == 3 {
            Some(TextEncoding::Utf16be)
        } else {
            None
        }
    }
}

/// Whether the first 16 bytes are the magic string.
fn has_magic(b: &[u8]) -> (r: bool)
    requires
        b@.len() >= 16,
    ensures
        r == (b@.subrange(0, 16) == magic()),
{
    let m: [u8; 16] = [
        0x53, 0x51, 0x4c, 0x69, 0x74, 0x65, 0x20, 0x66, 0x6f, 0x72, 0x6d, 0x61, 0x74, 0x20, 0x33,
        0x00,
    ];
    assert(m@ =~= magic());
    let mut i: usize = 0;
    while i < 16
        invariant
            i <= 16,
            b@.len() >= 16,
            m@ == magic(),
            forall|j: int| 0 <= j < i ==> b@[j] == magic()[j],
        decreases 16 - i,
    {
        if b[i] != m[i] {
            proof {
                assert(b@.subrange(0, 16)[i as int] != magic()[i as int]);
            }
            return false;
        }
        i = i + 1;
    }
    assert(b@.subrange(0, 16) =~= magic());
    true
}

impl DbHeader {
    /// Reads the database header from the first 100 bytes of the file.
    pub fn parse(b: &[u8]) -> (r: Result<DbHeader, DbError>)
        ensures
            match header_error(b@) {
                Some(e) => r == Err::<DbHeader, DbError>(e),
                None => r == Ok::<DbHeader, DbError>(header_of(b@)),
            },
    {
        if b.len() < 16 {
            return Err(DbError::ShortRead);
        }
        if !has_magic(b) {
            return Err(DbError::BadMagic);
        }
        if b.len() < 100 {
            return Err(DbError::ShortRead);
        }
        let raw_page_size = read_u16(b, 16).unwrap();
        let page_size: u32 = if raw_page_size == 1 {
            65536
        } else {
            raw_page_size as u32
        };
        let write_version = b[18];
        let read_version = b[19];
        let reserved_space = b[20];
        let max_embedded_payload_fraction = b[21];
        let min_embedded_payload_fraction = b[22];
        let leaf_payload_fraction = b[23];
        if max_embedded_payload_fraction != 64 || min_embedded_payload_fraction != 32
            || leaf_payload_fraction != 32 {
            return Err(DbError::BadPayloadFractions);
        }
        let file_change_counter = read_u32(b, 24).unwrap();
        let database_size_in_pages = read_u32(b, 28).unwrap();
        let first_freelist_trunk_page = read_u32(b, 32).unwrap();
        let number_of_freelist_pages = read_u32(b, 36).unwrap();
        let schema_cookie = read_u32(b, 40).unwrap();
        let schema_format_number = read_u32(b, 44).unwrap();
        let default_page_cache_size = read_u32(b, 48).unwrap();
        let largest_root_btree_page_number = read_u32(b, 52).unwrap();
        let text_encoding_number = read_u32(b, 56).unwrap();
        let user_version = read_u32(b, 60).unwrap();
        let vacuum = read_u32(b, 64).unwrap();
        let incremental_vacuum_mode = vacuum != 0;
        if largest_root_btree_page_number == 0 && incremental_vacuum_mode {
            return Err(DbError::BadVacuumMode);
        }
        let application_id = read_u32(b, 68).unwrap();
        let version_valid_for = read_u32(b, 92).unwrap();
        let sqlite_version_number = read_u32(b, 96).unwrap();
        let file_format_write_version = match FileFormat::from_byte(write_version) {
            Some(f) => f,
            None => {
                return Err(DbError::BadFileFormat);
            },
        };
        let file_format_read_version = match FileFormat::from_byte(read_version) {
            Some(f) => f,
            None => {
                return Err(DbError::BadFileFormat);
            },
        };
        let schema_format = match SchemaFormat::from_u32(schema_format_number) {
            Some(f) => f,
            None => {
                return Err(DbError::BadSchemaFormat);
            },
        };
        let text_encoding = match TextEncoding::from_u32(text_encoding_number) {
            Some(f) => f,
            None => {
                return Err(DbError::BadTextEncoding);
            },
        };
        Ok(
            DbHeader {
                page_size,
                file_format_write_version,
                file_format_read_version,
                reserved_space,
                max_embedded_payload_fraction,
                min_embedded_payload_fraction,
                leaf_payload_fraction,
                file_change_counter,
                database_size_in_pages,
                first_freelist_trunk_page,
                number_of_freelist_pages,
                schema_cookie,
                schema_format,
                default_page_cache_size,
                largest_root_btree_page_number,
                text_encoding,
                user_version,
                incremental_vacuum_mode,
                application_id,
                version_valid_for,
                sqlite_version_number,
            },
        )
    }
}

} // verus!
