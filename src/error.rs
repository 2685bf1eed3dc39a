//! Errors of the reader and of the query engine.
use vstd::prelude::*;

verus! {

/// Why a parse of the SQL text failed: the position of the offending token.
#[derive(Debug, Clone, Copy, PartialEq, Eq, Structural)]
pub enum ParseError {
    UnexpectedToken(usize),
}

/// Everything that can go wrong while reading a database or answering a query.
#[derive(Debug, Clone, Copy, PartialEq, Eq, Structural)]
pub enum DbError {
    /// A read past the end of the file or of a record.
    ShortRead,
    /// The file does not start with the SQLite magic string.
    BadMagic,
    /// The payload fractions are not 64, 32 and 32.
    BadPayloadFractions,
    /// A file format version other than 1 or 2.
    BadFileFormat,
    /// A schema format other than 1 to 4.
    BadSchemaFormat,
    /// A text encoding other than 1 to 3.
    BadTextEncoding,
    /// Incremental vacuum is set without a largest root page.
    BadVacuumMode,
    /// A page type byte other than 2, 5, 10 or 13.
    BadPageType,
    /// A page of the wrong kind for where it was reached.
    WrongPageKind,
    /// A page number outside the file.
    BadPageNumber,
    /// A page that is reached again below itself.
    PageCycle,
    /// Serial type 10 or 11.
    BadSerialType,
    /// A record header that is longer than its record or shorter than its length field.
    BadRecordHeader,
    /// Text that is not valid UTF-8.
    BadText,
    /// An index entry whose last value is not a row id.
    BadIndexEntry,
    /// A schema row that is not made of the expected columns.
    BadSchemaRow,
    /// The schema text of a table or index could not be read.
    BadSchemaSql,
    /// The SQL text could not be split into tokens.
    Lex(crate::lexer::LexError),
    /// The SQL text does not follow the grammar.
    Parse(ParseError),
    /// A statement or expression that the engine does not run.
    Unsupported,
    /// No table of that name.
    NoSuchTable,
    /// No column of that name in the table.
    NoSuchColumn,
}

} // verus!
