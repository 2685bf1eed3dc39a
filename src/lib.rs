//! A read-only reader for database files in the SQLite 3 format, with a
//! small SQL front end that answers SELECT queries over them.
//!
//! The layers, from the bytes up:
//! - [`bytes`]: big-endian integers and varints;
//! - [`header`]: the 100-byte file header;
//! - [`record`]: serial types, values and the four cell shapes;
//! - [`page`]: page headers, cell pointers and decoded pages;
//! - [`btree`]: table scans, index lookups and row-id-directed fetches;
//! - [`lexer`] and [`parser`]: the SQL dialect;
//! - [`schema`] and [`db`]: the schema catalog of an open file;
//! - [`render`] and [`sql_engine`]: planning, running and printing queries.
pub mod btree;
pub mod bytes;
pub mod db;
pub mod error;
pub mod header;
pub mod lexer;
pub mod page;
pub mod parser;
pub mod record;
pub mod render;
pub mod schema;
pub mod sql_engine;
