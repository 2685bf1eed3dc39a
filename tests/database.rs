use sqlite_reader::bytes::read_varint;
use sqlite_reader::db::Db;
use sqlite_reader::error::DbError;
use sqlite_reader::header::{DbHeader, TextEncoding};
use sqlite_reader::record::{DataType, Value};
use sqlite_reader::render::{decimal_string, render_value};
use sqlite_reader::sql_engine::SqlEngine;

enum Col<'a> {
    Int(i64),
    Text(&'a str),
    Null,
}

fn varint(v: u64) -> Vec<u8> {
    let mut groups = vec![(v & 0x7f) as u8];
    let mut rest = v >> 7;
    while rest > 0 {
        groups.push(((rest & 0x7f) as u8) | 0x80);
        rest >>= 7;
    }
    groups.reverse();
    groups
}

fn record(cols: &[Col]) -> Vec<u8> {
    let mut types = Vec::new();
    let mut body = Vec::new();
    for c in cols {
        match c {
            Col::Null => types.push(0u8),
            Col::Int(n) => {
                if *n >= -128 && *n <= 127 {
                    types.push(1);
                    body.push(*n as i8 as u8);
                } else {
                    types.push(6);
                    body.extend_from_slice(&n.to_be_bytes());
                }
            }
            Col::Text(s) => {
                types.extend(varint(13 + 2 * s.len() as u64));
                body.extend_from_slice(s.as_bytes());
            }
        }
    }
    let mut out = vec![(types.len() + 1) as u8];
    out.extend(types);
    out.extend(body);
    out
}

fn table_leaf_cell(row_id: u64, cols: &[Col]) -> Vec<u8> {
    let payload = record(cols);
    let mut out = varint(payload.len() as u64);
    out.extend(varint(row_id));
    out.extend(payload);
    out
}

fn table_interior_cell(left: u32, key: u64) -> Vec<u8> {
    let mut out = left.to_be_bytes().to_vec();
    out.extend(varint(key));
    out
}

fn index_leaf_cell(cols: &[Col]) -> Vec<u8> {
    let payload = record(cols);
    let mut out = varint(payload.len() as u64);
    out.extend(payload);
    out
}

fn index_interior_cell(left: u32, cols: &[Col]) -> Vec<u8> {
    let payload = record(cols);
    let mut out = left.to_be_bytes().to_vec();
    out.extend(varint(payload.len() as u64));
    out.extend(payload);
    out
}

fn page(page_size: usize, first: bool, kind: u8, cells: &[Vec<u8>], right: Option<u32>) -> Vec<u8> {
    let mut buf = vec![0u8; page_size];
    let h = if first { 100 } else { 0 };
    let hl = if right.is_some() { 12 } else { 8 };
    let mut end = page_size;
    let mut pointers = Vec::new();
    for c in cells {
        end -= c.len();
        buf[end..end + c.len()].copy_from_slice(c);
        pointers.push(end as u16);
    }
    buf[h] = kind;
    buf[h + 3..h + 5].copy_from_slice(&(cells.len() as u16).to_be_bytes());
    buf[h + 5..h + 7].copy_from_slice(&(end as u16).to_be_bytes());
    if let Some(r) = right {
        buf[h + 8..h + 12].copy_from_slice(&r.to_be_bytes());
    }
    for (k, p) in pointers.iter().enumerate() {
        let at = h + hl + 2 * k;
        buf[at..at + 2].copy_from_slice(&p.to_be_bytes());
    }
    buf
}

fn file_header(page_size_field: u16, n_pages: u32) -> Vec<u8> {
    let mut h = vec![0u8; 100];
    h[..16].copy_from_slice(b"SQLite format 3\0");
    h[16..18].copy_from_slice(&page_size_field.to_be_bytes());
    h[18] = 1;
    h[19] = 1;
    h[21] = 64;
    h[22] = 32;
    h[23] = 32;
    h[28..32].copy_from_slice(&n_pages.to_be_bytes());
    h[44..48].copy_from_slice(&4u32.to_be_bytes());
    h[56..60].copy_from_slice(&1u32.to_be_bytes());
    h[96..100].copy_from_slice(&3045001u32.to_be_bytes());
    h
}

fn database(page_size_field: u16, pages: Vec<Vec<u8>>) -> Vec<u8> {
    let n = pages.len() as u32;
    let mut out: Vec<u8> = pages.into_iter().flatten().collect();
    out[..100].copy_from_slice(&file_header(page_size_field, n));
    out
}

fn schema_row(row_id: u64, kind: &str, name: &str, table: &str, root: i64, sql: &str) -> Vec<u8> {
    table_leaf_cell(
        row_id,
        &[Col::Text(kind), Col::Text(name), Col::Text(table), Col::Int(root), Col::Text(sql)],
    )
}

const APPLES_SQL: &str =
    "CREATE TABLE apples\n(\n\tid integer primary key autoincrement,\n\tname text,\n\tcolor text\n)";
const ORANGES_SQL: &str =
    "CREATE TABLE oranges\n(\n\tid integer primary key autoincrement,\n\tname text,\n\tdescription text\n)";

/// A 4096-byte-page file with the tables apples, oranges and sqlite_sequence.
fn sample_db(apples: &[(u64, &str, &str)]) -> Vec<u8> {
    let ps = 4096;
    let master = page(
        ps,
        true,
        0x0d,
        &[
            schema_row(1, "table", "apples", "apples", 2, APPLES_SQL),
            schema_row(2, "table", "oranges", "oranges", 4, ORANGES_SQL),
            schema_row(3, "table", "sqlite_sequence", "sqlite_sequence", 3, "CREATE TABLE sqlite_sequence(name,seq)"),
        ],
        None,
    );
    let apple_cells: Vec<Vec<u8>> = apples
        .iter()
        .map(|(id, name, color)| table_leaf_cell(*id, &[Col::Null, Col::Text(name), Col::Text(color)]))
        .collect();
    let apples_page = page(ps, false, 0x0d, &apple_cells, None);
    let seq_page = page(
        ps,
        false,
        0x0d,
        &[
            table_leaf_cell(1, &[Col::Text("apples"), Col::Int(apples.len() as i64)]),
            table_leaf_cell(2, &[Col::Text("oranges"), Col::Int(2)]),
        ],
        None,
    );
    let oranges_page = page(
        ps,
        false,
        0x0d,
        &[
            table_leaf_cell(1, &[Col::Null, Col::Text("Mandarin"), Col::Text("great for snacking")]),
            table_leaf_cell(2, &[Col::Null, Col::Text("Tangelo"), Col::Text("sweet and tart")]),
        ],
        None,
    );
    database(4096, vec![master, apples_page, seq_page, oranges_page])
}

const FOUR_APPLES: [(u64, &str, &str); 4] = [
    (1, "Granny Smith", "Light Green"),
    (2, "Fuji", "Red"),
    (3, "Honeycrisp", "Blush Red"),
    (4, "Golden", "Yellow"),
];

const HEROES: [(u64, &str, &str); 6] = [
    (1, "Abe", "Blue Eyes"),
    (2, "Bo", "Pink Eyes"),
    (3, "Cy", "Green Eyes"),
    (4, "Di", "Pink Eyes"),
    (5, "Ed", "Blue Eyes"),
    (6, "Fay", "Pink Eyes"),
];

/// A file whose superheroes table spans two leaves under an interior root,
/// with (when `with_index`) an index on eye_color that spans three leaves.
fn entry(eyes: &'static str, id: i64) -> Vec<Col<'static>> {
    vec![Col::Text(eyes), Col::Int(id)]
}

fn superheroes_db(with_index: bool) -> Vec<u8> {
    let ps = 1024;
    let table_sql = "CREATE TABLE \"superheroes\" (id integer primary key autoincrement, name text not null, eye_color text)";
    let mut rows = vec![
        schema_row(1, "table", "superheroes", "superheroes", 2, table_sql),
        schema_row(2, "table", "sqlite_sequence", "sqlite_sequence", 9, "CREATE TABLE sqlite_sequence(name,seq)"),
    ];
    if with_index {
        rows.push(schema_row(
            3,
            "index",
            "idx_superheroes_eye_color",
            "superheroes",
            5,
            "CREATE INDEX idx_superheroes_eye_color on superheroes (eye_color)",
        ));
    }
    let master = page(ps, true, 0x0d, &rows, None);
    let hero = |k: usize| {
        let (id, name, eyes) = HEROES[k];
        table_leaf_cell(id, &[Col::Null, Col::Text(name), Col::Text(eyes)])
    };
    let root = page(ps, false, 0x05, &[table_interior_cell(3, 3)], Some(4));
    let left = page(ps, false, 0x0d, &[hero(0), hero(1), hero(2)], None);
    let right = page(ps, false, 0x0d, &[hero(3), hero(4), hero(5)], None);
    let index_root = page(
        ps,
        false,
        0x02,
        &[
            index_interior_cell(6, &entry("Green Eyes", 3)),
            index_interior_cell(7, &entry("Pink Eyes", 4)),
        ],
        Some(8),
    );
    let index_a = page(
        ps,
        false,
        0x0a,
        &[index_leaf_cell(&entry("Blue Eyes", 1)), index_leaf_cell(&entry("Blue Eyes", 5))],
        None,
    );
    let index_b = page(ps, false, 0x0a, &[index_leaf_cell(&entry("Pink Eyes", 2))], None);
    let index_c = page(ps, false, 0x0a, &[index_leaf_cell(&entry("Pink Eyes", 6))], None);
    let seq_page = page(ps, false, 0x0d, &[table_leaf_cell(1, &[Col::Text("superheroes"), Col::Int(6)])], None);
    database(1024, vec![master, root, left, right, index_root, index_a, index_b, index_c, seq_page])
}

fn run(bytes: Vec<u8>, sql: &str) -> Result<Vec<String>, DbError> {
    let db = Db::new(bytes).unwrap();
    db.run_sql_command(sql)
}

#[test]
fn dbinfo_reports_page_size_and_tables() {
    let db = Db::new(sample_db(&FOUR_APPLES)).unwrap();
    assert_eq!(db.page_size(), 4096);
    assert_eq!(db.table_names().len(), 3);
}

#[test]
fn tables_lists_names_in_catalog_order() {
    let db = Db::new(sample_db(&FOUR_APPLES)).unwrap();
    assert_eq!(db.table_names().join(" "), "apples oranges sqlite_sequence");
}

#[test]
fn count_rows_of_apples() {
    assert_eq!(run(sample_db(&FOUR_APPLES), "SELECT COUNT(*) FROM apples").unwrap(), vec!["4"]);
}

#[test]
fn select_two_columns() {
    let two = [(1, "Granny", "Light Green"), (2, "Fuji", "Red")];
    assert_eq!(
        run(sample_db(&two), "SELECT name, color FROM apples").unwrap(),
        vec!["Granny|Light Green", "Fuji|Red"]
    );
}

#[test]
fn select_with_where_filter() {
    assert_eq!(
        run(sample_db(&FOUR_APPLES), "SELECT name FROM apples WHERE color = 'Yellow'").unwrap(),
        vec!["Golden"]
    );
}

#[test]
fn index_lookup_matches_full_scan() {
    let sql = "SELECT id, name FROM superheroes WHERE eye_color = 'Pink Eyes'";
    let by_index = run(superheroes_db(true), sql).unwrap();
    let by_scan = run(superheroes_db(false), sql).unwrap();
    assert_eq!(by_index, vec!["2|Bo", "4|Di", "6|Fay"]);
    assert_eq!(by_index, by_scan);
}

#[test]
fn index_lookup_for_absent_key_is_empty() {
    let sql = "SELECT id FROM superheroes WHERE eye_color = 'Red Eyes'";
    assert!(run(superheroes_db(true), sql).unwrap().is_empty());
    assert!(run(superheroes_db(false), sql).unwrap().is_empty());
}

#[test]
fn index_lookup_for_first_leaf_key() {
    let sql = "SELECT name FROM superheroes WHERE eye_color = 'Blue Eyes'";
    assert_eq!(run(superheroes_db(true), sql).unwrap(), vec!["Abe", "Ed"]);
}

#[test]
fn multi_page_table_scans_every_leaf_once() {
    let out = run(superheroes_db(false), "SELECT id FROM superheroes").unwrap();
    assert_eq!(out, vec!["1", "2", "3", "4", "5", "6"]);
}

#[test]
fn same_query_twice_gives_same_output() {
    let db = Db::new(superheroes_db(true)).unwrap();
    let sql = "SELECT id, name FROM superheroes WHERE eye_color = 'Pink Eyes'";
    assert_eq!(db.run_sql_command(sql).unwrap(), db.run_sql_command(sql).unwrap());
}

#[test]
fn empty_table_counts_zero() {
    let db = Db::new(sample_db(&[])).unwrap();
    assert_eq!(db.run_sql_command("SELECT COUNT(*) FROM apples").unwrap(), vec!["0"]);
    assert!(db.run_sql_command("SELECT name FROM apples").unwrap().is_empty());
}

#[test]
fn select_id_gives_row_ids() {
    let rows = [(7, "Granny", "Light Green"), (9, "Fuji", "Red")];
    assert_eq!(run(sample_db(&rows), "SELECT id FROM apples").unwrap(), vec!["7", "9"]);
}

#[test]
fn select_star_expands_columns() {
    let two = [(1, "Granny", "Light Green"), (2, "Fuji", "Red")];
    assert_eq!(
        run(sample_db(&two), "SELECT * FROM apples;").unwrap(),
        vec!["NULL|Granny|Light Green", "NULL|Fuji|Red"]
    );
}

#[test]
fn count_with_where() {
    let sql = "SELECT COUNT(*) FROM superheroes WHERE eye_color = 'Pink Eyes'";
    assert_eq!(run(superheroes_db(true), sql).unwrap(), vec!["3"]);
}

#[test]
fn page_size_one_means_65536() {
    let ps = 65536;
    let master = page(
        ps,
        true,
        0x0d,
        &[schema_row(1, "table", "t", "t", 2, "CREATE TABLE t (id integer primary key, v text)")],
        None,
    );
    let t = page(ps, false, 0x0d, &[table_leaf_cell(1, &[Col::Null, Col::Text("big")])], None);
    let bytes = database(1, vec![master, t]);
    let header = DbHeader::parse(&bytes).unwrap();
    assert_eq!(header.page_size, 65536);
    assert_eq!(header.text_encoding, TextEncoding::Utf8);
    let db = Db::new(bytes).unwrap();
    assert_eq!(db.page_size(), 65536);
    assert_eq!(db.run_sql_command("SELECT v FROM t").unwrap(), vec!["big"]);
}

#[test]
fn header_rejects_bad_magic() {
    let mut bytes = sample_db(&FOUR_APPLES);
    bytes[0] = b's';
    assert_eq!(DbHeader::parse(&bytes), Err(DbError::BadMagic));
    assert!(Db::new(bytes).is_err());
}

#[test]
fn header_rejects_bad_payload_fraction() {
    let mut bytes = sample_db(&FOUR_APPLES);
    bytes[22] = 33;
    assert_eq!(DbHeader::parse(&bytes), Err(DbError::BadPayloadFractions));
}

#[test]
fn header_rejects_short_file() {
    let bytes = sample_db(&FOUR_APPLES);
    assert_eq!(DbHeader::parse(&bytes[..50]), Err(DbError::ShortRead));
}

#[test]
fn header_rejects_unknown_text_encoding() {
    let mut bytes = sample_db(&FOUR_APPLES);
    bytes[59] = 4;
    assert_eq!(DbHeader::parse(&bytes), Err(DbError::BadTextEncoding));
}

#[test]
fn header_rejects_vacuum_without_root() {
    let mut bytes = sample_db(&FOUR_APPLES);
    bytes[67] = 1;
    assert_eq!(DbHeader::parse(&bytes), Err(DbError::BadVacuumMode));
}

#[test]
fn unknown_table_is_an_error() {
    assert_eq!(run(sample_db(&FOUR_APPLES), "SELECT name FROM pears"), Err(DbError::NoSuchTable));
}

#[test]
fn unknown_column_is_an_error() {
    assert_eq!(run(sample_db(&FOUR_APPLES), "SELECT taste FROM apples"), Err(DbError::NoSuchColumn));
}

#[test]
fn create_statement_is_not_run() {
    assert_eq!(
        run(sample_db(&FOUR_APPLES), "CREATE TABLE t (a text)"),
        Err(DbError::Unsupported)
    );
}

#[test]
fn cyclic_tree_is_detected() {
    let ps = 512;
    let master = page(ps, true, 0x0d, &[schema_row(1, "table", "t", "t", 2, "CREATE TABLE t (a text)")], None);
    let root = page(ps, false, 0x05, &[table_interior_cell(2, 5)], Some(2));
    let db = Db::new(database(512, vec![master, root])).unwrap();
    assert_eq!(db.run_sql_command("SELECT a FROM t"), Err(DbError::PageCycle));
}

#[test]
fn engine_runs_statement_lists() {
    let db = Db::new(sample_db(&FOUR_APPLES)).unwrap();
    let engine = SqlEngine::new();
    let out = engine
        .execute("SELECT COUNT(*) FROM apples; SELECT name FROM oranges;", &db)
        .unwrap();
    assert_eq!(out, vec!["4", "Mandarin", "Tangelo"]);
}

#[test]
fn varint_decodes_one_and_two_bytes() {
    assert_eq!(read_varint(&[0x7f], 0), Some((127, 1)));
    assert_eq!(read_varint(&[0x81, 0x00], 0), Some((128, 2)));
    assert_eq!(read_varint(&[0x81, 0x80, 0x00], 0), Some((16384, 3)));
    assert_eq!(read_varint(&[0x81], 0), None);
}

#[test]
fn varint_nine_bytes_uses_all_bits() {
    let bytes = [0xff; 9];
    assert_eq!(read_varint(&bytes, 0), Some((u64::MAX, 9)));
}

#[test]
fn varint_round_trip_values() {
    for v in [0u64, 1, 127, 128, 300, 1 << 20, (1 << 56) - 1] {
        let e = varint(v);
        assert_eq!(read_varint(&e, 0), Some((v, e.len())));
    }
}

#[test]
fn serial_types_decode_values() {
    let data = [0xff, 0xfe, 0x00, 0x01, b'h', b'i', 0xff];
    assert_eq!(DataType::Int16.parse(&data, 0), Ok((Value::Int(-2), 2)));
    assert_eq!(DataType::Int24.parse(&data, 0), Ok((Value::Int(-512), 3)));
    assert_eq!(DataType::from_serial(17), Some(DataType::Text(2)));
    assert_eq!(DataType::Text(2).parse(&data, 4), Ok((Value::Text("hi".to_string()), 6)));
    assert_eq!(DataType::Blob(1).parse(&data, 6), Ok((Value::Blob(vec![0xff]), 7)));
    assert_eq!(DataType::Text(1).parse(&data, 6), Err(DbError::BadText));
    assert_eq!(DataType::Int64.parse(&data, 0), Err(DbError::ShortRead));
    assert_eq!(DataType::from_serial(10), None);
    assert_eq!(DataType::One.parse(&data, 3), Ok((Value::Int(1), 3)));
}

#[test]
fn values_compare_by_raw_bytes() {
    assert_eq!(Value::Int(0x41).as_bytes(), vec![0, 0, 0, 0, 0, 0, 0, 0x41]);
    assert_eq!(Value::Int(-1).as_bytes(), vec![0xff; 8]);
    assert_eq!(Value::Text("A".to_string()).as_bytes(), vec![0x41]);
    assert!(Value::Null.as_bytes().is_empty());
}

#[test]
fn values_render_as_text() {
    assert_eq!(render_value(&Value::Blob(vec![1, 0xff, 0x2a])), "[1, ff, 2a]");
    assert_eq!(render_value(&Value::Null), "NULL");
    assert_eq!(render_value(&Value::Int(-42)), "-42");
    assert_eq!(render_value(&Value::Text("Yellow".to_string())), "Yellow");
    assert_eq!(decimal_string(i64::MIN), "-9223372036854775808");
}
