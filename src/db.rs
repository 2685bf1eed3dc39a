//! An open database: the file's bytes, its header and its schema catalog.
use vstd::prelude::*;
use crate::btree::{fetch_by_row_ids, fetch_rows, index_lookup, lookup_index, scan_table, table_rows};
use crate::error::DbError;
use crate::header::{header_error, header_of, DbHeader};
use crate::lexer::same_text;
use crate::record::{rows_view, value_bytes, RowView, TableLeafRecord, Value};
use crate::schema::{
    entries_view, names_match, same_name, schema_entries, MasterPageRecord, SchemaEntry,
};

verus! {

/// The header and schema catalog of a database file, or why it cannot be read.
pub open spec fn open_spec(data: Seq<u8>) -> Result<(DbHeader, Seq<SchemaEntry>), DbError> {
    match header_error(data) {
        Some(e) => Err(e),
        None => {
            let h = header_of(data);
            match table_rows(data, h.page_size as nat, 1, seq![]) {
                Err(e) => Err(e),
                Ok(rows) => match schema_entries(rows) {
                    Err(e) => Err(e),
                    Ok(es) => Ok((h, es)),
                },
            }
        },
    }
}

pub open spec fn is_table(e: SchemaEntry) -> bool {
    e.kind == "table"@
}

/// Whether `e` is an index on `table` whose first column is `column`.
pub open spec fn is_index_on(e: SchemaEntry, table: Seq<char>, column: Seq<char>) -> bool {
    e.kind == "index"@ && same_name(e.table_name, table) && e.columns.len() > 0 && same_name(
        e.columns[0],
        column,
    )
}

/// The position of the first table named `name`, ignoring case.
pub open spec fn table_position(es: Seq<SchemaEntry>, name: Seq<char>) -> Option<int>
    decreases es.len(),
{
    if es.len() == 0 {
        None
    } else {
        match table_position(es.drop_last(), name) {
            Some(i) => Some(i),
            None => if is_table(es.last()) && same_name(es.last().name, name) {
                Some(es.len() - 1)
            } else {
                None
            },
        }
    }
}

/// The position of the first index on `table` that starts with `column`.
pub open spec fn index_position(es: Seq<SchemaEntry>, table: Seq<char>, column: Seq<char>) -> Option<
    int,
>
    decreases es.len(),
{
    if es.len() == 0 {
        None
    } else {
        match index_position(es.drop_last(), table, column) {
            Some(i) => Some(i),
            None => if is_index_on(es.last(), table, column) {
                Some(es.len() - 1)
            } else {
                None
            },
        }
    }
}

/// The names of the tables, in catalog order.
pub open spec fn table_names_of(es: Seq<SchemaEntry>) -> Seq<Seq<char>>
    decreases es.len(),
{
    if es.len() == 0 {
        seq![]
    } else if is_table(es.last()) {
        table_names_of(es.drop_last()).push(es.last().name)
    } else {
        table_names_of(es.drop_last())
    }
}

/// The rows of the table with entry `t` whose row id one of the entries with
/// key `key` in the index with entry `ix` names.
pub open spec fn indexed_rows(
    data: Seq<u8>,
    ps: nat,
    ix: SchemaEntry,
    t: SchemaEntry,
    key: Seq<u8>,
) -> Result<Seq<RowView>, DbError> {
    match index_lookup(data, ps, ix.root_page, key, seq![]) {
        Err(e) => Err(e),
        Ok(ids) => fetch_rows(data, ps, t.root_page, ids, seq![]),
    }
}

/// An open database file.
#[derive(Debug)]
pub struct Db {
    data: Vec<u8>,
    header: DbHeader,
    master_page_records: Vec<MasterPageRecord>,
}

impl Db {
    /// The bytes of the file.
    pub closed spec fn data(&self) -> Seq<u8> {
        self.data@
    }

    pub closed spec fn header_spec(&self) -> DbHeader {
        self.header
    }

    /// The schema catalog, in the order of the `sqlite_master` rows.
    pub closed spec fn schema(&self) -> Seq<SchemaEntry> {
        entries_view(self.master_page_records@)
    }

    /// The page size, as a number.
    pub open spec fn ps(&self) -> nat {
        self.header_spec().page_size as nat
    }

    /// Reads the header and the schema catalog of the file `data`.
    pub fn new(data: Vec<u8>) -> (r: Result<Db, DbError>)
        ensures
            match open_spec(data@) {
                Ok((h, es)) => r matches Ok(db) && db.data() == data@ && db.header_spec() == h
                    && db.schema() == es,
                Err(e) => r matches Err(x) && x == e,
            },
    {
        let header = match DbHeader::parse(data.as_slice()) {
            Ok(h) => h,
            Err(e) => {
                return Err(e);
            },
        };
        let mut rows: Vec<TableLeafRecord> = Vec::new();
        let path: Vec<u32> = Vec::new();
        assert(path@ =~= Seq::<u32>::empty());
        match scan_table(data.as_slice(), header.page_size, 1, &path, &mut rows) {
            Ok(()) => {},
            Err(e) => {
                return Err(e);
            },
        }
        assert(rows_view(rows@) =~= seq![] + rows_view(rows@));
        let ghost rv = rows_view(rows@);
        let mut records: Vec<MasterPageRecord> = Vec::new();
        let mut i: usize = 0;
        proof {
            assert(rv.subrange(0, 0) =~= Seq::<RowView>::empty());
            assert(entries_view(records@) =~= Seq::<SchemaEntry>::empty());
        }
        while i < rows.len()
            invariant
                i <= rows@.len(),
                rv == rows_view(rows@),
                header_error(data@) is None,
                header == header_of(data@),
                table_rows(data@, header.page_size as nat, 1, seq![]) == Ok::<Seq<RowView>, DbError>(rv),
                schema_entries(rv.subrange(0, i as int)) == Ok::<Seq<SchemaEntry>, DbError>(
                    entries_view(records@),
                ),
            decreases rows.len() - i,
        {
            proof {
                assert(rv.subrange(0, i + 1).drop_last() =~= rv.subrange(0, i as int));
                assert(rv.subrange(0, i + 1).last() == rows@[i as int]@);
            }
            let rec = match MasterPageRecord::parse(&rows[i]) {
                Ok(r) => r,
                Err(e) => {
                    proof {
                        lemma_entries_err(rv, i + 1, rv.len() as int);
                        assert(rv.subrange(0, rv.len() as int) =~= rv);
                    }
                    return Err(e);
                },
            };
            let ghost before = entries_view(records@);
            records.push(rec);
            proof {
                assert(entries_view(records@) =~= before.push(rec@));
            }
            i = i + 1;
        }
        proof {
            assert(rv.subrange(0, rv.len() as int) =~= rv);
        }
        Ok(Db { data, header, master_page_records: records })
    }

    /// The page size of the file.
    pub fn page_size(&self) -> (r: u32)
        ensures
            r == self.header_spec().page_size,
    {
        self.header.page_size
    }

    /// The header of the file.
    pub fn header(&self) -> (r: DbHeader)
        ensures
            r == self.header_spec(),
    {
        self.header
    }

    /// The names of the tables, in catalog order.
    pub fn table_names(&self) -> (r: Vec<String>)
        ensures
            crate::schema::strings_view(r@) == table_names_of(self.schema()),
    {
        let ghost es = self.schema();
        let mut out: Vec<String> = Vec::new();
        let mut i: usize = 0;
        while i < self.master_page_records.len()
            invariant
                i <= es.len(),
                es == self.schema(),
                crate::schema::strings_view(out@) == table_names_of(es.subrange(0, i as int)),
            decreases self.master_page_records.len() - i,
        {
            proof {
                assert(es.subrange(0, i + 1).drop_last() =~= es.subrange(0, i as int));
                assert(es[i as int] == self.master_page_records@[i as int]@);
            }
            let rec = &self.master_page_records[i];
            if same_text(&rec.table_type, "table") {
                let ghost before = crate::schema::strings_view(out@);
                out.push(rec.name.clone());
                proof {
                    assert(crate::schema::strings_view(out@) =~= before.push(rec.name@));
                }
            }
            i = i + 1;
        }
        proof {
            assert(es.subrange(0, es.len() as int) =~= es);
        }
        out
    }

    /// The first table named `table_name`, ignoring case.
    pub fn get_table(&self, table_name: &str) -> (r: Option<&MasterPageRecord>)
        ensures
            match table_position(self.schema(), table_name@) {
                Some(i) => r matches Some(x) && x@ == self.schema()[i],
                None => r is None,
            },
    {
        let ghost es = self.schema();
        let mut i: usize = 0;
        while i < self.master_page_records.len()
            invariant
                i <= es.len(),
                es == self.schema(),
                table_position(es.subrange(0, i as int), table_name@) is None,
            decreases self.master_page_records.len() - i,
        {
            proof {
                assert(es.subrange(0, i + 1).drop_last() =~= es.subrange(0, i as int));
                assert(es[i as int] == self.master_page_records@[i as int]@);
            }
            let rec = &self.master_page_records[i];
            if same_text(&rec.table_type, "table") && names_match(rec.name.as_str(), table_name) {
                proof {
                    lemma_table_position_prefix(es, table_name@, i + 1);
                }
                return Some(rec);
            }
            i = i + 1;
        }
        proof {
            assert(es.subrange(0, es.len() as int) =~= es);
        }
        None
    }

    /// The first index on `table` whose first column is `column_name`.
    pub fn get_index_for_column_and_table(&self, table: &str, column_name: &str) -> (r: Option<
        &MasterPageRecord,
    >)
        ensures
            match index_position(self.schema(), table@, column_name@) {
                Some(i) => r matches Some(x) && x@ == self.schema()[i],
                None => r is None,
            },
    {
        let ghost es = self.schema();
        let mut i: usize = 0;
        while i < self.master_page_records.len()
            invariant
                i <= es.len(),
                es == self.schema(),
                index_position(es.subrange(0, i as int), table@, column_name@) is None,
            decreases self.master_page_records.len() - i,
        {
            proof {
                assert(es.subrange(0, i + 1).drop_last() =~= es.subrange(0, i as int));
                assert(es[i as int] == self.master_page_records@[i as int]@);
            }
            let rec = &self.master_page_records[i];
            if same_text(&rec.table_type, "index") && names_match(rec.table_name.as_str(), table)
                && rec.columns.len() > 0 && names_match(rec.columns[0].as_str(), column_name) {
                proof {
                    assert(rec@.columns[0] == rec.columns@[0]@);
                    lemma_index_position_prefix(es, table@, column_name@, i + 1);
                }
                return Some(rec);
            }
            proof {
                if rec.columns@.len() > 0 {
                    assert(rec@.columns[0] == rec.columns@[0]@);
                }
            }
            i = i + 1;
        }
        proof {
            assert(es.subrange(0, es.len() as int) =~= es);
        }
        None
    }

    /// Every row of the table with entry `table`, in row-id order.
    pub fn get_table_rows(&self, table: &MasterPageRecord) -> (r: Result<
        Vec<TableLeafRecord>,
        DbError,
    >)
        ensures
            match table_rows(self.data(), self.ps(), table@.root_page, seq![]) {
                Ok(rows) => r matches Ok(v) && rows_view(v@) == rows,
                Err(e) => r matches Err(x) && x == e,
            },
    {
        let mut rows: Vec<TableLeafRecord> = Vec::new();
        let path: Vec<u32> = Vec::new();
        assert(path@ =~= Seq::<u32>::empty());
        match scan_table(self.data.as_slice(), self.header.page_size, table.root_page, &path, &mut rows) {
            Ok(()) => {
                assert(rows_view(rows@) =~= seq![] + rows_view(rows@));
                Ok(rows)
            },
            Err(e) => Err(e),
        }
    }

    /// The rows of the table with entry `table` that the index with entry
    /// `index` lists under key `value`.
    pub fn fetch_rows_from_index(
        &self,
        index: &MasterPageRecord,
        table: &MasterPageRecord,
        value: &Value,
    ) -> (r: Result<Vec<TableLeafRecord>, DbError>)
        ensures
            match indexed_rows(self.data(), self.ps(), index@, table@, value_bytes(value@)) {
                Ok(rows) => r matches Ok(v) && rows_view(v@) == rows,
                Err(e) => r matches Err(x) && x == e,
            },
    {
        let key = value.as_bytes();
        let mut ids: Vec<u64> = Vec::new();
        let path: Vec<u32> = Vec::new();
        assert(path@ =~= Seq::<u32>::empty());
        match lookup_index(self.data.as_slice(), self.header.page_size, index.root_page, &key, &path, &mut ids) {
            Ok(()) => {},
            Err(e) => {
                return Err(e);
            },
        }
        assert(ids@ =~= seq![] + ids@);
        let mut rows: Vec<TableLeafRecord> = Vec::new();
        match fetch_by_row_ids(self.data.as_slice(), self.header.page_size, table.root_page, &ids, &path, &mut rows) {
            Ok(()) => {
                assert(rows_view(rows@) =~= seq![] + rows_view(rows@));
                Ok(rows)
            },
            Err(e) => Err(e),
        }
    }
}

proof fn lemma_entries_err(rows: Seq<RowView>, j: int, m: int)
    requires
        0 <= j <= m <= rows.len(),
        schema_entries(rows.subrange(0, j)) is Err,
    ensures
        schema_entries(rows.subrange(0, m)) == schema_entries(rows.subrange(0, j)),
    decreases m - j,
{
    if m > j {
        lemma_entries_err(rows, j, m - 1);
        assert(rows.subrange(0, m).drop_last() =~= rows.subrange(0, m - 1));
    }
}

proof fn lemma_table_position_prefix(es: Seq<SchemaEntry>, name: Seq<char>, k: int)
    requires
        0 <= k <= es.len(),
        table_position(es.subrange(0, k), name) is Some,
    ensures
        table_position(es, name) == table_position(es.subrange(0, k), name),
    decreases es.len() - k,
{
    if k < es.len() {
        assert(es.subrange(0, k + 1).drop_last() =~= es.subrange(0, k));
        lemma_table_position_prefix(es, name, k + 1);
    } else {
        assert(es.subrange(0, k) =~= es);
    }
}

proof fn lemma_index_position_prefix(es: Seq<SchemaEntry>, t: Seq<char>, c: Seq<char>, k: int)
    requires
        0 <= k <= es.len(),
        index_position(es.subrange(0, k), t, c) is Some,
    ensures
        index_position(es, t, c) == index_position(es.subrange(0, k), t, c),
    decreases es.len() - k,
{
    if k < es.len() {
        assert(es.subrange(0, k + 1).drop_last() =~= es.subrange(0, k));
        lemma_index_position_prefix(es, t, c, k + 1);
    } else {
        assert(es.subrange(0, k) =~= es);
    }
}

} // verus!
