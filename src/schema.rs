//! The schema catalog: the rows of `sqlite_master`, with the column order
//! recovered by parsing their stored DDL.
use vstd::prelude::*;
use crate::error::DbError;
use crate::lexer::{ascii_upper, lex_spec, to_upper, Lexer};
use crate::parser::{p_create, Ast, AstView, Parser};
use crate::record::{values_view, RowView, TableLeafRecord, Value, ValueView};

verus! {

/// The name that a column definition or an indexed column gives.
pub open spec fn column_name(a: AstView) -> Seq<char> {
    match a {
        AstView::ColumnDef { name, .. } => name,
        AstView::Identifier(n) => n,
        _ => seq![],
    }
}

/// The columns that a stored `CREATE TABLE` (its column definitions, in
/// order) or `CREATE INDEX` (its indexed columns, in declared order) names.
pub open spec fn sql_columns(sql: Seq<char>) -> Result<Seq<Seq<char>>, DbError> {
    match lex_spec(sql) {
        Err(e) => Err(DbError::Lex(e)),
        Ok(ts) => match p_create(ts, 0) {
            Err(e) => Err(DbError::Parse(e)),
            Ok((a, _)) => match a {
                AstView::CreateTable { column_defs, .. } => Ok(
                    column_defs.map_values(|c: AstView| column_name(c)),
                ),
                AstView::CreateIndex { columns, .. } => Ok(
                    columns.map_values(|c: AstView| column_name(c)),
                ),
                _ => Err(DbError::BadSchemaSql),
            },
        },
    }
}

/// One entry of the schema catalog.
#[derive(Debug)]
pub struct MasterPageRecord {
    pub table_type: String,
    pub name: String,
    pub table_name: String,
    pub root_page: u32,
    pub sql: String,
    pub columns: Vec<String>,
}

/// The mathematical value of a schema entry.
pub struct SchemaEntry {
    pub kind: Seq<char>,
    pub name: Seq<char>,
    pub table_name: Seq<char>,
    pub root_page: u32,
    pub sql: Seq<char>,
    pub columns: Seq<Seq<char>>,
}

pub open spec fn strings_view(v: Seq<String>) -> Seq<Seq<char>> {
    v.map_values(|s: String| s@)
}

impl View for MasterPageRecord {
    type V = SchemaEntry;

    open spec fn view(&self) -> SchemaEntry {
        SchemaEntry {
            kind: self.table_type@,
            name: self.name@,
            table_name: self.table_name@,
            root_page: self.root_page,
            sql: self.sql@,
            columns: strings_view(self.columns@),
        }
    }
}

pub open spec fn entries_view(v: Seq<MasterPageRecord>) -> Seq<SchemaEntry> {
    v.map_values(|r: MasterPageRecord| r@)
}

/// The text of a schema column.
pub open spec fn text_of(v: ValueView) -> Option<Seq<char>> {
    match v {
        ValueView::Text(s) => Some(s),
        _ => None,
    }
}

/// The schema entry of a `sqlite_master` row: type, name, table name, root
/// page and DDL text, with the columns that the DDL names. A row without
/// DDL text (an index that SQLite made itself) has no columns.
pub open spec fn schema_entry(r: RowView) -> Result<SchemaEntry, DbError> {
    let vs = r.values;
    if vs.len() < 5 || text_of(vs[0]) is None || text_of(vs[1]) is None || text_of(vs[2]) is None
        || !(vs[3] is Int) || vs[3]->Int_0 < 0 || vs[3]->Int_0 > 0xffff_ffff || !(vs[4] is Text
        || vs[4] is Null) {
        Err(DbError::BadSchemaRow)
    } else {
        let sql = match vs[4] {
            ValueView::Text(s) => s,
            _ => seq![],
        };
        let columns = if vs[4] is Null {
            Ok(seq![])
        } else {
            sql_columns(sql)
        };
        match columns {
            Err(e) => Err(e),
            Ok(cs) => Ok(
                SchemaEntry {
                    kind: text_of(vs[0])->Some_0,
                    name: text_of(vs[1])->Some_0,
                    table_name: text_of(vs[2])->Some_0,
                    root_page: vs[3]->Int_0 as u32,
                    sql,
                    columns: cs,
                },
            ),
        }
    }
}

/// The schema entries of a list of rows, in order.
pub open spec fn schema_entries(rows: Seq<RowView>) -> Result<Seq<SchemaEntry>, DbError>
    decreases rows.len(),
{
    if rows.len() == 0 {
        Ok(seq![])
    } else {
        match schema_entries(rows.drop_last()) {
            Err(e) => Err(e),
            Ok(es) => match schema_entry(rows.last()) {
                Err(e) => Err(e),
                Ok(x) => Ok(es.push(x)),
            },
        }
    }
}

/// Whether two names are equal ignoring ASCII case.
pub open spec fn same_name(a: Seq<char>, b: Seq<char>) -> bool {
    ascii_upper(a) == ascii_upper(b)
}

/// The position of the first column named `name`, ignoring case.
pub open spec fn column_position(cols: Seq<Seq<char>>, name: Seq<char>) -> Option<int>
    decreases cols.len(),
{
    if cols.len() == 0 {
        None
    } else {
        match column_position(cols.drop_last(), name) {
            Some(i) => Some(i),
            None => if same_name(cols.last(), name) {
                Some(cols.len() - 1)
            } else {
                None
            },
        }
    }
}

fn text_value(v: &Value) -> (r: Option<String>)
    ensures
        match text_of(v@) {
            Some(s) => r matches Some(x) && x@ == s,
            None => r is None,
        },
{
    match v {
        Value::Text(s) => Some(s.clone()),
        _ => None,
    }
}

/// Whether two names are equal ignoring ASCII case.
pub fn names_match(a: &str, b: &str) -> (r: bool)
    ensures
        r == same_name(a@, b@),
{
    let x = to_upper(a);
    let y = to_upper(b);
    x == y
}

impl MasterPageRecord {
    /// The columns that the stored DDL `sql` names, in order.
    pub fn analyse_sql_for_column_order(sql: &str) -> (r: Result<Vec<String>, DbError>)
        ensures
            match sql_columns(sql@) {
                Ok(cs) => r matches Ok(v) && strings_view(v@) == cs,
                Err(e) => r == Err::<Vec<String>, DbError>(e),
            },
    {
        let mut lexer = Lexer::new(sql.to_owned());
        let tokens = match lexer.lex() {
            Ok(t) => t,
            Err(e) => {
                return Err(DbError::Lex(e));
            },
        };
        let mut parser = Parser::new(tokens);
        let ast = match parser.parse_create() {
            Ok(a) => a,
            Err(e) => {
                return Err(DbError::Parse(e));
            },
        };
        proof {
            reveal_with_fuel(crate::parser::ast_view, 2);
        }
        let defs = match &ast {
            Ast::CreateTable { column_defs, .. } => column_defs,
            Ast::CreateIndex { columns, .. } => columns,
            _ => {
                return Err(DbError::BadSchemaSql);
            },
        };
        let ghost want = crate::parser::asts_view(defs@).map_values(|c: AstView| column_name(c));
        let mut out: Vec<String> = Vec::new();
        let mut i: usize = 0;
        while i < defs.len()
            invariant
                i <= defs@.len(),
                want == crate::parser::asts_view(defs@).map_values(|c: AstView| column_name(c)),
                strings_view(out@) == want.subrange(0, i as int),
            decreases defs.len() - i,
        {
            proof {
                reveal_with_fuel(crate::parser::ast_view, 2);
            }
            assert(crate::parser::asts_view(defs@)[i as int] == defs@[i as int]@);
            let name = match &defs[i] {
                Ast::ColumnDef { name, .. } => name.clone(),
                Ast::Identifier(n) => n.clone(),
                _ => String::new(),
            };
            assert(want[i as int] == column_name(defs@[i as int]@));
            assert(name@ == want[i as int]);
            let ghost before = strings_view(out@);
            out.push(name);
            proof {
                assert(strings_view(out@) =~= before.push(want[i as int]));
                assert(strings_view(out@) =~= want.subrange(0, i + 1));
            }
            i = i + 1;
        }
        proof {
            assert(want.subrange(0, want.len() as int) =~= want);
        }
        Ok(out)
    }

    /// The schema entry of a `sqlite_master` row.
    pub fn parse(record: &TableLeafRecord) -> (r: Result<MasterPageRecord, DbError>)
        ensures
            match schema_entry(record@) {
                Ok(e) => r matches Ok(x) && x@ == e,
                Err(e) => r == Err::<MasterPageRecord, DbError>(e),
            },
    {
        let vs = &record.values;
        let ghost vv = values_view(vs@);
        if vs.len() < 5 {
            return Err(DbError::BadSchemaRow);
        }
        assert(vv[0] == vs@[0]@ && vv[1] == vs@[1]@ && vv[2] == vs@[2]@ && vv[3] == vs@[3]@
            && vv[4] == vs@[4]@);
        let table_type = match text_value(&vs[0]) {
            Some(s) => s,
            None => {
                return Err(DbError::BadSchemaRow);
            },
        };
        let name = match text_value(&vs[1]) {
            Some(s) => s,
            None => {
                return Err(DbError::BadSchemaRow);
            },
        };
        let table_name = match text_value(&vs[2]) {
            Some(s) => s,
            None => {
                return Err(DbError::BadSchemaRow);
            },
        };
        let root_page: u32 = match &vs[3] {
            Value::Int(n) => if *n >= 0 && *n <= 0xffff_ffff {
                *n as u32
            } else {
                return Err(DbError::BadSchemaRow);
            },
            _ => {
                return Err(DbError::BadSchemaRow);
            },
        };
        let (sql, columns) = match &vs[4] {
            Value::Text(s) => {
                match MasterPageRecord::analyse_sql_for_column_order(s.as_str()) {
                    Ok(c) => (s.clone(), c),
                    Err(e) => {
                        return Err(e);
                    },
                }
            },
            Value::Null => {
                proof {
                    assert(strings_view(Seq::<String>::empty()) =~= Seq::<Seq<char>>::empty());
                }
                (String::new(), Vec::new())
            },
            _ => {
                return Err(DbError::BadSchemaRow);
            },
        };
        Ok(MasterPageRecord { table_type, name, table_name, root_page, sql, columns })
    }

    /// The position of column `column_name` in this entry, ignoring case.
    pub fn get_column_index(&self, column_name: &str) -> (r: Option<usize>)
        ensures
            match r {
                Some(k) => column_position(self@.columns, column_name@) == Some(k as int),
                None => column_position(self@.columns, column_name@) is None,
            },
    {
        let ghost cols = self@.columns;
        let mut i: usize = 0;
        while i < self.columns.len()
            invariant
                i <= cols.len(),
                cols == strings_view(self.columns@),
                column_position(cols.subrange(0, i as int), column_name@) is None,
            decreases self.columns.len() - i,
        {
            proof {
                assert(cols.subrange(0, i + 1).drop_last() =~= cols.subrange(0, i as int));
                assert(cols[i as int] == self.columns@[i as int]@);
            }
            if names_match(self.columns[i].as_str(), column_name) {
                proof {
                    lemma_position_prefix(cols, column_name@, i + 1);
                }
                return Some(i);
            }
            i = i + 1;
        }
        proof {
            assert(cols.subrange(0, cols.len() as int) =~= cols);
        }
        None
    }
}

/// A match among the first `k` columns is the first match overall.
proof fn lemma_position_prefix(cols: Seq<Seq<char>>, name: Seq<char>, k: int)
    requires
        0 <= k <= cols.len(),
        column_position(cols.subrange(0, k), name) is Some,
    ensures
        column_position(cols, name) == column_position(cols.subrange(0, k), name),
    decreases cols.len() - k,
{
    if k < cols.len() {
        assert(cols.subrange(0, k + 1).drop_last() =~= cols.subrange(0, k));
        lemma_position_prefix(cols, name, k + 1);
    } else {
        assert(cols.subrange(0, k) =~= cols);
    }
}

} // verus!
