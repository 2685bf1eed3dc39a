//! The query planner and executor: a SELECT becomes a list of steps
//! (table, filter, projection or count) that run one after the other.
use vstd::prelude::*;
use crate::btree::{
    bytes_equal, fetch_rows, index_entries, index_lookup, index_ordered, key_of,
    lemma_fetch_matches_scan, lemma_lookup_finds_matches, matching_ids, ordered_tree, row_id_in,
    rows_with_ids, table_rows,
};
use crate::db::{index_position, indexed_rows, table_position, Db};
use crate::error::DbError;
use crate::lexer::{lex_spec, same_text, Lexer};
use vstd::string::{StrSliceExecFns, StringExecFns};
use crate::parser::{ast_view, asts_view, p_program, Ast, AstView, Parser};
use crate::record::{rows_view, value_bytes, RowView, TableLeafRecord, Value, ValueView};
use crate::render::{count_string, decimal, join_fields, join_strings, render, render_value};
use crate::schema::{
    column_position, names_match, same_name, strings_view, MasterPageRecord, SchemaEntry,
};

verus! {

/// One step of a query plan.
#[derive(Debug)]
pub enum QueryStep {
    SetTable(String),
    Where(String, Value),
    Select(Vec<String>),
    Count(String),
}

/// The mathematical value of a [`QueryStep`].
pub enum StepView {
    SetTable(Seq<char>),
    Where(Seq<char>, ValueView),
    Select(Seq<Seq<char>>),
    Count(Seq<char>),
}

impl View for QueryStep {
    type V = StepView;

    open spec fn view(&self) -> StepView {
        match self {
            QueryStep::SetTable(s) => StepView::SetTable(s@),
            QueryStep::Where(c, v) => StepView::Where(c@, v@),
            QueryStep::Select(cs) => StepView::Select(strings_view(cs@)),
            QueryStep::Count(w) => StepView::Count(w@),
        }
    }
}

pub open spec fn steps_view(s: Seq<QueryStep>) -> Seq<StepView> {
    s.map_values(|x: QueryStep| x@)
}

/// A stored row id as a signed integer.
pub open spec fn row_id_value(id: u64) -> i64 {
    if id <= 0x7fff_ffff_ffff_ffff {
        id as i64
    } else {
        (id - 0x1_0000_0000_0000_0000) as i64
    }
}

/// The field of row `r` that `c` names: `None` is the row id, `Some(i)` is
/// column `i` (null when the row is shorter).
pub open spec fn field(r: RowView, c: Option<int>) -> ValueView {
    match c {
        None => ValueView::Int(row_id_value(r.row_id)),
        Some(i) => if 0 <= i < r.values.len() {
            r.values[i]
        } else {
            ValueView::Null
        },
    }
}

/// The output line of row `r` projected on `cols`.
pub open spec fn row_line(r: RowView, cols: Seq<Option<int>>) -> Seq<char> {
    join_fields(cols.map_values(|c: Option<int>| render(field(r, c))))
}

pub open spec fn rows_lines(rows: Seq<RowView>, cols: Seq<Option<int>>) -> Seq<Seq<char>> {
    rows.map_values(|r: RowView| row_line(r, cols))
}

/// The rows whose column `col` has the raw bytes `key`.
pub open spec fn filter_rows(rows: Seq<RowView>, col: int, key: Seq<u8>) -> Seq<RowView>
    decreases rows.len(),
{
    if rows.len() == 0 {
        seq![]
    } else if value_bytes(field(rows.last(), Some(col))) == key {
        filter_rows(rows.drop_last(), col, key).push(rows.last())
    } else {
        filter_rows(rows.drop_last(), col, key)
    }
}

proof fn lemma_filter_after_ids(rows: Seq<RowView>, ids: Seq<u64>, col: int, key: Seq<u8>)
    requires
        forall|i: int|
            0 <= i < rows.len() && value_bytes(field(#[trigger] rows[i], Some(col))) == key
                ==> ids.contains(rows[i].row_id),
    ensures
        filter_rows(rows_with_ids(rows, ids), col, key) == filter_rows(rows, col, key),
    decreases rows.len(),
{
    if rows.len() > 0 {
        let d = rows.drop_last();
        assert forall|i: int|
            0 <= i < d.len() && value_bytes(field(#[trigger] d[i], Some(col))) == key implies ids.contains(
            d[i].row_id,
        ) by {
            assert(d[i] == rows[i]);
        }
        lemma_filter_after_ids(d, ids, col, key);
        let last = rows.last();
        assert(last == rows[rows.len() - 1]);
        if ids.contains(last.row_id) {
            let w = rows_with_ids(d, ids);
            assert(rows_with_ids(rows, ids) == w.push(last));
            assert(w.push(last).drop_last() =~= w);
        }
    }
}

/// On a table B-tree whose keys are in order, reading the rows that an
/// index lists and then keeping those whose column `col` has the bytes
/// `key` gives the same rows, in the same order, as filtering a full scan,
/// provided the index lists the row id of every matching row.
pub proof fn lemma_index_path_matches_scan(
    db: Seq<u8>,
    ps: nat,
    root: u32,
    ids: Seq<u64>,
    col: int,
    key: Seq<u8>,
)
    requires
        ordered_tree(db, ps, root, seq![], None, None),
        table_rows(db, ps, root, seq![]) matches Ok(rows) && forall|i: int|
            0 <= i < rows.len() && value_bytes(field(#[trigger] rows[i], Some(col))) == key
                ==> ids.contains(rows[i].row_id),
    ensures
        fetch_rows(db, ps, root, ids, seq![]) matches Ok(fetched) && filter_rows(fetched, col, key)
            == filter_rows(table_rows(db, ps, root, seq![])->Ok_0, col, key),
{
    lemma_fetch_matches_scan(db, ps, root, seq![], None, None, ids);
    lemma_filter_after_ids(table_rows(db, ps, root, seq![])->Ok_0, ids, col, key);
}

/// The (key, row id) pair of an index entry.
pub open spec fn entry_pair(e: Seq<ValueView>) -> (Seq<u8>, u64) {
    (key_of(e), row_id_in(e)->Some_0)
}

/// The (column bytes, row id) pair of a row, for column `col`.
pub open spec fn row_pair(r: RowView, col: int) -> (Seq<u8>, u64) {
    (value_bytes(field(r, Some(col))), r.row_id)
}

/// The row ids of the pairs whose key is `key`, in order.
pub open spec fn ids_with_key(ps: Seq<(Seq<u8>, u64)>, key: Seq<u8>) -> Seq<u64>
    decreases ps.len(),
{
    if ps.len() == 0 {
        seq![]
    } else if ps[0].0 == key {
        seq![ps[0].1] + ids_with_key(ps.drop_first(), key)
    } else {
        ids_with_key(ps.drop_first(), key)
    }
}

proof fn lemma_ids_with_key_count(ps: Seq<(Seq<u8>, u64)>, key: Seq<u8>, x: u64)
    ensures
        ids_with_key(ps, key).to_multiset().count(x) == ps.to_multiset().count((key, x)),
    decreases ps.len(),
{
    broadcast use vstd::seq_lib::group_to_multiset_ensures, vstd::multiset::group_multiset_axioms;

    if ps.len() == 0 {
        assert(ids_with_key(ps, key) =~= Seq::<u64>::empty());
    } else {
        lemma_ids_with_key_count(ps.drop_first(), key, x);
        assert(ps =~= ps.drop_first().insert(0, ps[0]));
        vstd::seq_lib::to_multiset_insert(ps.drop_first(), 0, ps[0]);
        let rest = ids_with_key(ps.drop_first(), key);
        if ps[0].0 == key {
            assert(seq![ps[0].1] + rest =~= rest.insert(0, ps[0].1));
            vstd::seq_lib::to_multiset_insert(rest, 0, ps[0].1);
        }
    }
}

proof fn lemma_matching_ids_pairs(es: Seq<Seq<ValueView>>, key: Seq<u8>)
    requires
        forall|j: int| 0 <= j < es.len() ==> row_id_in(#[trigger] es[j]) is Some,
    ensures
        matching_ids(es, key) == Ok::<Seq<u64>, DbError>(
            ids_with_key(es.map_values(|e: Seq<ValueView>| entry_pair(e)), key),
        ),
    decreases es.len(),
{
    let ps = es.map_values(|e: Seq<ValueView>| entry_pair(e));
    if es.len() > 0 {
        assert forall|j: int| 0 <= j < es.drop_first().len() implies row_id_in(
            #[trigger] es.drop_first()[j],
        ) is Some by {
            assert(es.drop_first()[j] == es[j + 1]);
        }
        lemma_matching_ids_pairs(es.drop_first(), key);
        assert(ps.drop_first() =~= es.drop_first().map_values(|e: Seq<ValueView>| entry_pair(e)));
        assert(row_id_in(es[0]) is Some);
    } else {
        assert(ps =~= Seq::<(Seq<u8>, u64)>::empty());
    }
}

proof fn lemma_filter_rows_count(rows: Seq<RowView>, col: int, key: Seq<u8>, x: u64)
    ensures
        filter_rows(rows, col, key).map_values(|r: RowView| r.row_id).to_multiset().count(x)
            == rows.map_values(|r: RowView| row_pair(r, col)).to_multiset().count((key, x)),
    decreases rows.len(),
{
    broadcast use vstd::seq_lib::group_to_multiset_ensures, vstd::multiset::group_multiset_axioms;

    let ps = rows.map_values(|r: RowView| row_pair(r, col));
    if rows.len() == 0 {
        assert(filter_rows(rows, col, key).map_values(|r: RowView| r.row_id) =~= Seq::<u64>::empty());
        assert(ps =~= Seq::<(Seq<u8>, u64)>::empty());
    } else {
        lemma_filter_rows_count(rows.drop_last(), col, key, x);
        let d = rows.drop_last();
        assert(ps =~= d.map_values(|r: RowView| row_pair(r, col)).push(row_pair(rows.last(), col)));
        let fd = filter_rows(d, col, key);
        if value_bytes(field(rows.last(), Some(col))) == key {
            assert(filter_rows(rows, col, key).map_values(|r: RowView| r.row_id) =~= fd.map_values(
                |r: RowView| r.row_id,
            ).push(rows.last().row_id));
        } else {
            assert(filter_rows(rows, col, key) == fd);
        }
    }
}

/// An index that is ordered for search and holds one entry, with its row
/// id, for each row of a table (as pairs of key bytes and row id, counted
/// with multiplicity) gives for any key the same row ids, counted with
/// multiplicity, as a full scan of the table filtered on that key.
pub proof fn lemma_index_lookup_matches_scan_filter(
    db: Seq<u8>,
    ps: nat,
    index_root: u32,
    table_root: u32,
    col: int,
    key: Seq<u8>,
)
    requires
        index_ordered(db, ps, index_root, seq![]),
        index_entries(db, ps, index_root, seq![]) matches Ok(es) && (forall|j: int|
            0 <= j < es.len() ==> row_id_in(#[trigger] es[j]) is Some),
        table_rows(db, ps, table_root, seq![]) is Ok,
        index_entries(db, ps, index_root, seq![])->Ok_0.map_values(
            |e: Seq<ValueView>| entry_pair(e),
        ).to_multiset() == table_rows(db, ps, table_root, seq![])->Ok_0.map_values(
            |r: RowView| row_pair(r, col),
        ).to_multiset(),
    ensures
        index_lookup(db, ps, index_root, key, seq![]) matches Ok(ids) && ids.to_multiset()
            == filter_rows(table_rows(db, ps, table_root, seq![])->Ok_0, col, key).map_values(
            |r: RowView| r.row_id,
        ).to_multiset(),
{
    let es = index_entries(db, ps, index_root, seq![])->Ok_0;
    let rows = table_rows(db, ps, table_root, seq![])->Ok_0;
    lemma_lookup_finds_matches(db, ps, index_root, key, seq![]);
    lemma_matching_ids_pairs(es, key);
    let ids = ids_with_key(es.map_values(|e: Seq<ValueView>| entry_pair(e)), key);
    let scanned = filter_rows(rows, col, key).map_values(|r: RowView| r.row_id);
    assert forall|x: u64| ids.to_multiset().count(x) == scanned.to_multiset().count(x) by {
        lemma_ids_with_key_count(es.map_values(|e: Seq<ValueView>| entry_pair(e)), key, x);
        lemma_filter_rows_count(rows, col, key, x);
    }
    assert(ids.to_multiset() =~= scanned.to_multiset());
}

/// The fields that the names `names` select: `ID` is the row id, any
/// other name a column of the table.
pub open spec fn resolve_names(cols: Seq<Seq<char>>, names: Seq<Seq<char>>) -> Result<
    Seq<Option<int>>,
    DbError,
>
    decreases names.len(),
{
    if names.len() == 0 {
        Ok(seq![])
    } else {
        match resolve_names(cols, names.drop_last()) {
            Err(e) => Err(e),
            Ok(rs) => if same_name(names.last(), "ID"@) {
                Ok(rs.push(None))
            } else {
                match column_position(cols, names.last()) {
                    None => Err(DbError::NoSuchColumn),
                    Some(i) => Ok(rs.push(Some(i))),
                }
            },
        }
    }
}

/// The fields of a projection: `*` is every column in declared order.
pub open spec fn projection(t: SchemaEntry, names: Seq<Seq<char>>) -> Result<
    Seq<Option<int>>,
    DbError,
> {
    if names.len() == 1 && names[0] == "*"@ {
        Ok(Seq::new(t.columns.len(), |i: int| Some(i)))
    } else {
        resolve_names(t.columns, names)
    }
}

/// What a plan has found so far: the table, and the rows once read.
pub struct Ctx {
    pub table: Option<SchemaEntry>,
    pub rows: Option<Seq<RowView>>,
}

/// The rows read so far, or else every row of the table.
pub open spec fn current_rows(data: Seq<u8>, ps: nat, t: SchemaEntry, ctx: Ctx) -> Result<
    Seq<RowView>,
    DbError,
> {
    match ctx.rows {
        Some(r) => Ok(r),
        None => table_rows(data, ps, t.root_page, seq![]),
    }
}

/// The rows that a filter `column = key` reads: through the first index on
/// the table that starts with that column, or else by a full scan.
pub open spec fn candidate_rows(
    data: Seq<u8>,
    ps: nat,
    schema: Seq<SchemaEntry>,
    t: SchemaEntry,
    column: Seq<char>,
    key: Seq<u8>,
) -> Result<Seq<RowView>, DbError> {
    match index_position(schema, t.table_name, column) {
        Some(k) => indexed_rows(data, ps, schema[k], t, key),
        None => table_rows(data, ps, t.root_page, seq![]),
    }
}

/// Runs one step: the context after it and the lines it prints.
pub open spec fn step_result(
    data: Seq<u8>,
    ps: nat,
    schema: Seq<SchemaEntry>,
    s: StepView,
    ctx: Ctx,
) -> Result<(Ctx, Seq<Seq<char>>), DbError> {
    match s {
        StepView::SetTable(n) => match table_position(schema, n) {
            None => Err(DbError::NoSuchTable),
            Some(k) => Ok((Ctx { table: Some(schema[k]), rows: ctx.rows }, seq![])),
        },
        StepView::Where(c, v) => match ctx.table {
            None => Err(DbError::Unsupported),
            Some(t) => match column_position(t.columns, c) {
                None => Err(DbError::NoSuchColumn),
                Some(ci) => match candidate_rows(data, ps, schema, t, c, value_bytes(v)) {
                    Err(e) => Err(e),
                    Ok(rows) => Ok(
                        (
                            Ctx {
                                table: ctx.table,
                                rows: Some(filter_rows(rows, ci, value_bytes(v))),
                            },
                            seq![],
                        ),
                    ),
                },
            },
        },
        StepView::Select(names) => match ctx.table {
            None => Err(DbError::Unsupported),
            Some(t) => match current_rows(data, ps, t, ctx) {
                Err(e) => Err(e),
                Ok(rows) => match projection(t, names) {
                    Err(e) => Err(e),
                    Ok(cols) => Ok(
                        (Ctx { table: ctx.table, rows: Some(rows) }, rows_lines(rows, cols)),
                    ),
                },
            },
        },
        StepView::Count(w) => if w != "*"@ {
            Err(DbError::Unsupported)
        } else {
            match ctx.table {
                None => Err(DbError::Unsupported),
                Some(t) => match current_rows(data, ps, t, ctx) {
                    Err(e) => Err(e),
                    Ok(rows) => Ok(
                        (
                            Ctx { table: ctx.table, rows: Some(rows) },
                            seq![decimal(rows.len() as int)],
                        ),
                    ),
                },
            }
        },
    }
}

/// Runs the steps from `i` on, after the lines `out`.
pub open spec fn run_steps(
    data: Seq<u8>,
    ps: nat,
    schema: Seq<SchemaEntry>,
    steps: Seq<StepView>,
    i: int,
    ctx: Ctx,
    out: Seq<Seq<char>>,
) -> Result<Seq<Seq<char>>, DbError>
    decreases steps.len() - i,
{
    if i < 0 || i >= steps.len() {
        Ok(out)
    } else {
        match step_result(data, ps, schema, steps[i], ctx) {
            Err(e) => Err(e),
            Ok((c2, lines)) => run_steps(data, ps, schema, steps, i + 1, c2, out + lines),
        }
    }
}

/// The lines that a plan prints.
pub open spec fn plan_output(db: Db, steps: Seq<StepView>) -> Result<Seq<Seq<char>>, DbError> {
    run_steps(db.data(), db.ps(), db.schema(), steps, 0, Ctx { table: None, rows: None }, seq![])
}

impl Db {
    /// The context `ctx` as the executor holds it.
    pub open spec fn ctx_of(
        &self,
        table: Option<&MasterPageRecord>,
        rows: Option<Vec<TableLeafRecord>>,
    ) -> Ctx {
        Ctx {
            table: match table {
                Some(t) => Some(t@),
                None => None,
            },
            rows: match rows {
                Some(r) => Some(rows_view(r@)),
                None => None,
            },
        }
    }
}

/// Field references with positions as numbers.
pub open spec fn refs_view(v: Seq<Option<usize>>) -> Seq<Option<int>> {
    v.map_values(
        |c: Option<usize>|
            match c {
                Some(i) => Some(i as int),
                None => None,
            },
    )
}

/// The field of `r` that `c` names.
fn field_value(r: &TableLeafRecord, c: Option<usize>) -> (v: Value)
    ensures
        v@ == field(
            r@,
            match c {
                Some(i) => Some(i as int),
                None => None,
            },
        ),
{
    match c {
        None => {
            let id = r.row_id;
            let n: i64 = if id <= 0x7fff_ffff_ffff_ffff {
                id as i64
            } else {
                -((0xffff_ffff_ffff_ffffu64 - id) as i64) - 1
            };
            Value::Int(n)
        },
        Some(i) => if i < r.values.len() {
            proof {
                assert(r@.values[i as int] == r.values@[i as int]@);
            }
            r.values[i].copy()
        } else {
            Value::Null
        },
    }
}

/// The rows whose column `col` has the raw bytes `key`.
fn filter_by_key(rows: &Vec<TableLeafRecord>, col: usize, key: &Vec<u8>) -> (r: Vec<
    TableLeafRecord,
>)
    ensures
        rows_view(r@) == filter_rows(rows_view(rows@), col as int, key@),
{
    let ghost rv = rows_view(rows@);
    let mut out: Vec<TableLeafRecord> = Vec::new();
    let mut i: usize = 0;
    while i < rows.len()
        invariant
            i <= rows@.len(),
            rv == rows_view(rows@),
            rows_view(out@) == filter_rows(rv.subrange(0, i as int), col as int, key@),
        decreases rows.len() - i,
    {
        proof {
            assert(rv.subrange(0, i + 1).drop_last() =~= rv.subrange(0, i as int));
            assert(rv.subrange(0, i + 1).last() == rows@[i as int]@);
        }
        let v = field_value(&rows[i], Some(col));
        let b = v.as_bytes();
        if bytes_equal(&b, key) {
            let ghost before = rows_view(out@);
            out.push(rows[i].copy());
            proof {
                assert(rows_view(out@) =~= before.push(rows@[i as int]@));
            }
        }
        i = i + 1;
    }
    proof {
        assert(rv.subrange(0, rv.len() as int) =~= rv);
    }
    out
}

/// The fields that `names` select from table `t`.
fn projection_of(t: &MasterPageRecord, names: &Vec<String>) -> (r: Result<
    Vec<Option<usize>>,
    DbError,
>)
    ensures
        match projection(t@, strings_view(names@)) {
            Ok(cols) => r matches Ok(v) && refs_view(v@) == cols,
            Err(e) => r == Err::<Vec<Option<usize>>, DbError>(e),
        },
{
    let ghost nv = strings_view(names@);
    if names.len() == 1 && same_text(&names[0], "*") {
        proof {
            assert(nv[0] == names@[0]@);
        }
        let mut out: Vec<Option<usize>> = Vec::new();
        let mut i: usize = 0;
        while i < t.columns.len()
            invariant
                i <= t.columns@.len(),
                refs_view(out@) == Seq::new(i as nat, |k: int| Some(k)),
            decreases t.columns.len() - i,
        {
            let ghost before = refs_view(out@);
            out.push(Some(i));
            proof {
                assert(refs_view(out@) =~= before.push(Some(i as int)));
                assert(before.push(Some(i as int)) =~= Seq::new((i + 1) as nat, |k: int| Some(k)));
            }
            i = i + 1;
        }
        return Ok(out);
    }
    proof {
        if names@.len() == 1 {
            assert(nv[0] == names@[0]@);
        }
    }
    let mut out: Vec<Option<usize>> = Vec::new();
    let mut i: usize = 0;
    proof {
        assert(nv.subrange(0, 0) =~= Seq::<Seq<char>>::empty());
        assert(refs_view(out@) =~= Seq::<Option<int>>::empty());
    }
    while i < names.len()
        invariant
            i <= names@.len(),
            nv == strings_view(names@),
            !(nv.len() == 1 && nv[0] == "*"@),
            resolve_names(t@.columns, nv.subrange(0, i as int)) == Ok::<
                Seq<Option<int>>,
                DbError,
            >(refs_view(out@)),
        decreases names.len() - i,
    {
        proof {
            assert(nv.subrange(0, i + 1).drop_last() =~= nv.subrange(0, i as int));
            assert(nv.subrange(0, i + 1).last() == names@[i as int]@);
        }
        let ghost before = refs_view(out@);
        if names_match(names[i].as_str(), "ID") {
            out.push(None);
            proof {
                assert(refs_view(out@) =~= before.push(None));
                assert(same_name(nv.subrange(0, i + 1).last(), "ID"@));
            }
        } else {
            match t.get_column_index(names[i].as_str()) {
                None => {
                    proof {
                        lemma_resolve_err(t@.columns, nv, i + 1, nv.len() as int);
                        assert(nv.subrange(0, nv.len() as int) =~= nv);
                    }
                    return Err(DbError::NoSuchColumn);
                },
                Some(ci) => {
                    out.push(Some(ci));
                    proof {
                        assert(refs_view(out@) =~= before.push(Some(ci as int)));
                        assert(!same_name(nv.subrange(0, i + 1).last(), "ID"@));
                        assert(column_position(t@.columns, nv.subrange(0, i + 1).last()) == Some(
                            ci as int,
                        ));
                    }
                },
            }
        }
        i = i + 1;
    }
    proof {
        assert(nv.subrange(0, nv.len() as int) =~= nv);
    }
    Ok(out)
}

proof fn lemma_resolve_err(cols: Seq<Seq<char>>, names: Seq<Seq<char>>, j: int, m: int)
    requires
        0 <= j <= m <= names.len(),
        resolve_names(cols, names.subrange(0, j)) is Err,
    ensures
        resolve_names(cols, names.subrange(0, m)) == resolve_names(cols, names.subrange(0, j)),
    decreases m - j,
{
    if m > j {
        lemma_resolve_err(cols, names, j, m - 1);
        assert(names.subrange(0, m).drop_last() =~= names.subrange(0, m - 1));
    }
}

/// Appends the line of each row projected on `cols`.
fn emit_rows(rows: &Vec<TableLeafRecord>, cols: &Vec<Option<usize>>, out: &mut Vec<String>)
    ensures
        strings_view(final(out)@) == strings_view(old(out)@) + rows_lines(
            rows_view(rows@),
            refs_view(cols@),
        ),
{
    let ghost start = strings_view(out@);
    let ghost cv = refs_view(cols@);
    let mut i: usize = 0;
    while i < rows.len()
        invariant
            i <= rows@.len(),
            start == strings_view(old(out)@),
            cv == refs_view(cols@),
            strings_view(out@) == start + rows_lines(rows_view(rows@).subrange(0, i as int), cv),
        decreases rows.len() - i,
    {
        let r = &rows[i];
        let mut fields: Vec<String> = Vec::new();
        let mut k: usize = 0;
        while k < cols.len()
            invariant
                k <= cols@.len(),
                cv == refs_view(cols@),
                strings_view(fields@) == cv.subrange(0, k as int).map_values(
                    |c: Option<int>| render(field(r@, c)),
                ),
            decreases cols.len() - k,
        {
            let v = field_value(r, cols[k]);
            let ghost before = strings_view(fields@);
            let text = render_value(&v);
            fields.push(text);
            proof {
                assert(cv[k as int] == (match cols@[k as int] {
                    Some(i) => Some(i as int),
                    None => None,
                }));
                assert(strings_view(fields@) =~= before.push(render(field(r@, cv[k as int]))));
                assert(cv.subrange(0, k + 1).map_values(|c: Option<int>| render(field(r@, c)))
                    =~= cv.subrange(0, k as int).map_values(|c: Option<int>| render(field(r@, c))).push(
                    render(field(r@, cv[k as int])),
                ));
            }
            k = k + 1;
        }
        proof {
            assert(cv.subrange(0, cv.len() as int) =~= cv);
        }
        let line = join_strings(&fields);
        let ghost before = strings_view(out@);
        out.push(line);
        proof {
            assert(strings_view(out@) =~= before.push(row_line(r@, cv)));
            assert(rows_view(rows@).subrange(0, i + 1) =~= rows_view(rows@).subrange(
                0,
                i as int,
            ).push(r@));
            assert(rows_lines(rows_view(rows@).subrange(0, i + 1), cv) =~= rows_lines(
                rows_view(rows@).subrange(0, i as int),
                cv,
            ).push(row_line(r@, cv)));
        }
        i = i + 1;
    }
    proof {
        assert(rows_view(rows@).subrange(0, rows@.len() as int) =~= rows_view(rows@));
    }
}

/// A list of steps to run in order.
pub struct QueryPlanner {
    steps: Vec<QueryStep>,
}

impl QueryPlanner {
    /// The steps of the plan.
    pub closed spec fn steps(&self) -> Seq<StepView> {
        steps_view(self.steps@)
    }

    pub fn new() -> (r: QueryPlanner)
        ensures
            r.steps() == Seq::<StepView>::empty(),
    {
        let r = QueryPlanner { steps: Vec::new() };
        assert(r.steps() =~= Seq::<StepView>::empty());
        r
    }

    pub fn add_step(&mut self, step: QueryStep)
        ensures
            final(self).steps() == old(self).steps().push(step@),
    {
        self.steps.push(step);
        assert(self.steps() =~= old(self).steps().push(step@));
    }

    /// Runs the steps in order and gives the lines they print.
    pub fn execute(&self, db: &Db) -> (r: Result<Vec<String>, DbError>)
        ensures
            match plan_output(*db, self.steps()) {
                Ok(lines) => r matches Ok(v) && strings_view(v@) == lines,
                Err(e) => r == Err::<Vec<String>, DbError>(e),
            },
    {
        let ghost sv = self.steps();
        let mut table: Option<&MasterPageRecord> = None;
        let mut rows: Option<Vec<TableLeafRecord>> = None;
        let mut out: Vec<String> = Vec::new();
        let mut i: usize = 0;
        proof {
            assert(strings_view(out@) =~= Seq::<Seq<char>>::empty());
        }
        while i < self.steps.len()
            invariant
                i <= sv.len(),
                sv == self.steps(),
                sv == steps_view(self.steps@),
                plan_output(*db, sv) == run_steps(
                    db.data(),
                    db.ps(),
                    db.schema(),
                    sv,
                    i as int,
                    db.ctx_of(table, rows),
                    strings_view(out@),
                ),
            decreases self.steps.len() - i,
        {
            let ghost ctx = db.ctx_of(table, rows);
            let ghost before = strings_view(out@);
            assert(sv[i as int] == self.steps@[i as int]@);
            match &self.steps[i] {
                QueryStep::SetTable(n) => {
                    match db.get_table(n.as_str()) {
                        None => {
                            return Err(DbError::NoSuchTable);
                        },
                        Some(t) => {
                            table = Some(t);
                        },
                    }
                    proof {
                        assert(strings_view(out@) =~= before + Seq::<Seq<char>>::empty());
                    }
                },
                QueryStep::Where(c, v) => {
                    let t = match table {
                        None => {
                            return Err(DbError::Unsupported);
                        },
                        Some(t) => t,
                    };
                    let ci = match t.get_column_index(c.as_str()) {
                        None => {
                            return Err(DbError::NoSuchColumn);
                        },
                        Some(ci) => ci,
                    };
                    let key = v.as_bytes();
                    let fetched = match db.get_index_for_column_and_table(
                        t.table_name.as_str(),
                        c.as_str(),
                    ) {
                        Some(ix) => db.fetch_rows_from_index(ix, t, v),
                        None => db.get_table_rows(t),
                    };
                    match fetched {
                        Err(e) => {
                            return Err(e);
                        },
                        Ok(rs) => {
                            rows = Some(filter_by_key(&rs, ci, &key));
                        },
                    }
                    proof {
                        assert(strings_view(out@) =~= before + Seq::<Seq<char>>::empty());
                    }
                },
                QueryStep::Select(names) => {
                    let t = match table {
                        None => {
                            return Err(DbError::Unsupported);
                        },
                        Some(t) => t,
                    };
                    let current = match rows {
                        Some(rs) => rs,
                        None => match db.get_table_rows(t) {
                            Ok(rs) => rs,
                            Err(e) => {
                                return Err(e);
                            },
                        },
                    };
                    let cols = match projection_of(t, names) {
                        Ok(c) => c,
                        Err(e) => {
                            return Err(e);
                        },
                    };
                    emit_rows(&current, &cols, &mut out);
                    rows = Some(current);
                },
                QueryStep::Count(w) => {
                    if !same_text(w, "*") {
                        return Err(DbError::Unsupported);
                    }
                    let t = match table {
                        None => {
                            return Err(DbError::Unsupported);
                        },
                        Some(t) => t,
                    };
                    let current = match rows {
                        Some(rs) => rs,
                        None => match db.get_table_rows(t) {
                            Ok(rs) => rs,
                            Err(e) => {
                                return Err(e);
                            },
                        },
                    };
                    let line = count_string(current.len());
                    out.push(line);
                    proof {
                        assert(strings_view(out@) =~= before + seq![
                            decimal(rows_view(current@).len() as int),
                        ]);
                    }
                    rows = Some(current);
                },
            }
            i = i + 1;
        }
        Ok(out)
    }
}


/// The result columns of a SELECT, read from position `i` after the names
/// `acc`: the names to print, and whether the rows are counted instead. `*`
/// stands for every column and `COUNT(*)` ends the list.
pub open spec fn select_list_from(rcs: Seq<AstView>, i: int, acc: Seq<Seq<char>>) -> Result<
    (Seq<Seq<char>>, bool),
    DbError,
>
    decreases rcs.len() - i,
{
    if i < 0 || i >= rcs.len() {
        Ok((acc, false))
    } else {
        match rcs[i] {
            AstView::All => Ok((seq!["*"@], false)),
            AstView::Identifier(n) => select_list_from(rcs, i + 1, acc.push(n)),
            AstView::Expr(b) => match *b {
                AstView::Function { name, args } => if name == "COUNT"@ && args.len() > 0
                    && args[0] == AstView::All {
                    Ok((seq![], true))
                } else {
                    Err(DbError::Unsupported)
                },
                AstView::Identifier(n) => select_list_from(rcs, i + 1, acc.push(n)),
                _ => Err(DbError::Unsupported),
            },
            _ => Err(DbError::Unsupported),
        }
    }
}

/// The filter step of a WHERE clause: only `column = 'text'` is run.
pub open spec fn where_step(w: Option<Box<AstView>>) -> Result<Option<StepView>, DbError> {
    match w {
        None => Ok(None),
        Some(b) => match *b {
            AstView::Expr(e) => match *e {
                AstView::BinaryOp { op, lhs, rhs } => match (*lhs, *rhs) {
                    (AstView::Expr(l), AstView::Expr(r)) => match (*l, *r) {
                        (AstView::Identifier(c), AstView::StringLiteral(v)) => Ok(
                            Some(StepView::Where(c, ValueView::Text(v))),
                        ),
                        _ => Err(DbError::Unsupported),
                    },
                    _ => Err(DbError::Unsupported),
                },
                _ => Err(DbError::Unsupported),
            },
            _ => Err(DbError::Unsupported),
        },
    }
}

/// The plan of a SELECT: the table, the filter if any, then the count or
/// the projection.
pub open spec fn plan_select(rcs: Seq<AstView>, from: AstView, w: Option<Box<AstView>>) -> Result<
    Seq<StepView>,
    DbError,
> {
    match from {
        AstView::TableOrSubQuery(x) => match *x {
            AstView::Table(t) => match where_step(w) {
                Err(e) => Err(e),
                Ok(ws) => {
                    let head = match ws {
                        Some(st) => seq![StepView::SetTable(t), st],
                        None => seq![StepView::SetTable(t)],
                    };
                    match select_list_from(rcs, 0, seq![]) {
                        Err(e) => Err(e),
                        Ok((cols, count)) => Ok(
                            head + (if count {
                                seq![StepView::Count("*"@)]
                            } else {
                                seq![]
                            }) + (if cols.len() > 0 {
                                seq![StepView::Select(cols)]
                            } else {
                                seq![]
                            }),
                        ),
                    }
                },
            },
            _ => Err(DbError::Unsupported),
        },
        _ => Err(DbError::Unsupported),
    }
}

/// The lines that the statements from `i` on print after `out`; only
/// SELECT statements are run.
pub open spec fn statements_output(db: Db, ss: Seq<AstView>, i: int, out: Seq<Seq<char>>) -> Result<
    Seq<Seq<char>>,
    DbError,
>
    decreases ss.len() - i,
{
    if i < 0 || i >= ss.len() {
        Ok(out)
    } else {
        match ss[i] {
            AstView::Stmt(b) => match *b {
                AstView::Select { result_columns, from, where_clause } => match plan_select(
                    result_columns,
                    *from,
                    where_clause,
                ) {
                    Err(e) => Err(e),
                    Ok(steps) => match plan_output(db, steps) {
                        Err(e) => Err(e),
                        Ok(lines) => statements_output(db, ss, i + 1, out + lines),
                    },
                },
                _ => Err(DbError::Unsupported),
            },
            _ => Err(DbError::Unsupported),
        }
    }
}

/// The lines that running the SQL text `sql` prints.
pub open spec fn sql_output(db: Db, sql: Seq<char>) -> Result<Seq<Seq<char>>, DbError> {
    match lex_spec(sql) {
        Err(e) => Err(DbError::Lex(e)),
        Ok(ts) => match p_program(ts, 0) {
            Err(e) => Err(DbError::Parse(e)),
            Ok((a, _)) => match a {
                AstView::StmtList(ss) => statements_output(db, ss, 0, seq![]),
                _ => Err(DbError::Unsupported),
            },
        },
    }
}

/// Running the same SQL twice on the same database prints the same lines:
/// what [`SqlEngine::execute`] returns is fixed by the database and the text.
pub proof fn lemma_same_query_same_output(
    db: Db,
    sql: Seq<char>,
    first: Result<Seq<Seq<char>>, DbError>,
    second: Result<Seq<Seq<char>>, DbError>,
)
    requires
        first == sql_output(db, sql),
        second == sql_output(db, sql),
    ensures
        first == second,
{
}

/// The view of an optional WHERE clause.
pub open spec fn where_view(w: Option<Box<Ast>>) -> Option<Box<AstView>> {
    match w {
        Some(b) => Some(Box::new(ast_view(*b))),
        None => None,
    }
}

/// The table that a FROM clause names.
fn table_of(from: &Ast) -> (r: Result<String, DbError>)
    ensures
        match from@ {
            AstView::TableOrSubQuery(x) => match *x {
                AstView::Table(t) => r matches Ok(s) && s@ == t,
                _ => r == Err::<String, DbError>(DbError::Unsupported),
            },
            _ => r == Err::<String, DbError>(DbError::Unsupported),
        },
{
    proof {
        reveal_with_fuel(ast_view, 3);
    }
    match from {
        Ast::TableOrSubQuery(node) => match &**node {
            Ast::Table(t) => Ok(t.clone()),
            _ => Err(DbError::Unsupported),
        },
        _ => Err(DbError::Unsupported),
    }
}

/// The filter step of a WHERE clause.
fn where_of(where_clause: &Option<Box<Ast>>) -> (r: Result<Option<QueryStep>, DbError>)
    ensures
        match where_step(where_view(*where_clause)) {
            Ok(Some(st)) => r matches Ok(Some(x)) && x@ == st,
            Ok(None) => r matches Ok(None),
            Err(e) => r matches Err(x) && x == e,
        },
{
    proof {
        reveal_with_fuel(ast_view, 6);
    }
    match where_clause {
        None => Ok(None),
        Some(b) => match &**b {
            Ast::Expr(e) => match &**e {
                Ast::BinaryOp { op, lhs, rhs } => match (&**lhs, &**rhs) {
                    (Ast::Expr(l), Ast::Expr(r)) => match (&**l, &**r) {
                        (Ast::Identifier(c), Ast::StringLiteral(v)) => Ok(
                            Some(QueryStep::Where(c.clone(), Value::Text(v.clone()))),
                        ),
                        _ => Err(DbError::Unsupported),
                    },
                    _ => Err(DbError::Unsupported),
                },
                _ => Err(DbError::Unsupported),
            },
            _ => Err(DbError::Unsupported),
        },
    }
}

/// The names to print of a SELECT, and whether it counts rows instead.
fn select_list(result_columns: &Vec<Ast>) -> (r: Result<(Vec<String>, bool), DbError>)
    ensures
        match select_list_from(asts_view(result_columns@), 0, seq![]) {
            Ok((cols, count)) => r matches Ok((v, c)) && strings_view(v@) == cols && c == count,
            Err(e) => r matches Err(x) && x == e,
        },
{
    let ghost rcs = asts_view(result_columns@);
    let mut columns: Vec<String> = Vec::new();
    let mut i: usize = 0;
    proof {
        assert(strings_view(columns@) =~= Seq::<Seq<char>>::empty());
    }
    while i < result_columns.len()
        invariant
            i <= result_columns@.len(),
            rcs == asts_view(result_columns@),
            select_list_from(rcs, 0, seq![]) == select_list_from(
                rcs,
                i as int,
                strings_view(columns@),
            ),
        decreases result_columns.len() - i,
    {
        proof {
            reveal_with_fuel(ast_view, 3);
        }
        assert(rcs[i as int] == result_columns@[i as int]@);
        match &result_columns[i] {
            Ast::All => {
                let star = vec!["*".to_owned()];
                proof {
                    reveal_strlit("*");
                    assert(strings_view(star@) =~= seq!["*"@]);
                }
                return Ok((star, false));
            },
            Ast::Identifier(n) => {
                let ghost before = strings_view(columns@);
                columns.push(n.clone());
                proof {
                    assert(strings_view(columns@) =~= before.push(n@));
                }
            },
            Ast::Expr(e) => match &**e {
                Ast::Function { name, args } => {
                    proof {
                        if args@.len() > 0 {
                            assert(asts_view(args@)[0] == args@[0]@);
                        }
                    }
                    if same_text(name, "COUNT") && args.len() > 0 && matches!(args[0], Ast::All) {
                        let none: Vec<String> = Vec::new();
                        proof {
                            assert(strings_view(none@) =~= Seq::<Seq<char>>::empty());
                        }
                        return Ok((none, true));
                    } else {
                        return Err(DbError::Unsupported);
                    }
                },
                Ast::Identifier(n) => {
                    let ghost before = strings_view(columns@);
                    columns.push(n.clone());
                    proof {
                        assert(strings_view(columns@) =~= before.push(n@));
                    }
                },
                _ => {
                    return Err(DbError::Unsupported);
                },
            },
            _ => {
                return Err(DbError::Unsupported);
            },
        }
        i = i + 1;
    }
    Ok((columns, false))
}

/// Runs SQL text against a database.
pub struct SqlEngine {}

impl SqlEngine {
    pub fn new() -> SqlEngine {
        SqlEngine {  }
    }

    /// Runs the statements of `sql` and gives the lines they print.
    pub fn execute(&self, sql: &str, db: &Db) -> (r: Result<Vec<String>, DbError>)
        ensures
            match sql_output(*db, sql@) {
                Ok(lines) => r matches Ok(v) && strings_view(v@) == lines,
                Err(e) => r == Err::<Vec<String>, DbError>(e),
            },
    {
        let mut lexer = Lexer::new(sql.to_owned());
        let tokens = match lexer.lex() {
            Ok(t) => t,
            Err(e) => {
                return Err(DbError::Lex(e));
            },
        };
        let mut parser = Parser::new(tokens);
        let ast = match parser.parse() {
            Ok(a) => a,
            Err(e) => {
                return Err(DbError::Parse(e));
            },
        };
        proof {
            reveal_with_fuel(ast_view, 2);
        }
        match &ast {
            Ast::StmtList(stmts) => self.execute_statements(stmts, db),
            _ => Err(DbError::Unsupported),
        }
    }

    fn execute_statements(&self, stmts: &Vec<Ast>, db: &Db) -> (r: Result<Vec<String>, DbError>)
        ensures
            match statements_output(*db, asts_view(stmts@), 0, seq![]) {
                Ok(lines) => r matches Ok(v) && strings_view(v@) == lines,
                Err(e) => r == Err::<Vec<String>, DbError>(e),
            },
    {
        let ghost ss = asts_view(stmts@);
        let mut out: Vec<String> = Vec::new();
        let mut i: usize = 0;
        proof {
            assert(strings_view(out@) =~= Seq::<Seq<char>>::empty());
        }
        while i < stmts.len()
            invariant
                i <= stmts@.len(),
                ss == asts_view(stmts@),
                statements_output(*db, ss, 0, seq![]) == statements_output(
                    *db,
                    ss,
                    i as int,
                    strings_view(out@),
                ),
            decreases stmts.len() - i,
        {
            assert(ss[i as int] == stmts@[i as int]@);
            let lines = match self.execute_statement(&stmts[i], db) {
                Ok(l) => l,
                Err(e) => {
                    return Err(e);
                },
            };
            let ghost before = out@;
            let mut lines = lines;
            let ghost added = lines@;
            out.append(&mut lines);
            proof {
                assert(strings_view(out@) =~= strings_view(before) + strings_view(added));
            }
            i = i + 1;
        }
        Ok(out)
    }

    fn execute_statement(&self, stmt: &Ast, db: &Db) -> (r: Result<Vec<String>, DbError>)
        ensures
            match stmt@ {
                AstView::Stmt(b) => match *b {
                    AstView::Select { result_columns, from, where_clause } => match plan_select(
                        result_columns,
                        *from,
                        where_clause,
                    ) {
                        Err(e) => r == Err::<Vec<String>, DbError>(e),
                        Ok(steps) => match plan_output(*db, steps) {
                            Ok(lines) => r matches Ok(v) && strings_view(v@) == lines,
                            Err(e) => r == Err::<Vec<String>, DbError>(e),
                        },
                    },
                    _ => r == Err::<Vec<String>, DbError>(DbError::Unsupported),
                },
                _ => r == Err::<Vec<String>, DbError>(DbError::Unsupported),
            },
    {
        proof {
            reveal_with_fuel(ast_view, 3);
        }
        match stmt {
            Ast::Stmt(b) => match &**b {
                Ast::Select { result_columns, from, where_clause } => self.execute_select(
                    result_columns,
                    from,
                    where_clause,
                    db,
                ),
                _ => Err(DbError::Unsupported),
            },
            _ => Err(DbError::Unsupported),
        }
    }

    fn execute_select(
        &self,
        result_columns: &Vec<Ast>,
        from: &Ast,
        where_clause: &Option<Box<Ast>>,
        db: &Db,
    ) -> (r: Result<Vec<String>, DbError>)
        ensures
            match plan_select(asts_view(result_columns@), from@, where_view(*where_clause)) {
                Err(e) => r == Err::<Vec<String>, DbError>(e),
                Ok(steps) => match plan_output(*db, steps) {
                    Ok(lines) => r matches Ok(v) && strings_view(v@) == lines,
                    Err(e) => r == Err::<Vec<String>, DbError>(e),
                },
            },
    {
        let table_name = match table_of(from) {
            Ok(t) => t,
            Err(e) => {
                return Err(e);
            },
        };
        let step = match where_of(where_clause) {
            Ok(s) => s,
            Err(e) => {
                return Err(e);
            },
        };
        let (columns, count) = match select_list(result_columns) {
            Ok(x) => x,
            Err(e) => {
                return Err(e);
            },
        };
        let mut plan = QueryPlanner::new();
        plan.add_step(QueryStep::SetTable(table_name));
        match step {
            Some(st) => {
                plan.add_step(st);
            },
            None => {},
        }
        if count {
            proof {
                reveal_strlit("*");
            }
            plan.add_step(QueryStep::Count("*".to_owned()));
        }
        if columns.len() > 0 {
            plan.add_step(QueryStep::Select(columns));
        }
        proof {
            let w = where_step(where_view(*where_clause));
            let head = match w->Ok_0 {
                Some(st) => seq![StepView::SetTable(from@->TableOrSubQuery_0->Table_0), st],
                None => seq![StepView::SetTable(from@->TableOrSubQuery_0->Table_0)],
            };
            let (cols, cnt) = select_list_from(asts_view(result_columns@), 0, seq![])->Ok_0;
            assert(plan.steps() =~= head + (if cnt {
                seq![StepView::Count("*"@)]
            } else {
                seq![]
            }) + (if cols.len() > 0 {
                seq![StepView::Select(cols)]
            } else {
                seq![]
            }));
        }
        plan.execute(db)
    }
}

/// `sql` ending in a semicolon: one is added when it is missing.
pub open spec fn with_semicolon(sql: Seq<char>) -> Seq<char> {
    if sql.len() > 0 && sql.last() == ';' {
        sql
    } else {
        sql + seq![';']
    }
}

impl Db {
    /// Runs a SQL command, adding the final semicolon when it is missing.
    pub fn run_sql_command(&self, command: &str) -> (r: Result<Vec<String>, DbError>)
        ensures
            match sql_output(*self, with_semicolon(command@)) {
                Ok(lines) => r matches Ok(v) && strings_view(v@) == lines,
                Err(e) => r == Err::<Vec<String>, DbError>(e),
            },
    {
        let len = command.unicode_len();
        let ends = len > 0 && command.get_char(len - 1) == ';';
        let mut text = command.to_owned();
        if !ends {
            proof {
                reveal_strlit(";");
            }
            text.append(";");
        }
        assert(text@ == with_semicolon(command@));
        let engine = SqlEngine::new();
        engine.execute(text.as_str(), self)
    }
}

} // verus!
