//! Walks over table and index B-trees.
use vstd::prelude::*;
use crate::error::DbError;
use crate::page::{lemma_page_fits, page_at, DbPage, PageType, PageView};
use crate::record::{
    rows_view, value_bytes, values_view, prefixed, CellView, DbRecord, RowView, TableLeafRecord, Value, ValueView,
};

verus! {

/// The number of whole pages in the file.
pub open spec fn n_pages(db: Seq<u8>, ps: nat) -> nat {
    if ps == 0 {
        0
    } else {
        db.len() / ps
    }
}

/// The measure that a descent shrinks: pages not yet on the path.
pub open spec fn depth_left(db: Seq<u8>, ps: nat, path: Seq<u32>) -> nat {
    if path.len() >= n_pages(db, ps) {
        0
    } else {
        (n_pages(db, ps) - path.len()) as nat
    }
}

/// A descent may not reach a page that is already on its path, nor go
/// deeper than the file has pages.
pub open spec fn revisits(db: Seq<u8>, ps: nat, page: u32, path: Seq<u32>) -> bool {
    path.contains(page) || path.len() >= n_pages(db, ps)
}

/// The left child of an interior cell.
pub open spec fn left_of(c: CellView) -> u32 {
    match c {
        CellView::TableInterior { left, .. } => left,
        CellView::IndexInterior { left, .. } => left,
        _ => 0,
    }
}

/// The children of an interior page, in order: each cell's left child,
/// then the rightmost child.
pub open spec fn child_pages(p: PageView) -> Seq<u32> {
    p.cells.map_values(|c: CellView| left_of(c)).push(
        match p.header.rightmost_pointer {
            Some(r) => r,
            None => 0,
        },
    )
}

/// The row of a table leaf cell.
pub open spec fn row_of(c: CellView) -> RowView {
    match c {
        CellView::TableLeaf { row_id, values } => RowView { row_id, values },
        _ => RowView { row_id: 0, values: seq![] },
    }
}

pub open spec fn leaf_rows(cs: Seq<CellView>) -> Seq<RowView> {
    cs.map_values(|c: CellView| row_of(c))
}

/// Every row of the table B-tree rooted at `page`, leaf by leaf from left
/// to right; `path` holds the pages above it.
pub open spec fn table_rows(db: Seq<u8>, ps: nat, page: u32, path: Seq<u32>) -> Result<
    Seq<RowView>,
    DbError,
>
    decreases depth_left(db, ps, path), 0nat,
{
    if revisits(db, ps, page, path) {
        Err(DbError::PageCycle)
    } else {
        match page_at(db, ps, page as nat) {
            Err(e) => Err(e),
            Ok(p) => if p.header.page_type == PageType::LeafTable {
                Ok(leaf_rows(p.cells))
            } else if p.header.page_type == PageType::InteriorTable {
                subtrees_rows(db, ps, child_pages(p), path.push(page))
            } else {
                Err(DbError::WrongPageKind)
            },
        }
    }
}

/// The rows of the subtrees rooted at `pages`, one after the other.
pub open spec fn subtrees_rows(db: Seq<u8>, ps: nat, pages: Seq<u32>, path: Seq<u32>) -> Result<
    Seq<RowView>,
    DbError,
>
    decreases depth_left(db, ps, path), pages.len(),
{
    if pages.len() == 0 {
        Ok(seq![])
    } else {
        match subtrees_rows(db, ps, pages.drop_last(), path) {
            Err(e) => Err(e),
            Ok(a) => match table_rows(db, ps, pages.last(), path) {
                Err(e) => Err(e),
                Ok(b) => Ok(a + b),
            },
        }
    }
}

/// The number of cells on the leaves of the table B-tree rooted at `page`,
/// or why the tree cannot be read.
pub open spec fn leaf_cell_count(db: Seq<u8>, ps: nat, page: u32, path: Seq<u32>) -> Result<
    nat,
    DbError,
>
    decreases depth_left(db, ps, path), 0nat,
{
    if revisits(db, ps, page, path) {
        Err(DbError::PageCycle)
    } else {
        match page_at(db, ps, page as nat) {
            Err(e) => Err(e),
            Ok(p) => if p.header.page_type == PageType::LeafTable {
                Ok(p.cells.len())
            } else if p.header.page_type == PageType::InteriorTable {
                subtrees_cell_count(db, ps, child_pages(p), path.push(page))
            } else {
                Err(DbError::WrongPageKind)
            },
        }
    }
}

/// The leaf cells below the subtrees rooted at `pages`, added up.
pub open spec fn subtrees_cell_count(db: Seq<u8>, ps: nat, pages: Seq<u32>, path: Seq<u32>) -> Result<
    nat,
    DbError,
>
    decreases depth_left(db, ps, path), pages.len(),
{
    if pages.len() == 0 {
        Ok(0)
    } else {
        match subtrees_cell_count(db, ps, pages.drop_last(), path) {
            Err(e) => Err(e),
            Ok(a) => match leaf_cell_count(db, ps, pages.last(), path) {
                Err(e) => Err(e),
                Ok(b) => Ok(a + b),
            },
        }
    }
}

/// A full scan of a table B-tree gives exactly one row for each cell on
/// the leaves below its root, and fails exactly when counting them fails.
pub proof fn lemma_scan_counts_leaf_cells(db: Seq<u8>, ps: nat, page: u32, path: Seq<u32>)
    ensures
        match table_rows(db, ps, page, path) {
            Ok(rows) => leaf_cell_count(db, ps, page, path) == Ok::<nat, DbError>(rows.len()),
            Err(e) => leaf_cell_count(db, ps, page, path) == Err::<nat, DbError>(e),
        },
    decreases depth_left(db, ps, path), 0nat,
{
    if !revisits(db, ps, page, path) {
        if let Ok(p) = page_at(db, ps, page as nat) {
            if p.header.page_type == PageType::InteriorTable {
                lemma_subtrees_count(db, ps, child_pages(p), path.push(page));
            }
        }
    }
}

proof fn lemma_subtrees_count(db: Seq<u8>, ps: nat, pages: Seq<u32>, path: Seq<u32>)
    ensures
        match subtrees_rows(db, ps, pages, path) {
            Ok(rows) => subtrees_cell_count(db, ps, pages, path) == Ok::<nat, DbError>(rows.len()),
            Err(e) => subtrees_cell_count(db, ps, pages, path) == Err::<nat, DbError>(e),
        },
    decreases depth_left(db, ps, path), pages.len(),
{
    if pages.len() > 0 {
        lemma_subtrees_count(db, ps, pages.drop_last(), path);
        lemma_scan_counts_leaf_cells(db, ps, pages.last(), path);
    }
}

/// Row ids strictly increase along `rows`.
pub open spec fn increasing(rows: Seq<RowView>) -> bool {
    forall|i: int, j: int| 0 <= i < j < rows.len() ==> rows[i].row_id < rows[j].row_id
}

/// Every row id of `rows` lies above `lo` and at most `hi`.
pub open spec fn rows_in_range(rows: Seq<RowView>, lo: Option<u64>, hi: Option<u64>) -> bool {
    forall|i: int| 0 <= i < rows.len() ==> in_range(#[trigger] rows[i].row_id, lo, hi)
}

/// The bounds of child `i` of interior page `p` whose own bounds are `lo`
/// and `hi`: above the key before it (or `lo`), at most its key (or `hi`).
pub open spec fn child_bounds(p: PageView, i: int, lo: Option<u64>, hi: Option<u64>) -> (
    Option<u64>,
    Option<u64>,
) {
    (
        if i == 0 {
            lo
        } else {
            Some(key_of_cell(p.cells[i - 1]))
        },
        if i < p.cells.len() {
            Some(key_of_cell(p.cells[i]))
        } else {
            hi
        },
    )
}

/// The keys of interior page `p` increase and lie within `lo` and `hi`.
pub open spec fn keys_ordered(p: PageView, lo: Option<u64>, hi: Option<u64>) -> bool {
    &&& forall|i: int, j: int|
        0 <= i < j < p.cells.len() ==> key_of_cell(p.cells[i]) < key_of_cell(p.cells[j])
    &&& forall|i: int| 0 <= i < p.cells.len() ==> in_range(key_of_cell(#[trigger] p.cells[i]), lo, hi)
}

/// The table B-tree rooted at `page` is in order within `lo` and `hi`: on
/// each leaf the row ids increase, on each interior page the keys increase,
/// and every row id and key lies within the bounds that the keys above it
/// give.
pub open spec fn ordered_tree(
    db: Seq<u8>,
    ps: nat,
    page: u32,
    path: Seq<u32>,
    lo: Option<u64>,
    hi: Option<u64>,
) -> bool
    decreases depth_left(db, ps, path), 0nat,
{
    if revisits(db, ps, page, path) {
        false
    } else {
        match page_at(db, ps, page as nat) {
            Err(_) => false,
            Ok(p) => if p.header.page_type == PageType::LeafTable {
                increasing(leaf_rows(p.cells)) && rows_in_range(leaf_rows(p.cells), lo, hi)
            } else if p.header.page_type == PageType::InteriorTable {
                keys_ordered(p, lo, hi) && ordered_children(
                    db,
                    ps,
                    p,
                    path.push(page),
                    lo,
                    hi,
                    child_pages(p).len(),
                )
            } else {
                false
            },
        }
    }
}

/// The first `m` children of interior page `p` are in order within their bounds.
pub open spec fn ordered_children(
    db: Seq<u8>,
    ps: nat,
    p: PageView,
    path: Seq<u32>,
    lo: Option<u64>,
    hi: Option<u64>,
    m: nat,
) -> bool
    decreases depth_left(db, ps, path), m,
{
    if m == 0 || m > child_pages(p).len() {
        true
    } else {
        ordered_children(db, ps, p, path, lo, hi, (m - 1) as nat) && ordered_tree(
            db,
            ps,
            child_pages(p)[m - 1],
            path,
            child_bounds(p, m - 1, lo, hi).0,
            child_bounds(p, m - 1, lo, hi).1,
        )
    }
}

/// A full scan of a table B-tree whose keys are in order gives its rows in
/// strictly increasing row-id order, all within the tree's bounds.
pub proof fn lemma_scan_in_row_id_order(
    db: Seq<u8>,
    ps: nat,
    page: u32,
    path: Seq<u32>,
    lo: Option<u64>,
    hi: Option<u64>,
)
    requires
        ordered_tree(db, ps, page, path, lo, hi),
    ensures
        table_rows(db, ps, page, path) matches Ok(rows) ==> increasing(rows) && rows_in_range(
            rows,
            lo,
            hi,
        ),
    decreases depth_left(db, ps, path), 0nat,
{
    let p = page_at(db, ps, page as nat)->Ok_0;
    if p.header.page_type == PageType::InteriorTable {
        let kids = child_pages(p);
        lemma_children_in_order(db, ps, p, path.push(page), lo, hi, kids.len());
        assert(kids.subrange(0, kids.len() as int) =~= kids);
    }
}

proof fn lemma_children_in_order(
    db: Seq<u8>,
    ps: nat,
    p: PageView,
    path: Seq<u32>,
    lo: Option<u64>,
    hi: Option<u64>,
    m: nat,
)
    requires
        1 <= m <= child_pages(p).len(),
        child_pages(p).len() == p.cells.len() + 1,
        keys_ordered(p, lo, hi),
        ordered_children(db, ps, p, path, lo, hi, m),
    ensures
        subtrees_rows(db, ps, child_pages(p).subrange(0, m as int), path) matches Ok(rows)
            ==> increasing(rows) && rows_in_range(rows, lo, child_bounds(p, m - 1, lo, hi).1),
    decreases depth_left(db, ps, path), m,
{
    let kids = child_pages(p);
    let pre = kids.subrange(0, m as int);
    assert(pre.drop_last() =~= kids.subrange(0, m - 1));
    assert(pre.last() == kids[m - 1]);
    let (l, h) = child_bounds(p, m - 1, lo, hi);
    lemma_scan_in_row_id_order(db, ps, kids[m - 1], path, l, h);
    if m == 1 {
        assert(kids.subrange(0, 0) =~= Seq::<u32>::empty());
        if let Ok(rows) = subtrees_rows(db, ps, pre, path) {
            let b = table_rows(db, ps, kids[0], path)->Ok_0;
            assert(rows =~= Seq::<RowView>::empty() + b);
        }
    } else {
        lemma_children_in_order(db, ps, p, path, lo, hi, (m - 1) as nat);
        if let Ok(rows) = subtrees_rows(db, ps, pre, path) {
            let a = subtrees_rows(db, ps, kids.subrange(0, m - 1), path)->Ok_0;
            let b = table_rows(db, ps, kids[m - 1], path)->Ok_0;
            assert(rows == a + b);
            let k = key_of_cell(p.cells[m - 2]);
            assert(child_bounds(p, m - 2, lo, hi).1 == Some(k));
            assert(l == Some(k));
            assert(forall|i: int| 0 <= i < a.len() ==> a[i].row_id <= k) by {
                assert forall|i: int| 0 <= i < a.len() implies a[i].row_id <= k by {
                    assert(in_range(a[i].row_id, lo, Some(k)));
                }
            }
            assert(forall|j: int| 0 <= j < b.len() ==> k < b[j].row_id) by {
                assert forall|j: int| 0 <= j < b.len() implies k < b[j].row_id by {
                    assert(in_range(b[j].row_id, l, h));
                }
            }
            assert forall|i: int, j: int| 0 <= i < j < rows.len() implies rows[i].row_id
                < rows[j].row_id by {
                if j < a.len() {
                    assert(rows[i] == a[i] && rows[j] == a[j]);
                } else if i >= a.len() {
                    assert(rows[i] == b[i - a.len()] && rows[j] == b[j - a.len()]);
                } else {
                    assert(rows[i] == a[i] && rows[j] == b[j - a.len()]);
                }
            }
            assert(in_range(k, lo, hi));
            if m - 1 < p.cells.len() {
                assert(k < key_of_cell(p.cells[m - 1]));
            }
            assert forall|i: int| 0 <= i < rows.len() implies in_range(
                #[trigger] rows[i].row_id,
                lo,
                h,
            ) by {
                if i < a.len() {
                    assert(rows[i] == a[i]);
                    assert(in_range(a[i].row_id, lo, Some(k)));
                } else {
                    assert(rows[i] == b[i - a.len()]);
                    assert(in_range(b[i - a.len()].row_id, l, h));
                }
            }
        }
    }
}

pub proof fn lemma_rows_with_ids_concat(a: Seq<RowView>, b: Seq<RowView>, ts: Seq<u64>)
    ensures
        rows_with_ids(a + b, ts) == rows_with_ids(a, ts) + rows_with_ids(b, ts),
    decreases b.len(),
{
    if b.len() == 0 {
        assert(a + b =~= a);
        assert(rows_with_ids(a, ts) + rows_with_ids(b, ts) =~= rows_with_ids(a, ts));
    } else {
        lemma_rows_with_ids_concat(a, b.drop_last(), ts);
        assert((a + b).drop_last() =~= a + b.drop_last());
        assert((a + b).last() == b.last());
        if ts.contains(b.last().row_id) {
            assert(rows_with_ids(a, ts) + rows_with_ids(b.drop_last(), ts).push(b.last()) =~= (
            rows_with_ids(a, ts) + rows_with_ids(b.drop_last(), ts)).push(b.last()));
        }
    }
}

proof fn lemma_targets_in_contains(ts: Seq<u64>, lo: Option<u64>, hi: Option<u64>, t: u64)
    ensures
        targets_in(ts, lo, hi).contains(t) <==> ts.contains(t) && in_range(t, lo, hi),
    decreases ts.len(),
{
    if ts.len() > 0 {
        lemma_targets_in_contains(ts.drop_last(), lo, hi, t);
        let prev = targets_in(ts.drop_last(), lo, hi);
        if ts.contains(t) && in_range(t, lo, hi) {
            let k = choose|k: int| 0 <= k < ts.len() && ts[k] == t;
            if k < ts.len() - 1 {
                assert(ts.drop_last()[k] == t);
                let q = choose|q: int| 0 <= q < prev.len() && prev[q] == t;
                if in_range(ts.last(), lo, hi) {
                    assert(prev.push(ts.last())[q] == t);
                }
            } else {
                assert(targets_in(ts, lo, hi).last() == t);
            }
        }
        if targets_in(ts, lo, hi).contains(t) {
            let k = choose|k: int| 0 <= k < targets_in(ts, lo, hi).len() && targets_in(ts, lo, hi)[k] == t;
            if in_range(ts.last(), lo, hi) && k == prev.len() {
                assert(ts[ts.len() - 1] == t);
            } else {
                assert(prev[k] == t);
                let q = choose|q: int| 0 <= q < ts.drop_last().len() && ts.drop_last()[q] == t;
                assert(ts[q] == t);
            }
        }
    }
}

/// Filters that agree on the row ids of `rows` select the same rows.
proof fn lemma_rows_with_ids_same(rows: Seq<RowView>, ts: Seq<u64>, us: Seq<u64>)
    requires
        forall|i: int| 0 <= i < rows.len() ==> (ts.contains(#[trigger] rows[i].row_id) <==> us.contains(rows[i].row_id)),
    ensures
        rows_with_ids(rows, ts) == rows_with_ids(rows, us),
    decreases rows.len(),
{
    if rows.len() > 0 {
        assert(rows.last() == rows[rows.len() - 1]);
        assert forall|i: int| 0 <= i < rows.drop_last().len() implies (ts.contains(
            #[trigger] rows.drop_last()[i].row_id,
        ) <==> us.contains(rows.drop_last()[i].row_id)) by {
            assert(rows.drop_last()[i] == rows[i]);
        }
        lemma_rows_with_ids_same(rows.drop_last(), ts, us);
    }
}

proof fn lemma_rows_with_ids_empty(rows: Seq<RowView>)
    ensures
        rows_with_ids(rows, seq![]) == Seq::<RowView>::empty(),
    decreases rows.len(),
{
    if rows.len() > 0 {
        lemma_rows_with_ids_empty(rows.drop_last());
    }
}

/// On a table B-tree whose keys are in order, the row-id-directed fetch
/// gives the same rows as a full scan kept to the targeted row ids.
pub proof fn lemma_fetch_matches_scan(
    db: Seq<u8>,
    ps: nat,
    page: u32,
    path: Seq<u32>,
    lo: Option<u64>,
    hi: Option<u64>,
    ts: Seq<u64>,
)
    requires
        ordered_tree(db, ps, page, path, lo, hi),
        table_rows(db, ps, page, path) is Ok,
    ensures
        fetch_rows(db, ps, page, ts, path) == Ok::<Seq<RowView>, DbError>(
            rows_with_ids(table_rows(db, ps, page, path)->Ok_0, ts),
        ),
    decreases depth_left(db, ps, path), 0nat,
{
    if ts.len() == 0 {
        assert(ts =~= Seq::<u64>::empty());
        lemma_rows_with_ids_empty(table_rows(db, ps, page, path)->Ok_0);
    } else {
        let p = page_at(db, ps, page as nat)->Ok_0;
        if p.header.page_type == PageType::InteriorTable {
            let kids = child_pages(p);
            assert(kids.subrange(0, kids.len() as int) =~= kids);
            lemma_fetch_children_match(db, ps, p, path.push(page), lo, hi, ts, kids.len());
        }
    }
}

proof fn lemma_fetch_children_match(
    db: Seq<u8>,
    ps: nat,
    p: PageView,
    path: Seq<u32>,
    lo: Option<u64>,
    hi: Option<u64>,
    ts: Seq<u64>,
    m: nat,
)
    requires
        m <= child_pages(p).len(),
        child_pages(p).len() == p.cells.len() + 1,
        keys_ordered(p, lo, hi),
        ordered_children(db, ps, p, path, lo, hi, m),
        subtrees_rows(db, ps, child_pages(p).subrange(0, m as int), path) is Ok,
    ensures
        fetch_children(db, ps, p, ts, path, m) == Ok::<Seq<RowView>, DbError>(
            rows_with_ids(subtrees_rows(db, ps, child_pages(p).subrange(0, m as int), path)->Ok_0, ts),
        ),
    decreases depth_left(db, ps, path), m,
{
    let kids = child_pages(p);
    let pre = kids.subrange(0, m as int);
    if m == 0 {
        assert(pre =~= Seq::<u32>::empty());
    } else {
        assert(pre.drop_last() =~= kids.subrange(0, m - 1));
        assert(pre.last() == kids[m - 1]);
        lemma_fetch_children_match(db, ps, p, path, lo, hi, ts, (m - 1) as nat);
        let (l, h) = child_bounds(p, m - 1, lo, hi);
        let (rl, rh) = child_range(p.cells, m - 1);
        let sub = targets_in(ts, rl, rh);
        lemma_fetch_matches_scan(db, ps, kids[m - 1], path, l, h, sub);
        lemma_scan_in_row_id_order(db, ps, kids[m - 1], path, l, h);
        let a = subtrees_rows(db, ps, kids.subrange(0, m - 1), path)->Ok_0;
        let b = table_rows(db, ps, kids[m - 1], path)->Ok_0;
        assert forall|i: int| 0 <= i < b.len() implies (sub.contains(#[trigger] b[i].row_id)
            <==> ts.contains(b[i].row_id)) by {
            lemma_targets_in_contains(ts, rl, rh, b[i].row_id);
            assert(in_range(b[i].row_id, l, h));
            if m - 1 > 0 {
                assert(l == Some(key_of_cell(p.cells[m - 2])));
            }
        }
        lemma_rows_with_ids_same(b, sub, ts);
        lemma_rows_with_ids_concat(a, b, ts);
    }
}

/// Whether `page` is on `path`.
fn on_path(path: &Vec<u32>, page: u32) -> (r: bool)
    ensures
        r == path@.contains(page),
{
    let mut i: usize = 0;
    while i < path.len()
        invariant
            i <= path@.len(),
            forall|j: int| 0 <= j < i ==> path@[j] != page,
        decreases path.len() - i,
    {
        if path[i] == page {
            return true;
        }
        i = i + 1;
    }
    false
}

/// Whether a descent to `page` below `path` would revisit a page.
fn check_revisit(data: &[u8], ps: u32, page: u32, path: &Vec<u32>) -> (r: bool)
    ensures
        r == revisits(data@, ps as nat, page, path@),
{
    let n: usize = if ps == 0 {
        0
    } else {
        data.len() / ps as usize
    };
    on_path(path, page) || path.len() >= n
}

/// The children of interior page `p`, in order.
fn children_of(p: &DbPage) -> (r: Vec<u32>)
    ensures
        r@ == child_pages(p@),
{
    let mut kids: Vec<u32> = Vec::new();
    let mut i: usize = 0;
    let ghost cells = p@.cells;
    while i < p.records.len()
        invariant
            cells == p@.cells,
            i <= p.records@.len(),
            kids@ == cells.subrange(0, i as int).map_values(|c: CellView| left_of(c)),
        decreases p.records.len() - i,
    {
        let left = match &p.records[i] {
            DbRecord::InteriorTableRecord(r) => r.left_child_page,
            DbRecord::InteriorIndexRecord(r) => r.left_child,
            _ => 0,
        };
        assert(cells[i as int] == p.records@[i as int]@);
        kids.push(left);
        proof {
            assert(kids@ =~= cells.subrange(0, i + 1).map_values(|c: CellView| left_of(c)));
        }
        i = i + 1;
    }
    let right = match p.header.rightmost_pointer {
        Some(r) => r,
        None => 0,
    };
    kids.push(right);
    proof {
        assert(cells.subrange(0, cells.len() as int) =~= cells);
        assert(kids@ =~= child_pages(p@));
    }
    kids
}

/// Appends to `out` every row of the table B-tree rooted at `page`.
pub fn scan_table(
    data: &[u8],
    ps: u32,
    page: u32,
    path: &Vec<u32>,
    out: &mut Vec<TableLeafRecord>,
) -> (r: Result<(), DbError>)
    ensures
        match table_rows(data@, ps as nat, page, path@) {
            Ok(rows) => r is Ok && rows_view(final(out)@) == rows_view(old(out)@) + rows,
            Err(e) => r == Err::<(), DbError>(e),
        },
    decreases depth_left(data@, ps as nat, path@), 0nat,
{
    if check_revisit(data, ps, page, path) {
        return Err(DbError::PageCycle);
    }
    let p = match DbPage::parse(data, ps, page) {
        Ok(p) => p,
        Err(e) => {
            return Err(e);
        },
    };
    proof {
        lemma_page_fits(data@, ps as nat, page as nat);
    }
    match p.header.page_type {
        PageType::LeafTable => {
            let ghost start = rows_view(out@);
            let mut i: usize = 0;
            while i < p.records.len()
                invariant
                    i <= p.records@.len(),
                    p@ == page_at(data@, ps as nat, page as nat)->Ok_0,
                    p.header.page_type == PageType::LeafTable,
                    forall|j: int| 0 <= j < p@.cells.len() ==> (#[trigger] p@.cells[j]) is TableLeaf,
                    rows_view(out@) == start + leaf_rows(p@.cells.subrange(0, i as int)),
                decreases p.records.len() - i,
            {
                assert(p@.cells[i as int] == p.records@[i as int]@);
                match &p.records[i] {
                    DbRecord::TableLeafRecord(rec) => {
                        let ghost before = rows_view(out@);
                        out.push(rec.copy());
                        proof {
                            assert(rows_view(out@) =~= before.push(rec@));
                            assert(leaf_rows(p@.cells.subrange(0, i + 1)) =~= leaf_rows(
                                p@.cells.subrange(0, i as int),
                            ).push(row_of(p@.cells[i as int])));
                        }
                    },
                    _ => {
                        assert(false);
                    },
                }
                i = i + 1;
            }
            proof {
                assert(p@.cells.subrange(0, p@.cells.len() as int) =~= p@.cells);
            }
            Ok(())
        },
        PageType::InteriorTable => {
            let kids = children_of(&p);
            let mut below = path.clone();
            below.push(page);
            proof {
                assert(below@ == path@.push(page));
            }
            let ghost start = rows_view(out@);
            let mut i: usize = 0;
            while i < kids.len()
                invariant
                    i <= kids@.len(),
                    below@ == path@.push(page),
                    !revisits(data@, ps as nat, page, path@),
                    table_rows(data@, ps as nat, page, path@) == subtrees_rows(
                        data@,
                        ps as nat,
                        kids@,
                        below@,
                    ),
                    subtrees_rows(data@, ps as nat, kids@.subrange(0, i as int), below@) matches Ok(
                        acc,
                    ) && rows_view(out@) == start + acc,
                decreases kids.len() - i,
            {
                let ghost prefix = kids@.subrange(0, i as int);
                let ghost acc = subtrees_rows(data@, ps as nat, prefix, below@)->Ok_0;
                proof {
                    assert(kids@.subrange(0, i + 1).drop_last() =~= prefix);
                    assert(depth_left(data@, ps as nat, below@) < depth_left(
                        data@,
                        ps as nat,
                        path@,
                    ));
                }
                let ghost mid = rows_view(out@);
                match scan_table(data, ps, kids[i], &below, out) {
                    Ok(()) => {},
                    Err(e) => {
                        proof {
                            lemma_subtrees_err(data@, ps as nat, kids@, below@, i + 1, kids@.len() as int);
                            assert(kids@.subrange(0, kids@.len() as int) =~= kids@);
                        }
                        return Err(e);
                    },
                }
                proof {
                    let b = table_rows(data@, ps as nat, kids@[i as int], below@)->Ok_0;
                    assert(rows_view(out@) =~= start + (acc + b));
                }
                i = i + 1;
            }
            proof {
                assert(kids@.subrange(0, kids@.len() as int) =~= kids@);
            }
            Ok(())
        },
        _ => Err(DbError::WrongPageKind),
    }
}

proof fn lemma_subtrees_err(db: Seq<u8>, ps: nat, pages: Seq<u32>, path: Seq<u32>, j: int, m: int)
    requires
        0 <= j <= m <= pages.len(),
        subtrees_rows(db, ps, pages.subrange(0, j), path) is Err,
    ensures
        subtrees_rows(db, ps, pages.subrange(0, m), path) == subtrees_rows(
            db,
            ps,
            pages.subrange(0, j),
            path,
        ),
    decreases m - j,
{
    if m > j {
        lemma_subtrees_err(db, ps, pages, path, j, m - 1);
        assert(pages.subrange(0, m).drop_last() =~= pages.subrange(0, m - 1));
    }
}


/// Lexicographic order of byte strings: -1, 0 or 1 as `a` is before,
/// equal to or after `b`.
pub open spec fn bytes_cmp(a: Seq<u8>, b: Seq<u8>) -> int
    decreases a.len(),
{
    if a.len() == 0 && b.len() == 0 {
        0
    } else if a.len() == 0 {
        -1
    } else if b.len() == 0 {
        1
    } else if a[0] < b[0] {
        -1
    } else if a[0] > b[0] {
        1
    } else {
        bytes_cmp(a.drop_first(), b.drop_first())
    }
}

/// Compares two byte strings lexicographically.
pub fn compare_bytes(a: &Vec<u8>, b: &Vec<u8>) -> (r: i8)
    ensures
        r as int == bytes_cmp(a@, b@),
{
    let mut i: usize = 0;
    proof {
        assert(a@.subrange(0, a@.len() as int) =~= a@);
        assert(b@.subrange(0, b@.len() as int) =~= b@);
    }
    loop
        invariant
            i <= a@.len(),
            i <= b@.len(),
            bytes_cmp(a@, b@) == bytes_cmp(
                a@.subrange(i as int, a@.len() as int),
                b@.subrange(i as int, b@.len() as int),
            ),
        decreases a.len() - i,
    {
        let ghost sa = a@.subrange(i as int, a@.len() as int);
        let ghost sb = b@.subrange(i as int, b@.len() as int);
        if i == a.len() && i == b.len() {
            return 0;
        } else if i == a.len() {
            return -1;
        } else if i == b.len() {
            return 1;
        } else if a[i] < b[i] {
            return -1;
        } else if a[i] > b[i] {
            return 1;
        }
        proof {
            assert(sa.drop_first() =~= a@.subrange(i + 1, a@.len() as int));
            assert(sb.drop_first() =~= b@.subrange(i + 1, b@.len() as int));
        }
        i = i + 1;
    }
}

/// Whether two byte strings are equal.
pub fn bytes_equal(a: &Vec<u8>, b: &Vec<u8>) -> (r: bool)
    ensures
        r == (a@ == b@),
{
    proof {
        lemma_bytes_cmp_eq(a@, b@);
    }
    compare_bytes(a, b) == 0
}

/// The values of an index cell.
pub open spec fn cell_values(c: CellView) -> Seq<ValueView> {
    match c {
        CellView::IndexLeaf { values } => values,
        CellView::IndexInterior { values, .. } => values,
        CellView::TableLeaf { values, .. } => values,
        _ => seq![],
    }
}

/// The bytes of the first value of an index entry, which the entry is ordered by.
pub open spec fn key_of(vs: Seq<ValueView>) -> Seq<u8> {
    if vs.len() > 0 {
        value_bytes(vs[0])
    } else {
        seq![]
    }
}

/// The row id that ends an index entry.
pub open spec fn row_id_in(vs: Seq<ValueView>) -> Option<u64> {
    if vs.len() > 0 && vs.last() is Int && vs.last()->Int_0 >= 0 {
        Some(vs.last()->Int_0 as u64)
    } else {
        None
    }
}

/// The row ids of the entries of an index leaf whose key is `key`.
pub open spec fn leaf_matches(cs: Seq<CellView>, key: Seq<u8>) -> Result<Seq<u64>, DbError>
    decreases cs.len(),
{
    if cs.len() == 0 {
        Ok(seq![])
    } else {
        match leaf_matches(cs.drop_last(), key) {
            Err(e) => Err(e),
            Ok(a) => if key_of(cell_values(cs.last())) == key {
                match row_id_in(cell_values(cs.last())) {
                    Some(r) => Ok(a.push(r)),
                    None => Err(DbError::BadIndexEntry),
                }
            } else {
                Ok(a)
            },
        }
    }
}

/// The row ids of the entries with key `key` in the index B-tree rooted at
/// `page`, in index order.
pub open spec fn index_lookup(db: Seq<u8>, ps: nat, page: u32, key: Seq<u8>, path: Seq<u32>) -> Result<
    Seq<u64>,
    DbError,
>
    decreases depth_left(db, ps, path), 0nat,
{
    if revisits(db, ps, page, path) {
        Err(DbError::PageCycle)
    } else {
        match page_at(db, ps, page as nat) {
            Err(e) => Err(e),
            Ok(p) => if p.header.page_type == PageType::LeafIndex {
                leaf_matches(p.cells, key)
            } else if p.header.page_type == PageType::InteriorIndex {
                interior_matches(db, ps, p.cells, child_pages(p).last(), key, path.push(page), 0)
            } else {
                Err(DbError::WrongPageKind)
            },
        }
    }
}

/// The matches below an interior index page from its cell `i` on. Cells
/// whose key is below `key` are passed over; a cell equal to it gives the
/// matches of its left child and then its own row id; the first cell above
/// it gives the matches of its left child and ends the search. When no cell
/// is above `key`, the rightmost child is searched last.
pub open spec fn interior_matches(
    db: Seq<u8>,
    ps: nat,
    cs: Seq<CellView>,
    right: u32,
    key: Seq<u8>,
    path: Seq<u32>,
    i: int,
) -> Result<Seq<u64>, DbError>
    decreases depth_left(db, ps, path), (cs.len() + 1 - i) as nat,
{
    if i < 0 || i > cs.len() {
        Ok(seq![])
    } else if i == cs.len() {
        index_lookup(db, ps, right, key, path)
    } else {
        let c = cs[i];
        let cmp = bytes_cmp(key_of(cell_values(c)), key);
        if cmp < 0 {
            interior_matches(db, ps, cs, right, key, path, i + 1)
        } else if cmp == 0 {
            match index_lookup(db, ps, left_of(c), key, path) {
                Err(e) => Err(e),
                Ok(a) => match row_id_in(cell_values(c)) {
                    None => Err(DbError::BadIndexEntry),
                    Some(r) => prefixed(
                        a.push(r),
                        interior_matches(db, ps, cs, right, key, path, i + 1),
                    ),
                },
            }
        } else {
            index_lookup(db, ps, left_of(c), key, path)
        }
    }
}

/// The key bytes of an index entry.
fn values_key(vs: &Vec<Value>) -> (k: Vec<u8>)
    ensures
        k@ == key_of(values_view(vs@)),
{
    if vs.len() > 0 {
        vs[0].as_bytes()
    } else {
        Vec::new()
    }
}

/// The row id that ends an index entry.
fn values_row_id(vs: &Vec<Value>) -> (x: Option<u64>)
    ensures
        x == row_id_in(values_view(vs@)),
{
    if vs.len() == 0 {
        return None;
    }
    match &vs[vs.len() - 1] {
        Value::Int(n) => if *n >= 0 {
            Some(*n as u64)
        } else {
            None
        },
        _ => None,
    }
}

/// The key bytes of an index cell.
fn entry_key(r: &DbRecord) -> (k: Vec<u8>)
    ensures
        k@ == key_of(cell_values(r@)),
{
    match r {
        DbRecord::IndexLeafRecord(x) => values_key(&x.values),
        DbRecord::InteriorIndexRecord(x) => values_key(&x.values),
        DbRecord::TableLeafRecord(x) => values_key(&x.values),
        DbRecord::InteriorTableRecord(_) => Vec::new(),
    }
}

/// The row id of an index cell.
fn entry_row_id(r: &DbRecord) -> (x: Option<u64>)
    ensures
        x == row_id_in(cell_values(r@)),
{
    match r {
        DbRecord::IndexLeafRecord(x) => values_row_id(&x.values),
        DbRecord::InteriorIndexRecord(x) => values_row_id(&x.values),
        DbRecord::TableLeafRecord(x) => values_row_id(&x.values),
        DbRecord::InteriorTableRecord(_) => None,
    }
}

/// The left child of an interior cell.
fn entry_left(r: &DbRecord) -> (x: u32)
    ensures
        x == left_of(r@),
{
    match r {
        DbRecord::InteriorTableRecord(x) => x.left_child_page,
        DbRecord::InteriorIndexRecord(x) => x.left_child,
        _ => 0,
    }
}

/// Appends to `out` the row ids of the entries with key `key` in the index
/// B-tree rooted at `page`.
pub fn lookup_index(
    data: &[u8],
    ps: u32,
    page: u32,
    key: &Vec<u8>,
    path: &Vec<u32>,
    out: &mut Vec<u64>,
) -> (r: Result<(), DbError>)
    ensures
        match index_lookup(data@, ps as nat, page, key@, path@) {
            Ok(ids) => r is Ok && final(out)@ == old(out)@ + ids,
            Err(e) => r == Err::<(), DbError>(e),
        },
    decreases depth_left(data@, ps as nat, path@), 0nat,
{
    if check_revisit(data, ps, page, path) {
        return Err(DbError::PageCycle);
    }
    let p = match DbPage::parse(data, ps, page) {
        Ok(p) => p,
        Err(e) => {
            return Err(e);
        },
    };
    proof {
        lemma_page_fits(data@, ps as nat, page as nat);
    }
    let ghost start = out@;
    match p.header.page_type {
        PageType::LeafIndex => {
            assert(index_lookup(data@, ps as nat, page, key@, path@) == leaf_matches(p@.cells, key@));
            let mut i: usize = 0;
            while i < p.records.len()
                invariant
                    i <= p.records@.len(),
                    start == old(out)@,
                    p@ == page_at(data@, ps as nat, page as nat)->Ok_0,
                    index_lookup(data@, ps as nat, page, key@, path@) == leaf_matches(p@.cells, key@),
                    leaf_matches(p@.cells.subrange(0, i as int), key@) matches Ok(a) && out@
                        == start + a,
                decreases p.records.len() - i,
            {
                assert(p@.cells[i as int] == p.records@[i as int]@);
                let ghost prev = p@.cells.subrange(0, i as int);
                proof {
                    assert(p@.cells.subrange(0, i + 1).drop_last() =~= prev);
                }
                assert(p@.cells.subrange(0, i + 1).last() == p@.cells[i as int]);
                let k = entry_key(&p.records[i]);
                if compare_bytes(&k, key) == 0 {
                    proof {
                        lemma_bytes_cmp_eq(k@, key@);
                    }
                    match entry_row_id(&p.records[i]) {
                        Some(id) => {
                            out.push(id);
                        },
                        None => {
                            proof {
                                lemma_leaf_matches_err(p@.cells, key@, i + 1, p@.cells.len() as int);
                                assert(p@.cells.subrange(0, p@.cells.len() as int) =~= p@.cells);
                            }
                            return Err(DbError::BadIndexEntry);
                        },
                    }
                } else {
                    proof {
                        lemma_bytes_cmp_eq(k@, key@);
                    }
                }
                i = i + 1;
            }
            proof {
                assert(p@.cells.subrange(0, p@.cells.len() as int) =~= p@.cells);
            }
            Ok(())
        },
        PageType::InteriorIndex => {
            let right = match p.header.rightmost_pointer {
                Some(r) => r,
                None => 0,
            };
            let mut below = path.clone();
            below.push(page);
            proof {
                assert(below@ == path@.push(page));
                assert(depth_left(data@, ps as nat, below@) < depth_left(data@, ps as nat, path@));
            }
            let ghost cs = p@.cells;
            let mut i: usize = 0;
            loop
                invariant
                    i <= cs.len(),
                    start == old(out)@,
                    cs == p@.cells,
                    cs.len() == p.records@.len(),
                    below@ == path@.push(page),
                    depth_left(data@, ps as nat, below@) < depth_left(data@, ps as nat, path@),
                    index_lookup(data@, ps as nat, page, key@, path@) == prefixed(
                        out@.subrange(start.len() as int, out@.len() as int),
                        interior_matches(data@, ps as nat, cs, right, key@, below@, i as int),
                    ),
                    start.len() <= out@.len(),
                    out@.subrange(0, start.len() as int) == start,
                decreases cs.len() - i,
            {
                let ghost added = out@.subrange(start.len() as int, out@.len() as int);
                if i == p.records.len() {
                    let ghost mid = out@;
                    let res = lookup_index(data, ps, right, key, &below, out);
                    proof {
                        if let Ok(b) = index_lookup(data@, ps as nat, right, key@, below@) {
                            assert(out@ =~= start + (added + b));
                        }
                    }
                    return res;
                }
                assert(cs[i as int] == p.records@[i as int]@);
                let k = entry_key(&p.records[i]);
                let c = compare_bytes(&k, key);
                if c < 0 {
                    i = i + 1;
                } else if c == 0 {
                    let left = entry_left(&p.records[i]);
                    match lookup_index(data, ps, left, key, &below, out) {
                        Ok(()) => {},
                        Err(e) => {
                            return Err(e);
                        },
                    }
                    match entry_row_id(&p.records[i]) {
                        Some(id) => {
                            out.push(id);
                        },
                        None => {
                            return Err(DbError::BadIndexEntry);
                        },
                    }
                    proof {
                        let a = index_lookup(data@, ps as nat, left, key@, below@)->Ok_0;
                        assert(out@.subrange(start.len() as int, out@.len() as int) =~= added + a.push(
                            id_of(cell_values(cs[i as int])),
                        ));
                        assert(out@.subrange(0, start.len() as int) =~= start);
                        if let Ok(rest) = interior_matches(data@, ps as nat, cs, right, key@, below@, i + 1) {
                            assert(added + (a.push(id_of(cell_values(cs[i as int]))) + rest) =~= out@.subrange(
                                start.len() as int,
                                out@.len() as int,
                            ) + rest);
                        }
                    }
                    i = i + 1;
                } else {
                    let left = entry_left(&p.records[i]);
                    let res = lookup_index(data, ps, left, key, &below, out);
                    proof {
                        if let Ok(b) = index_lookup(data@, ps as nat, left, key@, below@) {
                            assert(out@ =~= start + (added + b));
                        }
                    }
                    return res;
                }
            }
        },
        _ => Err(DbError::WrongPageKind),
    }
}

/// Whether row id `t` lies above `lo` and at most `hi` (a missing bound
/// does not limit).
pub open spec fn in_range(t: u64, lo: Option<u64>, hi: Option<u64>) -> bool {
    (lo matches Some(l) ==> l < t) && (hi matches Some(h) ==> t <= h)
}

/// The targets of `ts` that lie in the range from `lo` to `hi`, in order.
pub open spec fn targets_in(ts: Seq<u64>, lo: Option<u64>, hi: Option<u64>) -> Seq<u64>
    decreases ts.len(),
{
    if ts.len() == 0 {
        seq![]
    } else if in_range(ts.last(), lo, hi) {
        targets_in(ts.drop_last(), lo, hi).push(ts.last())
    } else {
        targets_in(ts.drop_last(), lo, hi)
    }
}

/// The rows whose row id is one of `ts`, in order.
pub open spec fn rows_with_ids(rows: Seq<RowView>, ts: Seq<u64>) -> Seq<RowView>
    decreases rows.len(),
{
    if rows.len() == 0 {
        seq![]
    } else if ts.contains(rows.last().row_id) {
        rows_with_ids(rows.drop_last(), ts).push(rows.last())
    } else {
        rows_with_ids(rows.drop_last(), ts)
    }
}

/// The key of a table interior cell.
pub open spec fn key_of_cell(c: CellView) -> u64 {
    match c {
        CellView::TableInterior { key, .. } => key,
        _ => 0,
    }
}

/// The row ids that child `i` of an interior table page covers: above the
/// key of the cell before it and at most its own key. The rightmost child
/// covers what lies above the last key.
pub open spec fn child_range(cs: Seq<CellView>, i: int) -> (Option<u64>, Option<u64>) {
    (
        if i == 0 {
            None
        } else {
            Some(key_of_cell(cs[i - 1]))
        },
        if i < cs.len() {
            Some(key_of_cell(cs[i]))
        } else {
            None
        },
    )
}

/// The rows of the table B-tree rooted at `page` whose row id is one of
/// `ts`, found by descending only into the subtrees whose key range holds
/// one of them. Nothing is read once no target is left.
pub open spec fn fetch_rows(db: Seq<u8>, ps: nat, page: u32, ts: Seq<u64>, path: Seq<u32>) -> Result<
    Seq<RowView>,
    DbError,
>
    decreases depth_left(db, ps, path), 0nat,
{
    if ts.len() == 0 {
        Ok(seq![])
    } else if revisits(db, ps, page, path) {
        Err(DbError::PageCycle)
    } else {
        match page_at(db, ps, page as nat) {
            Err(e) => Err(e),
            Ok(p) => if p.header.page_type == PageType::LeafTable {
                Ok(rows_with_ids(leaf_rows(p.cells), ts))
            } else if p.header.page_type == PageType::InteriorTable {
                fetch_children(db, ps, p, ts, path.push(page), child_pages(p).len())
            } else {
                Err(DbError::WrongPageKind)
            },
        }
    }
}

/// The fetched rows of the first `m` children of interior page `p`.
pub open spec fn fetch_children(
    db: Seq<u8>,
    ps: nat,
    p: PageView,
    ts: Seq<u64>,
    path: Seq<u32>,
    m: nat,
) -> Result<Seq<RowView>, DbError>
    decreases depth_left(db, ps, path), m,
{
    if m == 0 || m > child_pages(p).len() {
        Ok(seq![])
    } else {
        match fetch_children(db, ps, p, ts, path, (m - 1) as nat) {
            Err(e) => Err(e),
            Ok(a) => {
                let (lo, hi) = child_range(p.cells, m - 1);
                match fetch_rows(db, ps, child_pages(p)[m - 1], targets_in(ts, lo, hi), path) {
                    Err(e) => Err(e),
                    Ok(b) => Ok(a + b),
                }
            },
        }
    }
}

/// Whether `t` is one of `ts`.
fn contains_id(ts: &Vec<u64>, t: u64) -> (r: bool)
    ensures
        r == ts@.contains(t),
{
    let mut i: usize = 0;
    while i < ts.len()
        invariant
            i <= ts@.len(),
            forall|j: int| 0 <= j < i ==> ts@[j] != t,
        decreases ts.len() - i,
    {
        if ts[i] == t {
            return true;
        }
        i = i + 1;
    }
    false
}

/// The targets of `ts` in the range from `lo` to `hi`.
fn select_targets(ts: &Vec<u64>, lo: Option<u64>, hi: Option<u64>) -> (r: Vec<u64>)
    ensures
        r@ == targets_in(ts@, lo, hi),
{
    let mut out: Vec<u64> = Vec::new();
    let mut i: usize = 0;
    while i < ts.len()
        invariant
            i <= ts@.len(),
            out@ == targets_in(ts@.subrange(0, i as int), lo, hi),
        decreases ts.len() - i,
    {
        proof {
            assert(ts@.subrange(0, i + 1).drop_last() =~= ts@.subrange(0, i as int));
        }
        let t = ts[i];
        let above = match lo {
            Some(l) => l < t,
            None => true,
        };
        let below = match hi {
            Some(h) => t <= h,
            None => true,
        };
        if above && below {
            out.push(t);
        }
        i = i + 1;
    }
    proof {
        assert(ts@.subrange(0, ts@.len() as int) =~= ts@);
    }
    out
}

/// The key of a table interior cell.
fn entry_key_u64(r: &DbRecord) -> (x: u64)
    ensures
        x == key_of_cell(r@),
{
    match r {
        DbRecord::InteriorTableRecord(x) => x.key,
        _ => 0,
    }
}

proof fn lemma_fetch_children_err(
    db: Seq<u8>,
    ps: nat,
    p: PageView,
    ts: Seq<u64>,
    path: Seq<u32>,
    j: nat,
    m: nat,
)
    requires
        j <= m <= child_pages(p).len(),
        fetch_children(db, ps, p, ts, path, j) is Err,
    ensures
        fetch_children(db, ps, p, ts, path, m) == fetch_children(db, ps, p, ts, path, j),
    decreases m - j,
{
    if m > j {
        lemma_fetch_children_err(db, ps, p, ts, path, j, (m - 1) as nat);
    }
}

/// Appends to `out` the rows of the table B-tree rooted at `page` whose row
/// id is one of `ts`.
pub fn fetch_by_row_ids(
    data: &[u8],
    ps: u32,
    page: u32,
    ts: &Vec<u64>,
    path: &Vec<u32>,
    out: &mut Vec<TableLeafRecord>,
) -> (r: Result<(), DbError>)
    ensures
        match fetch_rows(data@, ps as nat, page, ts@, path@) {
            Ok(rows) => r is Ok && rows_view(final(out)@) == rows_view(old(out)@) + rows,
            Err(e) => r == Err::<(), DbError>(e),
        },
    decreases depth_left(data@, ps as nat, path@), 0nat,
{
    if ts.len() == 0 {
        proof {
            assert(rows_view(out@) + seq![] =~= rows_view(out@));
        }
        return Ok(());
    }
    if check_revisit(data, ps, page, path) {
        return Err(DbError::PageCycle);
    }
    let p = match DbPage::parse(data, ps, page) {
        Ok(p) => p,
        Err(e) => {
            return Err(e);
        },
    };
    proof {
        lemma_page_fits(data@, ps as nat, page as nat);
    }
    let ghost start = rows_view(out@);
    match p.header.page_type {
        PageType::LeafTable => {
            let mut i: usize = 0;
            while i < p.records.len()
                invariant
                    i <= p.records@.len(),
                    p@ == page_at(data@, ps as nat, page as nat)->Ok_0,
                    p.header.page_type == PageType::LeafTable,
                    forall|j: int| 0 <= j < p@.cells.len() ==> (#[trigger] p@.cells[j]) is TableLeaf,
                    rows_view(out@) == start + rows_with_ids(
                        leaf_rows(p@.cells.subrange(0, i as int)),
                        ts@,
                    ),
                decreases p.records.len() - i,
            {
                assert(p@.cells[i as int] == p.records@[i as int]@);
                let ghost prev = leaf_rows(p@.cells.subrange(0, i as int));
                proof {
                    assert(leaf_rows(p@.cells.subrange(0, i + 1)) =~= prev.push(
                        row_of(p@.cells[i as int]),
                    ));
                    assert(leaf_rows(p@.cells.subrange(0, i + 1)).drop_last() =~= prev);
                }
                match &p.records[i] {
                    DbRecord::TableLeafRecord(rec) => {
                        if contains_id(ts, rec.row_id) {
                            let ghost before = rows_view(out@);
                            out.push(rec.copy());
                            proof {
                                assert(rows_view(out@) =~= before.push(rec@));
                            }
                        }
                    },
                    _ => {
                        assert(false);
                    },
                }
                i = i + 1;
            }
            proof {
                assert(p@.cells.subrange(0, p@.cells.len() as int) =~= p@.cells);
            }
            Ok(())
        },
        PageType::InteriorTable => {
            let kids = children_of(&p);
            let mut below = path.clone();
            below.push(page);
            proof {
                assert(below@ == path@.push(page));
                assert(depth_left(data@, ps as nat, below@) < depth_left(data@, ps as nat, path@));
            }
            let n = p.records.len();
            let mut m: usize = 0;
            while m < kids.len()
                invariant
                    m <= kids@.len(),
                    kids@ == child_pages(p@),
                    kids@.len() == n + 1,
                    n == p@.cells.len(),
                    n == p.records@.len(),
                    below@ == path@.push(page),
                    depth_left(data@, ps as nat, below@) < depth_left(data@, ps as nat, path@),
                    start == rows_view(old(out)@),
                    fetch_rows(data@, ps as nat, page, ts@, path@) == fetch_children(
                        data@,
                        ps as nat,
                        p@,
                        ts@,
                        below@,
                        kids@.len(),
                    ),
                    fetch_children(data@, ps as nat, p@, ts@, below@, m as nat) matches Ok(acc)
                        && rows_view(out@) == start + acc,
                decreases kids.len() - m,
            {
                let ghost acc = fetch_children(data@, ps as nat, p@, ts@, below@, m as nat)->Ok_0;
                let lo = if m == 0 {
                    None
                } else {
                    assert(p@.cells[m - 1] == p.records@[m - 1]@);
                    Some(entry_key_u64(&p.records[m - 1]))
                };
                let hi = if m < n {
                    assert(p@.cells[m as int] == p.records@[m as int]@);
                    Some(entry_key_u64(&p.records[m]))
                } else {
                    None
                };
                assert(child_range(p@.cells, m as int) == (lo, hi));
                let sub = select_targets(ts, lo, hi);
                match fetch_by_row_ids(data, ps, kids[m], &sub, &below, out) {
                    Ok(()) => {},
                    Err(e) => {
                        proof {
                            lemma_fetch_children_err(
                                data@,
                                ps as nat,
                                p@,
                                ts@,
                                below@,
                                (m + 1) as nat,
                                kids@.len(),
                            );
                        }
                        return Err(e);
                    },
                }
                proof {
                    let b = fetch_rows(data@, ps as nat, kids@[m as int], sub@, below@)->Ok_0;
                    assert(rows_view(out@) =~= start + (acc + b));
                }
                m = m + 1;
            }
            Ok(())
        },
        _ => Err(DbError::WrongPageKind),
    }
}

proof fn lemma_cmp_range(a: Seq<u8>, b: Seq<u8>)
    ensures
        -1 <= bytes_cmp(a, b) <= 1,
        bytes_cmp(a, b) == -bytes_cmp(b, a),
    decreases a.len(),
{
    if a.len() > 0 && b.len() > 0 && a[0] == b[0] {
        lemma_cmp_range(a.drop_first(), b.drop_first());
    }
}

/// Byte strings are totally ordered by `bytes_cmp`.
proof fn lemma_cmp_trans(a: Seq<u8>, b: Seq<u8>, c: Seq<u8>)
    ensures
        bytes_cmp(a, b) <= 0 && bytes_cmp(b, c) <= 0 ==> bytes_cmp(a, c) <= 0,
        bytes_cmp(a, b) < 0 && bytes_cmp(b, c) <= 0 ==> bytes_cmp(a, c) < 0,
        bytes_cmp(a, b) <= 0 && bytes_cmp(b, c) < 0 ==> bytes_cmp(a, c) < 0,
    decreases a.len(),
{
    lemma_cmp_range(a, b);
    lemma_cmp_range(b, c);
    lemma_cmp_range(a, c);
    if a.len() > 0 && b.len() > 0 && c.len() > 0 && a[0] == b[0] && b[0] == c[0] {
        lemma_cmp_trans(a.drop_first(), b.drop_first(), c.drop_first());
    }
}

/// The entries of the index B-tree rooted at `page`, in index order: on an
/// interior page each left subtree comes before its cell, and the rightmost
/// subtree comes last.
pub open spec fn index_entries(db: Seq<u8>, ps: nat, page: u32, path: Seq<u32>) -> Result<
    Seq<Seq<ValueView>>,
    DbError,
>
    decreases depth_left(db, ps, path), 0nat,
{
    if revisits(db, ps, page, path) {
        Err(DbError::PageCycle)
    } else {
        match page_at(db, ps, page as nat) {
            Err(e) => Err(e),
            Ok(p) => if p.header.page_type == PageType::LeafIndex {
                Ok(p.cells.map_values(|c: CellView| cell_values(c)))
            } else if p.header.page_type == PageType::InteriorIndex {
                entries_from(db, ps, p.cells, child_pages(p).last(), path.push(page), 0)
            } else {
                Err(DbError::WrongPageKind)
            },
        }
    }
}

/// The entries below an interior index page from its cell `i` on.
pub open spec fn entries_from(
    db: Seq<u8>,
    ps: nat,
    cs: Seq<CellView>,
    right: u32,
    path: Seq<u32>,
    i: int,
) -> Result<Seq<Seq<ValueView>>, DbError>
    decreases depth_left(db, ps, path), (cs.len() + 1 - i) as nat,
{
    if i < 0 || i > cs.len() {
        Ok(seq![])
    } else if i == cs.len() {
        index_entries(db, ps, right, path)
    } else {
        match index_entries(db, ps, left_of(cs[i]), path) {
            Err(e) => Err(e),
            Ok(a) => prefixed(a.push(cell_values(cs[i])), entries_from(db, ps, cs, right, path, i + 1)),
        }
    }
}

/// Every entry of `es` has a key at most `k` (`up`) or at least `k`.
pub open spec fn keys_bounded(es: Seq<Seq<ValueView>>, k: Seq<u8>, up: bool) -> bool {
    forall|j: int|
        0 <= j < es.len() ==> if up {
            bytes_cmp(key_of(#[trigger] es[j]), k) <= 0
        } else {
            bytes_cmp(k, key_of(#[trigger] es[j])) <= 0
        }
}

/// The index B-tree rooted at `page` is ordered for search: below each
/// interior cell, the entries of its left subtree have keys at most the
/// cell's key, and all entries after the cell have keys at least it.
pub open spec fn index_ordered(db: Seq<u8>, ps: nat, page: u32, path: Seq<u32>) -> bool
    decreases depth_left(db, ps, path), 0nat,
{
    if revisits(db, ps, page, path) {
        false
    } else {
        match page_at(db, ps, page as nat) {
            Err(_) => false,
            Ok(p) => if p.header.page_type == PageType::LeafIndex {
                true
            } else if p.header.page_type == PageType::InteriorIndex {
                cells_ordered(db, ps, p.cells, child_pages(p).last(), path.push(page), 0)
            } else {
                false
            },
        }
    }
}

/// The cells of an interior index page from `i` on are ordered for search.
pub open spec fn cells_ordered(
    db: Seq<u8>,
    ps: nat,
    cs: Seq<CellView>,
    right: u32,
    path: Seq<u32>,
    i: int,
) -> bool
    decreases depth_left(db, ps, path), (cs.len() + 1 - i) as nat,
{
    if i < 0 || i > cs.len() {
        true
    } else if i == cs.len() {
        index_ordered(db, ps, right, path)
    } else {
        let k = key_of(cell_values(cs[i]));
        &&& index_ordered(db, ps, left_of(cs[i]), path)
        &&& index_entries(db, ps, left_of(cs[i]), path) matches Ok(a) && keys_bounded(a, k, true)
        &&& entries_from(db, ps, cs, right, path, i + 1) matches Ok(b) && keys_bounded(b, k, false)
        &&& cells_ordered(db, ps, cs, right, path, i + 1)
    }
}

/// The row ids of the entries of `es` whose key is `key`, in order; an
/// entry with that key but no row id is an error.
pub open spec fn matching_ids(es: Seq<Seq<ValueView>>, key: Seq<u8>) -> Result<Seq<u64>, DbError>
    decreases es.len(),
{
    if es.len() == 0 {
        Ok(seq![])
    } else if key_of(es[0]) == key {
        match row_id_in(es[0]) {
            None => Err(DbError::BadIndexEntry),
            Some(r) => prefixed(seq![r], matching_ids(es.drop_first(), key)),
        }
    } else {
        matching_ids(es.drop_first(), key)
    }
}

proof fn lemma_matching_ids_concat(a: Seq<Seq<ValueView>>, b: Seq<Seq<ValueView>>, key: Seq<u8>)
    ensures
        matching_ids(a + b, key) == (match matching_ids(a, key) {
            Err(e) => Err(e),
            Ok(x) => prefixed(x, matching_ids(b, key)),
        }),
    decreases a.len(),
{
    if a.len() == 0 {
        assert(a + b =~= b);
        if let Ok(y) = matching_ids(b, key) {
            assert(Seq::<u64>::empty() + y =~= y);
        }
    } else {
        assert((a + b).drop_first() =~= a.drop_first() + b);
        assert((a + b)[0] == a[0]);
        lemma_matching_ids_concat(a.drop_first(), b, key);
        if let Ok(x) = matching_ids(a, key) {
            if let Ok(y) = matching_ids(b, key) {
                if key_of(a[0]) == key {
                    let r = row_id_in(a[0])->Some_0;
                    let x1 = matching_ids(a.drop_first(), key)->Ok_0;
                    assert(seq![r] + (x1 + y) =~= (seq![r] + x1) + y);
                }
            }
        }
    }
}

proof fn lemma_no_match(es: Seq<Seq<ValueView>>, key: Seq<u8>)
    requires
        forall|j: int| 0 <= j < es.len() ==> key_of(#[trigger] es[j]) != key,
    ensures
        matching_ids(es, key) == Ok::<Seq<u64>, DbError>(seq![]),
    decreases es.len(),
{
    if es.len() > 0 {
        assert forall|j: int| 0 <= j < es.drop_first().len() implies key_of(
            #[trigger] es.drop_first()[j],
        ) != key by {
            assert(es.drop_first()[j] == es[j + 1]);
        }
        lemma_no_match(es.drop_first(), key);
    }
}

proof fn lemma_leaf_matches_ids(cs: Seq<CellView>, key: Seq<u8>)
    ensures
        leaf_matches(cs, key) == matching_ids(cs.map_values(|c: CellView| cell_values(c)), key),
    decreases cs.len(),
{
    let es = cs.map_values(|c: CellView| cell_values(c));
    if cs.len() > 0 {
        lemma_leaf_matches_ids(cs.drop_last(), key);
        let d = cs.drop_last().map_values(|c: CellView| cell_values(c));
        let e = cell_values(cs.last());
        let one = seq![e];
        assert(es =~= d + one);
        lemma_matching_ids_concat(d, one, key);
        assert(one.drop_first() =~= Seq::<Seq<ValueView>>::empty());
        assert(one[0] == e);
        assert(matching_ids(one.drop_first(), key) == Ok::<Seq<u64>, DbError>(seq![]));
        if key_of(e) == key {
            match row_id_in(e) {
                Some(r) => {
                    assert(matching_ids(one, key) == Ok::<Seq<u64>, DbError>(seq![r] + Seq::<u64>::empty()));
                    if let Ok(x) = matching_ids(d, key) {
                        assert(x + (seq![r] + Seq::<u64>::empty()) =~= x.push(r));
                    }
                },
                None => {
                    assert(matching_ids(one, key) == Err::<Seq<u64>, DbError>(DbError::BadIndexEntry));
                },
            }
        } else {
            assert(matching_ids(one, key) == Ok::<Seq<u64>, DbError>(seq![]));
            if let Ok(x) = matching_ids(d, key) {
                assert(x + Seq::<u64>::empty() =~= x);
            }
        }
    } else {
        assert(es =~= Seq::<Seq<ValueView>>::empty());
    }
}

/// On an index B-tree that is ordered for search, the lookup of `key`
/// gives the row ids of exactly the entries whose key is `key`, in index
/// order.
pub proof fn lemma_lookup_finds_matches(db: Seq<u8>, ps: nat, page: u32, key: Seq<u8>, path: Seq<u32>)
    requires
        index_ordered(db, ps, page, path),
        index_entries(db, ps, page, path) is Ok,
    ensures
        index_lookup(db, ps, page, key, path) == matching_ids(
            index_entries(db, ps, page, path)->Ok_0,
            key,
        ),
    decreases depth_left(db, ps, path), 0nat,
{
    let p = page_at(db, ps, page as nat)->Ok_0;
    if p.header.page_type == PageType::LeafIndex {
        lemma_leaf_matches_ids(p.cells, key);
    } else {
        lemma_interior_finds_matches(db, ps, p.cells, child_pages(p).last(), key, path.push(page), 0);
    }
}

proof fn lemma_interior_finds_matches(
    db: Seq<u8>,
    ps: nat,
    cs: Seq<CellView>,
    right: u32,
    key: Seq<u8>,
    path: Seq<u32>,
    i: int,
)
    requires
        0 <= i <= cs.len(),
        cells_ordered(db, ps, cs, right, path, i),
        entries_from(db, ps, cs, right, path, i) is Ok,
    ensures
        interior_matches(db, ps, cs, right, key, path, i) == matching_ids(
            entries_from(db, ps, cs, right, path, i)->Ok_0,
            key,
        ),
    decreases depth_left(db, ps, path), (cs.len() + 1 - i) as nat,
{
    if i == cs.len() {
        lemma_lookup_finds_matches(db, ps, right, key, path);
    } else {
        let c = cs[i];
        let k = key_of(cell_values(c));
        let a = index_entries(db, ps, left_of(c), path)->Ok_0;
        let b = entries_from(db, ps, cs, right, path, i + 1)->Ok_0;
        let all = entries_from(db, ps, cs, right, path, i)->Ok_0;
        assert(all == a.push(cell_values(c)) + b);
        assert(a.push(cell_values(c)) =~= a + seq![cell_values(c)]);
        assert(all =~= a + (seq![cell_values(c)] + b));
        lemma_matching_ids_concat(a, seq![cell_values(c)] + b, key);
        assert((seq![cell_values(c)] + b)[0] == cell_values(c));
        assert((seq![cell_values(c)] + b).drop_first() =~= b);
        lemma_lookup_finds_matches(db, ps, left_of(c), key, path);
        lemma_interior_finds_matches(db, ps, cs, right, key, path, i + 1);
        lemma_cmp_range(k, key);
        lemma_bytes_cmp_eq(k, key);
        let cmp = bytes_cmp(k, key);
        if cmp < 0 {
            assert forall|j: int| 0 <= j < a.len() implies key_of(#[trigger] a[j]) != key by {
                lemma_cmp_trans(key_of(a[j]), k, key);
                lemma_bytes_cmp_eq(key_of(a[j]), key);
            }
            lemma_no_match(a, key);
            assert(Seq::<u64>::empty() + matching_ids(b, key)->Ok_0 =~= matching_ids(b, key)->Ok_0);
        } else if cmp == 0 {
            if let Ok(x) = matching_ids(a, key) {
                if let Some(r) = row_id_in(cell_values(c)) {
                    if let Ok(y) = matching_ids(b, key) {
                        assert(x.push(r) + y =~= x + (seq![r] + y));
                    }
                }
            }
        } else {
            assert forall|j: int| 0 <= j < b.len() implies key_of(#[trigger] b[j]) != key by {
                lemma_cmp_range(key, k);
                lemma_cmp_trans(key, k, key_of(b[j]));
                lemma_bytes_cmp_eq(key, key_of(b[j]));
                lemma_cmp_range(key, key_of(b[j]));
            }
            lemma_no_match(b, key);
            if let Ok(x) = matching_ids(a, key) {
                assert(x + Seq::<u64>::empty() =~= x);
            }
        }
    }
}

/// The row id inside a well-formed index entry.
pub open spec fn id_of(vs: Seq<ValueView>) -> u64 {
    row_id_in(vs)->Some_0
}

pub proof fn lemma_bytes_cmp_eq(a: Seq<u8>, b: Seq<u8>)
    ensures
        bytes_cmp(a, b) == 0 <==> a == b,
    decreases a.len(),
{
    if a.len() == 0 || b.len() == 0 {
        if a.len() != b.len() {
            assert(a != b);
        }
        if a.len() == 0 && b.len() == 0 {
            assert(a =~= b);
        }
    } else if a[0] != b[0] {
        assert(a != b);
    } else {
        lemma_bytes_cmp_eq(a.drop_first(), b.drop_first());
        if a.drop_first() == b.drop_first() {
            assert(a =~= seq![a[0]] + a.drop_first());
            assert(b =~= seq![b[0]] + b.drop_first());
        }
        if a == b {
            assert(a.drop_first() == b.drop_first());
        }
    }
}

proof fn lemma_leaf_matches_err(cs: Seq<CellView>, key: Seq<u8>, j: int, m: int)
    requires
        0 <= j <= m <= cs.len(),
        leaf_matches(cs.subrange(0, j), key) is Err,
    ensures
        leaf_matches(cs.subrange(0, m), key) == leaf_matches(cs.subrange(0, j), key),
    decreases m - j,
{
    if m > j {
        lemma_leaf_matches_err(cs, key, j, m - 1);
        assert(cs.subrange(0, m).drop_last() =~= cs.subrange(0, m - 1));
    }
}

} // verus!
