//! B-tree pages: the page header, the cell-pointer array and the cells.
use vstd::prelude::*;
use crate::bytes::{be_value, bytes_at, read_u16, read_u32, read_u8};
use crate::error::DbError;
use crate::record::{
    index_interior_cell, index_leaf_cell, table_interior_cell, table_leaf_cell, CellView,
    DbRecord,
};

verus! {

/// The four kinds of B-tree page.
#[derive(Debug, Clone, Copy, PartialEq, Eq, Structural)]
pub enum PageType {
    InteriorIndex,
    InteriorTable,
    LeafIndex,
    LeafTable,
}

/// The page kind that a page-type byte names.
pub open spec fn page_type_of(b: u8) -> Option<PageType> {
    if b == 2 {
        Some(PageType::InteriorIndex)
    } else if b == 5 {
        Some(PageType::InteriorTable)
    } else if b == 10 {
        Some(PageType::LeafIndex)
    } else if b == 13 {
        Some(PageType::LeafTable)
    } else {
        None
    }
}

pub open spec fn is_interior(t: PageType) -> bool {
    t == PageType::InteriorIndex || t == PageType::InteriorTable
}

/// Interior pages have a twelve-byte header, leaves an eight-byte one.
pub open spec fn header_len(t: PageType) -> nat {
    if is_interior(t) {
        12
    } else {
        8
    }
}

impl PageType {
    pub fn from_byte(b: u8) -> (r: Option<PageType>)
        ensures
            r == page_type_of(b),
    {
        if b == 2 {
            Some(PageType::InteriorIndex)
        } else if b == 5 {
            Some(PageType::InteriorTable)
        } else if b == 10 {
            Some(PageType::LeafIndex)
        } else if b == 13 {
            Some(PageType::LeafTable)
        } else {
            None
        }
    }
}

/// The header of a B-tree page and its cell pointers.
#[derive(Debug, Clone)]
pub struct DbPageHeader {
    pub page_type: PageType,
    pub first_freeblock: u16,
    pub cell_count: u16,
    pub cell_content_area_offset: u16,
    pub fragmented_free_bytes: u8,
    pub rightmost_pointer: Option<u32>,
    pub cells: Vec<u16>,
}

/// The mathematical value of a [`DbPageHeader`].
pub struct PageHeaderView {
    pub page_type: PageType,
    pub first_freeblock: u16,
    pub cell_count: u16,
    pub cell_content_area_offset: u16,
    pub fragmented_free_bytes: u8,
    pub rightmost_pointer: Option<u32>,
    pub cells: Seq<u16>,
}

impl View for DbPageHeader {
    type V = PageHeaderView;

    open spec fn view(&self) -> PageHeaderView {
        PageHeaderView {
            page_type: self.page_type,
            first_freeblock: self.first_freeblock,
            cell_count: self.cell_count,
            cell_content_area_offset: self.cell_content_area_offset,
            fragmented_free_bytes: self.fragmented_free_bytes,
            rightmost_pointer: self.rightmost_pointer,
            cells: self.cells@,
        }
    }
}

pub open spec fn u16_at(db: Seq<u8>, pos: int) -> u16 {
    be_value(bytes_at(db, pos, 2)) as u16
}

pub open spec fn u32_at(db: Seq<u8>, pos: int) -> u32 {
    be_value(bytes_at(db, pos, 4)) as u32
}

/// The page header that starts at `h`: type byte, first freeblock, cell
/// count, cell content start, fragmented bytes, the rightmost child on
/// interior pages, then one two-byte pointer per cell.
pub open spec fn page_header_at(db: Seq<u8>, h: int) -> Result<PageHeaderView, DbError> {
    if h < 0 || h + 1 > db.len() {
        Err(DbError::ShortRead)
    } else {
        match page_type_of(db[h]) {
            None => Err(DbError::BadPageType),
            Some(t) => {
                let hl = header_len(t) as int;
                let count = u16_at(db, h + 3);
                if h + hl > db.len() || h + hl + 2 * count > db.len() {
                    Err(DbError::ShortRead)
                } else {
                    Ok(
                        PageHeaderView {
                            page_type: t,
                            first_freeblock: u16_at(db, h + 1),
                            cell_count: count,
                            cell_content_area_offset: u16_at(db, h + 5),
                            fragmented_free_bytes: db[h + 7],
                            rightmost_pointer: if is_interior(t) {
                                Some(u32_at(db, h + 8))
                            } else {
                                None
                            },
                            cells: Seq::new(count as nat, |k: int| u16_at(db, h + hl + 2 * k)),
                        },
                    )
                }
            },
        }
    }
}

/// The cell at `pos`, read in the shape that page type `t` gives it.
#[verifier::opaque]
pub open spec fn cell_at(db: Seq<u8>, t: PageType, pos: int) -> Result<CellView, DbError> {
    match t {
        PageType::LeafTable => table_leaf_cell(db, pos),
        PageType::InteriorTable => table_interior_cell(db, pos),
        PageType::LeafIndex => index_leaf_cell(db, pos),
        PageType::InteriorIndex => index_interior_cell(db, pos),
    }
}

/// The cells that pointers `ptrs`, relative to `base`, point at.
pub open spec fn cells_at(db: Seq<u8>, t: PageType, base: int, ptrs: Seq<u16>) -> Result<
    Seq<CellView>,
    DbError,
>
    decreases ptrs.len(),
{
    if ptrs.len() == 0 {
        Ok(seq![])
    } else {
        match cells_at(db, t, base, ptrs.drop_last()) {
            Err(e) => Err(e),
            Ok(cs) => match cell_at(db, t, base + ptrs.last()) {
                Err(e) => Err(e),
                Ok(c) => Ok(cs.push(c)),
            },
        }
    }
}

/// A failure among the first `j` cells is the failure of any longer prefix.
proof fn lemma_cells_at_err(db: Seq<u8>, t: PageType, base: int, ptrs: Seq<u16>, j: int, m: int)
    requires
        0 <= j <= m <= ptrs.len(),
        cells_at(db, t, base, ptrs.subrange(0, j)) is Err,
    ensures
        cells_at(db, t, base, ptrs.subrange(0, m)) == cells_at(db, t, base, ptrs.subrange(0, j)),
    decreases m - j,
{
    if m > j {
        lemma_cells_at_err(db, t, base, ptrs, j, m - 1);
        assert(ptrs.subrange(0, m).drop_last() =~= ptrs.subrange(0, m - 1));
    }
}

/// Whether cell `c` has the shape that page type `t` gives its cells.
pub open spec fn cell_fits(t: PageType, c: CellView) -> bool {
    match t {
        PageType::LeafTable => c is TableLeaf,
        PageType::InteriorTable => c is TableInterior,
        PageType::LeafIndex => c is IndexLeaf,
        PageType::InteriorIndex => c is IndexInterior,
    }
}

pub proof fn lemma_cells_fit(db: Seq<u8>, t: PageType, base: int, ptrs: Seq<u16>)
    ensures
        cells_at(db, t, base, ptrs) matches Ok(cs) ==> cs.len() == ptrs.len() && forall|i: int|
            0 <= i < cs.len() ==> cell_fits(t, #[trigger] cs[i]),
    decreases ptrs.len(),
{
    if ptrs.len() > 0 {
        lemma_cells_fit(db, t, base, ptrs.drop_last());
        reveal(cell_at);
        if let Ok(cs) = cells_at(db, t, base, ptrs) {
            let prev = cells_at(db, t, base, ptrs.drop_last())->Ok_0;
            assert forall|i: int| 0 <= i < cs.len() implies cell_fits(t, #[trigger] cs[i]) by {
                if i < prev.len() {
                    assert(cs[i] == prev[i]);
                }
            }
        }
    }
}

/// A decoded page.
pub struct PageView {
    pub header: PageHeaderView,
    pub cells: Seq<CellView>,
}

/// Where page `n` starts.
pub open spec fn page_base(ps: nat, n: nat) -> int {
    (n - 1) * ps
}

/// Where the header of page `n` starts: page 1 first holds the file header.
pub open spec fn page_header_pos(ps: nat, n: nat) -> int {
    if n == 1 {
        100
    } else {
        page_base(ps, n)
    }
}

/// Page `n` (numbered from 1) of a file of `ps`-byte pages. Page 1 holds
/// the 100-byte file header first; cell pointers count from the page start.
pub open spec fn page_at(db: Seq<u8>, ps: nat, n: nat) -> Result<PageView, DbError> {
    if n < 1 || n * ps > db.len() {
        Err(DbError::BadPageNumber)
    } else {
        let base = (n - 1) * ps;
        let h = if n == 1 {
            100
        } else {
            base
        };
        match page_header_at(db, h) {
            Err(e) => Err(e),
            Ok(hd) => match cells_at(db, hd.page_type, base, hd.cells) {
                Err(e) => Err(e),
                Ok(cs) => Ok(PageView { header: hd, cells: cs }),
            },
        }
    }
}

/// The cells of a decoded page have its page type's shape, one per
/// pointer, and interior pages have a rightmost child.
pub proof fn lemma_page_fits(db: Seq<u8>, ps: nat, n: nat)
    ensures
        page_at(db, ps, n) matches Ok(p) ==> p.cells.len() == p.header.cells.len() && (forall|
            i: int,
        | 0 <= i < p.cells.len() ==> cell_fits(p.header.page_type, #[trigger] p.cells[i])) && (
        is_interior(p.header.page_type) <==> p.header.rightmost_pointer is Some),
{
    if n >= 1 && n * ps <= db.len() {
        let base = page_base(ps, n);
        let h = page_header_pos(ps, n);
        if let Ok(hd) = page_header_at(db, h) {
            lemma_cells_fit(db, hd.page_type, base, hd.cells);
        }
    }
}

impl DbPageHeader {
    /// Reads the page header that starts at `h`.
    pub fn parse(data: &[u8], h: usize) -> (r: Result<DbPageHeader, DbError>)
        ensures
            match page_header_at(data@, h as int) {
                Ok(v) => r matches Ok(x) && x@ == v,
                Err(e) => r matches Err(x) && x == e,
            },
    {
        let dlen = data.len();
        let flag = match read_u8(data, h) {
            None => {
                return Err(DbError::ShortRead);
            },
            Some(b) => b,
        };
        let page_type = match PageType::from_byte(flag) {
            None => {
                return Err(DbError::BadPageType);
            },
            Some(t) => t,
        };
        let interior = match page_type {
            PageType::InteriorIndex | PageType::InteriorTable => true,
            _ => false,
        };
        let hl: usize = if interior {
            12
        } else {
            8
        };
        if hl > dlen - h {
            return Err(DbError::ShortRead);
        }
        let first_freeblock = read_u16(data, h + 1).unwrap();
        let cell_count = read_u16(data, h + 3).unwrap();
        let cell_content_area_offset = read_u16(data, h + 5).unwrap();
        let fragmented_free_bytes = data[h + 7];
        let rightmost_pointer = if interior {
            Some(read_u32(data, h + 8).unwrap())
        } else {
            None
        };
        let count = cell_count as usize;
        if 2 * count > dlen - h - hl {
            return Err(DbError::ShortRead);
        }
        let ghost want = Seq::new(count as nat, |k: int| u16_at(data@, h + hl + 2 * k));
        let mut cells: Vec<u16> = Vec::new();
        let mut k: usize = 0;
        while k < count
            invariant
                k <= count,
                dlen == data@.len(),
                h + hl + 2 * count <= dlen,
                want == Seq::new(count as nat, |k: int| u16_at(data@, h + hl + 2 * k)),
                cells@ == want.subrange(0, k as int),
            decreases count - k,
        {
            let p = read_u16(data, h + hl + 2 * k).unwrap();
            cells.push(p);
            proof {
                assert(cells@ =~= want.subrange(0, k + 1));
            }
            k = k + 1;
        }
        proof {
            assert(cells@ =~= want);
        }
        Ok(
            DbPageHeader {
                page_type,
                first_freeblock,
                cell_count,
                cell_content_area_offset,
                fragmented_free_bytes,
                rightmost_pointer,
                cells,
            },
        )
    }
}

/// A page with its decoded cells.
#[derive(Debug)]
pub struct DbPage {
    pub header: DbPageHeader,
    pub records: Vec<DbRecord>,
}

pub open spec fn records_view(rs: Seq<DbRecord>) -> Seq<CellView> {
    rs.map_values(|r: DbRecord| r@)
}

impl View for DbPage {
    type V = PageView;

    open spec fn view(&self) -> PageView {
        PageView { header: self.header@, cells: records_view(self.records@) }
    }
}

/// Decodes the cell at `pos` in the shape that page type `t` gives it.
fn parse_cell(data: &[u8], t: PageType, pos: usize) -> (r: Result<DbRecord, DbError>)
    ensures
        match cell_at(data@, t, pos as int) {
            Ok(c) => r matches Ok(x) && x@ == c,
            Err(e) => r matches Err(x) && x == e,
        },
{
    reveal(cell_at);
    match t {
        PageType::LeafTable => DbRecord::parse_table_leaf_record(data, pos),
        PageType::InteriorTable => DbRecord::parse_table_index_record(data, pos),
        PageType::LeafIndex => DbRecord::parse_index_leaf_record(data, pos),
        PageType::InteriorIndex => DbRecord::parse_index_interior_record(data, pos),
    }
}

/// Decodes the cells that pointers `ptrs`, relative to `base`, point at.
fn parse_cells(data: &[u8], t: PageType, base: usize, ptrs: &Vec<u16>) -> (r: Result<
    Vec<DbRecord>,
    DbError,
>)
    requires
        base <= data@.len(),
    ensures
        match cells_at(data@, t, base as int, ptrs@) {
            Ok(v) => r matches Ok(x) && records_view(x@) == v,
            Err(e) => r matches Err(x) && x == e,
        },
{
    let dlen = data.len();
    let mut records: Vec<DbRecord> = Vec::new();
    let mut k: usize = 0;
    proof {
        assert(ptrs@.subrange(0, 0) =~= Seq::<u16>::empty());
        assert(records_view(records@) =~= Seq::<CellView>::empty());
    }
    while k < ptrs.len()
        invariant
            k <= ptrs@.len(),
            dlen == data@.len(),
            base <= dlen,
            cells_at(data@, t, base as int, ptrs@.subrange(0, k as int)) == Ok::<
                Seq<CellView>,
                DbError,
            >(records_view(records@)),
        decreases ptrs.len() - k,
    {
        let ptr = ptrs[k] as usize;
        proof {
            assert(ptrs@.subrange(0, k + 1).drop_last() =~= ptrs@.subrange(0, k as int));
            assert(ptrs@.subrange(0, k + 1).last() == ptr);
        }
        let pos = if ptr > dlen - base {
            dlen
        } else {
            base + ptr
        };
        proof {
            if ptr > dlen - base {
                reveal(cell_at);
                assert(cell_at(data@, t, base + ptr) == Err::<CellView, DbError>(DbError::ShortRead));
                assert(cell_at(data@, t, pos as int) == Err::<CellView, DbError>(DbError::ShortRead));
            }
        }
        let rec = match parse_cell(data, t, pos) {
            Ok(x) => x,
            Err(e) => {
                proof {
                    lemma_cells_at_err(data@, t, base as int, ptrs@, k + 1, ptrs@.len() as int);
                    assert(ptrs@.subrange(0, ptrs@.len() as int) =~= ptrs@);
                }
                return Err(e);
            },
        };
        let ghost before = records_view(records@);
        records.push(rec);
        proof {
            assert(records_view(records@) =~= before.push(rec@));
        }
        k = k + 1;
    }
    proof {
        assert(ptrs@.subrange(0, ptrs@.len() as int) =~= ptrs@);
    }
    Ok(records)
}

impl DbPage {
    /// Reads page `n` of a file of `page_size`-byte pages.
    pub fn parse(data: &[u8], page_size: u32, n: u32) -> (r: Result<DbPage, DbError>)
        ensures
            match page_at(data@, page_size as nat, n as nat) {
                Ok(v) => r matches Ok(x) && x@ == v,
                Err(e) => r matches Err(x) && x == e,
            },
    {
        let dlen = data.len();
        proof {
            assert((n as u64) * (page_size as u64) <= 0xffff_ffff * 0xffff_ffff) by (nonlinear_arith)
                requires
                    n <= 0xffff_ffff,
                    page_size <= 0xffff_ffff,
            ;
        }
        if n < 1 || (n as u64) * (page_size as u64) > dlen as u64 {
            return Err(DbError::BadPageNumber);
        }
        proof {
            assert((n - 1) * page_size <= n * page_size) by (nonlinear_arith)
                requires
                    n >= 1,
            ;
        }
        let base = ((n - 1) as u64 * page_size as u64) as usize;
        let h = if n == 1 {
            100
        } else {
            base
        };
        if h > dlen {
            return Err(DbError::ShortRead);
        }
        let header = match DbPageHeader::parse(data, h) {
            Ok(x) => x,
            Err(e) => {
                return Err(e);
            },
        };
        let records = match parse_cells(data, header.page_type, base, &header.cells) {
            Ok(x) => x,
            Err(e) => {
                return Err(e);
            },
        };
        Ok(DbPage { header, records })
    }
}

} // verus!
