//! Serial types, typed values and the four shapes of B-tree cells.
use vstd::prelude::*;
use vstd::slice::{slice_subrange, slice_to_vec};
use vstd::utf8::{decode_utf8, encode_utf8, valid_utf8};
use crate::bytes::{
    be_signed, be_value, bytes_at, lemma_pow256_facts, pow256, read_be, read_signed, read_varint,
    varint_at, varint_from,
};
use crate::error::DbError;

verus! {

/// How one column value is stored in a record body.
#[derive(Debug, Clone, Copy, PartialEq, Eq, Structural)]
pub enum DataType {
    Null,
    Int8,
    Int16,
    Int24,
    Int32,
    Int48,
    Int64,
    Float,
    Zero,
    One,
    Blob(u64),
    Text(u64),
}

/// The storage class that a serial-type code names.
pub open spec fn serial_type(code: nat) -> Option<DataType> {
    if code == 0 {
        Some(DataType::Null)
    } else if code == 1 {
        Some(DataType::Int8)
    } else if code == 2 {
        Some(DataType::Int16)
    } else if code == 3 {
        Some(DataType::Int24)
    } else if code == 4 {
        Some(DataType::Int32)
    } else if code == 5 {
        Some(DataType::Int48)
    } else if code == 6 {
        Some(DataType::Int64)
    } else if code == 7 {
        Some(DataType::Float)
    } else if code == 8 {
        Some(DataType::Zero)
    } else if code == 9 {
        Some(DataType::One)
    } else if code >= 12 && code % 2 == 0 {
        Some(DataType::Blob(((code - 12) / 2) as u64))
    } else if code >= 13 && code % 2 == 1 {
        Some(DataType::Text(((code - 13) / 2) as u64))
    } else {
        None
    }
}

/// The number of body bytes that a value of type `t` takes.
pub open spec fn body_len(t: DataType) -> nat {
    match t {
        DataType::Int8 => 1,
        DataType::Int16 => 2,
        DataType::Int24 => 3,
        DataType::Int32 => 4,
        DataType::Int48 => 6,
        DataType::Int64 => 8,
        DataType::Float => 8,
        DataType::Blob(n) => n as nat,
        DataType::Text(n) => n as nat,
        _ => 0,
    }
}

/// A column value.
#[derive(Debug, Clone, PartialEq, Eq)]
pub enum Value {
    Int(i64),
    Text(String),
    Blob(Vec<u8>),
    Null,
}

/// The mathematical value of a [`Value`].
pub enum ValueView {
    Int(i64),
    Text(Seq<char>),
    Blob(Seq<u8>),
    Null,
}

impl View for Value {
    type V = ValueView;

    open spec fn view(&self) -> ValueView {
        match self {
            Value::Int(n) => ValueView::Int(*n),
            Value::Text(s) => ValueView::Text(s@),
            Value::Blob(b) => ValueView::Blob(b@),
            Value::Null => ValueView::Null,
        }
    }
}

pub open spec fn values_view(vs: Seq<Value>) -> Seq<ValueView> {
    vs.map_values(|v: Value| v@)
}

/// The value that the body bytes `b` of a type-`t` column hold; `None` for
/// text that is not UTF-8. A float is kept as the integer of its bits.
pub open spec fn value_of(t: DataType, b: Seq<u8>) -> Option<ValueView> {
    match t {
        DataType::Null => Some(ValueView::Null),
        DataType::Zero => Some(ValueView::Int(0)),
        DataType::One => Some(ValueView::Int(1)),
        DataType::Blob(_) => Some(ValueView::Blob(b)),
        DataType::Text(_) => if valid_utf8(b) {
            Some(ValueView::Text(decode_utf8(b)))
        } else {
            None
        },
        _ => Some(ValueView::Int(be_signed(b) as i64)),
    }
}

/// The eight big-endian two's-complement bytes of `n`.
pub open spec fn int_be_bytes(n: i64) -> Seq<u8> {
    Seq::new(8, |k: int| be_byte(unsigned_of(n), k))
}

/// `n` taken modulo 2^64.
pub open spec fn unsigned_of(n: i64) -> int {
    if n >= 0 {
        n as int
    } else {
        n + 0x1_0000_0000_0000_0000
    }
}

/// Byte `k` of the eight big-endian bytes of `u`.
pub open spec fn be_byte(u: int, k: int) -> u8 {
    ((u / pow256((7 - k) as nat) as int) % 256) as u8
}

/// The raw bytes of a value, as they are compared: an integer as its
/// eight big-endian bytes, text as UTF-8, a blob as itself, null as nothing.
pub open spec fn value_bytes(v: ValueView) -> Seq<u8> {
    match v {
        ValueView::Int(n) => int_be_bytes(n),
        ValueView::Text(s) => encode_utf8(s),
        ValueView::Blob(b) => b,
        ValueView::Null => seq![],
    }
}

/// The eight big-endian two's-complement bytes of `n`.
fn int_to_be_bytes(n: i64) -> (r: Vec<u8>)
    ensures
        r@ == int_be_bytes(n),
{
    let u: u64 = if n >= 0 {
        n as u64
    } else {
        0xffff_ffff_ffff_ffffu64 - ((-(n + 1)) as u64)
    };
    let ghost ui: int = unsigned_of(n);
    assert(u as int == ui);
    let mut out: Vec<u8> = Vec::new();
    let mut d: u64 = 0x100_0000_0000_0000;
    let mut k: usize = 0;
    proof {
        lemma_pow256_facts(7);
        assert(pow256(7) == 0x100_0000_0000_0000) by {
            reveal_with_fuel(pow256, 8);
        }
    }
    while k < 8
        invariant
            k <= 8,
            u as int == ui,
            ui == unsigned_of(n),
            k < 8 ==> d as nat == pow256((7 - k) as nat),
            out@ == int_be_bytes(n).subrange(0, k as int),
        decreases 8 - k,
    {
        proof {
            lemma_pow256_facts((7 - k) as nat);
        }
        let b = ((u / d) % 256) as u8;
        assert(int_be_bytes(n)[k as int] == be_byte(ui, k as int));
        assert(b == be_byte(ui, k as int));
        out.push(b);
        proof {
            assert(out@ =~= int_be_bytes(n).subrange(0, k + 1));
        }
        if k < 7 {
            proof {
                let m = (6 - k) as nat;
                assert(pow256((m + 1) as nat) == 256 * pow256(m));
                vstd::arithmetic::div_mod::lemma_div_multiples_vanish(pow256(m) as int, 256);
            }
            d = d / 256;
        }
        k = k + 1;
    }
    proof {
        assert(int_be_bytes(n).subrange(0, 8) =~= int_be_bytes(n));
    }
    out
}

impl Value {
    /// The raw bytes that values are compared by.
    pub fn as_bytes(&self) -> (r: Vec<u8>)
        ensures
            r@ == value_bytes(self@),
    {
        match self {
            Value::Int(n) => int_to_be_bytes(*n),
            Value::Text(s) => slice_to_vec(s.as_str().as_bytes()),
            Value::Blob(b) => slice_to_vec(b.as_slice()),
            Value::Null => Vec::new(),
        }
    }

    /// A copy of this value.
    pub fn copy(&self) -> (r: Value)
        ensures
            r@ == self@,
    {
        match self {
            Value::Int(n) => Value::Int(*n),
            Value::Text(s) => Value::Text(s.clone()),
            Value::Blob(b) => Value::Blob(slice_to_vec(b.as_slice())),
            Value::Null => Value::Null,
        }
    }
}

/// A copy of a list of values.
pub fn copy_values(vs: &Vec<Value>) -> (r: Vec<Value>)
    ensures
        values_view(r@) == values_view(vs@),
{
    let mut out: Vec<Value> = Vec::new();
    let mut i: usize = 0;
    while i < vs.len()
        invariant
            i <= vs@.len(),
            values_view(out@) == values_view(vs@.subrange(0, i as int)),
        decreases vs.len() - i,
    {
        let v = vs[i].copy();
        let ghost before = out@;
        let ghost vv = v@;
        out.push(v);
        proof {
            assert(out@ == before.push(v));
            assert(values_view(before).len() == i);
            assert forall|j: int| 0 <= j <= i implies #[trigger] values_view(out@)[j] == values_view(
                vs@.subrange(0, i + 1),
            )[j] by {
                if j < i {
                    assert(values_view(before)[j] == values_view(vs@.subrange(0, i as int))[j]);
                }
            }
            assert(values_view(out@) =~= values_view(vs@.subrange(0, i + 1)));
        }
        i = i + 1;
    }
    proof {
        assert(vs@.subrange(0, vs@.len() as int) =~= vs@);
    }
    out
}

/// Relies on `String::from_utf8`: it fails exactly on bytes that are not
/// valid UTF-8 and otherwise holds the characters those bytes encode.
#[verifier::external_body]
fn string_from_utf8(b: Vec<u8>) -> (r: Option<String>)
    ensures
        r is Some <==> valid_utf8(b@),
        r matches Some(s) ==> s@ == decode_utf8(b@),
{
    String::from_utf8(b).ok()
}

/// A copy of the `n` bytes of `data` that start at `pos`.
pub fn copy_bytes(data: &[u8], pos: usize, n: usize) -> (r: Vec<u8>)
    requires
        pos + n <= data.len(),
    ensures
        r@ == bytes_at(data@, pos as int, n as int),
{
    let sub = slice_subrange(data, pos, pos + n);
    slice_to_vec(sub)
}

impl DataType {
    /// The data type of a serial-type code; codes 10 and 11 have none.
    pub fn from_serial(code: u64) -> (r: Option<DataType>)
        ensures
            r == serial_type(code as nat),
    {
        if code == 0 {
            Some(DataType::Null)
        } else if code == 1 {
            Some(DataType::Int8)
        } else if code == 2 {
            Some(DataType::Int16)
        } else if code == 3 {
            Some(DataType::Int24)
        } else if code == 4 {
            Some(DataType::Int32)
        } else if code == 5 {
            Some(DataType::Int48)
        } else if code == 6 {
            Some(DataType::Int64)
        } else if code == 7 {
            Some(DataType::Float)
        } else if code == 8 {
            Some(DataType::Zero)
        } else if code == 9 {
            Some(DataType::One)
        } else if code >= 12 && code % 2 == 0 {
            Some(DataType::Blob((code - 12) / 2))
        } else if code >= 13 && code % 2 == 1 {
            Some(DataType::Text((code - 13) / 2))
        } else {
            None
        }
    }

    /// Decodes the value of this type whose body starts at `pos`, and gives
    /// the position after it.
    pub fn parse(&self, data: &[u8], pos: usize) -> (r: Result<(Value, usize), DbError>)
        ensures
            pos + body_len(*self) > data@.len() ==> r == Err::<(Value, usize), DbError>(
                DbError::ShortRead,
            ),
            pos + body_len(*self) <= data@.len() ==> match value_of(
                *self,
                bytes_at(data@, pos as int, body_len(*self) as int),
            ) {
                Some(v) => r matches Ok((x, p)) && x@ == v && p == pos + body_len(*self),
                None => r == Err::<(Value, usize), DbError>(DbError::BadText),
            },
    {
        let n: u64 = match *self {
            DataType::Int8 => 1,
            DataType::Int16 => 2,
            DataType::Int24 => 3,
            DataType::Int32 => 4,
            DataType::Int48 => 6,
            DataType::Int64 => 8,
            DataType::Float => 8,
            DataType::Blob(k) => k,
            DataType::Text(k) => k,
            _ => 0,
        };
        if pos > data.len() || n > (data.len() - pos) as u64 {
            return Err(DbError::ShortRead);
        }
        let n = n as usize;
        match *self {
            DataType::Null => Ok((Value::Null, pos)),
            DataType::Zero => Ok((Value::Int(0), pos)),
            DataType::One => Ok((Value::Int(1), pos)),
            DataType::Blob(_) => Ok((Value::Blob(copy_bytes(data, pos, n)), pos + n)),
            DataType::Text(_) => {
                match string_from_utf8(copy_bytes(data, pos, n)) {
                    Some(s) => Ok((Value::Text(s), pos + n)),
                    None => Err(DbError::BadText),
                }
            },
            _ => {
                match read_signed(data, pos, n) {
                    Some(v) => Ok((Value::Int(v), pos + n)),
                    None => Err(DbError::ShortRead),
                }
            },
        }
    }
}


/// `r` with `pre` put in front of its sequence.
pub open spec fn prefixed<T>(pre: Seq<T>, r: Result<Seq<T>, DbError>) -> Result<Seq<T>, DbError> {
    match r {
        Ok(rest) => Ok(pre + rest),
        Err(e) => Err(e),
    }
}

/// A varint that decodes takes one to nine bytes, all inside `s`.
pub proof fn lemma_varint_len(s: Seq<u8>, pos: int)
    ensures
        varint_at(s, pos) matches Some((v, w)) ==> 1 <= w <= 9 && pos + w <= s.len() && 0 <= pos,
{
    lemma_varint_from_len(s, pos, 0, 0);
}

proof fn lemma_varint_from_len(s: Seq<u8>, pos: int, i: nat, acc: nat)
    ensures
        varint_from(s, pos, i, acc) matches Some((v, w)) ==> i < w <= 9 && pos + w <= s.len()
            && 0 <= pos,
    decreases 9 - i,
{
    if !(i > 8 || pos < 0 || pos + i >= s.len()) && i != 8 && s[pos + i] >= 128 {
        lemma_varint_from_len(s, pos, i + 1, acc * 128 + (s[pos + i] - 128) as nat);
    }
}

/// The serial types that the record header `hs` lists from `pos` on.
pub open spec fn serial_types_from(hs: Seq<u8>, pos: int) -> Result<Seq<DataType>, DbError>
    decreases hs.len() - pos,
{
    if pos < 0 || pos >= hs.len() {
        Ok(seq![])
    } else {
        match varint_at(hs, pos) {
            None => Err(DbError::ShortRead),
            Some((c, w)) => match serial_type(c) {
                None => Err(DbError::BadSerialType),
                Some(t) => if w >= 1 && pos + w <= hs.len() {
                    prefixed(seq![t], serial_types_from(hs, pos + w))
                } else {
                    Err(DbError::ShortRead)
                },
            },
        }
    }
}

/// The values of types `ts` whose bodies follow one another in `p` from `pos`.
pub open spec fn values_from(p: Seq<u8>, ts: Seq<DataType>, pos: int) -> Result<
    Seq<ValueView>,
    DbError,
>
    decreases ts.len(),
{
    if ts.len() == 0 {
        Ok(seq![])
    } else if pos + body_len(ts[0]) > p.len() {
        Err(DbError::ShortRead)
    } else {
        match value_of(ts[0], bytes_at(p, pos, body_len(ts[0]) as int)) {
            None => Err(DbError::BadText),
            Some(v) => prefixed(seq![v], values_from(p, ts.drop_first(), pos + body_len(ts[0]))),
        }
    }
}

/// The values of a record: a header-length varint (counting itself), the
/// serial types up to that length, then the bodies in the same order.
pub open spec fn record_values(p: Seq<u8>) -> Result<Seq<ValueView>, DbError> {
    match varint_at(p, 0) {
        None => Err(DbError::ShortRead),
        Some((h, w)) => if h < w || h > p.len() {
            Err(DbError::BadRecordHeader)
        } else {
            match serial_types_from(p.subrange(0, h as int), w as int) {
                Err(e) => Err(e),
                Ok(ts) => values_from(p, ts, h as int),
            }
        },
    }
}

/// The serial types of a record header.
#[derive(Debug, Clone)]
pub struct DataSpecification {
    /// The length of the header bytes they were read from.
    pub size: usize,
    pub types: Vec<DataType>,
}

impl DataSpecification {
    /// Reads the serial types of header bytes `header` from `start` to its end.
    pub fn parse(header: &[u8], start: usize) -> (r: Result<DataSpecification, DbError>)
        ensures
            match serial_types_from(header@, start as int) {
                Ok(ts) => r matches Ok(d) && d.types@ == ts,
                Err(e) => r matches Err(x) && x == e,
            },
    {
        let mut types: Vec<DataType> = Vec::new();
        let mut pos = start;
        let ghost hs = header@;
        while pos < header.len()
            invariant
                hs == header@,
                start <= pos,
                serial_types_from(hs, start as int) == prefixed(
                    types@,
                    serial_types_from(hs, pos as int),
                ),
            decreases header.len() - pos,
        {
            proof {
                lemma_varint_len(hs, pos as int);
            }
            match read_varint(header, pos) {
                None => {
                    return Err(DbError::ShortRead);
                },
                Some((code, w)) => {
                    match DataType::from_serial(code) {
                        None => {
                            return Err(DbError::BadSerialType);
                        },
                        Some(t) => {
                            let ghost before = types@;
                            types.push(t);
                            proof {
                                if let Ok(rest) = serial_types_from(hs, pos + w) {
                                    assert(before + (seq![t] + rest) =~= types@ + rest);
                                }
                            }
                            pos = pos + w;
                        },
                    }
                },
            }
        }
        proof {
            assert(types@ + seq![] =~= types@);
        }
        Ok(DataSpecification { size: header.len(), types })
    }
}

/// Decodes the values of record `p`.
pub fn decode_record(p: &[u8]) -> (r: Result<Vec<Value>, DbError>)
    ensures
        match record_values(p@) {
            Ok(vs) => r matches Ok(v) && values_view(v@) == vs,
            Err(e) => r matches Err(x) && x == e,
        },
{
    proof {
        lemma_varint_len(p@, 0);
    }
    let (h, w) = match read_varint(p, 0) {
        None => {
            return Err(DbError::ShortRead);
        },
        Some(x) => x,
    };
    if h < w as u64 || h > p.len() as u64 {
        return Err(DbError::BadRecordHeader);
    }
    let h = h as usize;
    let header = slice_subrange(p, 0, h);
    let spec = match DataSpecification::parse(header, w) {
        Ok(x) => x,
        Err(e) => {
            return Err(e);
        },
    };
    let types = spec.types;
    let mut values: Vec<Value> = Vec::new();
    let mut pos = h;
    let mut k: usize = 0;
    let ghost ts = types@;
    proof {
        assert(ts.subrange(0, ts.len() as int) =~= ts);
        assert(header@ =~= p@.subrange(0, h as int));
        assert(record_values(p@) == values_from(p@, ts, h as int));
    }
    while k < types.len()
        invariant
            ts == types@,
            record_values(p@) == values_from(p@, ts, h as int),
            k <= ts.len(),
            values_from(p@, ts, h as int) == prefixed(
                values_view(values@),
                values_from(p@, ts.subrange(k as int, ts.len() as int), pos as int),
            ),
        decreases types.len() - k,
    {
        let ghost rest = ts.subrange(k as int, ts.len() as int);
        assert(rest[0] == types[k as int]);
        let (v, next) = match types[k].parse(p, pos) {
            Ok(x) => x,
            Err(e) => {
                return Err(e);
            },
        };
        let ghost before = values_view(values@);
        let ghost vv = v@;
        values.push(v);
        proof {
            assert(rest.drop_first() =~= ts.subrange(k + 1, ts.len() as int));
            assert(values_view(values@) =~= before + seq![vv]);
            if let Ok(more) = values_from(p@, rest.drop_first(), next as int) {
                assert(before + (seq![vv] + more) =~= values_view(values@) + more);
            }
        }
        pos = next;
        k = k + 1;
    }
    proof {
        assert(values_view(values@) + seq![] =~= values_view(values@));
    }
    Ok(values)
}

/// A cell of a table leaf page: a row.
#[derive(Debug, Clone)]
pub struct TableLeafRecord {
    pub row_id: u64,
    pub values: Vec<Value>,
}

/// A row: its row id and its column values.
pub struct RowView {
    pub row_id: u64,
    pub values: Seq<ValueView>,
}

impl View for TableLeafRecord {
    type V = RowView;

    open spec fn view(&self) -> RowView {
        RowView { row_id: self.row_id, values: values_view(self.values@) }
    }
}

pub open spec fn rows_view(rs: Seq<TableLeafRecord>) -> Seq<RowView> {
    rs.map_values(|r: TableLeafRecord| r@)
}

impl TableLeafRecord {
    /// A copy of this row.
    pub fn copy(&self) -> (r: TableLeafRecord)
        ensures
            r@ == self@,
    {
        TableLeafRecord { row_id: self.row_id, values: copy_values(&self.values) }
    }
}

/// A cell of a table interior page.
#[derive(Debug, Clone, Copy, PartialEq, Eq, Structural)]
pub struct InteriorTableRecord {
    pub left_child_page: u32,
    pub key: u64,
}

/// A cell of an index leaf page: the indexed values followed by the row id.
#[derive(Debug, Clone)]
pub struct IndexLeafRecord {
    pub values: Vec<Value>,
}

/// A cell of an index interior page.
#[derive(Debug, Clone)]
pub struct InteriorIndexRecord {
    pub left_child: u32,
    pub values: Vec<Value>,
}

/// One decoded cell, in the shape its page type gives it.
#[derive(Debug, Clone)]
pub enum DbRecord {
    TableLeafRecord(TableLeafRecord),
    IndexLeafRecord(IndexLeafRecord),
    InteriorTableRecord(InteriorTableRecord),
    InteriorIndexRecord(InteriorIndexRecord),
}

/// The mathematical value of a cell.
pub enum CellView {
    TableLeaf { row_id: u64, values: Seq<ValueView> },
    TableInterior { left: u32, key: u64 },
    IndexLeaf { values: Seq<ValueView> },
    IndexInterior { left: u32, values: Seq<ValueView> },
}

impl View for DbRecord {
    type V = CellView;

    open spec fn view(&self) -> CellView {
        match self {
            DbRecord::TableLeafRecord(r) => CellView::TableLeaf {
                row_id: r.row_id,
                values: values_view(r.values@),
            },
            DbRecord::IndexLeafRecord(r) => CellView::IndexLeaf { values: values_view(r.values@) },
            DbRecord::InteriorTableRecord(r) => CellView::TableInterior {
                left: r.left_child_page,
                key: r.key,
            },
            DbRecord::InteriorIndexRecord(r) => CellView::IndexInterior {
                left: r.left_child,
                values: values_view(r.values@),
            },
        }
    }
}

/// The record values of the `size`-byte payload at `pos`.
pub open spec fn payload_at(db: Seq<u8>, pos: int, size: nat) -> Result<Seq<ValueView>, DbError> {
    if pos + size > db.len() {
        Err(DbError::ShortRead)
    } else {
        record_values(bytes_at(db, pos, size as int))
    }
}

/// A table leaf cell: payload size, row id, payload.
pub open spec fn table_leaf_cell(db: Seq<u8>, pos: int) -> Result<CellView, DbError> {
    match varint_at(db, pos) {
        None => Err(DbError::ShortRead),
        Some((size, w1)) => match varint_at(db, pos + w1) {
            None => Err(DbError::ShortRead),
            Some((rid, w2)) => match payload_at(db, pos + w1 + w2, size) {
                Err(e) => Err(e),
                Ok(vs) => Ok(CellView::TableLeaf { row_id: rid as u64, values: vs }),
            },
        },
    }
}

/// A table interior cell: four-byte left child, then the key.
pub open spec fn table_interior_cell(db: Seq<u8>, pos: int) -> Result<CellView, DbError> {
    if pos < 0 || pos + 4 > db.len() {
        Err(DbError::ShortRead)
    } else {
        match varint_at(db, pos + 4) {
            None => Err(DbError::ShortRead),
            Some((k, _)) => Ok(
                CellView::TableInterior {
                    left: be_value(bytes_at(db, pos, 4)) as u32,
                    key: k as u64,
                },
            ),
        }
    }
}

/// An index leaf cell: payload size, payload.
pub open spec fn index_leaf_cell(db: Seq<u8>, pos: int) -> Result<CellView, DbError> {
    match varint_at(db, pos) {
        None => Err(DbError::ShortRead),
        Some((size, w)) => match payload_at(db, pos + w, size) {
            Err(e) => Err(e),
            Ok(vs) => Ok(CellView::IndexLeaf { values: vs }),
        },
    }
}

/// An index interior cell: four-byte left child, payload size, payload.
pub open spec fn index_interior_cell(db: Seq<u8>, pos: int) -> Result<CellView, DbError> {
    if pos < 0 || pos + 4 > db.len() {
        Err(DbError::ShortRead)
    } else {
        match varint_at(db, pos + 4) {
            None => Err(DbError::ShortRead),
            Some((size, w)) => match payload_at(db, pos + 4 + w, size) {
                Err(e) => Err(e),
                Ok(vs) => Ok(
                    CellView::IndexInterior {
                        left: be_value(bytes_at(db, pos, 4)) as u32,
                        values: vs,
                    },
                ),
            },
        }
    }
}

/// Decodes the record of the `size`-byte payload at `pos`.
fn read_payload(data: &[u8], pos: usize, size: u64) -> (r: Result<Vec<Value>, DbError>)
    requires
        pos <= data@.len(),
    ensures
        match payload_at(data@, pos as int, size as nat) {
            Ok(vs) => r matches Ok(v) && values_view(v@) == vs,
            Err(e) => r matches Err(x) && x == e,
        },
{
    if size > (data.len() - pos) as u64 {
        return Err(DbError::ShortRead);
    }
    let payload = copy_bytes(data, pos, size as usize);
    decode_record(payload.as_slice())
}

impl DbRecord {
    pub fn parse_table_leaf_record(data: &[u8], pos: usize) -> (r: Result<DbRecord, DbError>)
        ensures
            match table_leaf_cell(data@, pos as int) {
                Ok(c) => r matches Ok(x) && x@ == c,
                Err(e) => r matches Err(x) && x == e,
            },
    {
        let dlen = data.len();
        proof {
            lemma_varint_len(data@, pos as int);
        }
        let (size, w1) = match read_varint(data, pos) {
            None => {
                return Err(DbError::ShortRead);
            },
            Some(x) => x,
        };
        proof {
            assert(pos + w1 <= data@.len());
            lemma_varint_len(data@, pos + w1);
        }
        let (row_id, w2) = match read_varint(data, pos + w1) {
            None => {
                return Err(DbError::ShortRead);
            },
            Some(x) => x,
        };
        let values = match read_payload(data, pos + w1 + w2, size) {
            Ok(v) => v,
            Err(e) => {
                return Err(e);
            },
        };
        Ok(DbRecord::TableLeafRecord(TableLeafRecord { row_id, values }))
    }

    pub fn parse_table_index_record(data: &[u8], pos: usize) -> (r: Result<DbRecord, DbError>)
        ensures
            match table_interior_cell(data@, pos as int) {
                Ok(c) => r matches Ok(x) && x@ == c,
                Err(e) => r matches Err(x) && x == e,
            },
    {
        let dlen = data.len();
        if pos > data.len() || 4 > data.len() - pos {
            return Err(DbError::ShortRead);
        }
        let left = match read_be(data, pos, 4) {
            None => {
                return Err(DbError::ShortRead);
            },
            Some(v) => v,
        };
        proof {
            crate::bytes::lemma_be_value_bound(bytes_at(data@, pos as int, 4));
            lemma_pow256_facts(4);
        }
        match read_varint(data, pos + 4) {
            None => Err(DbError::ShortRead),
            Some((key, _)) => Ok(
                DbRecord::InteriorTableRecord(
                    InteriorTableRecord { left_child_page: left as u32, key },
                ),
            ),
        }
    }

    pub fn parse_index_leaf_record(data: &[u8], pos: usize) -> (r: Result<DbRecord, DbError>)
        ensures
            match index_leaf_cell(data@, pos as int) {
                Ok(c) => r matches Ok(x) && x@ == c,
                Err(e) => r matches Err(x) && x == e,
            },
    {
        let dlen = data.len();
        proof {
            lemma_varint_len(data@, pos as int);
        }
        let (size, w) = match read_varint(data, pos) {
            None => {
                return Err(DbError::ShortRead);
            },
            Some(x) => x,
        };
        let values = match read_payload(data, pos + w, size) {
            Ok(v) => v,
            Err(e) => {
                return Err(e);
            },
        };
        Ok(DbRecord::IndexLeafRecord(IndexLeafRecord { values }))
    }

    pub fn parse_index_interior_record(data: &[u8], pos: usize) -> (r: Result<DbRecord, DbError>)
        ensures
            match index_interior_cell(data@, pos as int) {
                Ok(c) => r matches Ok(x) && x@ == c,
                Err(e) => r matches Err(x) && x == e,
            },
    {
        let dlen = data.len();
        if pos > data.len() || 4 > data.len() - pos {
            return Err(DbError::ShortRead);
        }
        let left = match read_be(data, pos, 4) {
            None => {
                return Err(DbError::ShortRead);
            },
            Some(v) => v,
        };
        proof {
            crate::bytes::lemma_be_value_bound(bytes_at(data@, pos as int, 4));
            lemma_pow256_facts(4);
            lemma_varint_len(data@, pos + 4);
        }
        let (size, w) = match read_varint(data, pos + 4) {
            None => {
                return Err(DbError::ShortRead);
            },
            Some(x) => x,
        };
        let values = match read_payload(data, pos + 4 + w, size) {
            Ok(v) => v,
            Err(e) => {
                return Err(e);
            },
        };
        Ok(
            DbRecord::InteriorIndexRecord(
                InteriorIndexRecord { left_child: left as u32, values },
            ),
        )
    }
}

} // verus!
