//! The exchange block: a self-describing byte encoding of a store's schema,
//! metadata and column data, suitable for network transmission or storage.
//!
//! Every number is a little-endian 64-bit word; strings are a byte length
//! followed by UTF-8 bytes. Decoding is the exact inverse of encoding, which
//! is what the round-trip law at the bottom of this module states.

use vstd::prelude::*;
use vstd::string::StrSliceExecFns;
use vstd::string::StringSliceAdditionalSpecFns;
use vstd::utf8::{decode_utf8, encode_utf8, valid_utf8};
use crate::Error;
use crate::df::{Chunk, DataFrame, Field, FieldV, Schema};
use crate::meta::{pairs_distinct, Metadata};
use crate::series::Series;
use crate::series::{Cell, CellV, DataType, DataTypeV, TimeUnit};

verus! {

/// A 64-bit word as eight little-endian bytes.
pub open spec fn enc_u64(x: u64) -> Seq<u8> {
    seq![
        (x & 0xff) as u8,
        ((x >> 8) & 0xff) as u8,
        ((x >> 16) & 0xff) as u8,
        ((x >> 24) & 0xff) as u8,
        ((x >> 32) & 0xff) as u8,
        ((x >> 40) & 0xff) as u8,
        ((x >> 48) & 0xff) as u8,
        ((x >> 56) & 0xff) as u8,
    ]
}

/// The word stored at `pos`.
pub open spec fn spec_word_at(b: Seq<u8>, pos: int) -> u64 {
    (b[pos] as u64) | ((b[pos + 1] as u64) << 8) | ((b[pos + 2] as u64) << 16) | ((b[pos + 3]
        as u64) << 24) | ((b[pos + 4] as u64) << 32) | ((b[pos + 5] as u64) << 40) | ((b[pos + 6]
        as u64) << 48) | ((b[pos + 7] as u64) << 56)
}

/// Read one 64-bit word.
pub open spec fn spec_read_u64(b: Seq<u8>, pos: int) -> Option<(u64, int)> {
    if 0 <= pos && pos + 8 <= b.len() {
        Some((spec_word_at(b, pos), pos + 8))
    } else {
        None
    }
}

/// Read one byte.
pub open spec fn spec_read_u8(b: Seq<u8>, pos: int) -> Option<(u8, int)> {
    if 0 <= pos && pos + 1 <= b.len() {
        Some((b[pos], pos + 1))
    } else {
        None
    }
}

/// A string as a length-prefixed run of UTF-8 bytes.
pub open spec fn enc_str(s: Seq<char>) -> Seq<u8> {
    enc_u64(encode_utf8(s).len() as u64) + encode_utf8(s)
}

/// Read one length-prefixed string.
pub open spec fn spec_read_str(b: Seq<u8>, pos: int) -> Option<(Seq<char>, int)> {
    match spec_read_u64(b, pos) {
        None => None,
        Some((n, p)) => if p + n <= b.len() {
            let bytes = b.subrange(p, p + n);
            if valid_utf8(bytes) {
                Some((decode_utf8(bytes), p + n))
            } else {
                None
            }
        } else {
            None
        },
    }
}

/// Assembling a word from its eight little-endian bytes gives it back.
proof fn lemma_u64_round_trip(x: u64)
    ensures
        ((((x & 0xff) as u8) as u64) | ((((x >> 8) & 0xff) as u8) as u64) << 8 | ((((x >> 16)
            & 0xff) as u8) as u64) << 16 | ((((x >> 24) & 0xff) as u8) as u64) << 24 | ((((x
            >> 32) & 0xff) as u8) as u64) << 32 | ((((x >> 40) & 0xff) as u8) as u64) << 40
            | ((((x >> 48) & 0xff) as u8) as u64) << 48 | ((((x >> 56) & 0xff) as u8) as u64)
            << 56) == x,
{
    assert(((((x & 0xff) as u8) as u64) | ((((x >> 8) & 0xff) as u8) as u64) << 8 | ((((x >> 16)
        & 0xff) as u8) as u64) << 16 | ((((x >> 24) & 0xff) as u8) as u64) << 24 | ((((x >> 32)
        & 0xff) as u8) as u64) << 32 | ((((x >> 40) & 0xff) as u8) as u64) << 40 | ((((x >> 48)
        & 0xff) as u8) as u64) << 48 | ((((x >> 56) & 0xff) as u8) as u64) << 56) == x)
        by (bit_vector);
}

/// Reading where a word was written gives the word back.
pub proof fn lemma_read_u64_enc(b: Seq<u8>, pos: int, x: u64)
    requires
        0 <= pos,
        pos + 8 <= b.len(),
        b.subrange(pos, pos + 8) == enc_u64(x),
    ensures
        spec_read_u64(b, pos) == Some((x, pos + 8)),
{
    assert(b[pos] == enc_u64(x)[0]);
    assert(b[pos + 1] == enc_u64(x)[1]);
    assert(b[pos + 2] == enc_u64(x)[2]);
    assert(b[pos + 3] == enc_u64(x)[3]);
    assert(b[pos + 4] == enc_u64(x)[4]);
    assert(b[pos + 5] == enc_u64(x)[5]);
    assert(b[pos + 6] == enc_u64(x)[6]);
    assert(b[pos + 7] == enc_u64(x)[7]);
    lemma_u64_round_trip(x);
}

/// Reading where a string was written gives the string back.
pub proof fn lemma_read_str_enc(b: Seq<u8>, pos: int, s: Seq<char>)
    requires
        0 <= pos,
        encode_utf8(s).len() <= u64::MAX,
        pos + enc_str(s).len() <= b.len(),
        b.subrange(pos, pos + enc_str(s).len()) == enc_str(s),
    ensures
        spec_read_str(b, pos) == Some((s, pos + enc_str(s).len())),
{
    broadcast use vstd::utf8::encode_utf8_valid_utf8;
    broadcast use vstd::utf8::encode_utf8_decode_utf8;

    let bytes = encode_utf8(s);
    let n = bytes.len() as u64;
    let l = enc_str(s).len();
    assert(b.subrange(pos, pos + 8) =~= enc_u64(n));
    lemma_read_u64_enc(b, pos, n);
    assert(n as int == bytes.len());
    assert forall|j: int| 0 <= j < bytes.len() implies b[pos + 8 + j] == bytes[j] by {
        assert(b.subrange(pos, pos + l)[8 + j] == enc_str(s)[8 + j]);
        assert(enc_str(s)[8 + j] == bytes[j]);
    }
    assert(b.subrange(pos + 8, pos + l) =~= bytes);
    assert(decode_utf8(bytes) == s);
}

/// Append one word.
fn write_u64(out: &mut Vec<u8>, x: u64)
    ensures
        final(out)@ =~= old(out)@ + enc_u64(x),
{
    out.push((x & 0xff) as u8);
    out.push(((x >> 8) & 0xff) as u8);
    out.push(((x >> 16) & 0xff) as u8);
    out.push(((x >> 24) & 0xff) as u8);
    out.push(((x >> 32) & 0xff) as u8);
    out.push(((x >> 40) & 0xff) as u8);
    out.push(((x >> 48) & 0xff) as u8);
    out.push(((x >> 56) & 0xff) as u8);
}

/// Append one length-prefixed string.
fn write_str(out: &mut Vec<u8>, s: &str)
    ensures
        final(out)@ =~= old(out)@ + enc_str(s@),
        encode_utf8(s@).len() <= u64::MAX,
{
    let mut bytes = s.as_bytes_vec();
    let n = bytes.len();
    write_u64(out, n as u64);
    out.append(&mut bytes);
}

/// Relies on String::from_utf8: it succeeds exactly on valid UTF-8 and
/// returns the string of those bytes.
#[verifier::external_body]
fn bytes_to_string(v: Vec<u8>) -> (r: Result<String, Error>)
    ensures
        match r {
            Ok(s) => valid_utf8(v@) && encode_utf8(s@) == v@,
            Err(e) => !valid_utf8(v@) && e matches Error::Other(_),
        },
{
    match String::from_utf8(v) {
        Ok(s) => Ok(s),
        Err(_) => Err(Error::Other("exchange block holds invalid text".to_owned())),
    }
}

/// Read one word.
fn read_u64(b: &Vec<u8>, pos: usize) -> (r: Result<(u64, usize), Error>)
    requires
        pos <= b@.len(),
    ensures
        match r {
            Ok((x, p)) => spec_read_u64(b@, pos as int) == Some((x, p as int)) && pos < p <= b@.len(),
            Err(e) => spec_read_u64(b@, pos as int) is None && e matches Error::Other(_),
        },
{
    let n = b.len();
    if n - pos < 8 {
        return Err(Error::Other(String::from_str("truncated exchange block")));
    }
    let x = (b[pos] as u64) | ((b[pos + 1] as u64) << 8) | ((b[pos + 2] as u64) << 16) | ((b[pos
        + 3] as u64) << 24) | ((b[pos + 4] as u64) << 32) | ((b[pos + 5] as u64) << 40) | ((b[pos
        + 6] as u64) << 48) | ((b[pos + 7] as u64) << 56);
    Ok((x, pos + 8))
}

/// Read one byte.
fn read_u8(b: &Vec<u8>, pos: usize) -> (r: Result<(u8, usize), Error>)
    requires
        pos <= b@.len(),
    ensures
        match r {
            Ok((x, p)) => spec_read_u8(b@, pos as int) == Some((x, p as int)) && pos < p <= b@.len(),
            Err(e) => spec_read_u8(b@, pos as int) is None && e matches Error::Other(_),
        },
{
    let n = b.len();
    if n - pos < 1 {
        return Err(Error::Other(String::from_str("truncated exchange block")));
    }
    Ok((b[pos], pos + 1))
}

/// Read one length-prefixed string.
fn read_str(b: &Vec<u8>, pos: usize) -> (r: Result<(String, usize), Error>)
    requires
        pos <= b@.len(),
    ensures
        match r {
            Ok((s, p)) => spec_read_str(b@, pos as int) == Some((s@, p as int)) && pos < p
                <= b@.len(),
            Err(e) => spec_read_str(b@, pos as int) is None && e matches Error::Other(_),
        },
{
    broadcast use vstd::utf8::encode_utf8_valid_utf8;
    broadcast use vstd::utf8::encode_utf8_decode_utf8;

    let (n, p) = read_u64(b, pos)?;
    let total = b.len();
    if (n as usize) > total - p || n > usize::MAX as u64 {
        return Err(Error::Other(String::from_str("truncated exchange block")));
    }
    let count = n as usize;
    let mut bytes: Vec<u8> = Vec::new();
    let mut i: usize = 0;
    while i < count
        invariant
            total == b@.len(),
            p + count <= total,
            i <= count,
            bytes@.len() == i,
            forall|j: int| 0 <= j < i ==> bytes@[j] == b@[p + j],
        decreases count - i,
    {
        bytes.push(b[p + i]);
        i += 1;
    }
    proof {
        assert(bytes@ =~= b@.subrange(p as int, p + count));
    }
    let s = match bytes_to_string(bytes) {
        Ok(s) => s,
        Err(e) => {
            return Err(e);
        },
    };
    proof {
        assert(decode_utf8(b@.subrange(p as int, p + count)) == s@);
    }
    Ok((s, p + count))
}


/// The unit tag of a timestamp type.
pub open spec fn enc_unit(u: TimeUnit) -> u8 {
    match u {
        TimeUnit::Second => 0,
        TimeUnit::Millisecond => 1,
        TimeUnit::Microsecond => 2,
        TimeUnit::Nanosecond => 3,
    }
}

/// A logical type as a tag byte, with unit and optional zone name for
/// timestamps.
pub open spec fn enc_dtype(dt: DataTypeV) -> Seq<u8> {
    match dt {
        DataTypeV::Boolean => seq![0u8],
        DataTypeV::Int8 => seq![1u8],
        DataTypeV::Int16 => seq![2u8],
        DataTypeV::Int32 => seq![3u8],
        DataTypeV::Int64 => seq![4u8],
        DataTypeV::UInt8 => seq![5u8],
        DataTypeV::UInt16 => seq![6u8],
        DataTypeV::UInt32 => seq![7u8],
        DataTypeV::UInt64 => seq![8u8],
        DataTypeV::Float32 => seq![9u8],
        DataTypeV::Float64 => seq![10u8],
        DataTypeV::Utf8 => seq![11u8],
        DataTypeV::LargeUtf8 => seq![12u8],
        DataTypeV::Timestamp(u, tz) => seq![13u8, enc_unit(u)] + (match tz {
            None => seq![0u8],
            Some(z) => seq![1u8] + enc_str(z),
        }),
    }
}

/// Read one logical type.
pub open spec fn spec_read_dtype(b: Seq<u8>, pos: int) -> Option<(DataTypeV, int)> {
    match spec_read_u8(b, pos) {
        None => None,
        Some((tag, p)) => if tag == 0 {
            Some((DataTypeV::Boolean, p))
        } else if tag == 1 {
            Some((DataTypeV::Int8, p))
        } else if tag == 2 {
            Some((DataTypeV::Int16, p))
        } else if tag == 3 {
            Some((DataTypeV::Int32, p))
        } else if tag == 4 {
            Some((DataTypeV::Int64, p))
        } else if tag == 5 {
            Some((DataTypeV::UInt8, p))
        } else if tag == 6 {
            Some((DataTypeV::UInt16, p))
        } else if tag == 7 {
            Some((DataTypeV::UInt32, p))
        } else if tag == 8 {
            Some((DataTypeV::UInt64, p))
        } else if tag == 9 {
            Some((DataTypeV::Float32, p))
        } else if tag == 10 {
            Some((DataTypeV::Float64, p))
        } else if tag == 11 {
            Some((DataTypeV::Utf8, p))
        } else if tag == 12 {
            Some((DataTypeV::LargeUtf8, p))
        } else if tag == 13 {
            match spec_read_u8(b, p) {
                None => None,
                Some((ub, p2)) => {
                    let unit = if ub == 0 {
                        Some(TimeUnit::Second)
                    } else if ub == 1 {
                        Some(TimeUnit::Millisecond)
                    } else if ub == 2 {
                        Some(TimeUnit::Microsecond)
                    } else if ub == 3 {
                        Some(TimeUnit::Nanosecond)
                    } else {
                        None
                    };
                    match unit {
                        None => None,
                        Some(u) => match spec_read_u8(b, p2) {
                            None => None,
                            Some((flag, p3)) => if flag == 0 {
                                Some((DataTypeV::Timestamp(u, None), p3))
                            } else if flag == 1 {
                                match spec_read_str(b, p3) {
                                    None => None,
                                    Some((z, p4)) => Some(
                                        (DataTypeV::Timestamp(u, Some(z)), p4),
                                    ),
                                }
                            } else {
                                None
                            },
                        },
                    }
                },
            }
        } else {
            None
        },
    }
}

/// Zone names of a type fit the length prefix.
pub open spec fn dtype_bounded(dt: DataTypeV) -> bool {
    match dt {
        DataTypeV::Timestamp(_, Some(z)) => encode_utf8(z).len() <= u64::MAX,
        _ => true,
    }
}

/// One cell: a null marker or a marker and the value, whose width follows
/// from the column's type.
pub open spec fn enc_cell(c: CellV) -> Seq<u8> {
    match c {
        CellV::Null => seq![0u8],
        CellV::Bool(x) => seq![
            1u8,
            if x {
                1u8
            } else {
                0u8
            },
        ],
        CellV::I8(x) => seq![1u8] + enc_u64(x as u64),
        CellV::I16(x) => seq![1u8] + enc_u64(x as u64),
        CellV::I32(x) => seq![1u8] + enc_u64(x as u64),
        CellV::I64(x) => seq![1u8] + enc_u64(x as u64),
        CellV::U8(x) => seq![1u8] + enc_u64(x as u64),
        CellV::U16(x) => seq![1u8] + enc_u64(x as u64),
        CellV::U32(x) => seq![1u8] + enc_u64(x as u64),
        CellV::U64(x) => seq![1u8] + enc_u64(x),
        CellV::F32Bits(x) => seq![1u8] + enc_u64(x as u64),
        CellV::F64Bits(x) => seq![1u8] + enc_u64(x),
        CellV::Str(s) => seq![1u8] + enc_str(s),
    }
}

/// A cell's string content fits the length prefix.
pub open spec fn cell_bounded(c: CellV) -> bool {
    match c {
        CellV::Str(s) => encode_utf8(s).len() <= u64::MAX,
        _ => true,
    }
}

/// Read one cell of a column with storage kind `code`.
pub open spec fn spec_read_cell(b: Seq<u8>, pos: int, code: u8) -> Option<(CellV, int)> {
    match spec_read_u8(b, pos) {
        None => None,
        Some((tag, p)) => if tag == 0 {
            Some((CellV::Null, p))
        } else if tag == 1 {
            if code == 0 {
                match spec_read_u8(b, p) {
                    None => None,
                    Some((x, p2)) => if x == 0 {
                        Some((CellV::Bool(false), p2))
                    } else if x == 1 {
                        Some((CellV::Bool(true), p2))
                    } else {
                        None
                    },
                }
            } else if code == 11 {
                match spec_read_str(b, p) {
                    None => None,
                    Some((s, p2)) => Some((CellV::Str(s), p2)),
                }
            } else if code <= 10 {
                match spec_read_u64(b, p) {
                    None => None,
                    Some((x, p2)) => {
                        let c = if code == 1 {
                            CellV::I8(x as i8)
                        } else if code == 2 {
                            CellV::I16(x as i16)
                        } else if code == 3 {
                            CellV::I32(x as i32)
                        } else if code == 4 {
                            CellV::I64(x as i64)
                        } else if code == 5 {
                            CellV::U8(x as u8)
                        } else if code == 6 {
                            CellV::U16(x as u16)
                        } else if code == 7 {
                            CellV::U32(x as u32)
                        } else if code == 8 {
                            CellV::U64(x)
                        } else if code == 9 {
                            CellV::F32Bits(x as u32)
                        } else {
                            CellV::F64Bits(x)
                        };
                        Some((c, p2))
                    },
                }
            } else {
                None
            }
        } else {
            None
        },
    }
}

/// A run of cells, front to back.
pub open spec fn enc_cells(cs: Seq<CellV>) -> Seq<u8>
    decreases cs.len(),
{
    if cs.len() == 0 {
        Seq::<u8>::empty()
    } else {
        enc_cell(cs[0]) + enc_cells(cs.drop_first())
    }
}

/// Read `n` cells.
pub open spec fn spec_read_cells(b: Seq<u8>, pos: int, code: u8, n: int) -> Option<
    (Seq<CellV>, int),
>
    decreases n,
{
    if n <= 0 {
        Some((Seq::<CellV>::empty(), pos))
    } else {
        match spec_read_cell(b, pos, code) {
            None => None,
            Some((c, p)) => match spec_read_cells(b, p, code, n - 1) {
                None => None,
                Some((cs, p2)) => Some((seq![c] + cs, p2)),
            },
        }
    }
}

/// A metadata pair: two strings.
pub open spec fn enc_pair(p: (Seq<char>, Seq<char>)) -> Seq<u8> {
    enc_str(p.0) + enc_str(p.1)
}

pub open spec fn enc_pairs(ps: Seq<(Seq<char>, Seq<char>)>) -> Seq<u8>
    decreases ps.len(),
{
    if ps.len() == 0 {
        Seq::<u8>::empty()
    } else {
        enc_pair(ps[0]) + enc_pairs(ps.drop_first())
    }
}

pub open spec fn spec_read_pair(b: Seq<u8>, pos: int) -> Option<((Seq<char>, Seq<char>), int)> {
    match spec_read_str(b, pos) {
        None => None,
        Some((k, p)) => match spec_read_str(b, p) {
            None => None,
            Some((v, p2)) => Some(((k, v), p2)),
        },
    }
}

pub open spec fn spec_read_pairs(b: Seq<u8>, pos: int, n: int) -> Option<
    (Seq<(Seq<char>, Seq<char>)>, int),
>
    decreases n,
{
    if n <= 0 {
        Some((Seq::<(Seq<char>, Seq<char>)>::empty(), pos))
    } else {
        match spec_read_pair(b, pos) {
            None => None,
            Some((p0, p)) => match spec_read_pairs(b, p, n - 1) {
                None => None,
                Some((ps, p2)) => Some((seq![p0] + ps, p2)),
            },
        }
    }
}

/// All strings of some pairs fit the length prefix.
pub open spec fn pairs_bounded(ps: Seq<(Seq<char>, Seq<char>)>) -> bool {
    forall|i: int|
        0 <= i < ps.len() ==> encode_utf8((#[trigger] ps[i]).0).len() <= u64::MAX && encode_utf8(
            ps[i].1,
        ).len() <= u64::MAX
}

/// One field: name, declared type, and per-column metadata.
pub open spec fn enc_field(f: FieldV) -> Seq<u8> {
    enc_str(f.name) + enc_dtype(f.data_type) + enc_u64(f.metadata.len() as u64) + enc_pairs(
        f.metadata,
    )
}

pub open spec fn enc_fields(fs: Seq<FieldV>) -> Seq<u8>
    decreases fs.len(),
{
    if fs.len() == 0 {
        Seq::<u8>::empty()
    } else {
        enc_field(fs[0]) + enc_fields(fs.drop_first())
    }
}

pub open spec fn spec_read_field(b: Seq<u8>, pos: int) -> Option<(FieldV, int)> {
    match spec_read_str(b, pos) {
        None => None,
        Some((name, p)) => match spec_read_dtype(b, p) {
            None => None,
            Some((dt, p2)) => match spec_read_u64(b, p2) {
                None => None,
                Some((m, p3)) => match spec_read_pairs(b, p3, m as int) {
                    None => None,
                    Some((ps, p4)) => Some(
                        (FieldV { name, data_type: dt, metadata: ps }, p4),
                    ),
                },
            },
        },
    }
}

pub open spec fn spec_read_fields(b: Seq<u8>, pos: int, n: int) -> Option<(Seq<FieldV>, int)>
    decreases n,
{
    if n <= 0 {
        Some((Seq::<FieldV>::empty(), pos))
    } else {
        match spec_read_field(b, pos) {
            None => None,
            Some((f, p)) => match spec_read_fields(b, p, n - 1) {
                None => None,
                Some((fs, p2)) => Some((seq![f] + fs, p2)),
            },
        }
    }
}

/// One column: its native type and its cells.
pub open spec fn enc_col(native: DataTypeV, cs: Seq<CellV>) -> Seq<u8> {
    enc_dtype(native) + enc_cells(cs)
}

pub open spec fn enc_cols(natives: Seq<DataTypeV>, cols: Seq<Seq<CellV>>) -> Seq<u8>
    decreases natives.len(),
{
    if natives.len() == 0 {
        Seq::<u8>::empty()
    } else {
        enc_col(natives[0], cols[0]) + enc_cols(natives.drop_first(), cols.drop_first())
    }
}

pub open spec fn spec_read_col(b: Seq<u8>, pos: int, rows: int) -> Option<
    ((DataTypeV, Seq<CellV>), int),
> {
    match spec_read_dtype(b, pos) {
        None => None,
        Some((dt, p)) => match spec_read_cells(b, p, crate::series::spec_storage_code(dt), rows) {
            None => None,
            Some((cs, p2)) => Some(((dt, cs), p2)),
        },
    }
}

pub open spec fn spec_read_cols(b: Seq<u8>, pos: int, rows: int, n: int) -> Option<
    (Seq<(DataTypeV, Seq<CellV>)>, int),
>
    decreases n,
{
    if n <= 0 {
        Some((Seq::<(DataTypeV, Seq<CellV>)>::empty(), pos))
    } else {
        match spec_read_col(b, pos, rows) {
            None => None,
            Some((c, p)) => match spec_read_cols(b, p, rows, n - 1) {
                None => None,
                Some((cs, p2)) => Some((seq![c] + cs, p2)),
            },
        }
    }
}

/// The mathematical content of an exchange block: store metadata, schema,
/// row count, and each column's native type and cells.
pub struct BlockV {
    pub meta: Seq<(Seq<char>, Seq<char>)>,
    pub fields: Seq<FieldV>,
    pub rows: nat,
    pub natives: Seq<DataTypeV>,
    pub cols: Seq<Seq<CellV>>,
}

/// The whole block.
pub open spec fn enc_block(v: BlockV) -> Seq<u8> {
    enc_u64(v.meta.len() as u64) + enc_pairs(v.meta) + enc_u64(v.fields.len() as u64) + enc_fields(
        v.fields,
    ) + enc_u64(v.rows as u64) + enc_cols(v.natives, v.cols)
}

/// Parse the whole block.
pub open spec fn spec_read_block(b: Seq<u8>) -> Option<(BlockV, int)> {
    match spec_read_u64(b, 0) {
        None => None,
        Some((m, p)) => match spec_read_pairs(b, p, m as int) {
            None => None,
            Some((meta, p2)) => match spec_read_u64(b, p2) {
                None => None,
                Some((fcount, p3)) => match spec_read_fields(b, p3, fcount as int) {
                    None => None,
                    Some((fs, p4)) => match spec_read_u64(b, p4) {
                        None => None,
                        Some((rows, p5)) => match spec_read_cols(
                            b,
                            p5,
                            rows as int,
                            fcount as int,
                        ) {
                            None => None,
                            Some((cols, p6)) => Some(
                                (
                                    BlockV {
                                        meta,
                                        fields: fs,
                                        rows: rows as nat,
                                        natives: cols.map(
                                            |i: int, c: (DataTypeV, Seq<CellV>)| c.0,
                                        ),
                                        cols: cols.map(|i: int, c: (DataTypeV, Seq<CellV>)| c.1),
                                    },
                                    p6,
                                ),
                            ),
                        },
                    },
                },
            },
        },
    }
}

/// Everything in a block fits the length and count prefixes, every cell
/// matches its column's storage, and the columns are rectangular.
pub open spec fn block_bounded(v: BlockV) -> bool {
    &&& v.meta.len() <= u64::MAX
    &&& v.fields.len() <= u64::MAX
    &&& v.rows <= u64::MAX
    &&& v.natives.len() == v.fields.len()
    &&& v.cols.len() == v.fields.len()
    &&& pairs_bounded(v.meta)
    &&& forall|i: int|
        0 <= i < v.fields.len() ==> encode_utf8((#[trigger] v.fields[i]).name).len() <= u64::MAX
            && dtype_bounded(v.fields[i].data_type) && v.fields[i].metadata.len() <= u64::MAX
            && pairs_bounded(v.fields[i].metadata)
    &&& forall|i: int| 0 <= i < v.natives.len() ==> dtype_bounded(#[trigger] v.natives[i])
    &&& forall|i: int| 0 <= i < v.cols.len() ==> (#[trigger] v.cols[i]).len() == v.rows
    &&& forall|i: int, j: int|
        0 <= i < v.cols.len() && 0 <= j < v.rows ==> crate::series::cell_ok(
            v.natives[i],
            #[trigger] v.cols[i][j],
        ) && cell_bounded(v.cols[i][j])
}

/// Splitting a written concatenation back apart.
proof fn lemma_subrange_split(b: Seq<u8>, pos: int, x: Seq<u8>, y: Seq<u8>)
    requires
        0 <= pos,
        pos + x.len() + y.len() <= b.len(),
        b.subrange(pos, pos + x.len() + y.len()) == x + y,
    ensures
        b.subrange(pos, pos + x.len()) =~= x,
        b.subrange(pos + x.len(), pos + x.len() + y.len()) =~= y,
{
    let s = b.subrange(pos, pos + x.len() + y.len());
    assert(s == x + y);
    assert(s.len() == x.len() + y.len());
    assert forall|j: int| 0 <= j < x.len() implies b[pos + j] == x[j] by {
        assert(s[j] == b[pos + j]);
        assert(s[j] == (x + y)[j]);
        assert((x + y)[j] == x[j]);
    }
    assert forall|j: int| 0 <= j < y.len() implies b[pos + x.len() + j] == y[j] by {
        assert(s[x.len() + j] == b[pos + x.len() + j]);
        assert(s[x.len() + j] == (x + y)[x.len() + j]);
        assert((x + y)[x.len() + j] == y[j]);
    }
}

/// One byte of a written run.
proof fn lemma_byte_at(b: Seq<u8>, pos: int, x: Seq<u8>, k: int)
    requires
        0 <= pos,
        0 <= k < x.len(),
        pos + x.len() <= b.len(),
        b.subrange(pos, pos + x.len()) == x,
    ensures
        b[pos + k] == x[k],
{
    assert(b.subrange(pos, pos + x.len())[k] == x[k]);
}

/// Reading where a type was written gives the type back.
#[verifier::rlimit(60)]
proof fn lemma_read_dtype_enc(b: Seq<u8>, pos: int, dt: DataTypeV)
    requires
        0 <= pos,
        dtype_bounded(dt),
        pos + enc_dtype(dt).len() <= b.len(),
        b.subrange(pos, pos + enc_dtype(dt).len()) == enc_dtype(dt),
    ensures
        spec_read_dtype(b, pos) == Some((dt, pos + enc_dtype(dt).len())),
{
    let e = enc_dtype(dt);
    match dt {
        DataTypeV::Timestamp(u, tz) => {
            match tz {
                None => {
                    assert(e =~= seq![13u8, enc_unit(u)] + seq![0u8]);
                    lemma_subrange_split(b, pos, seq![13u8, enc_unit(u)], seq![0u8]);
                    lemma_byte_at(b, pos, seq![13u8, enc_unit(u)], 0);
                    lemma_byte_at(b, pos, seq![13u8, enc_unit(u)], 1);
                    lemma_byte_at(b, pos + 2, seq![0u8], 0);
                    assert(b[pos] == 13u8 && b[pos + 1] == enc_unit(u) && b[pos + 2] == 0u8);
                },
                Some(z) => {
                    assert(e =~= seq![13u8, enc_unit(u), 1u8] + enc_str(z));
                    lemma_subrange_split(b, pos, seq![13u8, enc_unit(u), 1u8], enc_str(z));
                    lemma_byte_at(b, pos, seq![13u8, enc_unit(u), 1u8], 0);
                    lemma_byte_at(b, pos, seq![13u8, enc_unit(u), 1u8], 1);
                    lemma_byte_at(b, pos, seq![13u8, enc_unit(u), 1u8], 2);
                    assert(b[pos] == 13u8 && b[pos + 1] == enc_unit(u) && b[pos + 2] == 1u8);
                    lemma_read_str_enc(b, pos + 3, z);
                },
            }
        },
        _ => {
            lemma_byte_at(b, pos, e, 0);
        },
    }
}

/// Reading where a cell was written gives the cell back.
#[verifier::rlimit(60)]
proof fn lemma_read_cell_enc(b: Seq<u8>, pos: int, code: u8, c: CellV)
    requires
        0 <= pos,
        cell_bounded(c),
        crate::series::cell_code_matches(code, c),
        pos + enc_cell(c).len() <= b.len(),
        b.subrange(pos, pos + enc_cell(c).len()) == enc_cell(c),
    ensures
        spec_read_cell(b, pos, code) == Some((c, pos + enc_cell(c).len())),
{
    let e = enc_cell(c);
    match c {
        CellV::Null => {
            lemma_byte_at(b, pos, e, 0);
        },
        CellV::Bool(x) => {
            lemma_byte_at(b, pos, e, 0);
            lemma_byte_at(b, pos, e, 1);
        },
        CellV::Str(s) => {
            assert(e =~= seq![1u8] + enc_str(s));
            lemma_subrange_split(b, pos, seq![1u8], enc_str(s));
            lemma_byte_at(b, pos, seq![1u8], 0);
            lemma_read_str_enc(b, pos + 1, s);
        },
        CellV::I8(x) => {
            assert(e =~= seq![1u8] + enc_u64(x as u64));
            lemma_subrange_split(b, pos, seq![1u8], enc_u64(x as u64));
            lemma_byte_at(b, pos, seq![1u8], 0);
            lemma_read_u64_enc(b, pos + 1, x as u64);
            assert(((x as u64) as i8) == x) by (bit_vector);
        },
        CellV::I16(x) => {
            assert(e =~= seq![1u8] + enc_u64(x as u64));
            lemma_subrange_split(b, pos, seq![1u8], enc_u64(x as u64));
            lemma_byte_at(b, pos, seq![1u8], 0);
            lemma_read_u64_enc(b, pos + 1, x as u64);
            assert(((x as u64) as i16) == x) by (bit_vector);
        },
        CellV::I32(x) => {
            assert(e =~= seq![1u8] + enc_u64(x as u64));
            lemma_subrange_split(b, pos, seq![1u8], enc_u64(x as u64));
            lemma_byte_at(b, pos, seq![1u8], 0);
            lemma_read_u64_enc(b, pos + 1, x as u64);
            assert(((x as u64) as i32) == x) by (bit_vector);
        },
        CellV::I64(x) => {
            assert(e =~= seq![1u8] + enc_u64(x as u64));
            lemma_subrange_split(b, pos, seq![1u8], enc_u64(x as u64));
            lemma_byte_at(b, pos, seq![1u8], 0);
            lemma_read_u64_enc(b, pos + 1, x as u64);
            assert(((x as u64) as i64) == x) by (bit_vector);
        },
        CellV::U8(x) => {
            assert(e =~= seq![1u8] + enc_u64(x as u64));
            lemma_subrange_split(b, pos, seq![1u8], enc_u64(x as u64));
            lemma_byte_at(b, pos, seq![1u8], 0);
            lemma_read_u64_enc(b, pos + 1, x as u64);
            assert(((x as u64) as u8) == x) by (bit_vector);
        },
        CellV::U16(x) => {
            assert(e =~= seq![1u8] + enc_u64(x as u64));
            lemma_subrange_split(b, pos, seq![1u8], enc_u64(x as u64));
            lemma_byte_at(b, pos, seq![1u8], 0);
            lemma_read_u64_enc(b, pos + 1, x as u64);
            assert(((x as u64) as u16) == x) by (bit_vector);
        },
        CellV::U32(x) => {
            assert(e =~= seq![1u8] + enc_u64(x as u64));
            lemma_subrange_split(b, pos, seq![1u8], enc_u64(x as u64));
            lemma_byte_at(b, pos, seq![1u8], 0);
            lemma_read_u64_enc(b, pos + 1, x as u64);
            assert(((x as u64) as u32) == x) by (bit_vector);
        },
        CellV::U64(x) => {
            assert(e =~= seq![1u8] + enc_u64(x));
            lemma_subrange_split(b, pos, seq![1u8], enc_u64(x));
            lemma_byte_at(b, pos, seq![1u8], 0);
            lemma_read_u64_enc(b, pos + 1, x);
        },
        CellV::F32Bits(x) => {
            assert(e =~= seq![1u8] + enc_u64(x as u64));
            lemma_subrange_split(b, pos, seq![1u8], enc_u64(x as u64));
            lemma_byte_at(b, pos, seq![1u8], 0);
            lemma_read_u64_enc(b, pos + 1, x as u64);
            assert(((x as u64) as u32) == x) by (bit_vector);
        },
        CellV::F64Bits(x) => {
            assert(e =~= seq![1u8] + enc_u64(x));
            lemma_subrange_split(b, pos, seq![1u8], enc_u64(x));
            lemma_byte_at(b, pos, seq![1u8], 0);
            lemma_read_u64_enc(b, pos + 1, x);
        },
    }
}

/// Reading where cells were written gives the cells back.
#[verifier::rlimit(60)]
proof fn lemma_read_cells_enc(b: Seq<u8>, pos: int, code: u8, cs: Seq<CellV>)
    requires
        0 <= pos,
        forall|i: int|
            0 <= i < cs.len() ==> crate::series::cell_code_matches(code, #[trigger] cs[i])
                && cell_bounded(cs[i]),
        pos + enc_cells(cs).len() <= b.len(),
        b.subrange(pos, pos + enc_cells(cs).len()) == enc_cells(cs),
    ensures
        spec_read_cells(b, pos, code, cs.len() as int) == Some((cs, pos + enc_cells(cs).len())),
    decreases cs.len(),
{
    if cs.len() > 0 {
        lemma_subrange_split(b, pos, enc_cell(cs[0]), enc_cells(cs.drop_first()));
        lemma_read_cell_enc(b, pos, code, cs[0]);
        lemma_read_cells_enc(b, pos + enc_cell(cs[0]).len(), code, cs.drop_first());
        assert(seq![cs[0]] + cs.drop_first() =~= cs);
    }
}

/// Reading where pairs were written gives the pairs back.
#[verifier::rlimit(60)]
proof fn lemma_read_pairs_enc(b: Seq<u8>, pos: int, ps: Seq<(Seq<char>, Seq<char>)>)
    requires
        0 <= pos,
        pairs_bounded(ps),
        pos + enc_pairs(ps).len() <= b.len(),
        b.subrange(pos, pos + enc_pairs(ps).len()) == enc_pairs(ps),
    ensures
        spec_read_pairs(b, pos, ps.len() as int) == Some((ps, pos + enc_pairs(ps).len())),
    decreases ps.len(),
{
    if ps.len() > 0 {
        lemma_subrange_split(b, pos, enc_pair(ps[0]), enc_pairs(ps.drop_first()));
        let p0 = ps[0];
        assert(enc_pair(p0) == enc_str(p0.0) + enc_str(p0.1));
        lemma_subrange_split(b, pos, enc_str(p0.0), enc_str(p0.1));
        lemma_read_str_enc(b, pos, p0.0);
        lemma_read_str_enc(b, pos + enc_str(p0.0).len(), p0.1);
        assert(spec_read_pair(b, pos) == Some((p0, pos + enc_pair(p0).len())));
        lemma_read_pairs_enc(b, pos + enc_pair(p0).len(), ps.drop_first());
        assert(seq![p0] + ps.drop_first() =~= ps);
    }
}

/// Reading where a field was written gives the field back.
#[verifier::rlimit(60)]
proof fn lemma_read_field_enc(b: Seq<u8>, pos: int, f: FieldV)
    requires
        0 <= pos,
        encode_utf8(f.name).len() <= u64::MAX,
        dtype_bounded(f.data_type),
        f.metadata.len() <= u64::MAX,
        pairs_bounded(f.metadata),
        pos + enc_field(f).len() <= b.len(),
        b.subrange(pos, pos + enc_field(f).len()) == enc_field(f),
    ensures
        spec_read_field(b, pos) == Some((f, pos + enc_field(f).len())),
{
    let e1 = enc_str(f.name);
    let e2 = enc_dtype(f.data_type);
    let e3 = enc_u64(f.metadata.len() as u64);
    let e4 = enc_pairs(f.metadata);
    assert(enc_field(f) =~= e1 + (e2 + e3 + e4));
    lemma_subrange_split(b, pos, e1, e2 + e3 + e4);
    assert(e2 + e3 + e4 =~= e2 + (e3 + e4));
    lemma_subrange_split(b, pos + e1.len(), e2, e3 + e4);
    lemma_subrange_split(b, pos + e1.len() + e2.len(), e3, e4);
    lemma_read_str_enc(b, pos, f.name);
    lemma_read_dtype_enc(b, pos + e1.len(), f.data_type);
    lemma_read_u64_enc(b, pos + e1.len() + e2.len(), f.metadata.len() as u64);
    lemma_read_pairs_enc(b, pos + e1.len() + e2.len() + 8, f.metadata);
}

/// Reading where fields were written gives the fields back.
#[verifier::rlimit(60)]
proof fn lemma_read_fields_enc(b: Seq<u8>, pos: int, fs: Seq<FieldV>)
    requires
        0 <= pos,
        forall|i: int|
            0 <= i < fs.len() ==> encode_utf8((#[trigger] fs[i]).name).len() <= u64::MAX
                && dtype_bounded(fs[i].data_type) && fs[i].metadata.len() <= u64::MAX
                && pairs_bounded(fs[i].metadata),
        pos + enc_fields(fs).len() <= b.len(),
        b.subrange(pos, pos + enc_fields(fs).len()) == enc_fields(fs),
    ensures
        spec_read_fields(b, pos, fs.len() as int) == Some((fs, pos + enc_fields(fs).len())),
    decreases fs.len(),
{
    if fs.len() > 0 {
        lemma_subrange_split(b, pos, enc_field(fs[0]), enc_fields(fs.drop_first()));
        lemma_read_field_enc(b, pos, fs[0]);
        lemma_read_fields_enc(b, pos + enc_field(fs[0]).len(), fs.drop_first());
        assert(seq![fs[0]] + fs.drop_first() =~= fs);
    }
}

/// Reading where columns were written gives the columns back.
#[verifier::rlimit(100)]
proof fn lemma_read_cols_enc(
    b: Seq<u8>,
    pos: int,
    natives: Seq<DataTypeV>,
    cols: Seq<Seq<CellV>>,
    rows: int,
)
    requires
        0 <= pos,
        natives.len() == cols.len(),
        forall|i: int| 0 <= i < natives.len() ==> dtype_bounded(#[trigger] natives[i]),
        forall|i: int| 0 <= i < cols.len() ==> (#[trigger] cols[i]).len() == rows,
        forall|i: int, j: int|
            0 <= i < cols.len() && 0 <= j < rows ==> crate::series::cell_ok(
                natives[i],
                #[trigger] cols[i][j],
            ) && cell_bounded(cols[i][j]),
        pos + enc_cols(natives, cols).len() <= b.len(),
        b.subrange(pos, pos + enc_cols(natives, cols).len()) == enc_cols(natives, cols),
    ensures
        spec_read_cols(b, pos, rows, natives.len() as int) matches Some((out, p2)) && out.len()
            == natives.len() && (forall|i: int|
            0 <= i < out.len() ==> (#[trigger] out[i]).0 == natives[i] && out[i].1 == cols[i])
            && p2 == pos + enc_cols(natives, cols).len(),
    decreases natives.len(),
{
    if natives.len() > 0 {
        lemma_subrange_split(
            b,
            pos,
            enc_col(natives[0], cols[0]),
            enc_cols(natives.drop_first(), cols.drop_first()),
        );
        assert(enc_col(natives[0], cols[0]) == enc_dtype(natives[0]) + enc_cells(cols[0]));
        lemma_subrange_split(b, pos, enc_dtype(natives[0]), enc_cells(cols[0]));
        lemma_read_dtype_enc(b, pos, natives[0]);
        assert forall|j: int| 0 <= j < cols[0].len() implies crate::series::cell_code_matches(
            crate::series::spec_storage_code(natives[0]),
            (#[trigger] cols[0][j]),
        ) && cell_bounded(cols[0][j]) by {
            assert(crate::series::cell_ok(natives[0], cols[0][j]));
        }
        lemma_read_cells_enc(
            b,
            pos + enc_dtype(natives[0]).len(),
            crate::series::spec_storage_code(natives[0]),
            cols[0],
        );
        let l0 = enc_col(natives[0], cols[0]).len();
        assert(spec_read_col(b, pos, rows) == Some(((natives[0], cols[0]), pos + l0)));
        lemma_read_cols_enc(b, pos + l0, natives.drop_first(), cols.drop_first(), rows);
        let rest = spec_read_cols(
            b,
            pos + l0,
            rows,
            natives.drop_first().len() as int,
        );
        assert(natives.drop_first().len() as int == natives.len() as int - 1);
        assert(spec_read_cols(b, pos, rows, natives.len() as int) == Some(
            (seq![(natives[0], cols[0])] + rest.unwrap().0, rest.unwrap().1),
        ));
    }
}

/// Decoding reads back exactly what encoding wrote: the round-trip law of
/// the exchange block.
/// Where each section of an encoded block sits.
#[verifier::rlimit(100)]
#[verifier::spinoff_prover]
proof fn lemma_block_layout(v: BlockV)
    ensures
        enc_block(v).len() == 8 + enc_pairs(v.meta).len() as int + 8 + enc_fields(
            v.fields,
        ).len() as int + 8 + enc_cols(v.natives, v.cols).len() as int,
        enc_block(v).subrange(0, 8) =~= enc_u64(v.meta.len() as u64),
        enc_block(v).subrange(8, 8 + enc_pairs(v.meta).len() as int) =~= enc_pairs(v.meta),
        enc_block(v).subrange(
            8 + enc_pairs(v.meta).len() as int,
            8 + enc_pairs(v.meta).len() as int + 8,
        ) =~= enc_u64(v.fields.len() as u64),
        enc_block(v).subrange(
            8 + enc_pairs(v.meta).len() as int + 8,
            8 + enc_pairs(v.meta).len() as int + 8 + enc_fields(v.fields).len() as int,
        ) =~= enc_fields(v.fields),
        enc_block(v).subrange(
            8 + enc_pairs(v.meta).len() as int + 8 + enc_fields(v.fields).len() as int,
            8 + enc_pairs(v.meta).len() as int + 8 + enc_fields(v.fields).len() as int + 8,
        ) =~= enc_u64(v.rows as u64),
        enc_block(v).subrange(
            8 + enc_pairs(v.meta).len() as int + 8 + enc_fields(v.fields).len() as int + 8,
            enc_block(v).len() as int,
        ) =~= enc_cols(v.natives, v.cols),
{
    let b = enc_block(v);
    let e1 = enc_u64(v.meta.len() as u64);
    let e2 = enc_pairs(v.meta);
    let e3 = enc_u64(v.fields.len() as u64);
    let e4 = enc_fields(v.fields);
    let e5 = enc_u64(v.rows as u64);
    let e6 = enc_cols(v.natives, v.cols);
    assert(b =~= e1 + (e2 + (e3 + (e4 + (e5 + e6)))));
    assert(b.subrange(0, b.len() as int) =~= b);
    lemma_subrange_split(b, 0, e1, e2 + (e3 + (e4 + (e5 + e6))));
    lemma_subrange_split(b, 8, e2, e3 + (e4 + (e5 + e6)));
    lemma_subrange_split(b, 8 + e2.len() as int, e3, e4 + (e5 + e6));
    lemma_subrange_split(b, 8 + e2.len() as int + 8, e4, e5 + e6);
    lemma_subrange_split(b, 8 + e2.len() as int + 8 + e4.len() as int, e5, e6);
}

/// What parsing each section of an encoded block yields.
#[verifier::rlimit(100)]
#[verifier::spinoff_prover]
proof fn lemma_block_sections(v: BlockV)
    requires
        block_bounded(v),
    ensures
        spec_read_u64(enc_block(v), 0) == Some((v.meta.len() as u64, 8int)),
        spec_read_pairs(enc_block(v), 8, v.meta.len() as int) == Some(
            (v.meta, 8 + enc_pairs(v.meta).len() as int),
        ),
        spec_read_u64(enc_block(v), 8 + enc_pairs(v.meta).len() as int) == Some(
            (v.fields.len() as u64, 8 + enc_pairs(v.meta).len() as int + 8),
        ),
        spec_read_fields(
            enc_block(v),
            8 + enc_pairs(v.meta).len() as int + 8,
            v.fields.len() as int,
        ) == Some(
            (
                v.fields,
                8 + enc_pairs(v.meta).len() as int + 8 + enc_fields(v.fields).len() as int,
            ),
        ),
        spec_read_u64(
            enc_block(v),
            8 + enc_pairs(v.meta).len() as int + 8 + enc_fields(v.fields).len() as int,
        ) == Some(
            (
                v.rows as u64,
                8 + enc_pairs(v.meta).len() as int + 8 + enc_fields(v.fields).len() as int + 8,
            ),
        ),
        spec_read_cols(
            enc_block(v),
            8 + enc_pairs(v.meta).len() as int + 8 + enc_fields(v.fields).len() as int + 8,
            v.rows as int,
            v.fields.len() as int,
        ) matches Some((out, pp)) && out.len() == v.natives.len() && (forall|i: int|
            0 <= i < out.len() ==> (#[trigger] out[i]).0 == v.natives[i] && out[i].1 == v.cols[i])
            && pp == enc_block(v).len() as int,
{
    lemma_block_layout(v);
    let b = enc_block(v);
    let p2: int = 8 + enc_pairs(v.meta).len() as int;
    let p3: int = p2 + 8;
    let p4: int = p3 + enc_fields(v.fields).len() as int;
    let p5: int = p4 + 8;
    lemma_read_u64_enc(b, 0, v.meta.len() as u64);
    lemma_read_pairs_enc(b, 8, v.meta);
    lemma_read_u64_enc(b, p2, v.fields.len() as u64);
    lemma_read_fields_enc(b, p3, v.fields);
    lemma_read_u64_enc(b, p4, v.rows as u64);
    lemma_read_cols_enc(b, p5, v.natives, v.cols, v.rows as int);
}

/// Decoding reads back exactly what encoding wrote: the round-trip law of
/// the exchange block.
/// Decoding reads back exactly what encoding wrote: the round-trip law of
/// the exchange block.
#[verifier::rlimit(100)]
#[verifier::spinoff_prover]
pub proof fn lemma_block_round_trip(v: BlockV)
    requires
        block_bounded(v),
    ensures
        spec_read_block(enc_block(v)) matches Some((w, p)) && w.meta == v.meta && w.fields
            == v.fields && w.rows == v.rows && w.natives =~= v.natives && w.cols =~= v.cols && p
            == enc_block(v).len(),
{
    lemma_block_sections(v);
    let b = enc_block(v);
    let p5: int = 8 + enc_pairs(v.meta).len() as int + 8 + enc_fields(v.fields).len() as int + 8;
    let parsed = spec_read_cols(b, p5, v.rows as int, v.fields.len() as int);
    assert(spec_read_block(b) matches Some((w, p)) && w.meta == v.meta && w.fields == v.fields
        && w.rows == v.rows && p == enc_block(v).len() as int && w.natives == parsed.unwrap().0.map(
        |i: int, c: (DataTypeV, Seq<CellV>)| c.0,
    ) && w.cols == parsed.unwrap().0.map(|i: int, c: (DataTypeV, Seq<CellV>)| c.1));
}

/// Decoding an encoded well-formed store always succeeds and recovers it:
/// the exchange law for stores of any origin. Together with the exec
/// contracts of [`DataFrame::into_ipc_block`] and
/// [`DataFrame::from_ipc_block`], it makes the decode of an encode provably
/// `Ok` with the same schema, metadata and contents.
pub proof fn lemma_store_round_trip(df: DataFrame)
    requires
        df.wf(),
        block_bounded(spec_block_of(df)),
    ensures
        spec_read_block(enc_block(spec_block_of(df))) matches Some((w, _)) && {
            &&& pairs_distinct(w.meta)
            &&& forall|i: int|
                0 <= i < w.fields.len() ==> pairs_distinct((#[trigger] w.fields[i]).metadata)
            &&& w.meta == df.spec_meta()
            &&& w.fields == df.spec_fields()
            &&& w.rows == df.spec_rows()
            &&& w.natives =~= df.spec_dtypes()
            &&& w.cols =~= df.spec_cols()
        },
{
    lemma_block_round_trip(spec_block_of(df));
    df.lemma_wf_metadata_distinct();
}

/// Extending an encoded prefix by one pair.
proof fn lemma_enc_pairs_take(s: Seq<(Seq<char>, Seq<char>)>, j: int)
    requires
        0 <= j < s.len(),
    ensures
        enc_pairs(s.take(j + 1)) == enc_pairs(s.take(j)) + enc_pair(s[j]),
    decreases j,
{
    if j == 0 {
        assert(s.take(1) =~= seq![s[0]]);
        assert(s.take(1).drop_first() =~= Seq::<(Seq<char>, Seq<char>)>::empty());
        assert(s.take(0) =~= Seq::<(Seq<char>, Seq<char>)>::empty());
        assert(enc_pairs(s.take(1)) =~= enc_pairs(s.take(0)) + enc_pair(s[0]));
    } else {
        let t = s.drop_first();
        lemma_enc_pairs_take(t, j - 1);
        assert(s.take(j + 1).drop_first() =~= t.take(j));
        assert(s.take(j + 1)[0] == s[0]);
        assert(s.take(j).drop_first() =~= t.take(j - 1));
        assert(s.take(j)[0] == s[0]);
        assert(t[j - 1] == s[j]);
        assert(enc_pairs(s.take(j + 1)) == enc_pair(s[0]) + (enc_pairs(t.take(j - 1)) + enc_pair(
            s[j],
        )));
        assert(enc_pair(s[0]) + (enc_pairs(t.take(j - 1)) + enc_pair(s[j])) =~= (enc_pair(s[0])
            + enc_pairs(t.take(j - 1))) + enc_pair(s[j]));
    }
}

/// Extending an encoded prefix by one field.
proof fn lemma_enc_fields_take(s: Seq<FieldV>, j: int)
    requires
        0 <= j < s.len(),
    ensures
        enc_fields(s.take(j + 1)) == enc_fields(s.take(j)) + enc_field(s[j]),
    decreases j,
{
    if j == 0 {
        assert(s.take(1) =~= seq![s[0]]);
        assert(s.take(1).drop_first() =~= Seq::<FieldV>::empty());
        assert(s.take(0) =~= Seq::<FieldV>::empty());
        assert(enc_fields(s.take(1)) =~= enc_fields(s.take(0)) + enc_field(s[0]));
    } else {
        let t = s.drop_first();
        lemma_enc_fields_take(t, j - 1);
        assert(s.take(j + 1).drop_first() =~= t.take(j));
        assert(s.take(j + 1)[0] == s[0]);
        assert(s.take(j).drop_first() =~= t.take(j - 1));
        assert(s.take(j)[0] == s[0]);
        assert(t[j - 1] == s[j]);
        assert(enc_fields(s.take(j + 1)) == enc_field(s[0]) + (enc_fields(t.take(j - 1))
            + enc_field(s[j])));
        assert(enc_field(s[0]) + (enc_fields(t.take(j - 1)) + enc_field(s[j])) =~= (enc_field(
            s[0],
        ) + enc_fields(t.take(j - 1))) + enc_field(s[j]));
    }
}

/// Extending an encoded prefix by one cell.
proof fn lemma_enc_cells_take(s: Seq<CellV>, j: int)
    requires
        0 <= j < s.len(),
    ensures
        enc_cells(s.take(j + 1)) == enc_cells(s.take(j)) + enc_cell(s[j]),
    decreases j,
{
    if j == 0 {
        assert(s.take(1) =~= seq![s[0]]);
        assert(s.take(1).drop_first() =~= Seq::<CellV>::empty());
        assert(s.take(0) =~= Seq::<CellV>::empty());
        assert(enc_cells(s.take(1)) =~= enc_cells(s.take(0)) + enc_cell(s[0]));
    } else {
        let t = s.drop_first();
        lemma_enc_cells_take(t, j - 1);
        assert(s.take(j + 1).drop_first() =~= t.take(j));
        assert(s.take(j + 1)[0] == s[0]);
        assert(s.take(j).drop_first() =~= t.take(j - 1));
        assert(s.take(j)[0] == s[0]);
        assert(t[j - 1] == s[j]);
        assert(enc_cells(s.take(j + 1)) == enc_cell(s[0]) + (enc_cells(t.take(j - 1)) + enc_cell(
            s[j],
        )));
        assert(enc_cell(s[0]) + (enc_cells(t.take(j - 1)) + enc_cell(s[j])) =~= (enc_cell(s[0])
            + enc_cells(t.take(j - 1))) + enc_cell(s[j]));
    }
}

/// Extending an encoded prefix by one column.
proof fn lemma_enc_cols_take(ns: Seq<DataTypeV>, cs: Seq<Seq<CellV>>, j: int)
    requires
        ns.len() == cs.len(),
        0 <= j < ns.len(),
    ensures
        enc_cols(ns.take(j + 1), cs.take(j + 1)) == enc_cols(ns.take(j), cs.take(j)) + enc_col(
            ns[j],
            cs[j],
        ),
    decreases j,
{
    if j == 0 {
        assert(ns.take(1) =~= seq![ns[0]]);
        assert(cs.take(1) =~= seq![cs[0]]);
        assert(ns.take(1).drop_first() =~= Seq::<DataTypeV>::empty());
        assert(cs.take(1).drop_first() =~= Seq::<Seq<CellV>>::empty());
        assert(ns.take(0) =~= Seq::<DataTypeV>::empty());
        assert(cs.take(0) =~= Seq::<Seq<CellV>>::empty());
        assert(enc_cols(ns.take(1), cs.take(1)) =~= enc_cols(ns.take(0), cs.take(0)) + enc_col(
            ns[0],
            cs[0],
        ));
    } else {
        let tn = ns.drop_first();
        let tc = cs.drop_first();
        lemma_enc_cols_take(tn, tc, j - 1);
        assert(ns.take(j + 1).drop_first() =~= tn.take(j));
        assert(cs.take(j + 1).drop_first() =~= tc.take(j));
        assert(ns.take(j + 1)[0] == ns[0]);
        assert(cs.take(j + 1)[0] == cs[0]);
        assert(ns.take(j).drop_first() =~= tn.take(j - 1));
        assert(cs.take(j).drop_first() =~= tc.take(j - 1));
        assert(ns.take(j)[0] == ns[0]);
        assert(cs.take(j)[0] == cs[0]);
        assert(tn[j - 1] == ns[j]);
        assert(tc[j - 1] == cs[j]);
        assert(enc_cols(ns.take(j + 1), cs.take(j + 1)) == enc_col(ns[0], cs[0]) + (enc_cols(
            tn.take(j - 1),
            tc.take(j - 1),
        ) + enc_col(ns[j], cs[j])));
        assert(enc_col(ns[0], cs[0]) + (enc_cols(tn.take(j - 1), tc.take(j - 1)) + enc_col(
            ns[j],
            cs[j],
        )) =~= (enc_col(ns[0], cs[0]) + enc_cols(tn.take(j - 1), tc.take(j - 1))) + enc_col(
            ns[j],
            cs[j],
        ));
    }
}

/// Append one logical type.
fn write_dtype(out: &mut Vec<u8>, dt: &DataType)
    ensures
        final(out)@ =~= old(out)@ + enc_dtype(dt@),
        dtype_bounded(dt@),
{
    match dt {
        DataType::Boolean => out.push(0),
        DataType::Int8 => out.push(1),
        DataType::Int16 => out.push(2),
        DataType::Int32 => out.push(3),
        DataType::Int64 => out.push(4),
        DataType::UInt8 => out.push(5),
        DataType::UInt16 => out.push(6),
        DataType::UInt32 => out.push(7),
        DataType::UInt64 => out.push(8),
        DataType::Float32 => out.push(9),
        DataType::Float64 => out.push(10),
        DataType::Utf8 => out.push(11),
        DataType::LargeUtf8 => out.push(12),
        DataType::Timestamp(u, tz) => {
            out.push(13);
            match u {
                TimeUnit::Second => out.push(0),
                TimeUnit::Millisecond => out.push(1),
                TimeUnit::Microsecond => out.push(2),
                TimeUnit::Nanosecond => out.push(3),
            }
            match tz {
                None => out.push(0),
                Some(z) => {
                    out.push(1);
                    write_str(out, z.as_str());
                },
            }
        },
    }
}

/// Append one cell.
fn write_cell(out: &mut Vec<u8>, cell: &Cell)
    ensures
        final(out)@ =~= old(out)@ + enc_cell(cell@),
        cell_bounded(cell@),
{
    match cell {
        Cell::Null => out.push(0),
        Cell::Bool(x) => {
            out.push(1);
            out.push(
                if *x {
                    1
                } else {
                    0
                },
            );
        },
        Cell::I8(x) => {
            out.push(1);
            write_u64(out, *x as u64);
        },
        Cell::I16(x) => {
            out.push(1);
            write_u64(out, *x as u64);
        },
        Cell::I32(x) => {
            out.push(1);
            write_u64(out, *x as u64);
        },
        Cell::I64(x) => {
            out.push(1);
            write_u64(out, *x as u64);
        },
        Cell::U8(x) => {
            out.push(1);
            write_u64(out, *x as u64);
        },
        Cell::U16(x) => {
            out.push(1);
            write_u64(out, *x as u64);
        },
        Cell::U32(x) => {
            out.push(1);
            write_u64(out, *x as u64);
        },
        Cell::U64(x) => {
            out.push(1);
            write_u64(out, *x);
        },
        Cell::F32Bits(x) => {
            out.push(1);
            write_u64(out, *x as u64);
        },
        Cell::F64Bits(x) => {
            out.push(1);
            write_u64(out, *x);
        },
        Cell::Str(s) => {
            out.push(1);
            write_str(out, s.as_str());
        },
    }
}

/// Append string pairs.
fn write_pairs(out: &mut Vec<u8>, pairs: &Vec<(String, String)>)
    ensures
        final(out)@ =~= old(out)@ + enc_pairs(
            pairs@.map(|i: int, e: (String, String)| (e.0@, e.1@)),
        ),
        pairs_bounded(pairs@.map(|i: int, e: (String, String)| (e.0@, e.1@))),
{
    let ghost ps = pairs@.map(|i: int, e: (String, String)| (e.0@, e.1@));
    let n = pairs.len();
    let mut i: usize = 0;
    proof {
        assert(ps.take(0) =~= Seq::<(Seq<char>, Seq<char>)>::empty());
        assert(out@ =~= old(out)@ + enc_pairs(ps.take(0)));
    }
    while i < n
        invariant
            ps == pairs@.map(|q: int, e: (String, String)| (e.0@, e.1@)),
            n == pairs@.len(),
            i <= n,
            out@ == old(out)@ + enc_pairs(ps.take(i as int)),
            forall|j: int|
                0 <= j < i ==> encode_utf8((#[trigger] ps[j]).0).len() <= u64::MAX && encode_utf8(
                    ps[j].1,
                ).len() <= u64::MAX,
        decreases n - i,
    {
        write_str(out, pairs[i].0.as_str());
        write_str(out, pairs[i].1.as_str());
        proof {
            lemma_enc_pairs_take(ps, i as int);
            assert(enc_pair(ps[i as int]) == enc_str(ps[i as int].0) + enc_str(ps[i as int].1));
            assert(out@ =~= old(out)@ + enc_pairs(ps.take(i + 1)));
        }
        i += 1;
    }
    proof {
        assert(ps.take(n as int) =~= ps);
    }
}


/// The mathematical content of a store's exchange block.
pub open spec fn spec_block_of(df: DataFrame) -> BlockV {
    BlockV {
        meta: df.spec_meta(),
        fields: df.spec_fields(),
        rows: df.spec_rows(),
        natives: df.spec_dtypes(),
        cols: df.spec_cols(),
    }
}

impl DataFrame {
    /// Split the store into its schema and a bundle of its columns.
    pub fn into_ipc_parts(self) -> (r: (Schema, Chunk))
        ensures
            r.0.fields@.map(|i: int, f: Field| f@) == self.spec_fields(),
            r.0.metadata@ == self.spec_meta(),
            r.1.arrays@.map(|i: int, s: Series| s@) == self.spec_cols(),
    {
        let (fields, data, metadata) = self.into_parts();
        (Schema { fields, metadata }, Chunk { arrays: data })
    }

    /// Rebuild a store from a bundle of columns and a schema.
    pub fn from_chunk(chunk: Chunk, schema: &Schema) -> (r: Result<DataFrame, Error>)
        requires
            forall|i: int| 0 <= i < schema.fields@.len() ==> (#[trigger] schema.fields@[i]).wf(),
            forall|i: int| 0 <= i < chunk.arrays@.len() ==> (#[trigger] chunk.arrays@[i]).wf(),
            schema.metadata.wf(),
        ensures
            match r {
                Ok(df) => {
                    &&& df.wf()
                    &&& df.spec_fields() == schema.fields@.map(|i: int, f: Field| f@)
                    &&& df.spec_cols() == chunk.arrays@.map(|i: int, s: Series| s@)
                    &&& df.spec_meta() == schema.metadata@
                },
                Err(e) => {
                    &&& (e == Error::RowsNotMatch || e == Error::ColsNotMatch)
                    &&& (e == Error::RowsNotMatch ==> exists|i: int|
                        0 <= i < chunk.arrays@.len() && (#[trigger] chunk.arrays@[i])@.len()
                            != chunk.arrays@[0]@.len())
                    &&& (e == Error::ColsNotMatch ==> schema.fields@.len() != chunk.arrays@.len())
                },
            },
    {
        let mut fields: Vec<Field> = Vec::new();
        let n = schema.fields.len();
        let mut i: usize = 0;
        while i < n
            invariant
                n == schema.fields@.len(),
                forall|q: int| 0 <= q < n ==> (#[trigger] schema.fields@[q]).wf(),
                i <= n,
                fields@.len() == i,
                forall|q: int| 0 <= q < i ==> (#[trigger] fields@[q])@ == schema.fields@[q]@,
                forall|q: int| 0 <= q < i ==> (#[trigger] fields@[q]).wf(),
            decreases n - i,
        {
            fields.push(schema.fields[i].duplicate());
            i += 1;
        }
        proof {
            assert(fields@.map(|q: int, f: Field| f@) =~= schema.fields@.map(
                |q: int, f: Field| f@,
            ));
        }
        DataFrame::from_parts(fields, chunk.into_arrays(), Some(schema.metadata.duplicate()))
    }

    /// Encode the store as a self-describing exchange block.
    pub fn into_ipc_block(self) -> (r: Result<Vec<u8>, Error>)
        requires
            self.wf(),
        ensures
            r matches Ok(bytes) && bytes@ == enc_block(spec_block_of(self)) && block_bounded(
                spec_block_of(self),
            ),
    {
        proof {
            self.lemma_rectangular();
        }
        let mut out: Vec<u8> = Vec::new();
        // Store-level metadata.
        let meta_pairs = self.metadata().pairs();
        write_u64(&mut out, meta_pairs.len() as u64);
        write_pairs(&mut out, meta_pairs);
        proof {
            assert(out@ =~= enc_u64(self.spec_meta().len() as u64) + enc_pairs(self.spec_meta()));
        }
        let ghost base1 = out@;
        // Schema.
        let fs = self.fields();
        write_u64(&mut out, fs.len() as u64);
        let ghost base2 = out@;
        let fcount = fs.len();
        let mut j: usize = 0;
        proof {
            assert(self.spec_fields().take(0) =~= Seq::<FieldV>::empty());
            assert(out@ =~= base2 + enc_fields(self.spec_fields().take(0)));
        }
        while j < fcount
            invariant
                self.wf(),
                fcount == self.spec_fields().len(),
                fs@.map(|q: int, f: Field| f@) == self.spec_fields(),
                fs@.len() == fcount,
                forall|q: int| 0 <= q < fcount ==> (#[trigger] fs@[q]).wf(),
                j <= fcount,
                out@ == base2 + enc_fields(self.spec_fields().take(j as int)),
                forall|q: int|
                    0 <= q < j ==> encode_utf8((#[trigger] self.spec_fields()[q]).name).len()
                        <= u64::MAX && dtype_bounded(self.spec_fields()[q].data_type)
                        && pairs_bounded(self.spec_fields()[q].metadata)
                        && self.spec_fields()[q].metadata.len() <= u64::MAX,
            decreases fcount - j,
        {
            let ghost before = out@;
            let f = &fs[j];
            proof {
                assert(f@ == self.spec_fields()[j as int]);
            }
            write_str(&mut out, f.name.as_str());
            write_dtype(&mut out, &f.data_type);
            let fm = f.metadata.pairs();
            write_u64(&mut out, fm.len() as u64);
            write_pairs(&mut out, fm);
            proof {
                assert(fm@.map(|q: int, e: (String, String)| (e.0@, e.1@)) == self.spec_fields()[
                    j as int
                ].metadata);
                assert(self.spec_fields()[j as int].metadata.len() <= u64::MAX);
                lemma_enc_fields_take(self.spec_fields(), j as int);
                assert(out@ =~= before + enc_field(self.spec_fields()[j as int]));
                assert(out@ =~= base2 + enc_fields(self.spec_fields().take(j + 1)));
            }
            j += 1;
        }
        proof {
            assert(self.spec_fields().take(fcount as int) =~= self.spec_fields());
        }
        let ghost base3 = out@;
        // Row count.
        let rows = match self.rows() {
            Some(rr) => rr,
            None => 0,
        };
        write_u64(&mut out, rows as u64);
        let ghost base4 = out@;
        // Columns.
        let arrays = self.data();
        let ccount = arrays.len();
        let mut k: usize = 0;
        proof {
            assert(self.spec_dtypes().take(0) =~= Seq::<DataTypeV>::empty());
            assert(self.spec_cols().take(0) =~= Seq::<Seq<CellV>>::empty());
            assert(out@ =~= base4 + enc_cols(
                self.spec_dtypes().take(0),
                self.spec_cols().take(0),
            ));
        }
        while k < ccount
            invariant
                self.wf(),
                ccount == self.spec_cols().len(),
                ccount == self.spec_dtypes().len(),
                arrays@.map(|q: int, s: Series| s@) == self.spec_cols(),
                arrays@.map(|q: int, s: Series| s.spec_dtype()) == self.spec_dtypes(),
                arrays@.len() == ccount,
                forall|q: int| 0 <= q < ccount ==> (#[trigger] arrays@[q]).wf(),
                forall|q: int|
                    0 <= q < ccount ==> (#[trigger] self.spec_cols()[q]).len()
                        == self.spec_rows(),
                k <= ccount,
                out@ == base4 + enc_cols(
                    self.spec_dtypes().take(k as int),
                    self.spec_cols().take(k as int),
                ),
                forall|q: int| 0 <= q < k ==> dtype_bounded(#[trigger] self.spec_dtypes()[q]),
                forall|q: int, t: int|
                    0 <= q < k && 0 <= t < self.spec_rows() ==> cell_bounded(
                        #[trigger] self.spec_cols()[q][t],
                    ),
            decreases ccount - k,
        {
            let ghost before = out@;
            let s = &arrays[k];
            proof {
                assert(s@ == self.spec_cols()[k as int]);
                assert(s.spec_dtype() == self.spec_dtypes()[k as int]);
                assert(s@.len() == self.spec_rows());
            }
            write_dtype(&mut out, s.data_type());
            let slen = s.len();
            let mut t: usize = 0;
            proof {
                assert(s@.take(0) =~= Seq::<CellV>::empty());
                assert(out@ =~= before + enc_dtype(s.spec_dtype()) + enc_cells(s@.take(0)));
            }
            while t < slen
                invariant
                    slen == s@.len(),
                    t <= slen,
                    out@ == before + enc_dtype(s.spec_dtype()) + enc_cells(s@.take(t as int)),
                    forall|q: int| 0 <= q < t ==> cell_bounded(#[trigger] s@[q]),
                decreases slen - t,
            {
                write_cell(&mut out, s.get(t));
                proof {
                    lemma_enc_cells_take(s@, t as int);
                    assert(out@ =~= before + enc_dtype(s.spec_dtype()) + enc_cells(
                        s@.take(t + 1),
                    ));
                }
                t += 1;
            }
            proof {
                assert(s@.take(slen as int) =~= s@);
                lemma_enc_cols_take(self.spec_dtypes(), self.spec_cols(), k as int);
                assert(enc_col(self.spec_dtypes()[k as int], self.spec_cols()[k as int])
                    == enc_dtype(s.spec_dtype()) + enc_cells(s@));
                assert(out@ =~= base4 + enc_cols(
                    self.spec_dtypes().take(k + 1),
                    self.spec_cols().take(k + 1),
                ));
            }
            k += 1;
        }
        proof {
            assert(self.spec_dtypes().take(ccount as int) =~= self.spec_dtypes());
            assert(self.spec_cols().take(ccount as int) =~= self.spec_cols());
            assert(out@ =~= enc_block(spec_block_of(self)));
            assert forall|q: int, t: int|
                0 <= q < self.spec_cols().len() && 0 <= t < self.spec_rows() implies
                crate::series::cell_ok(
                self.spec_dtypes()[q],
                #[trigger] self.spec_cols()[q][t],
            ) by {
                assert(arrays@[q].wf());
                assert(arrays@[q]@ == self.spec_cols()[q]);
                assert(crate::series::cell_ok(arrays@[q].spec_dtype(), arrays@[q]@[t]));
            }
            assert(block_bounded(spec_block_of(self)));
        }
        Ok(out)
    }
}


/// Read one logical type.
fn read_dtype(b: &Vec<u8>, pos: usize) -> (r: Result<(DataType, usize), Error>)
    requires
        pos <= b@.len(),
    ensures
        match r {
            Ok((dt, p)) => spec_read_dtype(b@, pos as int) == Some((dt@, p as int)) && pos < p
                <= b@.len(),
            Err(e) => spec_read_dtype(b@, pos as int) is None && e matches Error::Other(_),
        },
{
    let (tag, p) = read_u8(b, pos)?;
    if tag == 0 {
        Ok((DataType::Boolean, p))
    } else if tag == 1 {
        Ok((DataType::Int8, p))
    } else if tag == 2 {
        Ok((DataType::Int16, p))
    } else if tag == 3 {
        Ok((DataType::Int32, p))
    } else if tag == 4 {
        Ok((DataType::Int64, p))
    } else if tag == 5 {
        Ok((DataType::UInt8, p))
    } else if tag == 6 {
        Ok((DataType::UInt16, p))
    } else if tag == 7 {
        Ok((DataType::UInt32, p))
    } else if tag == 8 {
        Ok((DataType::UInt64, p))
    } else if tag == 9 {
        Ok((DataType::Float32, p))
    } else if tag == 10 {
        Ok((DataType::Float64, p))
    } else if tag == 11 {
        Ok((DataType::Utf8, p))
    } else if tag == 12 {
        Ok((DataType::LargeUtf8, p))
    } else if tag == 13 {
        let (ub, p2) = read_u8(b, p)?;
        if ub > 3 {
            return Err(Error::Other(String::from_str("malformed exchange block")));
        }
        let unit = if ub == 0 {
            TimeUnit::Second
        } else if ub == 1 {
            TimeUnit::Millisecond
        } else if ub == 2 {
            TimeUnit::Microsecond
        } else {
            TimeUnit::Nanosecond
        };
        let (flag, p3) = read_u8(b, p2)?;
        if flag == 0 {
            Ok((DataType::Timestamp(unit, None), p3))
        } else if flag == 1 {
            let (z, p4) = read_str(b, p3)?;
            Ok((DataType::Timestamp(unit, Some(z)), p4))
        } else {
            Err(Error::Other(String::from_str("malformed exchange block")))
        }
    } else {
        Err(Error::Other(String::from_str("malformed exchange block")))
    }
}

/// Read one cell of a column with storage kind `code`.
fn read_cell(b: &Vec<u8>, pos: usize, code: u8) -> (r: Result<(Cell, usize), Error>)
    requires
        pos <= b@.len(),
    ensures
        match r {
            Ok((c, p)) => spec_read_cell(b@, pos as int, code) == Some((c@, p as int)) && pos < p
                <= b@.len() && crate::series::cell_code_matches(code, c@),
            Err(e) => spec_read_cell(b@, pos as int, code) is None && e matches Error::Other(_),
        },
{
    let (tag, p) = read_u8(b, pos)?;
    if tag == 0 {
        Ok((Cell::Null, p))
    } else if tag == 1 {
        if code == 0 {
            let (x, p2) = read_u8(b, p)?;
            if x == 0 {
                Ok((Cell::Bool(false), p2))
            } else if x == 1 {
                Ok((Cell::Bool(true), p2))
            } else {
                Err(Error::Other(String::from_str("malformed exchange block")))
            }
        } else if code == 11 {
            let (s, p2) = read_str(b, p)?;
            Ok((Cell::Str(s), p2))
        } else if code <= 10 {
            let (x, p2) = read_u64(b, p)?;
            let c = if code == 1 {
                Cell::I8(x as i8)
            } else if code == 2 {
                Cell::I16(x as i16)
            } else if code == 3 {
                Cell::I32(x as i32)
            } else if code == 4 {
                Cell::I64(x as i64)
            } else if code == 5 {
                Cell::U8(x as u8)
            } else if code == 6 {
                Cell::U16(x as u16)
            } else if code == 7 {
                Cell::U32(x as u32)
            } else if code == 8 {
                Cell::U64(x)
            } else if code == 9 {
                Cell::F32Bits(x as u32)
            } else {
                Cell::F64Bits(x)
            };
            Ok((c, p2))
        } else {
            Err(Error::Other(String::from_str("malformed exchange block")))
        }
    } else {
        Err(Error::Other(String::from_str("malformed exchange block")))
    }
}

/// Read a run of cells.
fn read_cells(b: &Vec<u8>, pos: usize, code: u8, n: u64) -> (r: Result<(Vec<Cell>, usize), Error>)
    requires
        pos <= b@.len(),
    ensures
        match r {
            Ok((cs, p)) => {
                &&& spec_read_cells(b@, pos as int, code, n as int) == Some(
                    (cs@.map(|i: int, c: Cell| c@), p as int),
                )
                &&& cs@.len() == n
                &&& pos <= p <= b@.len()
                &&& forall|i: int|
                    0 <= i < cs@.len() ==> crate::series::cell_code_matches(
                        code,
                        (#[trigger] cs@[i])@,
                    )
            },
            Err(e) => spec_read_cells(b@, pos as int, code, n as int) is None && e matches Error::Other(
                _,
            ),
        },
{
    let mut out: Vec<Cell> = Vec::new();
    let mut cur = pos;
    let mut remaining = n;
    proof {
        assert(out@.map(|i: int, c: Cell| c@) =~= Seq::<CellV>::empty());
    }
    while remaining > 0
        invariant
            pos <= cur <= b@.len(),
            remaining <= n,
            out@.len() == n - remaining,
            forall|i: int|
                0 <= i < out@.len() ==> crate::series::cell_code_matches(
                    code,
                    (#[trigger] out@[i])@,
                ),
            ({
                let rest = spec_read_cells(b@, cur as int, code, remaining as int);
                match rest {
                    None => spec_read_cells(b@, pos as int, code, n as int) is None,
                    Some(tp) => spec_read_cells(b@, pos as int, code, n as int) == Some(
                        (out@.map(|i: int, c: Cell| c@) + tp.0, tp.1),
                    ),
                }
            }),
        decreases remaining,
    {
        let ghost outb = out@.map(|i: int, c: Cell| c@);
        let cr = read_cell(b, cur, code);
        match cr {
            Ok((c, p2)) => {
                let ghost cv = c@;
                out.push(c);
                proof {
                    assert(out@.map(|i: int, c: Cell| c@) =~= outb.push(cv));
                    let rest2 = spec_read_cells(b@, p2 as int, code, remaining as int - 1);
                    match rest2 {
                        None => {},
                        Some(tp) => {
                            assert(outb + (seq![cv] + tp.0) =~= outb.push(cv) + tp.0);
                        },
                    }
                }
                cur = p2;
                remaining = remaining - 1;
            },
            Err(e) => {
                return Err(e);
            },
        }
    }
    proof {
        assert(out@.map(|i: int, c: Cell| c@) + Seq::<CellV>::empty() =~= out@.map(
            |i: int, c: Cell| c@,
        ));
    }
    Ok((out, cur))
}

/// Read a run of string pairs.
fn read_pairs(b: &Vec<u8>, pos: usize, n: u64) -> (r: Result<
    (Vec<(String, String)>, usize),
    Error,
>)
    requires
        pos <= b@.len(),
    ensures
        match r {
            Ok((ps, p)) => spec_read_pairs(b@, pos as int, n as int) == Some(
                (ps@.map(|i: int, e: (String, String)| (e.0@, e.1@)), p as int),
            ) && ps@.len() == n && pos <= p <= b@.len(),
            Err(e) => spec_read_pairs(b@, pos as int, n as int) is None && e matches Error::Other(
                _,
            ),
        },
{
    let mut out: Vec<(String, String)> = Vec::new();
    let mut cur = pos;
    let mut remaining = n;
    proof {
        assert(out@.map(|i: int, e: (String, String)| (e.0@, e.1@)) =~= Seq::<
            (Seq<char>, Seq<char>),
        >::empty());
    }
    while remaining > 0
        invariant
            pos <= cur <= b@.len(),
            remaining <= n,
            out@.len() == n - remaining,
            ({
                let rest = spec_read_pairs(b@, cur as int, remaining as int);
                match rest {
                    None => spec_read_pairs(b@, pos as int, n as int) is None,
                    Some(tp) => spec_read_pairs(b@, pos as int, n as int) == Some(
                        (out@.map(|i: int, e: (String, String)| (e.0@, e.1@)) + tp.0, tp.1),
                    ),
                }
            }),
        decreases remaining,
    {
        let ghost outb = out@.map(|i: int, e: (String, String)| (e.0@, e.1@));
        let kk = match read_str(b, cur) {
            Ok(kp) => kp,
            Err(e) => {
                return Err(e);
            },
        };
        let (ks, p1) = kk;
        let vv = match read_str(b, p1) {
            Ok(vp) => vp,
            Err(e) => {
                return Err(e);
            },
        };
        let (vs, p2) = vv;
        let ghost pv = (ks@, vs@);
        out.push((ks, vs));
        proof {
            assert(out@.map(|i: int, e: (String, String)| (e.0@, e.1@)) =~= outb.push(pv));
            assert(spec_read_pair(b@, cur as int) == Some((pv, p2 as int)));
            let rest2 = spec_read_pairs(b@, p2 as int, remaining as int - 1);
            match rest2 {
                None => {},
                Some(tp) => {
                    assert(outb + (seq![pv] + tp.0) =~= outb.push(pv) + tp.0);
                },
            }
        }
        cur = p2;
        remaining = remaining - 1;
    }
    proof {
        assert(out@.map(|i: int, e: (String, String)| (e.0@, e.1@)) + Seq::<
            (Seq<char>, Seq<char>),
        >::empty() =~= out@.map(|i: int, e: (String, String)| (e.0@, e.1@)));
    }
    Ok((out, cur))
}


/// Read a run of fields, rebuilding their metadata maps.
fn read_fields(b: &Vec<u8>, pos: usize, n: u64) -> (r: Result<(Vec<Field>, usize), Error>)
    requires
        pos <= b@.len(),
    ensures
        match r {
            Ok((fs, p)) => {
                &&& spec_read_fields(b@, pos as int, n as int) == Some(
                    (fs@.map(|i: int, f: Field| f@), p as int),
                )
                &&& fs@.len() == n
                &&& pos <= p <= b@.len()
                &&& forall|i: int| 0 <= i < fs@.len() ==> (#[trigger] fs@[i]).wf()
            },
            Err(e) => {
                &&& e matches Error::Other(_)
                &&& !(spec_read_fields(b@, pos as int, n as int) matches Some((fsv, _))
                    && (forall|i: int|
                    0 <= i < fsv.len() ==> pairs_distinct((#[trigger] fsv[i]).metadata)))
            },
        },
{
    let mut out: Vec<Field> = Vec::new();
    let mut cur = pos;
    let mut remaining = n;
    proof {
        assert(out@.map(|i: int, f: Field| f@) =~= Seq::<FieldV>::empty());
    }
    while remaining > 0
        invariant
            pos <= cur <= b@.len(),
            remaining <= n,
            out@.len() == n - remaining,
            forall|i: int| 0 <= i < out@.len() ==> (#[trigger] out@[i]).wf(),
            ({
                let rest = spec_read_fields(b@, cur as int, remaining as int);
                match rest {
                    None => spec_read_fields(b@, pos as int, n as int) is None,
                    Some(tp) => spec_read_fields(b@, pos as int, n as int) == Some(
                        (out@.map(|i: int, f: Field| f@) + tp.0, tp.1),
                    ),
                }
            }),
        decreases remaining,
    {
        let ghost outb = out@.map(|i: int, f: Field| f@);
        let nm = match read_str(b, cur) {
            Ok(x) => x,
            Err(e) => {
                return Err(e);
            },
        };
        let (name, p1) = nm;
        let dt = match read_dtype(b, p1) {
            Ok(x) => x,
            Err(e) => {
                return Err(e);
            },
        };
        let (data_type, p2) = dt;
        let mc = match read_u64(b, p2) {
            Ok(x) => x,
            Err(e) => {
                return Err(e);
            },
        };
        let (m, p3) = mc;
        let pr = match read_pairs(b, p3, m) {
            Ok(x) => x,
            Err(e) => {
                return Err(e);
            },
        };
        let (fpairs, p4) = pr;
        let ghost fpv = fpairs@.map(|i: int, e: (String, String)| (e.0@, e.1@));
        let ghost fv = FieldV { name: name@, data_type: data_type@, metadata: fpv };
        proof {
            assert(spec_read_field(b@, cur as int) == Some((fv, p4 as int)));
        }
        let fmeta = match Metadata::from_pairs(fpairs) {
            Ok(x) => x,
            Err(e) => {
                proof {
                    assert(!pairs_distinct(fpv)) by {
                        let (di, dj) = choose|di: int, dj: int|
                            0 <= di < dj < fpv.len() && fpairs@[di].0@ == fpairs@[dj].0@;
                        assert(fpv[di].0 == fpv[dj].0);
                    }
                    assert(!(spec_read_fields(b@, pos as int, n as int) matches Some((fsv, _))
                        && (forall|i: int|
                        0 <= i < fsv.len() ==> pairs_distinct(
                            (#[trigger] fsv[i]).metadata,
                        )))) by {
                        let total = spec_read_fields(b@, pos as int, n as int);
                        let rest = spec_read_fields(b@, cur as int, remaining as int);
                        if total is Some {
                            assert(rest is Some);
                            let tail = rest.unwrap().0;
                            let rest2 = spec_read_fields(
                                b@,
                                p4 as int,
                                remaining as int - 1,
                            );
                            assert(rest2 is Some);
                            assert(tail == seq![fv] + rest2.unwrap().0);
                            assert(tail[0] == fv);
                            let whole = total.unwrap().0;
                            assert(whole == outb + tail);
                            assert(whole[outb.len() as int] == fv);
                            assert(!pairs_distinct(whole[outb.len() as int].metadata));
                        }
                    }
                }
                return Err(Error::Other(String::from_str("duplicate metadata key")));
            },
        };
        let fld = Field { name, data_type, metadata: fmeta };
        proof {
            assert(fld@ == fv);
        }
        out.push(fld);
        proof {
            assert(out@.map(|i: int, f: Field| f@) =~= outb.push(fv));
            let rest2 = spec_read_fields(b@, p4 as int, remaining as int - 1);
            match rest2 {
                None => {},
                Some(tp) => {
                    assert(outb + (seq![fv] + tp.0) =~= outb.push(fv) + tp.0);
                },
            }
        }
        cur = p4;
        remaining = remaining - 1;
    }
    proof {
        assert(out@.map(|i: int, f: Field| f@) + Seq::<FieldV>::empty() =~= out@.map(
            |i: int, f: Field| f@,
        ));
    }
    Ok((out, cur))
}


/// Read one column: its native type and its cells, as a ready column.
fn read_one_col(b: &Vec<u8>, pos: usize, rows: u64) -> (r: Result<(Series, usize), Error>)
    requires
        pos <= b@.len(),
    ensures
        match r {
            Ok((s, p)) => {
                &&& spec_read_col(b@, pos as int, rows as int) == Some(
                    ((s.spec_dtype(), s@), p as int),
                )
                &&& s.wf()
                &&& s@.len() == rows
                &&& pos < p <= b@.len()
            },
            Err(e) => spec_read_col(b@, pos as int, rows as int) is None && e matches Error::Other(
                _,
            ),
        },
{
    let (native, pa) = read_dtype(b, pos)?;
    let code = native.storage_code();
    let cc = match read_cells(b, pa, code, rows) {
        Ok(x) => x,
        Err(e) => {
            return Err(e);
        },
    };
    let (cells, pb) = cc;
    let ghost cvs = cells@.map(|i: int, c: Cell| c@);
    let series = match Series::new(native, cells) {
        Ok(s) => s,
        Err(_) => {
            proof {
                assert(false);
            }
            return Err(Error::Other(String::from_str("malformed exchange block")));
        },
    };
    Ok((series, pb))
}

impl DataFrame {
    /// Decode a store from an exchange block: the exact inverse of
    /// [`DataFrame::into_ipc_block`]. Fails exactly when the bytes do not
    /// parse as a block or a decoded metadata map repeats a key.
    #[verifier::rlimit(100)]
    pub fn from_ipc_block(block: &Vec<u8>) -> (r: Result<DataFrame, Error>)
        ensures
            match r {
                Ok(df) => {
                    &&& df.wf()
                    &&& spec_read_block(block@) matches Some((w, _)) && {
                        &&& pairs_distinct(w.meta)
                        &&& forall|i: int|
                            0 <= i < w.fields.len() ==> pairs_distinct(
                                (#[trigger] w.fields[i]).metadata,
                            )
                        &&& df.spec_meta() == w.meta
                        &&& df.spec_fields() == w.fields
                        &&& df.spec_dtypes() =~= w.natives
                        &&& df.spec_cols() =~= w.cols
                        &&& (w.fields.len() > 0 ==> df.spec_rows() == w.rows)
                    }
                },
                Err(e) => !(spec_read_block(block@) matches Some((w, _)) && pairs_distinct(w.meta)
                    && (forall|i: int|
                    0 <= i < w.fields.len() ==> pairs_distinct(
                        (#[trigger] w.fields[i]).metadata,
                    ))),
            },
    {
        let (m, p1) = read_u64(block, 0)?;
        let mp = match read_pairs(block, p1, m) {
            Ok(x) => x,
            Err(e) => {
                return Err(e);
            },
        };
        let (mpairs, p2) = mp;
        let ghost mpv = mpairs@.map(|i: int, e: (String, String)| (e.0@, e.1@));
        let meta = match Metadata::from_pairs(mpairs) {
            Ok(x) => x,
            Err(e) => {
                proof {
                    assert(!pairs_distinct(mpv)) by {
                        let (di, dj) = choose|di: int, dj: int|
                            0 <= di < dj < mpv.len() && mpairs@[di].0@ == mpairs@[dj].0@;
                        assert(mpv[di].0 == mpv[dj].0);
                    }
                }
                return Err(e);
            },
        };
        let (fcount, p3) = read_u64(block, p2)?;
        let ff = match read_fields(block, p3, fcount) {
            Ok(x) => x,
            Err(e) => {
                proof {
                    if spec_read_block(block@) is Some {
                        let w = spec_read_block(block@).unwrap().0;
                        if pairs_distinct(w.meta) && (forall|i: int|
                            0 <= i < w.fields.len() ==> pairs_distinct(
                                (#[trigger] w.fields[i]).metadata,
                            )) {
                            assert(spec_read_fields(block@, p3 as int, fcount as int)
                                matches Some((fsv, _)) && fsv == w.fields);
                            assert(false);
                        }
                    }
                }
                return Err(e);
            },
        };
        let (fields, p4) = ff;
        let ghost gfieldsv = fields@.map(|i: int, f: Field| f@);
        let (rows, p5) = read_u64(block, p4)?;
        // Columns.
        let mut data: Vec<Series> = Vec::new();
        let ghost gparsed: Seq<(DataTypeV, Seq<CellV>)> = Seq::empty();
        let mut parsed_len: usize = 0;
        let mut cur = p5;
        let mut remaining = fcount;
        let ghost mut parsed = gparsed;
        proof {
            assert(parsed =~= Seq::<(DataTypeV, Seq<CellV>)>::empty());
        }
        while remaining > 0
            invariant
                p5 <= cur <= block@.len(),
                remaining <= fcount,
                data@.len() == fcount - remaining,
                parsed.len() == data@.len(),
                spec_read_u64(block@, 0) == Some((m, p1 as int)),
                spec_read_pairs(block@, p1 as int, m as int) == Some((mpv, p2 as int)),
                spec_read_u64(block@, p2 as int) == Some((fcount, p3 as int)),
                spec_read_fields(block@, p3 as int, fcount as int) == Some(
                    (gfieldsv, p4 as int),
                ),
                spec_read_u64(block@, p4 as int) == Some((rows, p5 as int)),
                forall|i: int|
                    0 <= i < data@.len() ==> (#[trigger] data@[i]).wf() && data@[i]@ == parsed[
                        i
                    ].1 && data@[i].spec_dtype() == parsed[i].0,
                forall|i: int| 0 <= i < parsed.len() ==> (#[trigger] parsed[i]).1.len() == rows,
                ({
                    let rest = spec_read_cols(
                        block@,
                        cur as int,
                        rows as int,
                        remaining as int,
                    );
                    match rest {
                        None => spec_read_cols(block@, p5 as int, rows as int, fcount as int)
                            is None,
                        Some(tp) => spec_read_cols(block@, p5 as int, rows as int, fcount as int)
                            == Some((parsed + tp.0, tp.1)),
                    }
                }),
            decreases remaining,
        {
            let ghost parsedb = parsed;
            let oc = match read_one_col(block, cur, rows) {
                Ok(x) => x,
                Err(e) => {
                    return Err(e);
                },
            };
            let (series, pb) = oc;
            let ghost cvs = series@;
            data.push(series);
            proof {
                parsed = parsedb.push((series.spec_dtype(), cvs));
                let rest2 = spec_read_cols(block@, pb as int, rows as int, remaining as int - 1);
                match rest2 {
                    None => {},
                    Some(tp) => {
                        assert(parsedb + (seq![(series.spec_dtype(), cvs)] + tp.0) =~= parsed
                            + tp.0);
                    },
                }
            }
            cur = pb;
            remaining = remaining - 1;
        }
        proof {
            assert(parsed + Seq::<(DataTypeV, Seq<CellV>)>::empty() =~= parsed);
        }
        let ghost gdata = data@;
        let built = DataFrame::from_parts(fields, data, Some(meta));
        match built {
            Ok(df) => {
                proof {
                    assert(spec_read_cols(block@, p5 as int, rows as int, fcount as int) == Some(
                        (parsed, cur as int),
                    ));
                    assert(spec_read_block(block@) is Some);
                    let w = spec_read_block(block@).unwrap().0;
                    assert(w.meta == mpv);
                    assert(w.fields == gfieldsv);
                    assert(w.rows == rows as nat);
                    df.lemma_rectangular();
                    assert forall|i: int| 0 <= i < w.natives.len() implies #[trigger] w.natives[i]
                        == df.spec_dtypes()[i] by {
                        assert(w.natives[i] == parsed[i].0);
                        assert(df.spec_dtypes()[i] == gdata[i].spec_dtype());
                    }
                    assert forall|i: int| 0 <= i < w.cols.len() implies #[trigger] w.cols[i]
                        == df.spec_cols()[i] by {
                        assert(w.cols[i] == parsed[i].1);
                        assert(df.spec_cols()[i] == gdata[i]@);
                    }
                    assert(df.spec_dtypes() =~= w.natives);
                    assert(df.spec_cols() =~= w.cols);
                }
                Ok(df)
            },
            Err(_) => {
                proof {
                    assert(false);
                }
                Err(Error::RowsNotMatch)
            },
        }
    }
}

} // verus!
