//! The closed scalar-type vocabulary and the column container.
//!
//! A column ("series") is a uniform vector of value-or-null cells together
//! with its native data type; every cell is known to match that type.

use vstd::prelude::*;
use crate::Error;

verus! {

/// Resolution of a timestamp value.
#[derive(Clone, Copy, Debug, PartialEq, Eq, Structural)]
pub enum TimeUnit {
    Second,
    Millisecond,
    Microsecond,
    Nanosecond,
}

/// The logical data type a column can declare.
#[derive(Debug)]
pub enum DataType {
    Boolean,
    Int8,
    Int16,
    Int32,
    Int64,
    UInt8,
    UInt16,
    UInt32,
    UInt64,
    /// 32-bit float, carried as its raw bit pattern.
    Float32,
    /// 64-bit float, carried as its raw bit pattern.
    Float64,
    /// UTF-8 string (narrow offsets).
    Utf8,
    /// UTF-8 string (wide offsets).
    LargeUtf8,
    /// A timestamp with a unit and an optional zone name, stored natively
    /// as 64-bit integers.
    Timestamp(TimeUnit, Option<String>),
}

/// The mathematical value of a [`DataType`].
pub enum DataTypeV {
    Boolean,
    Int8,
    Int16,
    Int32,
    Int64,
    UInt8,
    UInt16,
    UInt32,
    UInt64,
    Float32,
    Float64,
    Utf8,
    LargeUtf8,
    Timestamp(TimeUnit, Option<Seq<char>>),
}

impl View for DataType {
    type V = DataTypeV;

    open spec fn view(&self) -> DataTypeV {
        match self {
            DataType::Boolean => DataTypeV::Boolean,
            DataType::Int8 => DataTypeV::Int8,
            DataType::Int16 => DataTypeV::Int16,
            DataType::Int32 => DataTypeV::Int32,
            DataType::Int64 => DataTypeV::Int64,
            DataType::UInt8 => DataTypeV::UInt8,
            DataType::UInt16 => DataTypeV::UInt16,
            DataType::UInt32 => DataTypeV::UInt32,
            DataType::UInt64 => DataTypeV::UInt64,
            DataType::Float32 => DataTypeV::Float32,
            DataType::Float64 => DataTypeV::Float64,
            DataType::Utf8 => DataTypeV::Utf8,
            DataType::LargeUtf8 => DataTypeV::LargeUtf8,
            DataType::Timestamp(u, tz) => DataTypeV::Timestamp(
                *u,
                match tz {
                    Some(s) => Some(s@),
                    None => None,
                },
            ),
        }
    }
}

impl PartialEq for DataType {
    /// Two types are equal when their mathematical values are.
    fn eq(&self, other: &DataType) -> (r: bool) {
        match (self, other) {
            (DataType::Boolean, DataType::Boolean) => true,
            (DataType::Int8, DataType::Int8) => true,
            (DataType::Int16, DataType::Int16) => true,
            (DataType::Int32, DataType::Int32) => true,
            (DataType::Int64, DataType::Int64) => true,
            (DataType::UInt8, DataType::UInt8) => true,
            (DataType::UInt16, DataType::UInt16) => true,
            (DataType::UInt32, DataType::UInt32) => true,
            (DataType::UInt64, DataType::UInt64) => true,
            (DataType::Float32, DataType::Float32) => true,
            (DataType::Float64, DataType::Float64) => true,
            (DataType::Utf8, DataType::Utf8) => true,
            (DataType::LargeUtf8, DataType::LargeUtf8) => true,
            (DataType::Timestamp(u1, tz1), DataType::Timestamp(u2, tz2)) => {
                u1 == u2 && match (tz1, tz2) {
                    (None, None) => true,
                    (Some(a), Some(b)) => a.eq(b),
                    _ => false,
                }
            },
            _ => false,
        }
    }
}

impl vstd::std_specs::cmp::PartialEqSpecImpl for DataType {
    open spec fn obeys_eq_spec() -> bool {
        true
    }

    open spec fn eq_spec(&self, other: &DataType) -> bool {
        self@ == other@
    }
}

impl DataType {
    /// A copy whose mathematical value equals this one's.
    pub fn duplicate(&self) -> (r: DataType)
        ensures
            r@ == self@,
    {
        match self {
            DataType::Boolean => DataType::Boolean,
            DataType::Int8 => DataType::Int8,
            DataType::Int16 => DataType::Int16,
            DataType::Int32 => DataType::Int32,
            DataType::Int64 => DataType::Int64,
            DataType::UInt8 => DataType::UInt8,
            DataType::UInt16 => DataType::UInt16,
            DataType::UInt32 => DataType::UInt32,
            DataType::UInt64 => DataType::UInt64,
            DataType::Float32 => DataType::Float32,
            DataType::Float64 => DataType::Float64,
            DataType::Utf8 => DataType::Utf8,
            DataType::LargeUtf8 => DataType::LargeUtf8,
            DataType::Timestamp(u, tz) => DataType::Timestamp(
                *u,
                match tz {
                    Some(s) => Some(s.clone()),
                    None => None,
                },
            ),
        }
    }

    /// The native storage kind as a small code; see [`spec_storage_code`].
    pub fn storage_code(&self) -> (r: u8)
        ensures
            r == spec_storage_code(self@),
    {
        match self {
            DataType::Boolean => 0,
            DataType::Int8 => 1,
            DataType::Int16 => 2,
            DataType::Int32 => 3,
            DataType::Int64 => 4,
            DataType::Timestamp(_, _) => 4,
            DataType::UInt8 => 5,
            DataType::UInt16 => 6,
            DataType::UInt32 => 7,
            DataType::UInt64 => 8,
            DataType::Float32 => 9,
            DataType::Float64 => 10,
            DataType::Utf8 => 11,
            DataType::LargeUtf8 => 11,
        }
    }

    /// The approximate per-value byte width used for store sizing.
    pub fn byte_width(&self) -> (r: u64)
        ensures
            r == spec_byte_width(self@),
    {
        match self {
            DataType::Boolean => 1,
            DataType::Int16 => 2,
            DataType::Int32 => 4,
            DataType::Float32 => 4,
            _ => 8,
        }
    }
}

/// The approximate per-value byte width used for store sizing.
pub open spec fn spec_byte_width(dt: DataTypeV) -> u64 {
    match dt {
        DataTypeV::Boolean => 1,
        DataTypeV::Int16 => 2,
        DataTypeV::Int32 => 4,
        DataTypeV::Float32 => 4,
        _ => 8,
    }
}

/// One value-or-null element of a column.
#[derive(Debug)]
pub enum Cell {
    Null,
    Bool(bool),
    I8(i8),
    I16(i16),
    I32(i32),
    I64(i64),
    U8(u8),
    U16(u16),
    U32(u32),
    U64(u64),
    /// A 32-bit float as its raw bit pattern.
    F32Bits(u32),
    /// A 64-bit float as its raw bit pattern.
    F64Bits(u64),
    Str(String),
}

/// The mathematical value of a [`Cell`].
pub enum CellV {
    Null,
    Bool(bool),
    I8(i8),
    I16(i16),
    I32(i32),
    I64(i64),
    U8(u8),
    U16(u16),
    U32(u32),
    U64(u64),
    F32Bits(u32),
    F64Bits(u64),
    Str(Seq<char>),
}

impl View for Cell {
    type V = CellV;

    open spec fn view(&self) -> CellV {
        match self {
            Cell::Null => CellV::Null,
            Cell::Bool(b) => CellV::Bool(*b),
            Cell::I8(x) => CellV::I8(*x),
            Cell::I16(x) => CellV::I16(*x),
            Cell::I32(x) => CellV::I32(*x),
            Cell::I64(x) => CellV::I64(*x),
            Cell::U8(x) => CellV::U8(*x),
            Cell::U16(x) => CellV::U16(*x),
            Cell::U32(x) => CellV::U32(*x),
            Cell::U64(x) => CellV::U64(*x),
            Cell::F32Bits(x) => CellV::F32Bits(*x),
            Cell::F64Bits(x) => CellV::F64Bits(*x),
            Cell::Str(s) => CellV::Str(s@),
        }
    }
}

impl Cell {
    /// A copy equal to this cell.
    pub fn duplicate(&self) -> (r: Cell)
        ensures
            r@ == self@,
    {
        match self {
            Cell::Null => Cell::Null,
            Cell::Bool(b) => Cell::Bool(*b),
            Cell::I8(x) => Cell::I8(*x),
            Cell::I16(x) => Cell::I16(*x),
            Cell::I32(x) => Cell::I32(*x),
            Cell::I64(x) => Cell::I64(*x),
            Cell::U8(x) => Cell::U8(*x),
            Cell::U16(x) => Cell::U16(*x),
            Cell::U32(x) => Cell::U32(*x),
            Cell::U64(x) => Cell::U64(*x),
            Cell::F32Bits(x) => Cell::F32Bits(*x),
            Cell::F64Bits(x) => Cell::F64Bits(*x),
            Cell::Str(s) => Cell::Str(s.clone()),
        }
    }

    /// Whether this cell can be stored in a column of type `dt`.
    pub fn matches_type(&self, dt: &DataType) -> (r: bool)
        ensures
            r == cell_ok(dt@, self@),
    {
        match (self, dt) {
            (Cell::Null, _) => true,
            (Cell::Bool(_), DataType::Boolean) => true,
            (Cell::I8(_), DataType::Int8) => true,
            (Cell::I16(_), DataType::Int16) => true,
            (Cell::I32(_), DataType::Int32) => true,
            (Cell::I64(_), DataType::Int64) => true,
            (Cell::I64(_), DataType::Timestamp(_, _)) => true,
            (Cell::U8(_), DataType::UInt8) => true,
            (Cell::U16(_), DataType::UInt16) => true,
            (Cell::U32(_), DataType::UInt32) => true,
            (Cell::U64(_), DataType::UInt64) => true,
            (Cell::F32Bits(_), DataType::Float32) => true,
            (Cell::F64Bits(_), DataType::Float64) => true,
            (Cell::Str(_), DataType::Utf8) => true,
            (Cell::Str(_), DataType::LargeUtf8) => true,
            _ => false,
        }
    }
}

/// The native storage kind of a logical type, as a small code: two types
/// share a code exactly when they store the same kind of cell. Timestamps
/// store 64-bit integers; both string variants store UTF-8 strings.
pub open spec fn spec_storage_code(dt: DataTypeV) -> u8 {
    match dt {
        DataTypeV::Boolean => 0,
        DataTypeV::Int8 => 1,
        DataTypeV::Int16 => 2,
        DataTypeV::Int32 => 3,
        DataTypeV::Int64 => 4,
        DataTypeV::Timestamp(_, _) => 4,
        DataTypeV::UInt8 => 5,
        DataTypeV::UInt16 => 6,
        DataTypeV::UInt32 => 7,
        DataTypeV::UInt64 => 8,
        DataTypeV::Float32 => 9,
        DataTypeV::Float64 => 10,
        DataTypeV::Utf8 => 11,
        DataTypeV::LargeUtf8 => 11,
    }
}

/// Whether a cell value can live under a storage kind code: null always
/// can; a value must match the kind.
pub open spec fn cell_code_matches(code: u8, c: CellV) -> bool {
    match c {
        CellV::Null => true,
        CellV::Bool(_) => code == 0,
        CellV::I8(_) => code == 1,
        CellV::I16(_) => code == 2,
        CellV::I32(_) => code == 3,
        CellV::I64(_) => code == 4,
        CellV::U8(_) => code == 5,
        CellV::U16(_) => code == 6,
        CellV::U32(_) => code == 7,
        CellV::U64(_) => code == 8,
        CellV::F32Bits(_) => code == 9,
        CellV::F64Bits(_) => code == 10,
        CellV::Str(_) => code == 11,
    }
}

/// Whether a cell value can be stored in a column of type `dt`:
/// null always can; a value must match the type's native storage kind.
pub open spec fn cell_ok(dt: DataTypeV, c: CellV) -> bool {
    cell_code_matches(spec_storage_code(dt), c)
}

/// One column's data: a native type and a uniform vector of cells.
#[derive(Debug)]
pub struct Series {
    dtype: DataType,
    cells: Vec<Cell>,
}

impl View for Series {
    type V = Seq<CellV>;

    closed spec fn view(&self) -> Seq<CellV> {
        self.cells@.map(|i: int, c: Cell| c@)
    }
}

impl Series {
    /// The native data type's mathematical value.
    pub closed spec fn spec_dtype(self) -> DataTypeV {
        self.dtype@
    }

    /// Every cell matches the native data type.
    pub open spec fn wf(self) -> bool {
        forall|i: int| 0 <= i < self@.len() ==> cell_ok(self.spec_dtype(), #[trigger] self@[i])
    }

    /// Build a column from cells, rejecting any cell that does not match
    /// the native type.
    pub fn new(data_type: DataType, cells: Vec<Cell>) -> (r: Result<Series, Error>)
        ensures
            match r {
                Ok(s) => {
                    &&& s.wf()
                    &&& s.spec_dtype() == data_type@
                    &&& s@ == cells@.map(|i: int, c: Cell| c@)
                    &&& forall|i: int| 0 <= i < cells@.len() ==> cell_ok(
                        data_type@,
                        #[trigger] cells@[i]@,
                    )
                },
                Err(e) => {
                    &&& e == Error::TypeMismatch
                    &&& exists|i: int| 0 <= i < cells@.len() && !cell_ok(
                        data_type@,
                        #[trigger] cells@[i]@,
                    )
                },
            },
    {
        let n = cells.len();
        let mut i: usize = 0;
        while i < n
            invariant
                n == cells@.len(),
                i <= n,
                forall|j: int| 0 <= j < i ==> cell_ok(data_type@, #[trigger] cells@[j]@),
            decreases n - i,
        {
            if !cells[i].matches_type(&data_type) {
                return Err(Error::TypeMismatch);
            }
            i += 1;
        }
        Ok(Series { dtype: data_type, cells })
    }

    /// An empty column of the given type.
    pub fn new_empty(data_type: DataType) -> (r: Series)
        ensures
            r.wf(),
            r.spec_dtype() == data_type@,
            r@ =~= Seq::<CellV>::empty(),
    {
        Series { dtype: data_type, cells: Vec::new() }
    }

    /// An all-null column of the given type and length.
    pub fn new_null(data_type: DataType, len: usize) -> (r: Series)
        ensures
            r.wf(),
            r.spec_dtype() == data_type@,
            r@ =~= Seq::new(len as nat, |i: int| CellV::Null),
    {
        let mut cells: Vec<Cell> = Vec::new();
        let mut i: usize = 0;
        while i < len
            invariant
                i <= len,
                cells@.len() == i,
                forall|j: int| 0 <= j < i ==> #[trigger] cells@[j]@ == CellV::Null,
            decreases len - i,
        {
            cells.push(Cell::Null);
            i += 1;
        }
        let r = Series { dtype: data_type, cells };
        proof {
            assert(r@ =~= Seq::new(len as nat, |i: int| CellV::Null));
        }
        r
    }

    /// Element count.
    pub fn len(&self) -> (r: usize)
        ensures
            r == self@.len(),
    {
        self.cells.len()
    }

    /// The native data type.
    pub fn data_type(&self) -> (r: &DataType)
        ensures
            r@ == self.spec_dtype(),
    {
        &self.dtype
    }

    /// Read one cell.
    pub fn get(&self, i: usize) -> (r: &Cell)
        requires
            i < self@.len(),
        ensures
            r@ == self@[i as int],
    {
        &self.cells[i]
    }

    /// A sub-range copy of `length` elements starting at `offset`.
    pub fn sliced(&self, offset: usize, length: usize) -> (r: Series)
        requires
            offset + length <= self@.len(),
        ensures
            r.spec_dtype() == self.spec_dtype(),
            r@ =~= self@.subrange(offset as int, offset + length),
            self.wf() ==> r.wf(),
    {
        let total = self.cells.len();
        proof {
            assert(total == self@.len());
        }
        let mut cells: Vec<Cell> = Vec::new();
        let mut i: usize = 0;
        while i < length
            invariant
                offset + length <= total,
                total == self@.len(),
                total == self.cells@.len(),
                i <= length,
                cells@.len() == i,
                forall|j: int| 0 <= j < i ==> #[trigger] cells@[j]@ == self@[offset + j],
            decreases length - i,
        {
            cells.push(self.cells[offset + i].duplicate());
            i += 1;
        }
        Series { dtype: self.dtype.duplicate(), cells }
    }

    /// A copy whose contents and type equal this column's.
    pub fn duplicate(&self) -> (r: Series)
        ensures
            r.spec_dtype() == self.spec_dtype(),
            r@ =~= self@,
            self.wf() ==> r.wf(),
    {
        proof {
            assert(self@.subrange(0, self@.len() as int) =~= self@);
        }
        self.sliced(0, self.cells.len())
    }

    /// Append a copy of `other`'s cells; the native storage kinds must agree.
    pub fn append_series(&mut self, other: &Series) -> (r: Result<(), Error>)
        requires
            old(self).wf(),
            other.wf(),
        ensures
            final(self).wf(),
            final(self).spec_dtype() == old(self).spec_dtype(),
            match r {
                Ok(()) => spec_storage_code(old(self).spec_dtype()) == spec_storage_code(
                    other.spec_dtype(),
                ) && final(self)@ =~= old(self)@ + other@,
                Err(e) => e == Error::TypeMismatch && spec_storage_code(old(self).spec_dtype())
                    != spec_storage_code(other.spec_dtype()) && final(self)@ =~= old(self)@,
            },
    {
        if self.dtype.storage_code() != other.dtype.storage_code() {
            return Err(Error::TypeMismatch);
        }
        let n = other.cells.len();
        let mut i: usize = 0;
        while i < n
            invariant
                n == other@.len(),
                i <= n,
                self.wf(),
                self.spec_dtype() == old(self).spec_dtype(),
                spec_storage_code(self.spec_dtype()) == spec_storage_code(other.spec_dtype()),
                other.wf(),
                self@.len() == old(self)@.len() + i,
                self@ =~= old(self)@ + other@.take(i as int),
            decreases n - i,
        {
            let c = other.cells[i].duplicate();
            let ghost prevs = self@;
            self.cells.push(c);
            proof {
                assert(self@ =~= prevs.push(other@[i as int]));
                assert(self@ =~= old(self)@ + other@.take(i + 1));
            }
            i += 1;
        }
        proof {
            assert(other@.take(n as int) =~= other@);
        }
        Ok(())
    }
}

} // verus!
