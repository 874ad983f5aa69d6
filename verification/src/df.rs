//! The column store: an ordered set of named, typed columns of equal length,
//! plus store-level metadata.

use vstd::prelude::*;
use vstd::string::StrSliceExecFns;
use vstd::string::StringExecFns;
use vstd::multiset::Multiset;
use crate::Error;
use crate::meta::Metadata;
use crate::series::{Cell, CellV, DataType, DataTypeV, Series, TimeUnit};

verus! {

/// A column's name, declared logical type and per-column metadata.
///
/// The declared type may diverge from the column's native storage type
/// (a store may declare "timestamp" over raw 64-bit integers); conversions
/// honor the declared type when writing out.
#[derive(Debug)]
pub struct Field {
    pub name: String,
    pub data_type: DataType,
    pub metadata: Metadata,
}

/// The mathematical value of a [`Field`].
pub struct FieldV {
    pub name: Seq<char>,
    pub data_type: DataTypeV,
    pub metadata: Seq<(Seq<char>, Seq<char>)>,
}

impl View for Field {
    type V = FieldV;

    open spec fn view(&self) -> FieldV {
        FieldV { name: self.name@, data_type: self.data_type@, metadata: self.metadata@ }
    }
}

impl Field {
    /// Per-column metadata keys are distinct.
    pub open spec fn wf(self) -> bool {
        self.metadata.wf()
    }

    pub fn new(name: String, data_type: DataType) -> (r: Field)
        ensures
            r@.name == name@,
            r@.data_type == data_type@,
            r@.metadata =~= Seq::<(Seq<char>, Seq<char>)>::empty(),
            r.wf(),
    {
        Field { name, data_type, metadata: Metadata::new() }
    }

    /// A copy whose mathematical value equals this field's.
    pub fn duplicate(&self) -> (r: Field)
        ensures
            r@ == self@,
            self.wf() ==> r.wf(),
    {
        let r = Field {
            name: self.name.clone(),
            data_type: self.data_type.duplicate(),
            metadata: self.metadata.duplicate(),
        };
        r
    }
}

/// Two stores with the same columns are equally well-formed, whatever their
/// store-level metadata.
proof fn lemma_same_columns_wf(a: DataFrame, b: DataFrame)
    requires
        a.wf(),
        b.fields@ == a.fields@,
        b.data@ == a.data@,
        b.metadata.wf(),
    ensures
        b.wf(),
{
    assert forall|i: int| 0 <= i < b.spec_cols().len() implies (#[trigger] b.spec_cols()[i]).len()
        == b.spec_rows() by {
        assert(a.spec_cols()[i].len() == a.spec_rows());
    }
    assert forall|i: int| 0 <= i < b.fields@.len() implies (#[trigger] b.fields@[i]).wf() by {
        assert(a.fields@[i].wf());
    }
    assert forall|i: int| 0 <= i < b.data@.len() implies (#[trigger] b.data@[i]).wf() by {
        assert(a.data@[i].wf());
    }
}

/// Editing one field in place preserves well-formedness as long as the new
/// field's own metadata map is well-formed.
proof fn lemma_update_field_wf(a: DataFrame, b: DataFrame, i: int)
    requires
        a.wf(),
        0 <= i < a.fields@.len(),
        b.data@ == a.data@,
        b.metadata == a.metadata,
        b.fields@ == a.fields@.update(i, b.fields@[i]),
        b.fields@[i].wf(),
    ensures
        b.wf(),
{
    assert forall|j: int| 0 <= j < b.fields@.len() implies (#[trigger] b.fields@[j]).wf() by {
        assert(a.fields@[j].wf());
    }
    assert forall|k: int| 0 <= k < b.spec_cols().len() implies (#[trigger] b.spec_cols()[k]).len()
        == b.spec_rows() by {
        assert(a.spec_cols()[k].len() == a.spec_rows());
    }
}

/// A store's schema: its fields and its store-level metadata.
pub struct Schema {
    pub fields: Vec<Field>,
    pub metadata: Metadata,
}

/// A bare bundle of columns, detached from any schema.
pub struct Chunk {
    pub arrays: Vec<Series>,
}

impl Chunk {
    pub fn new(arrays: Vec<Series>) -> (r: Chunk)
        ensures
            r.arrays@ == arrays@,
    {
        Chunk { arrays }
    }

    pub fn into_arrays(self) -> (r: Vec<Series>)
        ensures
            r@ == self.arrays@,
    {
        self.arrays
    }
}

/// The column store: co-indexed fields and columns plus metadata.
#[derive(Debug)]
pub struct DataFrame {
    fields: Vec<Field>,
    data: Vec<Series>,
    metadata: Metadata,
}

impl DataFrame {
    /// The fields' mathematical values, in column order.
    pub closed spec fn spec_fields(self) -> Seq<FieldV> {
        self.fields@.map(|i: int, f: Field| f@)
    }

    /// The columns' contents, in column order.
    pub closed spec fn spec_cols(self) -> Seq<Seq<CellV>> {
        self.data@.map(|i: int, s: Series| s@)
    }

    /// The columns' native storage types, in column order.
    pub closed spec fn spec_dtypes(self) -> Seq<DataTypeV> {
        self.data@.map(|i: int, s: Series| s.spec_dtype())
    }

    /// The store-level metadata pairs.
    pub closed spec fn spec_meta(self) -> Seq<(Seq<char>, Seq<char>)> {
        self.metadata@
    }

    /// Look a store-level metadata key up.
    pub open spec fn spec_meta_get(self, key: Seq<char>) -> Option<Seq<char>> {
        crate::meta::pairs_get(self.spec_meta(), key)
    }

    /// Number of columns.
    pub open spec fn spec_col_count(self) -> nat {
        self.spec_fields().len()
    }

    /// Number of rows: zero while the store has no columns.
    pub open spec fn spec_rows(self) -> nat {
        if self.spec_cols().len() == 0 {
            0
        } else {
            self.spec_cols()[0].len()
        }
    }

    /// Structural well-formedness: fields and columns are co-indexed, every
    /// column is internally consistent and has the store's row count, and
    /// every metadata map has distinct keys.
    pub closed spec fn wf(self) -> bool {
        &&& self.fields@.len() == self.data@.len()
        &&& self.metadata.wf()
        &&& forall|i: int| 0 <= i < self.fields@.len() ==> (#[trigger] self.fields@[i]).wf()
        &&& forall|i: int| 0 <= i < self.data@.len() ==> (#[trigger] self.data@[i]).wf()
        &&& forall|i: int| 0 <= i < self.spec_cols().len() ==> (#[trigger] self.spec_cols()[i]).len()
            == self.spec_rows()
    }

    /// Rectangularity, stated at the interface: in a well-formed store every
    /// column's length equals the store's row count, and there are exactly as
    /// many columns as fields.
    pub proof fn lemma_rectangular(self)
        requires
            self.wf(),
        ensures
            self.spec_cols().len() == self.spec_col_count(),
            forall|i: int| 0 <= i < self.spec_cols().len() ==> (#[trigger] self.spec_cols()[i]).len()
                == self.spec_rows(),
    {
    }

    /// In a well-formed store, the store-level metadata keys and every
    /// field's metadata keys are pairwise distinct.
    pub proof fn lemma_wf_metadata_distinct(self)
        requires
            self.wf(),
        ensures
            crate::meta::pairs_distinct(self.spec_meta()),
            forall|i: int|
                0 <= i < self.spec_fields().len() ==> crate::meta::pairs_distinct(
                    (#[trigger] self.spec_fields()[i]).metadata,
                ),
    {
        assert forall|i: int|
            0 <= i < self.spec_fields().len() implies crate::meta::pairs_distinct(
            (#[trigger] self.spec_fields()[i]).metadata,
        ) by {
            assert(self.fields@[i].wf());
        }
    }

    /// Create a store with no columns.
    pub fn new0() -> (r: DataFrame)
        ensures
            r.wf(),
            r.spec_fields() =~= Seq::<FieldV>::empty(),
            r.spec_cols() =~= Seq::<Seq<CellV>>::empty(),
            r.spec_meta() =~= Seq::<(Seq<char>, Seq<char>)>::empty(),
    {
        DataFrame { fields: Vec::new(), data: Vec::new(), metadata: Metadata::new() }
    }

    /// Create a store with no columns; `cols` is a capacity hint only.
    pub fn new(cols: Option<usize>) -> (r: DataFrame)
        ensures
            r.wf(),
            r.spec_fields() =~= Seq::<FieldV>::empty(),
            r.spec_cols() =~= Seq::<Seq<CellV>>::empty(),
            r.spec_meta() =~= Seq::<(Seq<char>, Seq<char>)>::empty(),
    {
        let hint: usize = match cols {
            Some(c) => c,
            None => 0,
        };
        DataFrame {
            fields: Vec::with_capacity(hint),
            data: Vec::with_capacity(hint),
            metadata: Metadata::new(),
        }
    }

    /// Assemble a store from co-indexed parts, checking that the columns all
    /// have one length and that fields and columns line up.
    pub fn from_parts(fields: Vec<Field>, data: Vec<Series>, metadata: Option<Metadata>) -> (r:
        Result<DataFrame, Error>)
        requires
            forall|i: int| 0 <= i < fields@.len() ==> (#[trigger] fields@[i]).wf(),
            forall|i: int| 0 <= i < data@.len() ==> (#[trigger] data@[i]).wf(),
            metadata matches Some(m) ==> m.wf(),
        ensures
            match r {
                Ok(df) => {
                    &&& df.wf()
                    &&& df.spec_fields() == fields@.map(|i: int, f: Field| f@)
                    &&& df.spec_cols() == data@.map(|i: int, s: Series| s@)
                    &&& df.spec_dtypes() == data@.map(|i: int, s: Series| s.spec_dtype())
                    &&& df.spec_meta() == match metadata {
                        Some(m) => m@,
                        None => Seq::<(Seq<char>, Seq<char>)>::empty(),
                    }
                    &&& fields@.len() == data@.len()
                    &&& forall|i: int| 0 <= i < data@.len() ==> (#[trigger] data@[i])@.len()
                        == data@[0]@.len()
                },
                Err(e) => {
                    &&& (e == Error::RowsNotMatch || e == Error::ColsNotMatch)
                    &&& (e == Error::RowsNotMatch ==> exists|i: int|
                        0 <= i < data@.len() && (#[trigger] data@[i])@.len() != data@[0]@.len())
                    &&& (e == Error::ColsNotMatch ==> fields@.len() != data@.len())
                },
            },
    {
        if data.len() > 0 {
            let rows = data[0].len();
            let n = data.len();
            let mut i: usize = 1;
            while i < n
                invariant
                    n == data@.len(),
                    n > 0,
                    1 <= i <= n,
                    rows == data@[0]@.len(),
                    forall|j: int| 0 <= j < i ==> (#[trigger] data@[j])@.len() == rows,
                decreases n - i,
            {
                if data[i].len() != rows {
                    return Err(Error::RowsNotMatch);
                }
                i += 1;
            }
        }
        if fields.len() != data.len() {
            return Err(Error::ColsNotMatch);
        }
        let meta = match metadata {
            Some(m) => m,
            None => Metadata::new(),
        };
        let df = DataFrame { fields, data, metadata: meta };
        proof {
            assert(df.wf());
        }
        Ok(df)
    }

    /// Split the store into its co-indexed parts.
    pub fn into_parts(self) -> (r: (Vec<Field>, Vec<Series>, Metadata))
        ensures
            r.0@.map(|i: int, f: Field| f@) == self.spec_fields(),
            r.1@.map(|i: int, s: Series| s@) == self.spec_cols(),
            r.2@ == self.spec_meta(),
    {
        (self.fields, self.data, self.metadata)
    }

    /// Whether the store has no columns.
    pub fn is_empty(&self) -> (r: bool)
        requires
            self.wf(),
        ensures
            r == (self.spec_col_count() == 0),
    {
        self.data.is_empty()
    }

    /// Store-level metadata.
    pub fn metadata(&self) -> (r: &Metadata)
        ensures
            r@ == self.spec_meta(),
    {
        &self.metadata
    }

    /// Replace the store-level metadata.
    pub fn set_metadata(&mut self, metadata: Metadata)
        requires
            old(self).wf(),
            metadata.wf(),
        ensures
            final(self).wf(),
            final(self).spec_meta() == metadata@,
            final(self).spec_fields() == old(self).spec_fields(),
            final(self).spec_cols() == old(self).spec_cols(),
    {
        self.metadata = metadata;
        proof {
            lemma_same_columns_wf(*old(self), *self);
        }
    }

    /// Set one store-level metadata key.
    pub fn set_metadata_field(&mut self, metadata_field: &str, value: &str)
        requires
            old(self).wf(),
        ensures
            final(self).wf(),
            final(self).spec_meta_get(metadata_field@) == Some(value@),
            forall|k: Seq<char>| k != metadata_field@ ==> final(self).spec_meta_get(k) == old(self).spec_meta_get(k),
            final(self).spec_fields() == old(self).spec_fields(),
            final(self).spec_cols() == old(self).spec_cols(),
    {
        let key = metadata_field.to_owned();
        self.metadata.insert(key, value.to_owned());
        proof {
            lemma_same_columns_wf(*old(self), *self);
            assert forall|k: Seq<char>| k != metadata_field@ implies self.spec_meta_get(k) == old(self).spec_meta_get(k) by {
                assert(self.metadata.spec_get(k) == old(self).metadata.spec_get(k));
            }
        }
    }

    /// Column names, in order.
    pub fn names(&self) -> (r: Vec<&str>)
        ensures
            r@.len() == self.spec_col_count(),
            forall|i: int| 0 <= i < r@.len() ==> (#[trigger] r@[i])@ == self.spec_fields()[i].name,
    {
        let mut out: Vec<&str> = Vec::new();
        let n = self.fields.len();
        let mut i: usize = 0;
        while i < n
            invariant
                n == self.fields@.len(),
                i <= n,
                out@.len() == i,
                forall|j: int| 0 <= j < i ==> (#[trigger] out@[j])@ == self.spec_fields()[j].name,
            decreases n - i,
        {
            out.push(self.fields[i].name.as_str());
            i += 1;
        }
        out
    }

    /// Column field objects.
    pub fn fields(&self) -> (r: &Vec<Field>)
        ensures
            r@.map(|i: int, f: Field| f@) == self.spec_fields(),
            self.wf() ==> forall|i: int| 0 <= i < r@.len() ==> (#[trigger] r@[i]).wf(),
    {
        &self.fields
    }

    /// Column data.
    pub fn data(&self) -> (r: &Vec<Series>)
        ensures
            r@.map(|i: int, s: Series| s@) == self.spec_cols(),
            r@.map(|i: int, s: Series| s.spec_dtype()) == self.spec_dtypes(),
            self.wf() ==> forall|i: int| 0 <= i < r@.len() ==> (#[trigger] r@[i]).wf(),
    {
        &self.data
    }

    /// Number of rows, or nothing while the store has no columns.
    pub fn rows(&self) -> (r: Option<usize>)
        requires
            self.wf(),
        ensures
            match r {
                Some(n) => self.spec_col_count() > 0 && n == self.spec_rows(),
                None => self.spec_col_count() == 0,
            },
    {
        if self.data.len() > 0 {
            Some(self.data[0].len())
        } else {
            None
        }
    }

    /// Append a column, with an optional declared type (defaulting to the
    /// column's own native type) and optional per-column metadata.
    ///
    /// Fails with `RowsNotMatch` when the store already has columns and the
    /// new column's length differs from the store's row count.
    pub fn add_series(
        &mut self,
        name: &str,
        series: Series,
        data_type: Option<DataType>,
        metadata: Option<Metadata>,
    ) -> (r: Result<(), Error>)
        requires
            old(self).wf(),
            series.wf(),
            metadata matches Some(m) ==> m.wf(),
        ensures
            final(self).wf(),
            match r {
                Ok(()) => {
                    &&& (old(self).spec_col_count() == 0 || series@.len() == old(self).spec_rows())
                    &&& final(self).spec_fields() =~= old(self).spec_fields().push(
                        FieldV {
                            name: name@,
                            data_type: match data_type {
                                Some(dt) => dt@,
                                None => series.spec_dtype(),
                            },
                            metadata: match metadata {
                                Some(m) => m@,
                                None => Seq::<(Seq<char>, Seq<char>)>::empty(),
                            },
                        },
                    )
                    &&& final(self).spec_cols() =~= old(self).spec_cols().push(series@)
                    &&& final(self).spec_dtypes() =~= old(self).spec_dtypes().push(
                        series.spec_dtype(),
                    )
                    &&& final(self).spec_meta() == old(self).spec_meta()
                },
                Err(e) => {
                    &&& e == Error::RowsNotMatch
                    &&& old(self).spec_col_count() > 0 && series@.len() != old(self).spec_rows()
                    &&& *final(self) == *old(self)
                },
            },
    {
        let ok = self.data.is_empty() || series.len() == self.data[0].len();
        if !ok {
            return Err(Error::RowsNotMatch);
        }
        let dt = match data_type {
            Some(dt) => dt,
            None => series.data_type().duplicate(),
        };
        let meta = match metadata {
            Some(m) => m,
            None => Metadata::new(),
        };
        let field = Field { name: name.to_owned(), data_type: dt, metadata: meta };
        self.fields.push(field);
        self.data.push(series);
        proof {
            assert(final(self).spec_fields() =~= old(self).spec_fields().push(
                final(self).fields@.last()@,
            ));
            assert(final(self).spec_cols() =~= old(self).spec_cols().push(series@));
            assert(final(self).spec_dtypes() =~= old(self).spec_dtypes().push(
                series.spec_dtype(),
            ));
        }
        Ok(())
    }

    /// Append a column under its own native type.
    pub fn add_series0(&mut self, name: &str, series: Series) -> (r: Result<(), Error>)
        requires
            old(self).wf(),
            series.wf(),
        ensures
            final(self).wf(),
            match r {
                Ok(()) => {
                    &&& (old(self).spec_col_count() == 0 || series@.len() == old(self).spec_rows())
                    &&& final(self).spec_fields() =~= old(self).spec_fields().push(
                        FieldV {
                            name: name@,
                            data_type: series.spec_dtype(),
                            metadata: Seq::<(Seq<char>, Seq<char>)>::empty(),
                        },
                    )
                    &&& final(self).spec_cols() =~= old(self).spec_cols().push(series@)
                    &&& final(self).spec_dtypes() =~= old(self).spec_dtypes().push(
                        series.spec_dtype(),
                    )
                    &&& final(self).spec_meta() == old(self).spec_meta()
                },
                Err(e) => {
                    &&& e == Error::RowsNotMatch
                    &&& old(self).spec_col_count() > 0 && series@.len() != old(self).spec_rows()
                    &&& *final(self) == *old(self)
                },
            },
    {
        self.add_series(name, series, None, None)
    }

    /// Insert a column at `index`, with an optional declared type and
    /// optional per-column metadata.
    ///
    /// Fails with `OutOfBounds` when `index` exceeds the column count, and
    /// with `RowsNotMatch` as [`DataFrame::add_series`] does.
    pub fn insert_series(
        &mut self,
        name: &str,
        series: Series,
        index: usize,
        data_type: Option<DataType>,
        metadata: Option<Metadata>,
    ) -> (r: Result<(), Error>)
        requires
            old(self).wf(),
            series.wf(),
            metadata matches Some(m) ==> m.wf(),
        ensures
            final(self).wf(),
            match r {
                Ok(()) => {
                    &&& index <= old(self).spec_col_count()
                    &&& (old(self).spec_col_count() == 0 || series@.len() == old(self).spec_rows())
                    &&& final(self).spec_fields() =~= old(self).spec_fields().insert(
                        index as int,
                        FieldV {
                            name: name@,
                            data_type: match data_type {
                                Some(dt) => dt@,
                                None => series.spec_dtype(),
                            },
                            metadata: match metadata {
                                Some(m) => m@,
                                None => Seq::<(Seq<char>, Seq<char>)>::empty(),
                            },
                        },
                    )
                    &&& final(self).spec_cols() =~= old(self).spec_cols().insert(
                        index as int,
                        series@,
                    )
                    &&& final(self).spec_dtypes() =~= old(self).spec_dtypes().insert(
                        index as int,
                        series.spec_dtype(),
                    )
                    &&& final(self).spec_meta() == old(self).spec_meta()
                },
                Err(e) => {
                    &&& *final(self) == *old(self)
                    &&& (e == Error::OutOfBounds || e == Error::RowsNotMatch)
                    &&& (e == Error::OutOfBounds <==> index > old(self).spec_col_count())
                    &&& (e == Error::RowsNotMatch ==> old(self).spec_col_count() > 0 && series@.len()
                        != old(self).spec_rows())
                },
            },
    {
        if index > self.data.len() {
            return Err(Error::OutOfBounds);
        }
        let ok = self.data.is_empty() || series.len() == self.data[0].len();
        if !ok {
            return Err(Error::RowsNotMatch);
        }
        let dt = match data_type {
            Some(dt) => dt,
            None => series.data_type().duplicate(),
        };
        let meta = match metadata {
            Some(m) => m,
            None => Metadata::new(),
        };
        let field = Field { name: name.to_owned(), data_type: dt, metadata: meta };
        let ghost fv = field@;
        self.fields.insert(index, field);
        self.data.insert(index, series);
        proof {
            assert(final(self).spec_fields() =~= old(self).spec_fields().insert(index as int, fv));
            assert(final(self).spec_cols() =~= old(self).spec_cols().insert(index as int, series@));
            assert(final(self).spec_dtypes() =~= old(self).spec_dtypes().insert(
                index as int,
                series.spec_dtype(),
            ));
            assert forall|i: int| 0 <= i < final(self).spec_cols().len() implies (
            #[trigger] final(self).spec_cols()[i]).len() == final(self).spec_rows() by {
                if final(self).spec_cols().len() > 0 {
                    assert(final(self).spec_cols()[0].len() == final(self).spec_rows());
                }
            }
        }
        Ok(())
    }

    /// Insert a column under its own native type.
    pub fn insert_series0(&mut self, name: &str, series: Series, index: usize) -> (r: Result<
        (),
        Error,
    >)
        requires
            old(self).wf(),
            series.wf(),
        ensures
            final(self).wf(),
            match r {
                Ok(()) => {
                    &&& index <= old(self).spec_col_count()
                    &&& (old(self).spec_col_count() == 0 || series@.len() == old(self).spec_rows())
                    &&& final(self).spec_fields() =~= old(self).spec_fields().insert(
                        index as int,
                        FieldV {
                            name: name@,
                            data_type: series.spec_dtype(),
                            metadata: Seq::<(Seq<char>, Seq<char>)>::empty(),
                        },
                    )
                    &&& final(self).spec_cols() =~= old(self).spec_cols().insert(
                        index as int,
                        series@,
                    )
                    &&& final(self).spec_dtypes() =~= old(self).spec_dtypes().insert(
                        index as int,
                        series.spec_dtype(),
                    )
                    &&& final(self).spec_meta() == old(self).spec_meta()
                },
                Err(e) => {
                    &&& *final(self) == *old(self)
                    &&& (e == Error::OutOfBounds || e == Error::RowsNotMatch)
                    &&& (e == Error::OutOfBounds <==> index > old(self).spec_col_count())
                    &&& (e == Error::RowsNotMatch ==> old(self).spec_col_count() > 0 && series@.len()
                        != old(self).spec_rows())
                },
            },
    {
        self.insert_series(name, series, index, None, None)
    }

    /// Copies of all columns restricted to a row range.
    ///
    /// On a store with no columns this succeeds with no output regardless of
    /// the bounds; otherwise it fails with `OutOfBounds` exactly when
    /// `offset + length` exceeds the row count.
    pub fn try_series_sliced(&self, offset: usize, length: usize) -> (r: Result<Vec<Series>, Error>)
        requires
            self.wf(),
        ensures
            match r {
                Ok(v) => {
                    &&& (self.spec_col_count() == 0 || offset + length <= self.spec_rows())
                    &&& (self.spec_col_count() == 0 ==> v@.len() == 0)
                    &&& (self.spec_col_count() > 0 ==> {
                        &&& v@.len() == self.spec_col_count()
                        &&& forall|i: int| 0 <= i < v@.len() ==> (#[trigger] v@[i])@
                            == self.spec_cols()[i].subrange(offset as int, offset + length)
                        &&& forall|i: int| 0 <= i < v@.len() ==> (#[trigger] v@[i]).spec_dtype()
                            == self.spec_dtypes()[i]
                        &&& forall|i: int| 0 <= i < v@.len() ==> (#[trigger] v@[i]).wf()
                    })
                },
                Err(e) => {
                    &&& e == Error::OutOfBounds
                    &&& self.spec_col_count() > 0
                    &&& offset + length > self.spec_rows()
                },
            },
    {
        if self.data.is_empty() {
            return Ok(Vec::new());
        }
        let rows = self.data[0].len();
        if offset > rows || length > rows - offset {
            return Err(Error::OutOfBounds);
        }
        let n = self.data.len();
        let mut out: Vec<Series> = Vec::new();
        let mut i: usize = 0;
        while i < n
            invariant
                self.wf(),
                n == self.data@.len(),
                n > 0,
                i <= n,
                rows == self.spec_rows(),
                offset + length <= rows,
                out@.len() == i,
                forall|j: int| 0 <= j < i ==> (#[trigger] out@[j])@ == self.spec_cols()[j].subrange(
                    offset as int,
                    offset + length,
                ),
                forall|j: int| 0 <= j < i ==> (#[trigger] out@[j]).spec_dtype()
                    == self.spec_dtypes()[j],
                forall|j: int| 0 <= j < i ==> (#[trigger] out@[j]).wf(),
            decreases n - i,
        {
            proof {
                assert(self.spec_cols()[i as int] == self.data@[i as int]@);
                assert(self.spec_cols()[i as int].len() == self.spec_rows());
                assert(self.spec_dtypes()[i as int] == self.data@[i as int].spec_dtype());
                assert(self.data@[i as int].wf());
            }
            out.push(self.data[i].sliced(offset, length));
            i += 1;
        }
        Ok(out)
    }

    /// A [`Chunk`] of all columns restricted to a row range.
    pub fn try_chunk_sliced(&self, offset: usize, length: usize) -> (r: Result<Chunk, Error>)
        requires
            self.wf(),
        ensures
            match r {
                Ok(c) => {
                    &&& (self.spec_col_count() == 0 || offset + length <= self.spec_rows())
                    &&& (self.spec_col_count() == 0 ==> c.arrays@.len() == 0)
                    &&& (self.spec_col_count() > 0 ==> {
                        &&& c.arrays@.len() == self.spec_col_count()
                        &&& forall|i: int| 0 <= i < c.arrays@.len() ==> (#[trigger] c.arrays@[i])@
                            == self.spec_cols()[i].subrange(offset as int, offset + length)
                    })
                },
                Err(e) => {
                    &&& e == Error::OutOfBounds
                    &&& self.spec_col_count() > 0
                    &&& offset + length > self.spec_rows()
                },
            },
    {
        let series = self.try_series_sliced(offset, length)?;
        Ok(Chunk::new(series))
    }

    /// A new store of all columns restricted to a row range, keeping the
    /// schema and the metadata.
    ///
    /// On a store with no columns this yields an empty store regardless of
    /// the bounds; otherwise it fails with `OutOfBounds` exactly when
    /// `offset + length` exceeds the row count.
    pub fn try_sliced(&self, offset: usize, length: usize) -> (r: Result<DataFrame, Error>)
        requires
            self.wf(),
        ensures
            match r {
                Ok(df) => {
                    &&& df.wf()
                    &&& (self.spec_col_count() == 0 || offset + length <= self.spec_rows())
                    &&& (self.spec_col_count() == 0 ==> df.spec_col_count() == 0)
                    &&& (self.spec_col_count() > 0 ==> {
                        &&& df.spec_fields() == self.spec_fields()
                        &&& df.spec_meta() == self.spec_meta()
                        &&& df.spec_dtypes() =~= self.spec_dtypes()
                        &&& df.spec_cols().len() == self.spec_col_count()
                        &&& forall|i: int| 0 <= i < df.spec_cols().len() ==> (
                        #[trigger] df.spec_cols()[i]) == self.spec_cols()[i].subrange(
                            offset as int,
                            offset + length,
                        )
                    })
                },
                Err(e) => {
                    &&& e == Error::OutOfBounds
                    &&& self.spec_col_count() > 0
                    &&& offset + length > self.spec_rows()
                },
            },
    {
        if self.data.is_empty() {
            return Ok(DataFrame::new0());
        }
        let data = self.try_series_sliced(offset, length)?;
        let mut fields: Vec<Field> = Vec::new();
        let n = self.fields.len();
        let mut i: usize = 0;
        while i < n
            invariant
                self.wf(),
                n == self.fields@.len(),
                i <= n,
                fields@.len() == i,
                forall|j: int| 0 <= j < i ==> (#[trigger] fields@[j])@ == self.spec_fields()[j],
                forall|j: int| 0 <= j < i ==> (#[trigger] fields@[j]).wf(),
            decreases n - i,
        {
            fields.push(self.fields[i].duplicate());
            i += 1;
        }
        let df = DataFrame { fields, data, metadata: self.metadata.duplicate() };
        proof {
            assert(df.spec_fields() =~= self.spec_fields());
            assert(df.spec_dtypes() =~= self.spec_dtypes());
        }
        Ok(df)
    }

    /// The store's schema: copies of its fields and metadata.
    pub fn schema(&self) -> (r: Schema)
        requires
            self.wf(),
        ensures
            r.fields@.map(|i: int, f: Field| f@) == self.spec_fields(),
            r.metadata@ == self.spec_meta(),
    {
        let mut fields: Vec<Field> = Vec::new();
        let n = self.fields.len();
        let mut i: usize = 0;
        while i < n
            invariant
                n == self.fields@.len(),
                i <= n,
                fields@.len() == i,
                forall|j: int| 0 <= j < i ==> (#[trigger] fields@[j])@ == self.spec_fields()[j],
            decreases n - i,
        {
            fields.push(self.fields[i].duplicate());
            i += 1;
        }
        let r = Schema { fields, metadata: self.metadata.duplicate() };
        proof {
            assert(r.fields@.map(|i: int, f: Field| f@) =~= self.spec_fields());
        }
        r
    }

    /// First column whose field carries `name`.
    pub fn get_column_index(&self, name: &str) -> (r: Option<usize>)
        ensures
            match r {
                Some(i) => {
                    &&& i < self.spec_col_count()
                    &&& self.spec_fields()[i as int].name == name@
                    &&& forall|j: int| 0 <= j < i ==> self.spec_fields()[j].name != name@
                },
                None => forall|j: int|
                    0 <= j < self.spec_col_count() ==> self.spec_fields()[j].name != name@,
            },
    {
        let key = name.to_owned();
        let n = self.fields.len();
        let mut i: usize = 0;
        while i < n
            invariant
                n == self.fields@.len(),
                key@ == name@,
                i <= n,
                forall|j: int| 0 <= j < i ==> self.spec_fields()[j].name != name@,
            decreases n - i,
        {
            if self.fields[i].name.eq(&key) {
                return Some(i);
            }
            i += 1;
        }
        None
    }

    /// Remove and return the first column named `name`, with its declared type.
    pub fn pop_series(&mut self, name: &str) -> (r: Result<(Series, DataType), Error>)
        requires
            old(self).wf(),
        ensures
            final(self).wf(),
            match r {
                Ok((s, dt)) => exists|i: int|
                    {
                        &&& 0 <= i < old(self).spec_col_count()
                        &&& old(self).spec_fields()[i].name == name@
                        &&& forall|j: int| 0 <= j < i ==> old(self).spec_fields()[j].name != name@
                        &&& s@ == old(self).spec_cols()[i]
                        &&& dt@ == old(self).spec_fields()[i].data_type
                        &&& final(self).spec_fields() == old(self).spec_fields().remove(i)
                        &&& final(self).spec_cols() == old(self).spec_cols().remove(i)
                        &&& final(self).spec_dtypes() =~= old(self).spec_dtypes().remove(i)
                        &&& final(self).spec_meta() == old(self).spec_meta()
                    },
                Err(e) => {
                    &&& e matches Error::NotFound(n) && n@ == name@
                    &&& forall|j: int|
                        0 <= j < old(self).spec_col_count() ==> old(self).spec_fields()[j].name
                            != name@
                    &&& *final(self) == *old(self)
                },
            },
    {
        let found = self.get_column_index(name);
        match found {
            Some(i) => {
                let field = self.fields.remove(i);
                let series = self.data.remove(i);
                proof {
                    assert(final(self).spec_fields() =~= old(self).spec_fields().remove(i as int));
                    assert(final(self).spec_cols() =~= old(self).spec_cols().remove(i as int));
                    assert(final(self).spec_dtypes() =~= old(self).spec_dtypes().remove(i as int));
                    assert forall|k: int| 0 <= k < final(self).spec_cols().len() implies (
                    #[trigger] final(self).spec_cols()[k]).len() == final(self).spec_rows() by {
                        if final(self).spec_cols().len() > 0 {
                            assert(final(self).spec_cols()[0].len() == final(self).spec_rows());
                        }
                    }
                }
                Ok((series, field.data_type))
            },
            None => Err(Error::NotFound(name.to_owned())),
        }
    }

    /// Remove and return the column at `index`, with its name and declared type.
    pub fn pop_series_at(&mut self, index: usize) -> (r: Result<(Series, String, DataType), Error>)
        requires
            old(self).wf(),
        ensures
            final(self).wf(),
            match r {
                Ok((s, n, dt)) => {
                    &&& index < old(self).spec_col_count()
                    &&& s@ == old(self).spec_cols()[index as int]
                    &&& n@ == old(self).spec_fields()[index as int].name
                    &&& dt@ == old(self).spec_fields()[index as int].data_type
                    &&& final(self).spec_fields() == old(self).spec_fields().remove(index as int)
                    &&& final(self).spec_cols() == old(self).spec_cols().remove(index as int)
                    &&& final(self).spec_dtypes() =~= old(self).spec_dtypes().remove(index as int)
                    &&& final(self).spec_meta() == old(self).spec_meta()
                },
                Err(e) => {
                    &&& e == Error::OutOfBounds
                    &&& index >= old(self).spec_col_count()
                    &&& *final(self) == *old(self)
                },
            },
    {
        if index >= self.fields.len() {
            return Err(Error::OutOfBounds);
        }
        let field = self.fields.remove(index);
        let series = self.data.remove(index);
        proof {
            assert(final(self).spec_fields() =~= old(self).spec_fields().remove(index as int));
            assert(final(self).spec_cols() =~= old(self).spec_cols().remove(index as int));
            assert(final(self).spec_dtypes() =~= old(self).spec_dtypes().remove(index as int));
            assert forall|k: int| 0 <= k < final(self).spec_cols().len() implies (
            #[trigger] final(self).spec_cols()[k]).len() == final(self).spec_rows() by {
                if final(self).spec_cols().len() > 0 {
                    assert(final(self).spec_cols()[0].len() == final(self).spec_rows());
                }
            }
        }
        Ok((series, field.name, field.data_type))
    }

    /// Rename the first column named `name`.
    pub fn rename(&mut self, name: &str, new_name: &str) -> (r: Result<(), Error>)
        requires
            old(self).wf(),
        ensures
            final(self).wf(),
            match r {
                Ok(()) => exists|i: int|
                    {
                        &&& 0 <= i < old(self).spec_col_count()
                        &&& old(self).spec_fields()[i].name == name@
                        &&& forall|j: int| 0 <= j < i ==> old(self).spec_fields()[j].name != name@
                        &&& final(self).spec_fields() == old(self).spec_fields().update(
                            i,
                            FieldV {
                                name: new_name@,
                                data_type: old(self).spec_fields()[i].data_type,
                                metadata: old(self).spec_fields()[i].metadata,
                            },
                        )
                        &&& final(self).spec_cols() == old(self).spec_cols()
                        &&& final(self).spec_meta() == old(self).spec_meta()
                    },
                Err(e) => {
                    &&& e matches Error::NotFound(n) && n@ == name@
                    &&& forall|j: int|
                        0 <= j < old(self).spec_col_count() ==> old(self).spec_fields()[j].name
                            != name@
                    &&& *final(self) == *old(self)
                },
            },
    {
        let found = self.get_column_index(name);
        match found {
            Some(i) => {
                let mut field = self.fields.remove(i);
                field.name = new_name.to_owned();
                self.fields.insert(i, field);
                proof {
                    assert(final(self).spec_fields() =~= old(self).spec_fields().update(
                        i as int,
                        final(self).spec_fields()[i as int],
                    ));
                    assert forall|j: int| 0 <= j < self.fields@.len() implies (
                    #[trigger] self.fields@[j]).wf() by {
                        assert(self.fields@ =~= old(self).fields@.update(
                            i as int,
                            self.fields@[i as int],
                        ));
                        assert(old(self).fields@[j].wf());
                        if j == i as int {
                            assert(self.fields@[j].metadata == old(self).fields@[j].metadata);
                        }
                    }
                    assert forall|k: int| 0 <= k < self.spec_cols().len() implies (
                    #[trigger] self.spec_cols()[k]).len() == self.spec_rows() by {
                        assert(old(self).spec_cols()[k].len() == old(self).spec_rows());
                    }
                }
                Ok(())
            },
            None => Err(Error::NotFound(name.to_owned())),
        }
    }

    /// Set the field name at `index`.
    pub fn set_name_at(&mut self, index: usize, new_name: &str) -> (r: Result<(), Error>)
        requires
            old(self).wf(),
        ensures
            final(self).wf(),
            match r {
                Ok(()) => {
                    &&& index < old(self).spec_col_count()
                    &&& final(self).spec_fields() == old(self).spec_fields().update(
                        index as int,
                        FieldV {
                            name: new_name@,
                            data_type: old(self).spec_fields()[index as int].data_type,
                            metadata: old(self).spec_fields()[index as int].metadata,
                        },
                    )
                    &&& final(self).spec_cols() == old(self).spec_cols()
                    &&& final(self).spec_meta() == old(self).spec_meta()
                },
                Err(e) => {
                    &&& e == Error::OutOfBounds
                    &&& index >= old(self).spec_col_count()
                    &&& *final(self) == *old(self)
                },
            },
    {
        if index >= self.fields.len() {
            return Err(Error::OutOfBounds);
        }
        let mut field = self.fields.remove(index);
        field.name = new_name.to_owned();
        self.fields.insert(index, field);
        proof {
            assert(self.fields@ =~= old(self).fields@.update(index as int, self.fields@[index as int]));
            lemma_update_field_wf(*old(self), *self, index as int);
            assert(final(self).spec_fields() =~= old(self).spec_fields().update(
                index as int,
                final(self).spec_fields()[index as int],
            ));
        }
        Ok(())
    }

    /// Override the declared data type of the first column named `name`.
    pub fn set_data_type(&mut self, name: &str, data_type: DataType) -> (r: Result<(), Error>)
        requires
            old(self).wf(),
        ensures
            final(self).wf(),
            match r {
                Ok(()) => exists|i: int|
                    {
                        &&& 0 <= i < old(self).spec_col_count()
                        &&& old(self).spec_fields()[i].name == name@
                        &&& forall|j: int| 0 <= j < i ==> old(self).spec_fields()[j].name != name@
                        &&& final(self).spec_fields() == old(self).spec_fields().update(
                            i,
                            FieldV {
                                name: old(self).spec_fields()[i].name,
                                data_type: data_type@,
                                metadata: old(self).spec_fields()[i].metadata,
                            },
                        )
                        &&& final(self).spec_cols() == old(self).spec_cols()
                        &&& final(self).spec_meta() == old(self).spec_meta()
                    },
                Err(e) => {
                    &&& e matches Error::NotFound(n) && n@ == name@
                    &&& forall|j: int|
                        0 <= j < old(self).spec_col_count() ==> old(self).spec_fields()[j].name
                            != name@
                    &&& *final(self) == *old(self)
                },
            },
    {
        let found = self.get_column_index(name);
        match found {
            Some(i) => {
                let mut field = self.fields.remove(i);
                field.data_type = data_type;
                self.fields.insert(i, field);
                proof {
                    assert(self.fields@ =~= old(self).fields@.update(i as int, self.fields@[i as int]));
                    lemma_update_field_wf(*old(self), *self, i as int);
                    assert(final(self).spec_fields() =~= old(self).spec_fields().update(
                        i as int,
                        final(self).spec_fields()[i as int],
                    ));
                }
                Ok(())
            },
            None => Err(Error::NotFound(name.to_owned())),
        }
    }

    /// Override the declared data type of the column at `index`.
    pub fn set_data_type_at(&mut self, index: usize, data_type: DataType) -> (r: Result<(), Error>)
        requires
            old(self).wf(),
        ensures
            final(self).wf(),
            match r {
                Ok(()) => {
                    &&& index < old(self).spec_col_count()
                    &&& final(self).spec_fields() == old(self).spec_fields().update(
                        index as int,
                        FieldV {
                            name: old(self).spec_fields()[index as int].name,
                            data_type: data_type@,
                            metadata: old(self).spec_fields()[index as int].metadata,
                        },
                    )
                    &&& final(self).spec_cols() == old(self).spec_cols()
                    &&& final(self).spec_meta() == old(self).spec_meta()
                },
                Err(e) => {
                    &&& e == Error::OutOfBounds
                    &&& index >= old(self).spec_col_count()
                    &&& *final(self) == *old(self)
                },
            },
    {
        if index >= self.fields.len() {
            return Err(Error::OutOfBounds);
        }
        let mut field = self.fields.remove(index);
        field.data_type = data_type;
        self.fields.insert(index, field);
        proof {
            assert(self.fields@ =~= old(self).fields@.update(index as int, self.fields@[index as int]));
            lemma_update_field_wf(*old(self), *self, index as int);
            assert(final(self).spec_fields() =~= old(self).spec_fields().update(
                index as int,
                final(self).spec_fields()[index as int],
            ));
        }
        Ok(())
    }

    /// Replace the per-column metadata of the first column named `name`.
    pub fn set_col_metadata(&mut self, name: &str, metadata: Metadata) -> (r: Result<(), Error>)
        requires
            old(self).wf(),
            metadata.wf(),
        ensures
            final(self).wf(),
            match r {
                Ok(()) => exists|i: int|
                    {
                        &&& 0 <= i < old(self).spec_col_count()
                        &&& old(self).spec_fields()[i].name == name@
                        &&& forall|j: int| 0 <= j < i ==> old(self).spec_fields()[j].name != name@
                        &&& final(self).spec_fields() == old(self).spec_fields().update(
                            i,
                            FieldV {
                                name: old(self).spec_fields()[i].name,
                                data_type: old(self).spec_fields()[i].data_type,
                                metadata: metadata@,
                            },
                        )
                        &&& final(self).spec_cols() == old(self).spec_cols()
                        &&& final(self).spec_meta() == old(self).spec_meta()
                    },
                Err(e) => {
                    &&& e matches Error::NotFound(n) && n@ == name@
                    &&& forall|j: int|
                        0 <= j < old(self).spec_col_count() ==> old(self).spec_fields()[j].name
                            != name@
                    &&& *final(self) == *old(self)
                },
            },
    {
        let found = self.get_column_index(name);
        match found {
            Some(i) => {
                let mut field = self.fields.remove(i);
                field.metadata = metadata;
                self.fields.insert(i, field);
                proof {
                    assert(self.fields@ =~= old(self).fields@.update(i as int, self.fields@[i as int]));
                    lemma_update_field_wf(*old(self), *self, i as int);
                    assert(final(self).spec_fields() =~= old(self).spec_fields().update(
                        i as int,
                        final(self).spec_fields()[i as int],
                    ));
                }
                Ok(())
            },
            None => Err(Error::NotFound(name.to_owned())),
        }
    }

    /// Replace the per-column metadata of the column at `index`.
    pub fn set_col_metadata_at(&mut self, index: usize, metadata: Metadata) -> (r: Result<
        (),
        Error,
    >)
        requires
            old(self).wf(),
            metadata.wf(),
        ensures
            final(self).wf(),
            match r {
                Ok(()) => {
                    &&& index < old(self).spec_col_count()
                    &&& final(self).spec_fields() == old(self).spec_fields().update(
                        index as int,
                        FieldV {
                            name: old(self).spec_fields()[index as int].name,
                            data_type: old(self).spec_fields()[index as int].data_type,
                            metadata: metadata@,
                        },
                    )
                    &&& final(self).spec_cols() == old(self).spec_cols()
                    &&& final(self).spec_meta() == old(self).spec_meta()
                },
                Err(e) => {
                    &&& e == Error::OutOfBounds
                    &&& index >= old(self).spec_col_count()
                    &&& *final(self) == *old(self)
                },
            },
    {
        if index >= self.fields.len() {
            return Err(Error::OutOfBounds);
        }
        let mut field = self.fields.remove(index);
        field.metadata = metadata;
        self.fields.insert(index, field);
        proof {
            assert(self.fields@ =~= old(self).fields@.update(index as int, self.fields@[index as int]));
            lemma_update_field_wf(*old(self), *self, index as int);
            assert(final(self).spec_fields() =~= old(self).spec_fields().update(
                index as int,
                final(self).spec_fields()[index as int],
            ));
        }
        Ok(())
    }

    /// Per-column metadata of the first column named `name`.
    pub fn col_metadata(&self, name: &str) -> (r: Result<&Metadata, Error>)
        ensures
            match r {
                Ok(m) => exists|i: int|
                    {
                        &&& 0 <= i < self.spec_col_count()
                        &&& self.spec_fields()[i].name == name@
                        &&& forall|j: int| 0 <= j < i ==> self.spec_fields()[j].name != name@
                        &&& m@ == self.spec_fields()[i].metadata
                    },
                Err(e) => {
                    &&& e matches Error::NotFound(n) && n@ == name@
                    &&& forall|j: int|
                        0 <= j < self.spec_col_count() ==> self.spec_fields()[j].name != name@
                },
            },
    {
        let found = self.get_column_index(name);
        match found {
            Some(i) => Ok(&self.fields[i].metadata),
            None => Err(Error::NotFound(name.to_owned())),
        }
    }

    /// Per-column metadata of the column at `index`.
    pub fn col_metadata_at(&self, index: usize) -> (r: Result<&Metadata, Error>)
        ensures
            match r {
                Ok(m) => index < self.spec_col_count() && m@ == self.spec_fields()[
                    index as int
                ].metadata,
                Err(e) => e == Error::OutOfBounds && index >= self.spec_col_count(),
            },
    {
        if index >= self.fields.len() {
            return Err(Error::OutOfBounds);
        }
        Ok(&self.fields[index].metadata)
    }

    /// Set one per-column metadata key on the first column named `name`.
    pub fn set_col_metadata_field(&mut self, name: &str, metadata_field: &str, value: &str) -> (r:
        Result<(), Error>)
        requires
            old(self).wf(),
        ensures
            final(self).wf(),
            match r {
                Ok(()) => exists|i: int|
                    {
                        &&& 0 <= i < old(self).spec_col_count()
                        &&& old(self).spec_fields()[i].name == name@
                        &&& forall|j: int| 0 <= j < i ==> old(self).spec_fields()[j].name != name@
                        &&& final(self).spec_fields().len() == old(self).spec_fields().len()
                        &&& forall|j: int|
                            0 <= j < old(self).spec_fields().len() && j != i ==> final(self).spec_fields()[j] == old(self).spec_fields()[j]
                        &&& final(self).spec_fields()[i].name == old(self).spec_fields()[i].name
                        &&& final(self).spec_fields()[i].data_type == old(self).spec_fields()[
                            i
                        ].data_type
                        &&& crate::meta::pairs_get(
                            final(self).spec_fields()[i].metadata,
                            metadata_field@,
                        ) == Some(value@)
                        &&& forall|k: Seq<char>|
                            k != metadata_field@ ==> crate::meta::pairs_get(
                                final(self).spec_fields()[i].metadata,
                                k,
                            ) == crate::meta::pairs_get(old(self).spec_fields()[i].metadata, k)
                        &&& final(self).spec_cols() == old(self).spec_cols()
                        &&& final(self).spec_meta() == old(self).spec_meta()
                    },
                Err(e) => {
                    &&& e matches Error::NotFound(n) && n@ == name@
                    &&& forall|j: int|
                        0 <= j < old(self).spec_col_count() ==> old(self).spec_fields()[j].name
                            != name@
                    &&& *final(self) == *old(self)
                },
            },
    {
        let found = self.get_column_index(name);
        match found {
            Some(i) => {
                let mut field = self.fields.remove(i);
                field.metadata.insert(metadata_field.to_owned(), value.to_owned());
                self.fields.insert(i, field);
                proof {
                    assert(self.fields@ =~= old(self).fields@.update(i as int, self.fields@[i as int]));
                    lemma_update_field_wf(*old(self), *self, i as int);
                    assert(self.spec_fields() =~= old(self).spec_fields().update(
                        i as int,
                        self.spec_fields()[i as int],
                    ));
                    assert(crate::meta::pairs_get(
                        self.spec_fields()[i as int].metadata,
                        metadata_field@,
                    ) == Some(value@)) by {
                        assert(self.fields@[i as int].metadata.spec_get(metadata_field@) == Some(
                            value@,
                        ));
                    }
                    assert forall|k: Seq<char>| k != metadata_field@ implies crate::meta::pairs_get(
                        self.spec_fields()[i as int].metadata,
                        k,
                    ) == crate::meta::pairs_get(old(self).spec_fields()[i as int].metadata, k) by {
                        assert(self.fields@[i as int].metadata.spec_get(k) == old(self).fields@[
                            i as int
                        ].metadata.spec_get(k));
                    }
                }
                Ok(())
            },
            None => Err(Error::NotFound(name.to_owned())),
        }
    }

    /// Set one per-column metadata key on the column at `index`.
    pub fn set_col_metadata_field_at(&mut self, index: usize, metadata_field: &str, value: &str)
        -> (r: Result<(), Error>)
        requires
            old(self).wf(),
        ensures
            final(self).wf(),
            match r {
                Ok(()) => {
                    &&& index < old(self).spec_col_count()
                    &&& final(self).spec_fields().len() == old(self).spec_fields().len()
                    &&& forall|j: int|
                        0 <= j < old(self).spec_fields().len() && j != index ==> final(self).spec_fields()[j] == old(self).spec_fields()[j]
                    &&& final(self).spec_fields()[index as int].name == old(self).spec_fields()[
                        index as int
                    ].name
                    &&& final(self).spec_fields()[index as int].data_type == old(self).spec_fields()[index as int].data_type
                    &&& crate::meta::pairs_get(
                        final(self).spec_fields()[index as int].metadata,
                        metadata_field@,
                    ) == Some(value@)
                    &&& forall|k: Seq<char>|
                        k != metadata_field@ ==> crate::meta::pairs_get(
                            final(self).spec_fields()[index as int].metadata,
                            k,
                        ) == crate::meta::pairs_get(
                            old(self).spec_fields()[index as int].metadata,
                            k,
                        )
                    &&& final(self).spec_cols() == old(self).spec_cols()
                    &&& final(self).spec_meta() == old(self).spec_meta()
                },
                Err(e) => {
                    &&& e == Error::OutOfBounds
                    &&& index >= old(self).spec_col_count()
                    &&& *final(self) == *old(self)
                },
            },
    {
        if index >= self.fields.len() {
            return Err(Error::OutOfBounds);
        }
        let mut field = self.fields.remove(index);
        field.metadata.insert(metadata_field.to_owned(), value.to_owned());
        self.fields.insert(index, field);
        proof {
            assert(self.fields@ =~= old(self).fields@.update(index as int, self.fields@[index as int]));
            lemma_update_field_wf(*old(self), *self, index as int);
            assert(self.spec_fields() =~= old(self).spec_fields().update(
                index as int,
                self.spec_fields()[index as int],
            ));
            assert(crate::meta::pairs_get(
                self.spec_fields()[index as int].metadata,
                metadata_field@,
            ) == Some(value@)) by {
                assert(self.fields@[index as int].metadata.spec_get(metadata_field@) == Some(
                    value@,
                ));
            }
            assert forall|k: Seq<char>| k != metadata_field@ implies crate::meta::pairs_get(
                self.spec_fields()[index as int].metadata,
                k,
            ) == crate::meta::pairs_get(old(self).spec_fields()[index as int].metadata, k) by {
                assert(self.fields@[index as int].metadata.spec_get(k) == old(self).fields@[
                    index as int
                ].metadata.spec_get(k));
            }
        }
        Ok(())
    }

    /// The columns themselves, for size accounting.
    pub closed spec fn spec_series(self) -> Seq<Series> {
        self.data@
    }

    /// Approximate byte size of the whole store: for each column, its length
    /// times the per-value width of its native type. (String widths are
    /// approximated by a constant, as documented for the width table.)
    pub open spec fn spec_size(self) -> int {
        spec_size_sum(self.spec_series())
    }

    /// Approximate byte size of the whole store.
    pub fn size(&self) -> (r: usize)
        requires
            self.wf(),
            self.spec_size() <= usize::MAX,
        ensures
            r == self.spec_size(),
    {
        let n = self.data.len();
        let mut acc: u64 = 0;
        let mut i: usize = 0;
        proof {
            lemma_size_prefix_le(self.spec_series(), 0);
            assert(self.spec_series().take(0) =~= Seq::<Series>::empty());
        }
        while i < n
            invariant
                self.wf(),
                self.spec_size() <= usize::MAX,
                n == self.spec_series().len(),
                i <= n,
                acc == spec_size_sum(self.spec_series().take(i as int)),
                acc <= self.spec_size(),
            decreases n - i,
        {
            proof {
                lemma_size_sum_nonneg(self.spec_series().take(i as int));
                lemma_size_prefix_le(self.spec_series(), i + 1);
                assert(self.spec_series().take(i + 1).drop_last() =~= self.spec_series().take(
                    i as int,
                ));
                assert(self.spec_series().take(i + 1).last() == self.spec_series()[i as int]);
                assert(spec_size_sum(self.spec_series().take(i + 1)) == acc + spec_series_size(
                    self.spec_series()[i as int],
                ));
            }
            let len64: u64 = self.data[i].len() as u64;
            let width: u64 = self.data[i].data_type().byte_width();
            acc = acc + len64 * width;
            i += 1;
        }
        proof {
            assert(self.spec_series().take(n as int) =~= self.spec_series());
        }
        acc as usize
    }

    /// A single-column time-series store: 64-bit stamps under a declared
    /// timestamp type with the given unit and optional zone name.
    pub fn new_timeseries(
        stamps: Vec<i64>,
        cols: Option<usize>,
        time_unit: TimeUnit,
        zone_name: Option<String>,
    ) -> (r: DataFrame)
        ensures
            r.wf(),
            r.spec_col_count() == 1,
            r.spec_fields()[0].name == "time"@,
            r.spec_fields()[0].data_type == DataTypeV::Timestamp(
                time_unit,
                match zone_name {
                    Some(z) => Some(z@),
                    None => None,
                },
            ),
            r.spec_cols()[0] =~= stamps@.map(|i: int, x: i64| CellV::I64(x)),
            r.spec_meta() =~= Seq::<(Seq<char>, Seq<char>)>::empty(),
    {
        let mut cells: Vec<Cell> = Vec::new();
        let n = stamps.len();
        let mut i: usize = 0;
        while i < n
            invariant
                n == stamps@.len(),
                i <= n,
                cells@.len() == i,
                forall|j: int| 0 <= j < i ==> (#[trigger] cells@[j])@ == CellV::I64(stamps@[j]),
            decreases n - i,
        {
            cells.push(Cell::I64(stamps[i]));
            i += 1;
        }
        let dt = DataType::Timestamp(time_unit, zone_name);
        let series = match Series::new(dt.duplicate(), cells) {
            Ok(s) => s,
            Err(_) => {
                proof {
                    assert(false);
                }
                Series::new_empty(dt.duplicate())
            },
        };
        let mut df = DataFrame::new(cols);
        let added = df.add_series("time", series, Some(dt), None);
        proof {
            if added is Err {
                assert(false);
            }
            assert(df.spec_cols()[0] =~= stamps@.map(|q: int, x: i64| CellV::I64(x)));
        }
        df
    }


    /// Reorder columns by positional swap to match the given prefix of
    /// names: for each position in turn, when a column carrying that name
    /// exists it is swapped into the position; unmatched names are ignored.
    pub fn set_ordering(&mut self, names: &Vec<String>) -> (r: ())
        requires
            old(self).wf(),
            names@.len() <= old(self).spec_col_count(),
        ensures
            final(self).wf(),
            final(self).spec_fields() == spec_reorder(
                old(self).spec_fields(),
                names@.map(|i: int, v: String| v@),
                names@.len() as int,
            ),
            final(self).spec_cols() =~~= spec_reorder_cols(
                old(self).spec_fields(),
                old(self).spec_cols(),
                names@.map(|i: int, v: String| v@),
                names@.len() as int,
            ),
            final(self).spec_dtypes() =~= spec_reorder_dtypes(
                old(self).spec_fields(),
                old(self).spec_dtypes(),
                names@.map(|i: int, v: String| v@),
                names@.len() as int,
            ),
            final(self).spec_meta() == old(self).spec_meta(),
    {
        let ghost ns = names@.map(|i: int, v: String| v@);
        let n = names.len();
        let mut i: usize = 0;
        proof {
            old(self).lemma_rectangular();
            assert(self.spec_fields() =~= spec_reorder(old(self).spec_fields(), ns, 0));
            assert(self.spec_cols() =~= spec_reorder_cols(
                old(self).spec_fields(),
                old(self).spec_cols(),
                ns,
                0,
            ));
            assert(self.spec_dtypes() =~= spec_reorder_dtypes(
                old(self).spec_fields(),
                old(self).spec_dtypes(),
                ns,
                0,
            ));
        }
        while i < n
            invariant
                ns == names@.map(|q: int, v: String| v@),
                n == names@.len(),
                n <= old(self).spec_col_count(),
                i <= n,
                self.wf(),
                self.spec_col_count() == old(self).spec_col_count(),
                self.spec_cols().len() == old(self).spec_cols().len(),
                self.spec_meta() == old(self).spec_meta(),
                self.spec_fields() == spec_reorder(old(self).spec_fields(), ns, i as int),
                self.spec_cols() == spec_reorder_cols(
                    old(self).spec_fields(),
                    old(self).spec_cols(),
                    ns,
                    i as int,
                ),
                self.spec_dtypes() == spec_reorder_dtypes(
                    old(self).spec_fields(),
                    old(self).spec_dtypes(),
                    ns,
                    i as int,
                ),
            decreases n - i,
        {
            let found = self.get_column_index(names[i].as_str());
            proof {
                match found {
                    Some(pos) => {
                        crate::concat::lemma_find_some(
                            self.spec_fields(),
                            ns[i as int],
                            pos as int,
                        );
                    },
                    None => {
                        crate::concat::lemma_find_none(self.spec_fields(), ns[i as int]);
                    },
                }
            }
            match found {
                Some(pos) => {
                    if pos != i {
                        let ghost fb = self.fields@;
                        let ghost db = self.data@;
                        vec_swap(&mut self.fields, i, pos);
                        vec_swap(&mut self.data, i, pos);
                        proof {
                            assert(self.spec_fields() =~= fb.map(|q: int, f: Field| f@).update(
                                i as int,
                                fb.map(|q: int, f: Field| f@)[pos as int],
                            ).update(pos as int, fb.map(|q: int, f: Field| f@)[i as int]));
                            assert(self.spec_cols() =~= db.map(|q: int, s: Series| s@).update(
                                i as int,
                                db.map(|q: int, s: Series| s@)[pos as int],
                            ).update(pos as int, db.map(|q: int, s: Series| s@)[i as int]));
                            assert(self.spec_dtypes() =~= db.map(
                                |q: int, s: Series| s.spec_dtype(),
                            ).update(
                                i as int,
                                db.map(|q: int, s: Series| s.spec_dtype())[pos as int],
                            ).update(
                                pos as int,
                                db.map(|q: int, s: Series| s.spec_dtype())[i as int],
                            ));
                            assert forall|k: int| 0 <= k < self.fields@.len() implies (
                            #[trigger] self.fields@[k]).wf() by {
                                assert(fb[k].wf());
                                if k == i as int {
                                    assert(self.fields@[k] == fb[pos as int]);
                                } else if k == pos as int {
                                    assert(self.fields@[k] == fb[i as int]);
                                }
                            }
                            assert forall|k: int| 0 <= k < self.data@.len() implies (
                            #[trigger] self.data@[k]).wf() by {
                                assert(db[k].wf());
                                if k == i as int {
                                    assert(self.data@[k] == db[pos as int]);
                                } else if k == pos as int {
                                    assert(self.data@[k] == db[i as int]);
                                }
                            }
                            assert forall|k: int| 0 <= k < self.spec_cols().len() implies (
                            #[trigger] self.spec_cols()[k]).len() == self.spec_rows() by {
                                let prev = db.map(|q: int, s: Series| s@);
                                assert(forall|t: int|
                                    0 <= t < prev.len() ==> (#[trigger] prev[t]).len()
                                        == spec_reorder_cols(
                                        old(self).spec_fields(),
                                        old(self).spec_cols(),
                                        ns,
                                        i as int,
                                    )[t].len());
                            }
                        }
                    }
                },
                None => {},
            }
            i += 1;
        }
        proof {
            assert(self.spec_fields() =~= spec_reorder(
                old(self).spec_fields(),
                ns,
                names@.len() as int,
            ));
        }
    }


    /// Apply one element-wise transform to the column at `index`.
    fn arith_at(&mut self, index: usize, value: Num, op: ArithOp) -> (r: Result<(), Error>)
        requires
            old(self).wf(),
            index < old(self).spec_col_count() && spec_num_code(value)
                == crate::series::spec_storage_code(old(self).spec_dtypes()[index as int])
                && spec_int_type(old(self).spec_dtypes()[index as int]) ==> forall|j: int|
                0 <= j < old(self).spec_cols()[index as int].len() ==> spec_arith_ok(
                    op,
                    old(self).spec_dtypes()[index as int],
                    #[trigger] old(self).spec_cols()[index as int][j],
                    value,
                ),
        ensures
            final(self).wf(),
            match r {
                Ok(()) => {
                    &&& index < old(self).spec_col_count()
                    &&& spec_num_code(value) == crate::series::spec_storage_code(
                        old(self).spec_dtypes()[index as int],
                    )
                    &&& spec_int_type(old(self).spec_dtypes()[index as int])
                    &&& spec_arith_applies(*old(self), *final(self), index as int, op, value)
                },
                Err(e) => {
                    &&& *final(self) == *old(self)
                    &&& (e == Error::OutOfBounds <==> index >= old(self).spec_col_count())
                    &&& (e == Error::TypeMismatch <==> (index < old(self).spec_col_count() && !(
                    spec_num_code(value) == crate::series::spec_storage_code(
                        old(self).spec_dtypes()[index as int],
                    ) && spec_int_type(old(self).spec_dtypes()[index as int]))))
                    &&& (e == Error::OutOfBounds || e == Error::TypeMismatch)
                },
            },
    {
        if index >= self.data.len() {
            return Err(Error::OutOfBounds);
        }
        let vcode: u8 = match value {
            Num::I8(_) => 1,
            Num::I16(_) => 2,
            Num::I32(_) => 3,
            Num::I64(_) => 4,
            Num::U8(_) => 5,
            Num::U16(_) => 6,
            Num::U32(_) => 7,
            Num::U64(_) => 8,
        };
        let dt_ok = {
            let dtr = self.data[index].data_type();
            let is_int = match dtr {
                DataType::Int8 | DataType::Int16 | DataType::Int32 | DataType::Int64 => true,
                DataType::UInt8 | DataType::UInt16 | DataType::UInt32 | DataType::UInt64 => true,
                _ => false,
            };
            is_int && dtr.storage_code() == vcode
        };
        if !dt_ok {
            return Err(Error::TypeMismatch);
        }
        let s = &self.data[index];
        let target = s.data_type().duplicate();
        let slen = s.len();
        let mut cells: Vec<Cell> = Vec::new();
        let mut t: usize = 0;
        while t < slen
            invariant
                index < self.data@.len(),
                *self == *old(self),
                self.wf(),
                spec_int_type(target@),
                target@ == self.spec_dtypes()[index as int],
                spec_num_code(value) == crate::series::spec_storage_code(target@),
                forall|j: int|
                    0 <= j < self.spec_cols()[index as int].len() ==> spec_arith_ok(
                        op,
                        target@,
                        #[trigger] self.spec_cols()[index as int][j],
                        value,
                    ),
                s == &self.data@[index as int],
                slen == s@.len(),
                t <= slen,
                cells@.len() == t,
                forall|j: int| 0 <= j < t ==> (#[trigger] cells@[j])@ == spec_arith_cell(
                    op,
                    target@,
                    s@[j],
                    value,
                ),
                forall|j: int| 0 <= j < t ==> crate::series::cell_ok(
                    target@,
                    (#[trigger] cells@[j])@,
                ),
            decreases slen - t,
        {
            proof {
                assert(s@ == self.spec_cols()[index as int]);
                assert(crate::series::cell_ok(self.spec_dtypes()[index as int], s@[t as int]));
                assert(spec_arith_ok(op, target@, s@[t as int], value));
            }
            let cell = arith_cell(s.get(t), value, op, &target);
            cells.push(cell);
            t += 1;
        }
        let series = match Series::new(target.duplicate(), cells) {
            Ok(x) => x,
            Err(_) => {
                proof {
                    assert(false);
                }
                return Err(Error::TypeMismatch);
            },
        };
        let ghost newcol = series@;
        self.data.remove(index);
        self.data.insert(index, series);
        proof {
            assert(self.data@ =~= old(self).data@.update(index as int, self.data@[index as int]));
            assert(self.spec_cols() =~= old(self).spec_cols().update(index as int, newcol));
            assert(self.spec_dtypes() =~= old(self).spec_dtypes());
            assert(self.spec_fields() == old(self).spec_fields());
            assert forall|j: int| 0 <= j < self.data@.len() implies (
            #[trigger] self.data@[j]).wf() by {
                assert(old(self).data@[j].wf());
            }
            assert forall|k: int| 0 <= k < self.spec_cols().len() implies (
            #[trigger] self.spec_cols()[k]).len() == self.spec_rows() by {
                assert(old(self).spec_cols()[k].len() == old(self).spec_rows());
                assert(newcol.len() == old(self).spec_cols()[index as int].len());
            }
            assert(spec_arith_applies(*old(self), *self, index as int, op, value)) by {
                assert(newcol.len() == old(self).spec_cols()[index as int].len());
                assert forall|j: int| 0 <= j < newcol.len() implies newcol[j] == spec_arith_cell(
                    op,
                    old(self).spec_dtypes()[index as int],
                    old(self).spec_cols()[index as int][j],
                    value,
                ) by {
                    assert(newcol[j] == cells@[j]@);
                }
            }
        }
        Ok(())
    }

    /// Add the scalar to every value of the first column named `name`, preserving
    /// nulls; the column's native type must be the scalar's integer type.
    pub fn add(&mut self, name: &str, value: Num) -> (r: Result<(), Error>)
        requires
            old(self).wf(),
            forall|i: int|
                0 <= i < old(self).spec_col_count() && old(self).spec_fields()[i].name == name@
                    ==> (forall|j: int|
                    0 <= j < old(self).spec_cols()[i].len() ==> spec_arith_ok(
                        ArithOp::Add,
                        old(self).spec_dtypes()[i],
                        #[trigger] old(self).spec_cols()[i][j],
                        value,
                    )),
        ensures
            final(self).wf(),
            match r {
                Ok(()) => exists|i: int|
                    {
                        &&& 0 <= i < old(self).spec_col_count()
                        &&& old(self).spec_fields()[i].name == name@
                        &&& forall|j: int| 0 <= j < i ==> old(self).spec_fields()[j].name != name@
                        &&& spec_arith_applies(*old(self), *final(self), i, ArithOp::Add, value)
                    },
                Err(e) => {
                    &&& *final(self) == *old(self)
                    &&& (e matches Error::NotFound(nm) ==> nm@ == name@)
                    &&& ((e matches Error::NotFound(_)) <==> (forall|j: int|
                        0 <= j < old(self).spec_col_count() ==> old(self).spec_fields()[j].name
                            != name@))
                    &&& (e == Error::TypeMismatch <==> exists|i: int|
                        {
                            &&& 0 <= i < old(self).spec_col_count()
                            &&& old(self).spec_fields()[i].name == name@
                            &&& forall|j: int|
                                0 <= j < i ==> old(self).spec_fields()[j].name != name@
                            &&& !(spec_num_code(value) == crate::series::spec_storage_code(
                                old(self).spec_dtypes()[i],
                            ) && spec_int_type(old(self).spec_dtypes()[i]))
                        })
                    &&& (e matches Error::NotFound(_) || e == Error::TypeMismatch)
                },
            },
    {
        let found = self.get_column_index(name);
        match found {
            Some(i) => {
                let r = self.add_at(i, value);
                proof {
                    if r is Err {
                        lemma_first_match_unique(old(self).spec_fields(), name@, i as int);
                    }
                }
                r
            },
            None => Err(Error::NotFound(name.to_owned())),
        }
    }

    /// Add the scalar to every value of the column at `index`, preserving nulls; the
    /// column's native type must be the scalar's integer type.
    pub fn add_at(&mut self, index: usize, value: Num) -> (r: Result<(), Error>)
        requires
            old(self).wf(),
            index < old(self).spec_col_count() ==> forall|j: int|
                0 <= j < old(self).spec_cols()[index as int].len() ==> spec_arith_ok(
                    ArithOp::Add,
                    old(self).spec_dtypes()[index as int],
                    #[trigger] old(self).spec_cols()[index as int][j],
                    value,
                ),
        ensures
            final(self).wf(),
            match r {
                Ok(()) => {
                    &&& index < old(self).spec_col_count()
                    &&& spec_arith_applies(
                        *old(self),
                        *final(self),
                        index as int,
                        ArithOp::Add,
                        value,
                    )
                },
                Err(e) => {
                    &&& *final(self) == *old(self)
                    &&& (e == Error::OutOfBounds <==> index >= old(self).spec_col_count())
                    &&& (e == Error::TypeMismatch <==> (index < old(self).spec_col_count() && !(
                    spec_num_code(value) == crate::series::spec_storage_code(
                        old(self).spec_dtypes()[index as int],
                    ) && spec_int_type(old(self).spec_dtypes()[index as int]))))
                    &&& (e == Error::OutOfBounds || e == Error::TypeMismatch)
                },
            },
    {
        self.arith_at(index, value, ArithOp::Add)
    }

    /// Subtract the scalar from every value of the first column named `name`, preserving
    /// nulls; the column's native type must be the scalar's integer type.
    pub fn sub(&mut self, name: &str, value: Num) -> (r: Result<(), Error>)
        requires
            old(self).wf(),
            forall|i: int|
                0 <= i < old(self).spec_col_count() && old(self).spec_fields()[i].name == name@
                    ==> (forall|j: int|
                    0 <= j < old(self).spec_cols()[i].len() ==> spec_arith_ok(
                        ArithOp::Sub,
                        old(self).spec_dtypes()[i],
                        #[trigger] old(self).spec_cols()[i][j],
                        value,
                    )),
        ensures
            final(self).wf(),
            match r {
                Ok(()) => exists|i: int|
                    {
                        &&& 0 <= i < old(self).spec_col_count()
                        &&& old(self).spec_fields()[i].name == name@
                        &&& forall|j: int| 0 <= j < i ==> old(self).spec_fields()[j].name != name@
                        &&& spec_arith_applies(*old(self), *final(self), i, ArithOp::Sub, value)
                    },
                Err(e) => {
                    &&& *final(self) == *old(self)
                    &&& (e matches Error::NotFound(nm) ==> nm@ == name@)
                    &&& ((e matches Error::NotFound(_)) <==> (forall|j: int|
                        0 <= j < old(self).spec_col_count() ==> old(self).spec_fields()[j].name
                            != name@))
                    &&& (e == Error::TypeMismatch <==> exists|i: int|
                        {
                            &&& 0 <= i < old(self).spec_col_count()
                            &&& old(self).spec_fields()[i].name == name@
                            &&& forall|j: int|
                                0 <= j < i ==> old(self).spec_fields()[j].name != name@
                            &&& !(spec_num_code(value) == crate::series::spec_storage_code(
                                old(self).spec_dtypes()[i],
                            ) && spec_int_type(old(self).spec_dtypes()[i]))
                        })
                    &&& (e matches Error::NotFound(_) || e == Error::TypeMismatch)
                },
            },
    {
        let found = self.get_column_index(name);
        match found {
            Some(i) => {
                let r = self.sub_at(i, value);
                proof {
                    if r is Err {
                        lemma_first_match_unique(old(self).spec_fields(), name@, i as int);
                    }
                }
                r
            },
            None => Err(Error::NotFound(name.to_owned())),
        }
    }

    /// Subtract the scalar from every value of the column at `index`, preserving nulls; the
    /// column's native type must be the scalar's integer type.
    pub fn sub_at(&mut self, index: usize, value: Num) -> (r: Result<(), Error>)
        requires
            old(self).wf(),
            index < old(self).spec_col_count() ==> forall|j: int|
                0 <= j < old(self).spec_cols()[index as int].len() ==> spec_arith_ok(
                    ArithOp::Sub,
                    old(self).spec_dtypes()[index as int],
                    #[trigger] old(self).spec_cols()[index as int][j],
                    value,
                ),
        ensures
            final(self).wf(),
            match r {
                Ok(()) => {
                    &&& index < old(self).spec_col_count()
                    &&& spec_arith_applies(
                        *old(self),
                        *final(self),
                        index as int,
                        ArithOp::Sub,
                        value,
                    )
                },
                Err(e) => {
                    &&& *final(self) == *old(self)
                    &&& (e == Error::OutOfBounds <==> index >= old(self).spec_col_count())
                    &&& (e == Error::TypeMismatch <==> (index < old(self).spec_col_count() && !(
                    spec_num_code(value) == crate::series::spec_storage_code(
                        old(self).spec_dtypes()[index as int],
                    ) && spec_int_type(old(self).spec_dtypes()[index as int]))))
                    &&& (e == Error::OutOfBounds || e == Error::TypeMismatch)
                },
            },
    {
        self.arith_at(index, value, ArithOp::Sub)
    }

    /// Multiply by the scalar every value of the first column named `name`, preserving
    /// nulls; the column's native type must be the scalar's integer type.
    pub fn mul(&mut self, name: &str, value: Num) -> (r: Result<(), Error>)
        requires
            old(self).wf(),
            forall|i: int|
                0 <= i < old(self).spec_col_count() && old(self).spec_fields()[i].name == name@
                    ==> (forall|j: int|
                    0 <= j < old(self).spec_cols()[i].len() ==> spec_arith_ok(
                        ArithOp::Mul,
                        old(self).spec_dtypes()[i],
                        #[trigger] old(self).spec_cols()[i][j],
                        value,
                    )),
        ensures
            final(self).wf(),
            match r {
                Ok(()) => exists|i: int|
                    {
                        &&& 0 <= i < old(self).spec_col_count()
                        &&& old(self).spec_fields()[i].name == name@
                        &&& forall|j: int| 0 <= j < i ==> old(self).spec_fields()[j].name != name@
                        &&& spec_arith_applies(*old(self), *final(self), i, ArithOp::Mul, value)
                    },
                Err(e) => {
                    &&& *final(self) == *old(self)
                    &&& (e matches Error::NotFound(nm) ==> nm@ == name@)
                    &&& ((e matches Error::NotFound(_)) <==> (forall|j: int|
                        0 <= j < old(self).spec_col_count() ==> old(self).spec_fields()[j].name
                            != name@))
                    &&& (e == Error::TypeMismatch <==> exists|i: int|
                        {
                            &&& 0 <= i < old(self).spec_col_count()
                            &&& old(self).spec_fields()[i].name == name@
                            &&& forall|j: int|
                                0 <= j < i ==> old(self).spec_fields()[j].name != name@
                            &&& !(spec_num_code(value) == crate::series::spec_storage_code(
                                old(self).spec_dtypes()[i],
                            ) && spec_int_type(old(self).spec_dtypes()[i]))
                        })
                    &&& (e matches Error::NotFound(_) || e == Error::TypeMismatch)
                },
            },
    {
        let found = self.get_column_index(name);
        match found {
            Some(i) => {
                let r = self.mul_at(i, value);
                proof {
                    if r is Err {
                        lemma_first_match_unique(old(self).spec_fields(), name@, i as int);
                    }
                }
                r
            },
            None => Err(Error::NotFound(name.to_owned())),
        }
    }

    /// Multiply by the scalar every value of the column at `index`, preserving nulls; the
    /// column's native type must be the scalar's integer type.
    pub fn mul_at(&mut self, index: usize, value: Num) -> (r: Result<(), Error>)
        requires
            old(self).wf(),
            index < old(self).spec_col_count() ==> forall|j: int|
                0 <= j < old(self).spec_cols()[index as int].len() ==> spec_arith_ok(
                    ArithOp::Mul,
                    old(self).spec_dtypes()[index as int],
                    #[trigger] old(self).spec_cols()[index as int][j],
                    value,
                ),
        ensures
            final(self).wf(),
            match r {
                Ok(()) => {
                    &&& index < old(self).spec_col_count()
                    &&& spec_arith_applies(
                        *old(self),
                        *final(self),
                        index as int,
                        ArithOp::Mul,
                        value,
                    )
                },
                Err(e) => {
                    &&& *final(self) == *old(self)
                    &&& (e == Error::OutOfBounds <==> index >= old(self).spec_col_count())
                    &&& (e == Error::TypeMismatch <==> (index < old(self).spec_col_count() && !(
                    spec_num_code(value) == crate::series::spec_storage_code(
                        old(self).spec_dtypes()[index as int],
                    ) && spec_int_type(old(self).spec_dtypes()[index as int]))))
                    &&& (e == Error::OutOfBounds || e == Error::TypeMismatch)
                },
            },
    {
        self.arith_at(index, value, ArithOp::Mul)
    }

    /// Divide by the scalar every value of the first column named `name`, preserving
    /// nulls; the column's native type must be the scalar's integer type.
    pub fn div(&mut self, name: &str, value: Num) -> (r: Result<(), Error>)
        requires
            old(self).wf(),
            forall|i: int|
                0 <= i < old(self).spec_col_count() && old(self).spec_fields()[i].name == name@
                    ==> (forall|j: int|
                    0 <= j < old(self).spec_cols()[i].len() ==> spec_arith_ok(
                        ArithOp::Div,
                        old(self).spec_dtypes()[i],
                        #[trigger] old(self).spec_cols()[i][j],
                        value,
                    )),
        ensures
            final(self).wf(),
            match r {
                Ok(()) => exists|i: int|
                    {
                        &&& 0 <= i < old(self).spec_col_count()
                        &&& old(self).spec_fields()[i].name == name@
                        &&& forall|j: int| 0 <= j < i ==> old(self).spec_fields()[j].name != name@
                        &&& spec_arith_applies(*old(self), *final(self), i, ArithOp::Div, value)
                    },
                Err(e) => {
                    &&& *final(self) == *old(self)
                    &&& (e matches Error::NotFound(nm) ==> nm@ == name@)
                    &&& ((e matches Error::NotFound(_)) <==> (forall|j: int|
                        0 <= j < old(self).spec_col_count() ==> old(self).spec_fields()[j].name
                            != name@))
                    &&& (e == Error::TypeMismatch <==> exists|i: int|
                        {
                            &&& 0 <= i < old(self).spec_col_count()
                            &&& old(self).spec_fields()[i].name == name@
                            &&& forall|j: int|
                                0 <= j < i ==> old(self).spec_fields()[j].name != name@
                            &&& !(spec_num_code(value) == crate::series::spec_storage_code(
                                old(self).spec_dtypes()[i],
                            ) && spec_int_type(old(self).spec_dtypes()[i]))
                        })
                    &&& (e matches Error::NotFound(_) || e == Error::TypeMismatch)
                },
            },
    {
        let found = self.get_column_index(name);
        match found {
            Some(i) => {
                let r = self.div_at(i, value);
                proof {
                    if r is Err {
                        lemma_first_match_unique(old(self).spec_fields(), name@, i as int);
                    }
                }
                r
            },
            None => Err(Error::NotFound(name.to_owned())),
        }
    }

    /// Divide by the scalar every value of the column at `index`, preserving nulls; the
    /// column's native type must be the scalar's integer type.
    pub fn div_at(&mut self, index: usize, value: Num) -> (r: Result<(), Error>)
        requires
            old(self).wf(),
            index < old(self).spec_col_count() ==> forall|j: int|
                0 <= j < old(self).spec_cols()[index as int].len() ==> spec_arith_ok(
                    ArithOp::Div,
                    old(self).spec_dtypes()[index as int],
                    #[trigger] old(self).spec_cols()[index as int][j],
                    value,
                ),
        ensures
            final(self).wf(),
            match r {
                Ok(()) => {
                    &&& index < old(self).spec_col_count()
                    &&& spec_arith_applies(
                        *old(self),
                        *final(self),
                        index as int,
                        ArithOp::Div,
                        value,
                    )
                },
                Err(e) => {
                    &&& *final(self) == *old(self)
                    &&& (e == Error::OutOfBounds <==> index >= old(self).spec_col_count())
                    &&& (e == Error::TypeMismatch <==> (index < old(self).spec_col_count() && !(
                    spec_num_code(value) == crate::series::spec_storage_code(
                        old(self).spec_dtypes()[index as int],
                    ) && spec_int_type(old(self).spec_dtypes()[index as int]))))
                    &&& (e == Error::OutOfBounds || e == Error::TypeMismatch)
                },
            },
    {
        self.arith_at(index, value, ArithOp::Div)
    }


    /// Sort columns by name in the lexicographic order, keeping each
    /// column with its field.
    pub fn sort_columns(&mut self)
        requires
            old(self).wf(),
        ensures
            final(self).wf(),
            exists|ns: Seq<Seq<char>>|
                {
                    &&& ns.to_multiset() == spec_field_names(old(self).spec_fields()).to_multiset()
                    &&& names_sorted(ns)
                    &&& ns.len() == old(self).spec_col_count()
                    &&& final(self).spec_fields() == spec_reorder(
                        old(self).spec_fields(),
                        ns,
                        ns.len() as int,
                    )
                    &&& final(self).spec_cols() =~~= spec_reorder_cols(
                        old(self).spec_fields(),
                        old(self).spec_cols(),
                        ns,
                        ns.len() as int,
                    )
                    &&& final(self).spec_dtypes() =~= spec_reorder_dtypes(
                        old(self).spec_fields(),
                        old(self).spec_dtypes(),
                        ns,
                        ns.len() as int,
                    )
                    &&& final(self).spec_meta() == old(self).spec_meta()
                },
    {
        let mut names: Vec<String> = Vec::new();
        let n = self.fields.len();
        let mut i: usize = 0;
        while i < n
            invariant
                n == self.fields@.len(),
                i <= n,
                names@.len() == i,
                forall|j: int| 0 <= j < i ==> (#[trigger] names@[j])@ == self.spec_fields()[
                    j
                ].name,
            decreases n - i,
        {
            names.push(self.fields[i].name.clone());
            i += 1;
        }
        let ghost gnames = names@.map(|q: int, v: String| v@);
        proof {
            assert(gnames =~= spec_field_names(self.spec_fields()));
            broadcast use vstd::seq_lib::group_to_multiset_ensures;
            assert(gnames.to_multiset().len() == gnames.len());
        }
        let sorted = sort_names(names);
        let ghost ns = sorted@.map(|q: int, v: String| v@);
        proof {
            broadcast use vstd::seq_lib::group_to_multiset_ensures;
            assert(ns.to_multiset() == spec_field_names(old(self).spec_fields()).to_multiset());
            assert(ns.to_multiset().len() == ns.len());
            assert(sorted@.len() == old(self).spec_col_count());
        }
        self.set_ordering(&sorted);
    }

    /// Reinterpret the string column named `name` as parsed integers of the
    /// declared target type; values that do not parse become null.
    pub fn parse(&mut self, name: &str, target: DataType) -> (r: Result<(), Error>)
        requires
            old(self).wf(),
        ensures
            final(self).wf(),
            match r {
                Ok(()) => exists|i: int|
                    {
                        &&& 0 <= i < old(self).spec_col_count()
                        &&& old(self).spec_fields()[i].name == name@
                        &&& forall|j: int| 0 <= j < i ==> old(self).spec_fields()[j].name != name@
                        &&& spec_parse_applies(*old(self), *final(self), i, target@)
                    },
                Err(e) => {
                    &&& *final(self) == *old(self)
                    &&& (e matches Error::NotFound(nm) ==> nm@ == name@)
                    &&& ((e matches Error::NotFound(_)) <==> (forall|j: int|
                        0 <= j < old(self).spec_col_count() ==> old(self).spec_fields()[j].name
                            != name@))
                    &&& (e matches Error::Unimplemented(_) <==> ((exists|i: int|
                        0 <= i < old(self).spec_col_count() && (
                        #[trigger] old(self).spec_fields()[i]).name == name@)
                        && !spec_int_type(target@)))
                    &&& (e == Error::TypeMismatch <==> exists|i: int|
                        {
                            &&& 0 <= i < old(self).spec_col_count()
                            &&& old(self).spec_fields()[i].name == name@
                            &&& forall|j: int|
                                0 <= j < i ==> old(self).spec_fields()[j].name != name@
                            &&& spec_int_type(target@)
                            &&& old(self).spec_dtypes()[i] != DataTypeV::LargeUtf8
                        })
                    &&& (e matches Error::NotFound(_) || e matches Error::Unimplemented(_) || e
                        == Error::TypeMismatch)
                },
            },
    {
        let found = self.get_column_index(name);
        match found {
            Some(i) => {
                let r = self.parse_at(i, target);
                proof {
                    if r is Err {
                        lemma_first_match_unique(old(self).spec_fields(), name@, i as int);
                    }
                }
                r
            },
            None => Err(Error::NotFound(name.to_owned())),
        }
    }

    /// Reinterpret the string column at `index` as parsed integers of the
    /// declared target type; values that do not parse become null.
    ///
    /// Fails with `OutOfBounds` on a bad index, `Unimplemented` when the
    /// target is not an integer type, and `TypeMismatch` when the column's
    /// native storage is not wide text.
    pub fn parse_at(&mut self, index: usize, target: DataType) -> (r: Result<(), Error>)
        requires
            old(self).wf(),
        ensures
            final(self).wf(),
            match r {
                Ok(()) => {
                    &&& index < old(self).spec_col_count()
                    &&& spec_parse_applies(*old(self), *final(self), index as int, target@)
                },
                Err(e) => {
                    &&& *final(self) == *old(self)
                    &&& (e == Error::OutOfBounds <==> index >= old(self).spec_col_count())
                    &&& (e matches Error::Unimplemented(_) ==> index < old(
                        self,
                    ).spec_col_count() && !spec_int_type(target@))
                    &&& (e == Error::TypeMismatch ==> index < old(self).spec_col_count()
                        && spec_int_type(target@) && old(self).spec_dtypes()[index as int]
                        != DataTypeV::LargeUtf8)
                    &&& (e == Error::OutOfBounds || e matches Error::Unimplemented(_) || e
                        == Error::TypeMismatch)
                },
            },
    {
        if index >= self.data.len() {
            return Err(Error::OutOfBounds);
        }
        let is_int = match &target {
            DataType::Int8 | DataType::Int16 | DataType::Int32 | DataType::Int64 => true,
            DataType::UInt8 | DataType::UInt16 | DataType::UInt32 | DataType::UInt64 => true,
            _ => false,
        };
        if !is_int {
            return Err(Error::Unimplemented(String::from_str("target type is not an integer")));
        }
        let wide = match self.data[index].data_type() {
            DataType::LargeUtf8 => true,
            _ => false,
        };
        if !wide {
            return Err(Error::TypeMismatch);
        }
        let s = &self.data[index];
        let slen = s.len();
        let mut cells: Vec<Cell> = Vec::new();
        let mut t: usize = 0;
        while t < slen
            invariant
                index < self.data@.len(),
                *self == *old(self),
                self.wf(),
                spec_int_type(target@),
                self.spec_dtypes()[index as int] == DataTypeV::LargeUtf8,
                s == &self.data@[index as int],
                slen == s@.len(),
                t <= slen,
                cells@.len() == t,
                forall|j: int| 0 <= j < t ==> (#[trigger] cells@[j])@ == spec_parse_cell(
                    target@,
                    s@[j],
                ),
                forall|j: int| 0 <= j < t ==> crate::series::cell_ok(
                    target@,
                    (#[trigger] cells@[j])@,
                ),
            decreases slen - t,
        {
            let cell = match s.get(t) {
                Cell::Str(txt) => parse_cell(txt.as_str(), &target),
                Cell::Null => Cell::Null,
                _ => Cell::Null,
            };
            proof {
                assert(crate::series::cell_ok(self.spec_dtypes()[index as int], s@[t as int]));
            }
            cells.push(cell);
            t += 1;
        }
        let series = match Series::new(target.duplicate(), cells) {
            Ok(x) => x,
            Err(_) => {
                proof {
                    assert(false);
                }
                return Err(Error::TypeMismatch);
            },
        };
        let ghost newcol = series@;
        let mut field = self.fields.remove(index);
        field.data_type = target;
        self.fields.insert(index, field);
        self.data.remove(index);
        self.data.insert(index, series);
        proof {
            assert(self.fields@ =~= old(self).fields@.update(index as int, self.fields@[index as int]));
            assert(self.data@ =~= old(self).data@.update(index as int, self.data@[index as int]));
            assert(self.spec_fields() =~= old(self).spec_fields().update(
                index as int,
                self.spec_fields()[index as int],
            ));
            assert(self.spec_cols() =~= old(self).spec_cols().update(index as int, newcol));
            assert(self.spec_dtypes() =~= old(self).spec_dtypes().update(index as int, target@));
            assert forall|j: int| 0 <= j < self.fields@.len() implies (
            #[trigger] self.fields@[j]).wf() by {
                assert(old(self).fields@[j].wf());
                if j == index as int {
                    assert(self.fields@[j].metadata == old(self).fields@[j].metadata);
                }
            }
            assert forall|j: int| 0 <= j < self.data@.len() implies (
            #[trigger] self.data@[j]).wf() by {
                assert(old(self).data@[j].wf());
            }
            assert forall|k: int| 0 <= k < self.spec_cols().len() implies (
            #[trigger] self.spec_cols()[k]).len() == self.spec_rows() by {
                assert(old(self).spec_cols()[k].len() == old(self).spec_rows());
                assert(newcol.len() == old(self).spec_cols()[index as int].len());
            }
            assert(spec_parse_applies(*old(self), *self, index as int, target@)) by {
                assert(newcol.len() == old(self).spec_cols()[index as int].len());
                assert forall|j: int| 0 <= j < newcol.len() implies newcol[j] == spec_parse_cell(
                    target@,
                    old(self).spec_cols()[index as int][j],
                ) by {
                    assert(newcol[j] == cells@[j]@);
                }
            }
        }
        Ok(())
    }
}

/// The fields after matching the first `k` names by positional swap.
pub open spec fn spec_reorder(fields: Seq<FieldV>, names: Seq<Seq<char>>, k: int) -> Seq<FieldV>
    decreases k,
{
    if k <= 0 {
        fields
    } else {
        let prev = spec_reorder(fields, names, k - 1);
        match crate::concat::spec_find(prev, names[k - 1]) {
            Some(pos) => if pos == k - 1 {
                prev
            } else {
                prev.update(k - 1, prev[pos]).update(pos, prev[k - 1])
            },
            None => prev,
        }
    }
}

/// The columns after the same swaps.
pub open spec fn spec_reorder_cols(
    fields: Seq<FieldV>,
    cols: Seq<Seq<CellV>>,
    names: Seq<Seq<char>>,
    k: int,
) -> Seq<Seq<CellV>>
    decreases k,
{
    if k <= 0 {
        cols
    } else {
        let pf = spec_reorder(fields, names, k - 1);
        let pc = spec_reorder_cols(fields, cols, names, k - 1);
        match crate::concat::spec_find(pf, names[k - 1]) {
            Some(pos) => if pos == k - 1 {
                pc
            } else {
                pc.update(k - 1, pc[pos]).update(pos, pc[k - 1])
            },
            None => pc,
        }
    }
}

/// The native storage types after the same swaps.
pub open spec fn spec_reorder_dtypes(
    fields: Seq<FieldV>,
    dtypes: Seq<DataTypeV>,
    names: Seq<Seq<char>>,
    k: int,
) -> Seq<DataTypeV>
    decreases k,
{
    if k <= 0 {
        dtypes
    } else {
        let pf = spec_reorder(fields, names, k - 1);
        let pd = spec_reorder_dtypes(fields, dtypes, names, k - 1);
        match crate::concat::spec_find(pf, names[k - 1]) {
            Some(pos) => if pos == k - 1 {
                pd
            } else {
                pd.update(k - 1, pd[pos]).update(pos, pd[k - 1])
            },
            None => pd,
        }
    }
}

/// Swap two elements of a vector.
fn vec_swap<T>(v: &mut Vec<T>, a: usize, b: usize)
    requires
        a < old(v)@.len(),
        b < old(v)@.len(),
    ensures
        final(v)@ =~= old(v)@.update(a as int, old(v)@[b as int]).update(
            b as int,
            old(v)@[a as int],
        ),
{
    if a == b {
        proof {
            assert(v@ =~= old(v)@.update(a as int, old(v)@[b as int]).update(
                b as int,
                old(v)@[a as int],
            ));
        }
        return ;
    }
    let lo: usize = if a < b {
        a
    } else {
        b
    };
    let hi: usize = if a < b {
        b
    } else {
        a
    };
    let x_hi = v.remove(hi);
    let x_lo = v.remove(lo);
    v.insert(lo, x_hi);
    v.insert(hi, x_lo);
    proof {
        assert(v@ =~= old(v)@.update(a as int, old(v)@[b as int]).update(
            b as int,
            old(v)@[a as int],
        ));
    }
}

/// A typed integer scalar for the per-column numeric transforms.
#[derive(Clone, Copy, Debug)]
pub enum Num {
    I8(i8),
    I16(i16),
    I32(i32),
    I64(i64),
    U8(u8),
    U16(u16),
    U32(u32),
    U64(u64),
}

/// One element-wise transform.
#[derive(Clone, Copy, Debug, PartialEq, Eq, Structural)]
pub enum ArithOp {
    Add,
    Sub,
    Mul,
    Div,
}

/// The storage kind a scalar operates on.
pub open spec fn spec_num_code(v: Num) -> u8 {
    match v {
        Num::I8(_) => 1,
        Num::I16(_) => 2,
        Num::I32(_) => 3,
        Num::I64(_) => 4,
        Num::U8(_) => 5,
        Num::U16(_) => 6,
        Num::U32(_) => 7,
        Num::U64(_) => 8,
    }
}

/// Truncated division, as the machine performs it.
pub open spec fn spec_tdiv(a: int, b: int) -> int {
    if a >= 0 && b > 0 {
        a / b
    } else if a < 0 && b > 0 {
        -((-a) / b)
    } else if a >= 0 && b < 0 {
        -(a / (-b))
    } else {
        (-a) / (-b)
    }
}

/// The mathematical result of one transform.
pub open spec fn spec_arith_val(op: ArithOp, x: int, s: int) -> int {
    match op {
        ArithOp::Add => x + s,
        ArithOp::Sub => x - s,
        ArithOp::Mul => x * s,
        ArithOp::Div => spec_tdiv(x, s),
    }
}

/// The mathematical value of a scalar.
pub open spec fn spec_num_val(v: Num) -> int {
    match v {
        Num::I8(x) => x as int,
        Num::I16(x) => x as int,
        Num::I32(x) => x as int,
        Num::I64(x) => x as int,
        Num::U8(x) => x as int,
        Num::U16(x) => x as int,
        Num::U32(x) => x as int,
        Num::U64(x) => x as int,
    }
}

/// The mathematical value of a non-null integer cell.
pub open spec fn spec_cell_val(c: CellV) -> int {
    match c {
        CellV::I8(x) => x as int,
        CellV::I16(x) => x as int,
        CellV::I32(x) => x as int,
        CellV::I64(x) => x as int,
        CellV::U8(x) => x as int,
        CellV::U16(x) => x as int,
        CellV::U32(x) => x as int,
        CellV::U64(x) => x as int,
        _ => 0,
    }
}

/// Whether the transform on one cell stays in the cell's range and divides
/// by nothing forbidden; null cells always pass.
pub open spec fn spec_arith_ok(op: ArithOp, dt: DataTypeV, c: CellV, v: Num) -> bool {
    match c {
        CellV::Null => true,
        _ => {
            let r = spec_arith_val(op, spec_cell_val(c), spec_num_val(v));
            &&& (op == ArithOp::Div ==> spec_num_val(v) != 0)
            &&& spec_int_lo(dt) <= r <= spec_int_hi(dt)
        },
    }
}

/// The transformed cell: nulls stay null, values are transformed.
pub open spec fn spec_arith_cell(op: ArithOp, dt: DataTypeV, c: CellV, v: Num) -> CellV {
    match c {
        CellV::Null => CellV::Null,
        _ => spec_int_cell(dt, spec_arith_val(op, spec_cell_val(c), spec_num_val(v))),
    }
}

/// How a transformed column relates to its source.
pub open spec fn spec_arith_applies(
    before: DataFrame,
    after: DataFrame,
    i: int,
    op: ArithOp,
    v: Num,
) -> bool {
    &&& after.spec_fields() == before.spec_fields()
    &&& after.spec_meta() == before.spec_meta()
    &&& after.spec_dtypes() =~= before.spec_dtypes()
    &&& after.spec_cols() =~~= before.spec_cols().update(
        i,
        before.spec_cols()[i].map(
            |q: int, c: CellV| spec_arith_cell(op, before.spec_dtypes()[i], c, v),
        ),
    )
}

/// Truncated 64-bit signed division.
fn tdiv_i64(x: i64, s: i64) -> (r: i64)
    requires
        s != 0,
        !(x == i64::MIN && s == -1),
        i64::MIN <= spec_tdiv(x as int, s as int) <= i64::MAX,
    ensures
        r == spec_tdiv(x as int, s as int),
{
    let magx: u64 = if x >= 0 {
        x as u64
    } else {
        ((-(x + 1)) as u64) + 1
    };
    let mags: u64 = if s >= 0 {
        s as u64
    } else {
        ((-(s + 1)) as u64) + 1
    };
    let q = magx / mags;
    proof {
        assert(magx as int == if x >= 0 {
            x as int
        } else {
            -(x as int)
        });
        assert(mags as int == if s >= 0 {
            s as int
        } else {
            -(s as int)
        });
    }
    if (x >= 0) == (s >= 0) {
        proof {
            assert(q == spec_tdiv(x as int, s as int));
        }
        q as i64
    } else {
        proof {
            assert(q as int == if x >= 0 {
                (x as int) / -(s as int)
            } else {
                (-(x as int)) / (s as int)
            });
            assert(-(q as int) == spec_tdiv(x as int, s as int));
        }
        if q == 0 {
            0
        } else {
            -((q - 1) as i64) - 1
        }
    }
}

/// Apply one transform to one cell.
fn arith_cell(cell: &Cell, v: Num, op: ArithOp, dt: &DataType) -> (r: Cell)
    requires
        crate::series::cell_ok(dt@, cell@),
        spec_num_code(v) == crate::series::spec_storage_code(dt@),
        spec_int_type(dt@),
        spec_arith_ok(op, dt@, cell@, v),
    ensures
        r@ == spec_arith_cell(op, dt@, cell@, v),
        crate::series::cell_ok(dt@, r@),
{
    match (cell, v) {
        (Cell::Null, _) => Cell::Null,
        (Cell::I8(x), Num::I8(s)) => {
            let xi: i64 = *x as i64;
            let si: i64 = s as i64;
            let rr: i64 = match op {
                ArithOp::Add => xi + si,
                ArithOp::Sub => xi - si,
                ArithOp::Mul => xi * si,
                ArithOp::Div => tdiv_i64(xi, si),
            };
            Cell::I8(rr as i8)
        },
        (Cell::I16(x), Num::I16(s)) => {
            let xi: i64 = *x as i64;
            let si: i64 = s as i64;
            let rr: i64 = match op {
                ArithOp::Add => xi + si,
                ArithOp::Sub => xi - si,
                ArithOp::Mul => xi * si,
                ArithOp::Div => tdiv_i64(xi, si),
            };
            Cell::I16(rr as i16)
        },
        (Cell::I32(x), Num::I32(s)) => {
            let xi: i64 = *x as i64;
            let si: i64 = s as i64;
            let rr: i64 = match op {
                ArithOp::Add => xi + si,
                ArithOp::Sub => xi - si,
                ArithOp::Mul => xi * si,
                ArithOp::Div => tdiv_i64(xi, si),
            };
            Cell::I32(rr as i32)
        },
        (Cell::I64(x), Num::I64(s)) => {
            let rr: i64 = match op {
                ArithOp::Add => *x + s,
                ArithOp::Sub => *x - s,
                ArithOp::Mul => *x * s,
                ArithOp::Div => tdiv_i64(*x, s),
            };
            Cell::I64(rr)
        },
        (Cell::U8(x), Num::U8(s)) => {
            let xi: u64 = *x as u64;
            let si: u64 = s as u64;
            let rr: u64 = match op {
                ArithOp::Add => xi + si,
                ArithOp::Sub => xi - si,
                ArithOp::Mul => xi * si,
                ArithOp::Div => xi / si,
            };
            Cell::U8(rr as u8)
        },
        (Cell::U16(x), Num::U16(s)) => {
            let xi: u64 = *x as u64;
            let si: u64 = s as u64;
            let rr: u64 = match op {
                ArithOp::Add => xi + si,
                ArithOp::Sub => xi - si,
                ArithOp::Mul => xi * si,
                ArithOp::Div => xi / si,
            };
            Cell::U16(rr as u16)
        },
        (Cell::U32(x), Num::U32(s)) => {
            let xi: u64 = *x as u64;
            let si: u64 = s as u64;
            let rr: u64 = match op {
                ArithOp::Add => xi + si,
                ArithOp::Sub => xi - si,
                ArithOp::Mul => xi * si,
                ArithOp::Div => xi / si,
            };
            Cell::U32(rr as u32)
        },
        (Cell::U64(x), Num::U64(s)) => {
            let rr: u64 = match op {
                ArithOp::Add => *x + s,
                ArithOp::Sub => *x - s,
                ArithOp::Mul => *x * s,
                ArithOp::Div => *x / s,
            };
            Cell::U64(rr)
        },
        _ => {
            proof {
                assert(false);
            }
            Cell::Null
        },
    }
}

/// The fields' names, in column order.
pub open spec fn spec_field_names(fs: Seq<FieldV>) -> Seq<Seq<char>> {
    fs.map(|i: int, f: FieldV| f.name)
}

/// Lexicographic order on character runs, by code point.
pub open spec fn lex_le(a: Seq<char>, b: Seq<char>) -> bool
    decreases a.len(),
{
    if a.len() == 0 {
        true
    } else if b.len() == 0 {
        false
    } else if a[0] != b[0] {
        (a[0] as u32) < (b[0] as u32)
    } else {
        lex_le(a.drop_first(), b.drop_first())
    }
}

/// The order ignores an equal prefix.
proof fn lemma_lex_skip(a: Seq<char>, b: Seq<char>, i: int)
    requires
        0 <= i <= a.len(),
        i <= b.len(),
        forall|j: int| 0 <= j < i ==> a[j] == b[j],
    ensures
        lex_le(a, b) == lex_le(a.skip(i), b.skip(i)),
    decreases i,
{
    if i == 0 {
        assert(a.skip(0) =~= a);
        assert(b.skip(0) =~= b);
    } else {
        assert(a.drop_first().skip(i - 1) =~= a.skip(i));
        assert(b.drop_first().skip(i - 1) =~= b.skip(i));
        lemma_lex_skip(a.drop_first(), b.drop_first(), i - 1);
    }
}

/// The order is total.
proof fn lemma_lex_total(a: Seq<char>, b: Seq<char>)
    ensures
        lex_le(a, b) || lex_le(b, a),
    decreases a.len(),
{
    broadcast use vstd::utf8::char_u32_cast;

    if a.len() > 0 && b.len() > 0 {
        if a[0] == b[0] {
            lemma_lex_total(a.drop_first(), b.drop_first());
        } else {
            vstd::utf8::char_u32_cast(a[0], a[0] as u32);
            vstd::utf8::char_u32_cast(b[0], b[0] as u32);
            assert((a[0] as u32) != (b[0] as u32));
        }
    }
}

/// The order is transitive.
proof fn lemma_lex_trans(a: Seq<char>, b: Seq<char>, c: Seq<char>)
    requires
        lex_le(a, b),
        lex_le(b, c),
    ensures
        lex_le(a, c),
    decreases a.len(),
{
    broadcast use vstd::utf8::char_u32_cast;

    if a.len() > 0 && b.len() > 0 && c.len() > 0 {
        vstd::utf8::char_u32_cast(a[0], a[0] as u32);
        vstd::utf8::char_u32_cast(b[0], b[0] as u32);
        vstd::utf8::char_u32_cast(c[0], c[0] as u32);
        if a[0] == b[0] && b[0] == c[0] {
            lemma_lex_trans(a.drop_first(), b.drop_first(), c.drop_first());
        }
    }
}

/// Compare two strings in the lexicographic order.
fn str_lex_le(x: &str, y: &str) -> (r: bool)
    ensures
        r == lex_le(x@, y@),
{
    let nx = x.unicode_len();
    let ny = y.unicode_len();
    let mut i: usize = 0;
    while i < nx && i < ny
        invariant
            nx == x@.len(),
            ny == y@.len(),
            i <= nx,
            i <= ny,
            forall|j: int| 0 <= j < i ==> x@[j] == y@[j],
        decreases nx - i,
    {
        let cx = x.get_char(i);
        let cy = y.get_char(i);
        if cx != cy {
            proof {
                lemma_lex_skip(x@, y@, i as int);
                assert(x@.skip(i as int)[0] == x@[i as int]);
                assert(y@.skip(i as int)[0] == y@[i as int]);
            }
            return (cx as u32) < (cy as u32);
        }
        i += 1;
    }
    proof {
        lemma_lex_skip(x@, y@, i as int);
        if i == nx {
            assert(x@.skip(i as int).len() == 0);
        } else {
            assert(y@.skip(i as int).len() == 0);
            assert(x@.skip(i as int).len() > 0);
        }
    }
    nx <= ny
}

/// The runs are pairwise in order.
pub open spec fn names_sorted(ns: Seq<Seq<char>>) -> bool {
    forall|i: int, j: int| 0 <= i < j < ns.len() ==> lex_le(#[trigger] ns[i], #[trigger] ns[j])
}

/// Sort strings into the lexicographic order, keeping the multiset of
/// contents.
fn sort_names(input: Vec<String>) -> (r: Vec<String>)
    ensures
        r@.map(|i: int, v: String| v@).to_multiset() == input@.map(
            |i: int, v: String| v@,
        ).to_multiset(),
        names_sorted(r@.map(|i: int, v: String| v@)),
        r@.len() == input@.len(),
{
    broadcast use vstd::seq_lib::group_to_multiset_ensures;
    broadcast use vstd::multiset::group_multiset_axioms;

    let ghost orig = input@.map(|i: int, v: String| v@);
    let mut rest = input;
    let mut out: Vec<String> = Vec::new();
    proof {
        assert(out@.map(|i: int, v: String| v@) =~= Seq::<Seq<char>>::empty());
        assert(out@.map(|i: int, v: String| v@).to_multiset().add(
            rest@.map(|i: int, v: String| v@).to_multiset(),
        ) =~= orig.to_multiset());
    }
    while rest.len() > 0
        invariant
            out@.map(|i: int, v: String| v@).to_multiset().add(
                rest@.map(|i: int, v: String| v@).to_multiset(),
            ) == orig.to_multiset(),
            out@.len() + rest@.len() == orig.len(),
            names_sorted(out@.map(|i: int, v: String| v@)),
            forall|i: int, j: int|
                0 <= i < out@.len() && 0 <= j < rest@.len() ==> lex_le(
                    (#[trigger] out@[i])@,
                    (#[trigger] rest@[j])@,
                ),
        decreases rest@.len(),
    {
        // Find the least remaining name.
        let n = rest.len();
        proof {
            lemma_lex_total(rest@[0].view(), rest@[0].view());
        }
        let mut m: usize = 0;
        let mut k: usize = 1;
        while k < n
            invariant
                n == rest@.len(),
                m < n,
                k <= n,
                forall|j: int| 0 <= j < k ==> lex_le(rest@[m as int]@, (#[trigger] rest@[j])@),
            decreases n - k,
        {
            proof {
                lemma_lex_total(rest@[k as int]@, rest@[m as int]@);
            }
            if str_lex_le(rest[k].as_str(), rest[m].as_str()) {
                proof {
                    assert forall|j: int| 0 <= j < k + 1 implies lex_le(
                        rest@[k as int]@,
                        (#[trigger] rest@[j])@,
                    ) by {
                        if j < k {
                            lemma_lex_trans(rest@[k as int]@, rest@[m as int]@, rest@[j]@);
                        } else {
                            lemma_lex_total(rest@[k as int]@, rest@[k as int]@);
                        }
                    }
                }
                m = k;
            }
            k += 1;
        }
        let ghost restb = rest@.map(|i: int, v: String| v@);
        let ghost outb = out@.map(|i: int, v: String| v@);
        let x = rest.remove(m);
        out.push(x);
        proof {
            assert(rest@.map(|i: int, v: String| v@) =~= restb.remove(m as int));
            assert(out@.map(|i: int, v: String| v@) =~= outb.push(restb[m as int]));
            restb.to_multiset_ensures();
            outb.to_multiset_ensures();
            assert(restb.remove(m as int).to_multiset() =~= restb.to_multiset().remove(
                restb[m as int],
            ));
            assert(outb.push(restb[m as int]).to_multiset() =~= outb.to_multiset().insert(
                restb[m as int],
            ));
            assert(restb.to_multiset().count(restb[m as int]) > 0) by {
                assert(restb.contains(restb[m as int]));
            }
            assert(out@.map(|i: int, v: String| v@).to_multiset().add(
                rest@.map(|i: int, v: String| v@).to_multiset(),
            ) =~= orig.to_multiset());
            assert forall|i: int, j: int|
                0 <= i < out@.len() && 0 <= j < rest@.len() implies lex_le(
                (#[trigger] out@[i])@,
                (#[trigger] rest@[j])@,
            ) by {
                let rj = if j < m as int {
                    j
                } else {
                    j + 1
                };
                if i < out@.len() - 1 {
                    assert(lex_le(outb[i], restb[rj]));
                } else {
                    assert(lex_le(restb[m as int], restb[rj]));
                }
            }
        }
    }
    proof {
        assert(rest@.map(|i: int, v: String| v@).to_multiset() =~= Multiset::<Seq<char>>::empty());
        assert(out@.map(|i: int, v: String| v@).to_multiset() =~= out@.map(
            |i: int, v: String| v@,
        ).to_multiset().add(rest@.map(|i: int, v: String| v@).to_multiset()));
    }
    out
}

/// Two positions that are both the first field carrying a name coincide.
proof fn lemma_first_match_unique(fs: Seq<FieldV>, name: Seq<char>, i: int)
    requires
        0 <= i < fs.len(),
        fs[i].name == name,
        forall|j: int| 0 <= j < i ==> fs[j].name != name,
    ensures
        forall|k: int|
            (0 <= k < fs.len() && fs[k].name == name && (forall|j: int|
                0 <= j < k ==> fs[j].name != name)) ==> k == i,
{
}

/// Integer types the parser materializes to.
pub open spec fn spec_int_type(dt: DataTypeV) -> bool {
    match dt {
        DataTypeV::Int8 | DataTypeV::Int16 | DataTypeV::Int32 | DataTypeV::Int64 => true,
        DataTypeV::UInt8 | DataTypeV::UInt16 | DataTypeV::UInt32 | DataTypeV::UInt64 => true,
        _ => false,
    }
}

/// The inclusive range of an integer type.
pub open spec fn spec_int_lo(dt: DataTypeV) -> int {
    match dt {
        DataTypeV::Int8 => -128,
        DataTypeV::Int16 => -32768,
        DataTypeV::Int32 => -2147483648,
        DataTypeV::Int64 => -0x8000000000000000,
        _ => 0,
    }
}

pub open spec fn spec_int_hi(dt: DataTypeV) -> int {
    match dt {
        DataTypeV::Int8 => 127,
        DataTypeV::Int16 => 32767,
        DataTypeV::Int32 => 2147483647,
        DataTypeV::Int64 => 0x7fffffffffffffff,
        DataTypeV::UInt8 => 255,
        DataTypeV::UInt16 => 65535,
        DataTypeV::UInt32 => 4294967295,
        DataTypeV::UInt64 => 0xffffffffffffffff,
        _ => 0,
    }
}

/// The integer cell of type `dt` holding mathematical value `v`.
pub open spec fn spec_int_cell(dt: DataTypeV, v: int) -> CellV {
    match dt {
        DataTypeV::Int8 => CellV::I8(v as i8),
        DataTypeV::Int16 => CellV::I16(v as i16),
        DataTypeV::Int32 => CellV::I32(v as i32),
        DataTypeV::Int64 => CellV::I64(v as i64),
        DataTypeV::UInt8 => CellV::U8(v as u8),
        DataTypeV::UInt16 => CellV::U16(v as u16),
        DataTypeV::UInt32 => CellV::U32(v as u32),
        DataTypeV::UInt64 => CellV::U64(v as u64),
        _ => CellV::Null,
    }
}

/// The value of decimal digits, most significant first; nothing unless every
/// character is a digit and there is at least one.
pub open spec fn spec_digits_val(s: Seq<char>) -> Option<int>
    decreases s.len(),
{
    if s.len() == 0 {
        None
    } else if s.len() == 1 {
        spec_digit_val(s[0])
    } else {
        match spec_digits_val(s.drop_last()) {
            None => None,
            Some(hi) => match spec_digit_val(s.last()) {
                None => None,
                Some(d) => Some(hi * 10 + d),
            },
        }
    }
}

/// The value of one decimal digit character.
pub open spec fn spec_digit_val(c: char) -> Option<int> {
    if c == '0' {
        Some(0)
    } else if c == '1' {
        Some(1)
    } else if c == '2' {
        Some(2)
    } else if c == '3' {
        Some(3)
    } else if c == '4' {
        Some(4)
    } else if c == '5' {
        Some(5)
    } else if c == '6' {
        Some(6)
    } else if c == '7' {
        Some(7)
    } else if c == '8' {
        Some(8)
    } else if c == '9' {
        Some(9)
    } else {
        None
    }
}

/// The integer a piece of text denotes: an optional sign followed by at
/// least one decimal digit.
pub open spec fn spec_str_int(s: Seq<char>) -> Option<int> {
    if s.len() == 0 {
        None
    } else if s[0] == '-' {
        match spec_digits_val(s.drop_first()) {
            None => None,
            Some(v) => Some(-v),
        }
    } else if s[0] == '+' {
        spec_digits_val(s.drop_first())
    } else {
        spec_digits_val(s)
    }
}

/// The unsigned integer types.
pub open spec fn spec_unsigned_type(dt: DataTypeV) -> bool {
    match dt {
        DataTypeV::UInt8 | DataTypeV::UInt16 | DataTypeV::UInt32 | DataTypeV::UInt64 => true,
        _ => false,
    }
}

/// What one string cell parses to: the typed value when the text denotes an
/// integer in the target's range, null otherwise. A minus sign makes the
/// text unparsable for an unsigned target, as machine unsigned parsing has
/// it, so even a minus-signed zero becomes null there.
pub open spec fn spec_parse_cell(dt: DataTypeV, c: CellV) -> CellV {
    match c {
        CellV::Str(s) => if spec_unsigned_type(dt) && s.len() > 0 && s[0] == '-' {
            CellV::Null
        } else {
            match spec_str_int(s) {
                Some(v) => if spec_int_lo(dt) <= v <= spec_int_hi(dt) {
                    spec_int_cell(dt, v)
                } else {
                    CellV::Null
                },
                None => CellV::Null,
            }
        },
        _ => CellV::Null,
    }
}

/// How a parsed column relates to its source: the field's declared type
/// becomes the target, every string cell is parsed under the target's range,
/// and everything else is unchanged.
pub open spec fn spec_parse_applies(
    before: DataFrame,
    after: DataFrame,
    i: int,
    target: DataTypeV,
) -> bool {
    &&& spec_int_type(target)
    &&& before.spec_dtypes()[i] == DataTypeV::LargeUtf8
    &&& after.spec_fields() =~= before.spec_fields().update(
        i,
        FieldV {
            name: before.spec_fields()[i].name,
            data_type: target,
            metadata: before.spec_fields()[i].metadata,
        },
    )
    &&& after.spec_cols() =~~= before.spec_cols().update(
        i,
        before.spec_cols()[i].map(|q: int, c: CellV| spec_parse_cell(target, c)),
    )
    &&& after.spec_dtypes() =~= before.spec_dtypes().update(i, target)
    &&& after.spec_meta() == before.spec_meta()
}

/// Parse one string as an integer of the target type, or null.
fn parse_cell(txt: &str, target: &DataType) -> (r: Cell)
    requires
        spec_int_type(target@),
    ensures
        r@ == spec_parse_cell(target@, CellV::Str(txt@)),
        crate::series::cell_ok(target@, r@),
{
    let n = txt.unicode_len();
    if n == 0 {
        return Cell::Null;
    }
    let first = txt.get_char(0);
    let neg = first == '-';
    let signed_start: usize = if first == '-' || first == '+' {
        1
    } else {
        0
    };
    if n == signed_start {
        proof {
            assert(txt@.drop_first().len() == 0);
        }
        return Cell::Null;
    }
    // Accumulate the digit magnitude, tracking overflow past u64 range.
    let mut acc: u64 = 0;
    let mut over: bool = false;
    let mut i: usize = signed_start;
    let ghost digits = txt@.skip(signed_start as int);
    proof {
        assert(digits.take(0) =~= Seq::<char>::empty());
    }
    while i < n
        invariant
            spec_int_type(target@),
            signed_start <= i <= n,
            n == txt@.len(),
            n >= 1,
            n > signed_start,
            signed_start == 0 || signed_start == 1,
            (signed_start == 1) == (txt@[0] == '-' || txt@[0] == '+'),
            neg == (txt@[0] == '-'),
            digits == txt@.skip(signed_start as int),
            digits.len() == n - signed_start,
            forall|j: int| 0 <= j < i - signed_start ==> digits[j] == txt@[signed_start + j],
            ({
                let sofar = spec_digits_val(digits.take(i - signed_start));
                if i == signed_start {
                    !over && acc == 0
                } else {
                    match sofar {
                        None => over && acc == 0,
                        Some(v) => if over {
                            v > u64::MAX
                        } else {
                            acc == v
                        },
                    }
                }
            }),
        decreases n - i,
    {
        let c = txt.get_char(i);
        let d: u64 = if c == '0' {
            0
        } else if c == '1' {
            1
        } else if c == '2' {
            2
        } else if c == '3' {
            3
        } else if c == '4' {
            4
        } else if c == '5' {
            5
        } else if c == '6' {
            6
        } else if c == '7' {
            7
        } else if c == '8' {
            8
        } else if c == '9' {
            9
        } else {
            proof {
                assert(digits[i - signed_start] == txt@[i as int]);
                lemma_digits_val_bad(digits, i - signed_start);
                if signed_start == 1 {
                    assert(txt@.drop_first() =~= digits);
                } else {
                    assert(txt@ =~= digits);
                }
            }
            return Cell::Null;
        };
        proof {
            assert(digits.take(i - signed_start + 1).drop_last() =~= digits.take(
                i - signed_start,
            ));
            assert(digits.take(i - signed_start + 1).last() == digits[i - signed_start]);
            assert(digits[i - signed_start] == txt@[i as int]);
            if i - signed_start > 0 {
                lemma_digits_val_nonneg(digits.take(i - signed_start));
            }
        }
        if over {
            proof {
                lemma_digits_val_nonneg(digits.take(i - signed_start));
            }
        } else if acc > (u64::MAX - d) / 10 {
            over = true;
            acc = 0;
            proof {
                assert(spec_digits_val(digits.take(i - signed_start + 1)) is Some);
            }
        } else {
            acc = acc * 10 + d;
        }
        i += 1;
    }
    proof {
        assert(digits.take(n - signed_start) =~= digits);
        if signed_start == 1 {
            assert(txt@.drop_first() =~= digits);
        } else {
            assert(txt@ =~= digits);
        }
    }
    if over {
        return Cell::Null;
    }
    // The magnitude fits a 64-bit word; apply the sign and the range check.
    let v_lo = acc;
    match target {
        DataType::Int8 => if !neg && v_lo <= 127 {
            Cell::I8(v_lo as i8)
        } else if neg && v_lo <= 128 {
            Cell::I8((0i16 - (v_lo as i16)) as i8)
        } else {
            Cell::Null
        },
        DataType::Int16 => if !neg && v_lo <= 32767 {
            Cell::I16(v_lo as i16)
        } else if neg && v_lo <= 32768 {
            Cell::I16((0i32 - (v_lo as i32)) as i16)
        } else {
            Cell::Null
        },
        DataType::Int32 => if !neg && v_lo <= 2147483647 {
            Cell::I32(v_lo as i32)
        } else if neg && v_lo <= 2147483648 {
            Cell::I32((0i64 - (v_lo as i64)) as i32)
        } else {
            Cell::Null
        },
        DataType::Int64 => if !neg && v_lo <= 0x7fffffffffffffff {
            Cell::I64(v_lo as i64)
        } else if neg && v_lo <= 0x8000000000000000 {
            Cell::I64((0i128 - (v_lo as i128)) as i64)
        } else {
            Cell::Null
        },
        DataType::UInt8 => if !neg && v_lo <= 255 {
            Cell::U8(v_lo as u8)
        } else {
            Cell::Null
        },
        DataType::UInt16 => if !neg && v_lo <= 65535 {
            Cell::U16(v_lo as u16)
        } else {
            Cell::Null
        },
        DataType::UInt32 => if !neg && v_lo <= 4294967295 {
            Cell::U32(v_lo as u32)
        } else {
            Cell::Null
        },
        _ => if !neg {
            Cell::U64(v_lo)
        } else {
            Cell::Null
        },
    }
}

/// A run holding a non-digit character has no value.
proof fn lemma_digits_val_bad(s: Seq<char>, j: int)
    requires
        0 <= j < s.len(),
        spec_digit_val(s[j]) is None,
    ensures
        spec_digits_val(s) is None,
    decreases s.len(),
{
    if s.len() > 1 && j < s.len() - 1 {
        lemma_digits_val_bad(s.drop_last(), j);
    }
}

proof fn lemma_digits_val_nonneg(s: Seq<char>)
    ensures
        spec_digits_val(s) matches Some(v) ==> v >= 0,
    decreases s.len(),
{
    if s.len() > 1 {
        lemma_digits_val_nonneg(s.drop_last());
    }
}

/// Approximate byte size of one column.
pub open spec fn spec_series_size(s: Series) -> int {
    s@.len() * crate::series::spec_byte_width(s.spec_dtype())
}

/// Approximate byte size of a sequence of columns.
pub open spec fn spec_size_sum(ds: Seq<Series>) -> int
    decreases ds.len(),
{
    if ds.len() == 0 {
        0
    } else {
        spec_size_sum(ds.drop_last()) + spec_series_size(ds.last())
    }
}

proof fn lemma_series_size_nonneg(s: Series)
    ensures
        spec_series_size(s) >= 0,
{
    let a = s@.len() as int;
    let b = crate::series::spec_byte_width(s.spec_dtype()) as int;
    assert(a * b >= 0) by (nonlinear_arith)
        requires
            a >= 0,
            b >= 0,
    ;
}

proof fn lemma_size_sum_nonneg(ds: Seq<Series>)
    ensures
        spec_size_sum(ds) >= 0,
    decreases ds.len(),
{
    if ds.len() > 0 {
        lemma_size_sum_nonneg(ds.drop_last());
        lemma_series_size_nonneg(ds.last());
    }
}

/// Any prefix sum is at most the whole sum.
proof fn lemma_size_prefix_le(ds: Seq<Series>, i: int)
    requires
        0 <= i <= ds.len(),
    ensures
        spec_size_sum(ds.take(i)) <= spec_size_sum(ds),
    decreases ds.len() - i,
{
    if i == ds.len() {
        assert(ds.take(i) =~= ds);
    } else {
        lemma_size_prefix_le(ds, i + 1);
        assert(ds.take(i + 1).drop_last() =~= ds.take(i));
        assert(ds.take(i + 1).last() == ds[i]);
        lemma_series_size_nonneg(ds[i]);
    }
}

} // verus!
