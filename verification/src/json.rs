//! Typed JSON materializer: build a column store from a structured JSON
//! object using a caller-declared name-to-type mapping, null-padding any
//! declared column missing from the input.

use vstd::prelude::*;
use vstd::string::StringExecFns;
use crate::Error;
use crate::df::{DataFrame, FieldV};
use crate::series::{Cell, CellV, DataType, DataTypeV, Series, cell_ok};

verus! {

/// What a JSON number offers: its value as a signed integer, as an unsigned
/// integer (each when representable), and as 32/64-bit float bit patterns.
#[derive(Clone, Copy, Debug)]
pub struct JsonNum {
    pub as_int: Option<i64>,
    pub as_uint: Option<u64>,
    pub bits64: u64,
    pub bits32: u32,
}

/// A structured JSON value. Objects and arrays keep their element order;
/// numbers are carried by [`JsonNum`].
#[derive(Debug)]
pub enum JsonValue {
    Null,
    Bool(bool),
    Num(JsonNum),
    Str(String),
    Arr(Vec<JsonValue>),
    Obj(Vec<(String, JsonValue)>),
}

/// Logical types the materializer accepts.
pub open spec fn spec_scalar_type(dt: DataTypeV) -> bool {
    !(dt is Timestamp)
}

/// The cell a JSON scalar materializes to under the declared type, or
/// nothing when the value does not fit that type.
pub open spec fn spec_scalar_cell(dt: DataTypeV, v: JsonValue) -> Option<CellV> {
    match v {
        JsonValue::Null => Some(CellV::Null),
        JsonValue::Bool(b) => if dt == DataTypeV::Boolean {
            Some(CellV::Bool(b))
        } else {
            None
        },
        JsonValue::Num(n) => match dt {
            DataTypeV::Int8 => match n.as_int {
                Some(i) => if -128 <= i && i <= 127 {
                    Some(CellV::I8(i as i8))
                } else {
                    None
                },
                None => None,
            },
            DataTypeV::Int16 => match n.as_int {
                Some(i) => if -32768 <= i && i <= 32767 {
                    Some(CellV::I16(i as i16))
                } else {
                    None
                },
                None => None,
            },
            DataTypeV::Int32 => match n.as_int {
                Some(i) => if -2147483648 <= i && i <= 2147483647 {
                    Some(CellV::I32(i as i32))
                } else {
                    None
                },
                None => None,
            },
            DataTypeV::Int64 => match n.as_int {
                Some(i) => Some(CellV::I64(i)),
                None => None,
            },
            DataTypeV::UInt8 => match n.as_uint {
                Some(u) => if u <= 255 {
                    Some(CellV::U8(u as u8))
                } else {
                    None
                },
                None => None,
            },
            DataTypeV::UInt16 => match n.as_uint {
                Some(u) => if u <= 65535 {
                    Some(CellV::U16(u as u16))
                } else {
                    None
                },
                None => None,
            },
            DataTypeV::UInt32 => match n.as_uint {
                Some(u) => if u <= 4294967295 {
                    Some(CellV::U32(u as u32))
                } else {
                    None
                },
                None => None,
            },
            DataTypeV::UInt64 => match n.as_uint {
                Some(u) => Some(CellV::U64(u)),
                None => None,
            },
            DataTypeV::Float32 => Some(CellV::F32Bits(n.bits32)),
            DataTypeV::Float64 => Some(CellV::F64Bits(n.bits64)),
            _ => None,
        },
        JsonValue::Str(s) => if dt == DataTypeV::Utf8 || dt == DataTypeV::LargeUtf8 {
            Some(CellV::Str(s@))
        } else {
            None
        },
        JsonValue::Arr(_) => None,
        JsonValue::Obj(_) => None,
    }
}

/// Materialize every element of a JSON array, or nothing when any element
/// does not fit the declared type.
pub open spec fn spec_cells(dt: DataTypeV, items: Seq<JsonValue>) -> Option<Seq<CellV>>
    decreases items.len(),
{
    if items.len() == 0 {
        Some(Seq::<CellV>::empty())
    } else {
        match spec_cells(dt, items.drop_last()) {
            Some(pre) => match spec_scalar_cell(dt, items.last()) {
                Some(c) => Some(pre.push(c)),
                None => None,
            },
            None => None,
        }
    }
}

/// The first value stored under `key` in the object's entries.
pub open spec fn spec_lookup(m: Seq<(String, JsonValue)>, key: Seq<char>) -> Option<JsonValue>
    decreases m.len(),
{
    if m.len() == 0 {
        None
    } else if m[0].0@ == key {
        Some(m[0].1)
    } else {
        spec_lookup(m.drop_first(), key)
    }
}

/// The configured entries whose key the object carries, in configured order.
pub open spec fn spec_present(tm: Seq<(Seq<char>, DataTypeV)>, m: Seq<(String, JsonValue)>) -> Seq<
    (Seq<char>, DataTypeV),
>
    decreases tm.len(),
{
    if tm.len() == 0 {
        Seq::<(Seq<char>, DataTypeV)>::empty()
    } else if spec_lookup(m, tm.last().0) is Some {
        spec_present(tm.drop_last(), m).push(tm.last())
    } else {
        spec_present(tm.drop_last(), m)
    }
}

/// The configured entries whose key the object lacks, in configured order.
pub open spec fn spec_missing(tm: Seq<(Seq<char>, DataTypeV)>, m: Seq<(String, JsonValue)>) -> Seq<
    (Seq<char>, DataTypeV),
>
    decreases tm.len(),
{
    if tm.len() == 0 {
        Seq::<(Seq<char>, DataTypeV)>::empty()
    } else if spec_lookup(m, tm.last().0) is Some {
        spec_missing(tm.drop_last(), m)
    } else {
        spec_missing(tm.drop_last(), m).push(tm.last())
    }
}

/// Fields declared by configured entries: nullable, no per-column metadata.
pub open spec fn spec_fields_of(entries: Seq<(Seq<char>, DataTypeV)>) -> Seq<FieldV> {
    entries.map(
        |i: int, e: (Seq<char>, DataTypeV)|
            FieldV {
                name: e.0,
                data_type: e.1,
                metadata: Seq::<(Seq<char>, Seq<char>)>::empty(),
            },
    )
}

/// The row count: the array length of the first populated column, zero when
/// none is populated.
pub open spec fn spec_row_count(tm: Seq<(Seq<char>, DataTypeV)>, m: Seq<(String, JsonValue)>) -> nat {
    let pres = spec_present(tm, m);
    if pres.len() == 0 {
        0
    } else {
        match spec_lookup(m, pres[0].0) {
            Some(JsonValue::Arr(items)) => items@.len(),
            _ => 0,
        }
    }
}

/// When materialization succeeds: every configured type is in the scalar
/// whitelist, every populated column is an array of scalars that fit its
/// type, and all populated columns have one length.
pub open spec fn spec_parse_ok(tm: Seq<(Seq<char>, DataTypeV)>, m: Seq<(String, JsonValue)>) -> bool {
    &&& forall|i: int| 0 <= i < tm.len() ==> spec_scalar_type((#[trigger] tm[i]).1)
    &&& forall|i: int|
        0 <= i < tm.len() ==> match spec_lookup(m, (#[trigger] tm[i]).0) {
            Some(v) => v matches JsonValue::Arr(items) && spec_cells(tm[i].1, items@) is Some,
            None => true,
        }
    &&& forall|i: int|
        0 <= i < tm.len() ==> match spec_lookup(m, (#[trigger] tm[i]).0) {
            Some(v) => v matches JsonValue::Arr(items) && items@.len() == spec_row_count(tm, m),
            None => true,
        }
}

/// The whole contract of materialization, shared by the entry points.
pub open spec fn spec_parse_post(
    tm: Seq<(Seq<char>, DataTypeV)>,
    m: Seq<(String, JsonValue)>,
    r: Result<DataFrame, Error>,
) -> bool {
    match r {
        Ok(df) => {
            &&& spec_parse_ok(tm, m)
            &&& df.wf()
            &&& df.spec_meta() == Seq::<(Seq<char>, Seq<char>)>::empty()
            &&& df.spec_fields() == spec_fields_of(spec_present(tm, m) + spec_missing(tm, m))
            &&& df.spec_cols().len() == spec_present(tm, m).len() + spec_missing(tm, m).len()
            &&& forall|i: int|
                0 <= i < spec_present(tm, m).len() ==> match spec_lookup(
                    m,
                    (#[trigger] spec_present(tm, m)[i]).0,
                ) {
                    Some(v) => v matches JsonValue::Arr(items) && spec_cells(
                        spec_present(tm, m)[i].1,
                        items@,
                    ) == Some(df.spec_cols()[i]),
                    None => false,
                }
            &&& forall|i: int|
                spec_present(tm, m).len() <= i < df.spec_cols().len() ==> #[trigger] df.spec_cols()[i]
                    =~= Seq::new(spec_row_count(tm, m), |q: int| CellV::Null)
        },
        Err(e) => {
            &&& !spec_parse_ok(tm, m)
            &&& (e matches Error::Unimplemented(_) || e == Error::TypeMismatch || e
                == Error::RowsNotMatch)
            &&& (e matches Error::Unimplemented(_) ==> exists|i: int|
                0 <= i < tm.len() && !spec_scalar_type((#[trigger] tm[i]).1))
            &&& (e == Error::TypeMismatch ==> exists|i: int|
                0 <= i < tm.len() && (match spec_lookup(m, (#[trigger] tm[i]).0) {
                    Some(v) => !(v matches JsonValue::Arr(items) && spec_cells(tm[i].1, items@)
                        is Some),
                    None => false,
                }))
            &&& (e == Error::RowsNotMatch ==> exists|i: int, j: int|
                {
                    &&& 0 <= i < tm.len()
                    &&& 0 <= j < tm.len()
                    &&& (spec_lookup(m, (#[trigger] tm[i]).0) matches Some(v1) && (v1
                        matches JsonValue::Arr(a1) && (spec_lookup(m, (#[trigger] tm[j]).0)
                        matches Some(v2) && (v2 matches JsonValue::Arr(a2) && a1@.len()
                        != a2@.len()))))
                })
        },
    }
}

/// The materializer's configuration: an ordered name-to-type mapping.
pub struct Parser {
    type_map: Vec<(String, DataType)>,
}

impl View for Parser {
    type V = Seq<(Seq<char>, DataTypeV)>;

    closed spec fn view(&self) -> Seq<(Seq<char>, DataTypeV)> {
        self.type_map@.map(|i: int, e: (String, DataType)| (e.0@, e.1@))
    }
}

impl Parser {
    /// A materializer with no configured columns.
    pub fn new() -> (r: Parser)
        ensures
            r@ =~= Seq::<(Seq<char>, DataTypeV)>::empty(),
    {
        Parser { type_map: Vec::new() }
    }

    /// Configure one more column.
    pub fn with_type_mapping(self, name: &str, data_type: DataType) -> (r: Parser)
        ensures
            r@ =~= self@.push((name@, data_type@)),
    {
        let mut tm = self.type_map;
        let ghost before = tm@.map(|i: int, e: (String, DataType)| (e.0@, e.1@));
        tm.push((name.to_owned(), data_type));
        let r = Parser { type_map: tm };
        proof {
            assert(r@ =~= before.push((name@, data_type@)));
        }
        r
    }

    /// Materialize a store from a JSON value, which must be an object.
    pub fn parse_value(&self, value: JsonValue) -> (r: Result<DataFrame, Error>)
        ensures
            match value {
                JsonValue::Obj(map) => spec_parse_post(self@, map@, r),
                _ => r matches Err(Error::Unimplemented(_)),
            },
    {
        match value {
            JsonValue::Obj(map) => self.parse_map(map),
            _ => Err(Error::Unimplemented(String::from_str("unsupported json value type"))),
        }
    }

    /// Materialize a store from a JSON object's entries: every configured
    /// column present in the object is decoded under its declared type, and
    /// every configured column the object lacks is filled with nulls, so the
    /// caller always gets exactly the declared schema back.
    pub fn parse_map(&self, map: Vec<(String, JsonValue)>) -> (r: Result<DataFrame, Error>)
        ensures
            spec_parse_post(self@, map@, r),
    {
        let ghost tm = self@;
        let ghost m = map@;
        let mut df = DataFrame::new(Some(map.len()));
        let mut missing: Vec<(String, DataType)> = Vec::new();
        let tlen = self.type_map.len();
        let mut j: usize = 0;
        proof {
            assert(tm.take(0) =~= Seq::<(Seq<char>, DataTypeV)>::empty());
            assert(df.spec_fields() =~= spec_fields_of(spec_present(tm.take(0), m)));
            assert(missing@.map(|q: int, e: (String, DataType)| (e.0@, e.1@)) =~= spec_missing(
                tm.take(0),
                m,
            ));
        }
        while j < tlen
            invariant
                tm == self@,
                m == map@,
                tlen == tm.len(),
                tlen == self.type_map@.len(),
                j <= tlen,
                df.wf(),
                df.spec_meta() == Seq::<(Seq<char>, Seq<char>)>::empty(),
                df.spec_fields() == spec_fields_of(spec_present(tm.take(j as int), m)),
                df.spec_col_count() == spec_present(tm.take(j as int), m).len(),
                missing@.map(|q: int, e: (String, DataType)| (e.0@, e.1@)) == spec_missing(
                    tm.take(j as int),
                    m,
                ),
                forall|i: int| 0 <= i < j ==> spec_scalar_type((#[trigger] tm[i]).1),
                forall|i: int|
                    0 <= i < j ==> match spec_lookup(m, (#[trigger] tm[i]).0) {
                        Some(v) => v matches JsonValue::Arr(items) && spec_cells(tm[i].1, items@)
                            is Some,
                        None => true,
                    },
                forall|i: int|
                    0 <= i < j ==> match spec_lookup(m, (#[trigger] tm[i]).0) {
                        Some(v) => v matches JsonValue::Arr(items) && items@.len()
                            == df.spec_rows(),
                        None => true,
                    },
                forall|p: int|
                    0 <= p < spec_present(tm.take(j as int), m).len() ==> match spec_lookup(
                        m,
                        (#[trigger] spec_present(tm.take(j as int), m)[p]).0,
                    ) {
                        Some(v) => v matches JsonValue::Arr(items) && spec_cells(
                            spec_present(tm.take(j as int), m)[p].1,
                            items@,
                        ) == Some(df.spec_cols()[p]),
                        None => false,
                    },
            decreases tlen - j,
        {
            proof {
                assert(tm.take(j + 1).drop_last() =~= tm.take(j as int));
                assert(tm.take(j + 1).last() == tm[j as int]);
                assert(tm[j as int] == (self.type_map@[j as int].0@, self.type_map@[j as int].1@));
            }
            let name_ref = &self.type_map[j].0;
            let tp_ref = &self.type_map[j].1;
            if matches!(tp_ref, DataType::Timestamp(_, _)) {
                proof {
                    assert(!spec_scalar_type(tm[j as int].1));
                }
                return Err(
                    Error::Unimplemented(String::from_str("type is outside the scalar whitelist")),
                );
            }
            let found = lookup_index(&map, name_ref);
            match found {
                Some(mi) => {
                    proof {
                        lemma_lookup_at(m, name_ref@, mi as int);
                    }
                    match &map[mi].1 {
                        JsonValue::Arr(items) => {
                            let cells = match cells_from(tp_ref, items) {
                                Ok(cs) => cs,
                                Err(e) => {
                                    return Err(e);
                                },
                            };
                            let ghost gcells = cells@;
                            let ghost cvs = gcells.map(|q: int, c: Cell| c@);
                            let series = match Series::new(tp_ref.duplicate(), cells) {
                                Ok(s) => s,
                                Err(_) => {
                                    proof {
                                        assert forall|q: int| 0 <= q < gcells.len() implies
                                            cell_ok(tm[j as int].1, (#[trigger] gcells[q])@) by {
                                            assert(cvs[q] == gcells[q]@);
                                            lemma_cells_ok(tm[j as int].1, items@, cvs, q);
                                        }
                                        assert(false);
                                    }
                                    return Err(Error::TypeMismatch);
                                },
                            };
                            let ghost dfb = df;
                            let added = df.add_series0(name_ref.as_str(), series);
                            match added {
                                Ok(()) => {
                                    proof {
                                        dfb.lemma_rectangular();
                                        df.lemma_rectangular();
                                        lemma_cells_len(tm[j as int].1, items@);
                                        let presO = spec_present(tm.take(j as int), m);
                                        let presN = spec_present(tm.take(j + 1), m);
                                        assert(presN =~= presO.push(tm[j as int]));
                                        assert(spec_missing(tm.take(j + 1), m) =~= spec_missing(
                                            tm.take(j as int),
                                            m,
                                        ));
                                        assert(df.spec_fields() =~= spec_fields_of(presN));
                                        assert(df.spec_cols()[presO.len() as int] == series@);
                                        assert(spec_cells(tm[j as int].1, items@) == Some(
                                            series@,
                                        ));
                                        if presO.len() == 0 {
                                            assert(df.spec_rows() == series@.len());
                                        } else {
                                            assert(df.spec_cols()[0] == dfb.spec_cols()[0]);
                                            assert(df.spec_rows() == dfb.spec_rows());
                                        }
                                        assert forall|i: int| 0 <= i < j + 1 implies match
                                            spec_lookup(m, (#[trigger] tm[i]).0) {
                                            Some(v) => v matches JsonValue::Arr(its)
                                                && its@.len() == df.spec_rows(),
                                            None => true,
                                        } by {
                                            if i < j && spec_lookup(m, tm[i].0) is Some
                                                && presO.len() == 0 {
                                                lemma_present_member(tm.take(j as int), m, i);
                                            }
                                        }
                                        assert forall|p: int| 0 <= p < presN.len() implies match
                                            spec_lookup(m, (#[trigger] presN[p]).0) {
                                            Some(v) => v matches JsonValue::Arr(its) && spec_cells(
                                                presN[p].1,
                                                its@,
                                            ) == Some(df.spec_cols()[p]),
                                            None => false,
                                        } by {
                                            if p < presO.len() {
                                                assert(presN[p] == presO[p]);
                                                assert(df.spec_cols()[p] == dfb.spec_cols()[p]);
                                            } else {
                                                assert(presN[p] == tm[j as int]);
                                            }
                                        }
                                    }
                                },
                                Err(_) => {
                                    proof {
                                        lemma_cells_len(tm[j as int].1, items@);
                                        let presO = spec_present(tm.take(j as int), m);
                                        assert(presO.len() > 0);
                                        lemma_present_prefix(tm, m, j as int);
                                        lemma_present_source(tm.take(j as int), m, 0);
                                        let i0 = choose|i0: int|
                                            0 <= i0 < j && tm.take(j as int)[i0] == presO[0]
                                                && spec_lookup(m, tm.take(j as int)[i0].0)
                                                is Some;
                                        assert(spec_present(tm, m)[0] == presO[0]);
                                        assert(spec_row_count(tm, m) == df.spec_rows());
                                        assert(!spec_parse_ok(tm, m)) by {
                                            assert(match spec_lookup(m, tm[j as int].0) {
                                                Some(v) => !(v matches JsonValue::Arr(its)
                                                    && its@.len() == spec_row_count(tm, m)),
                                                None => false,
                                            });
                                        }
                                    }
                                    return Err(Error::RowsNotMatch);
                                },
                            }
                        },
                        _ => {
                            proof {
                                assert(!spec_parse_ok(tm, m));
                            }
                            return Err(Error::TypeMismatch);
                        },
                    }
                },
                None => {
                    proof {
                        lemma_lookup_none(m, name_ref@);
                        assert(spec_present(tm.take(j + 1), m) =~= spec_present(
                            tm.take(j as int),
                            m,
                        ));
                        assert(spec_missing(tm.take(j + 1), m) =~= spec_missing(
                            tm.take(j as int),
                            m,
                        ).push(tm[j as int]));
                    }
                    let ghost mb = missing@.map(|q: int, e: (String, DataType)| (e.0@, e.1@));
                    missing.push((name_ref.clone(), tp_ref.duplicate()));
                    proof {
                        assert(missing@.map(|q: int, e: (String, DataType)| (e.0@, e.1@))
                            =~= mb.push(tm[j as int]));
                    }
                },
            }
            j += 1;
        }
        proof {
            assert(tm.take(tlen as int) =~= tm);
        }
        let rows = match df.rows() {
            Some(rr) => rr,
            None => 0,
        };
        let ghost pres = spec_present(tm, m);
        proof {
            assert(df.spec_col_count() == pres.len());
            if pres.len() > 0 {
                lemma_present_source(tm, m, 0);
                let i0 = choose|i0: int|
                    0 <= i0 < tm.len() && #[trigger] tm[i0] == pres[0] && spec_lookup(
                        m,
                        tm[i0].0,
                    ) is Some;
                assert(match spec_lookup(m, tm[i0].0) {
                    Some(v) => v matches JsonValue::Arr(its) && its@.len() == df.spec_rows(),
                    None => true,
                });
                assert(rows == spec_row_count(tm, m));
            } else {
                assert(rows == spec_row_count(tm, m));
            }
            assert forall|i: int| 0 <= i < tm.len() implies match spec_lookup(
                m,
                (#[trigger] tm[i]).0,
            ) {
                Some(v) => v matches JsonValue::Arr(items) && items@.len() == spec_row_count(
                    tm,
                    m,
                ),
                None => true,
            } by {
                if spec_lookup(m, tm[i].0) is Some {
                    lemma_present_member(tm, m, i);
                }
            }
        }
        let mcount = missing.len();
        let mut k: usize = 0;
        proof {
            assert(spec_missing(tm, m).take(0) =~= Seq::<(Seq<char>, DataTypeV)>::empty());
            assert(pres + spec_missing(tm, m).take(0) =~= pres);
        }
        while k < mcount
            invariant
                tm == self@,
                m == map@,
                mcount == missing@.len(),
                k <= mcount,
                df.wf(),
                df.spec_meta() == Seq::<(Seq<char>, Seq<char>)>::empty(),
                pres == spec_present(tm, m),
                missing@.map(|q: int, e: (String, DataType)| (e.0@, e.1@)) == spec_missing(tm, m),
                df.spec_fields() == spec_fields_of(pres + spec_missing(tm, m).take(k as int)),
                df.spec_col_count() == pres.len() + k,
                pres.len() > 0 ==> df.spec_rows() == rows,
                pres.len() == 0 && k > 0 ==> df.spec_rows() == rows,
                rows == spec_row_count(tm, m),
                forall|p: int|
                    0 <= p < pres.len() ==> match spec_lookup(m, (#[trigger] pres[p]).0) {
                        Some(v) => v matches JsonValue::Arr(items) && spec_cells(
                            pres[p].1,
                            items@,
                        ) == Some(df.spec_cols()[p]),
                        None => false,
                    },
                forall|i: int|
                    pres.len() <= i < df.spec_col_count() ==> (#[trigger] df.spec_cols()[i])
                        =~= Seq::new(spec_row_count(tm, m), |q: int| CellV::Null),
                forall|i: int| 0 <= i < tm.len() ==> spec_scalar_type((#[trigger] tm[i]).1),
                forall|i: int|
                    0 <= i < tm.len() ==> match spec_lookup(m, (#[trigger] tm[i]).0) {
                        Some(v) => v matches JsonValue::Arr(items) && spec_cells(tm[i].1, items@)
                            is Some,
                        None => true,
                    },
                forall|i: int|
                    0 <= i < tm.len() ==> match spec_lookup(m, (#[trigger] tm[i]).0) {
                        Some(v) => v matches JsonValue::Arr(items) && items@.len()
                            == spec_row_count(tm, m),
                        None => true,
                    },
            decreases mcount - k,
        {
            let nulls = Series::new_null(missing[k].1.duplicate(), rows);
            let ghost dfb = df;
            let added = df.add_series0(missing[k].0.as_str(), nulls);
            match added {
                Ok(()) => {
                    proof {
                        dfb.lemma_rectangular();
                        df.lemma_rectangular();
                        assert(spec_missing(tm, m).take(k + 1) =~= spec_missing(tm, m).take(
                            k as int,
                        ).push(spec_missing(tm, m)[k as int]));
                        assert(missing@[k as int].0@ == spec_missing(tm, m)[k as int].0);
                        assert(missing@[k as int].1@ == spec_missing(tm, m)[k as int].1);
                        assert(pres + spec_missing(tm, m).take(k + 1) =~= (pres + spec_missing(
                            tm,
                            m,
                        ).take(k as int)).push(spec_missing(tm, m)[k as int]));
                        assert(df.spec_fields() =~= spec_fields_of(
                            pres + spec_missing(tm, m).take(k + 1),
                        ));
                        if pres.len() + k == 0 {
                            assert(df.spec_rows() == nulls@.len());
                        } else {
                            assert(df.spec_cols()[0] == dfb.spec_cols()[0]);
                            assert(df.spec_rows() == dfb.spec_rows());
                        }
                        assert forall|p: int| 0 <= p < pres.len() implies match spec_lookup(
                            m,
                            (#[trigger] pres[p]).0,
                        ) {
                            Some(v) => v matches JsonValue::Arr(items) && spec_cells(
                                pres[p].1,
                                items@,
                            ) == Some(df.spec_cols()[p]),
                            None => false,
                        } by {
                            assert(df.spec_cols()[p] == dfb.spec_cols()[p]);
                        }
                        assert forall|i: int|
                            pres.len() <= i < df.spec_col_count() implies (
                        #[trigger] df.spec_cols()[i]) =~= Seq::new(
                            spec_row_count(tm, m),
                            |q: int| CellV::Null,
                        ) by {
                            if i < pres.len() + k {
                                assert(df.spec_cols()[i] == dfb.spec_cols()[i]);
                            } else {
                                assert(df.spec_cols()[i] == nulls@);
                            }
                        }
                    }
                },
                Err(_) => {
                    proof {
                        assert(false);
                    }
                    return Err(Error::RowsNotMatch);
                },
            }
            k += 1;
        }
        proof {
            df.lemma_rectangular();
            assert(spec_missing(tm, m).take(mcount as int) =~= spec_missing(tm, m));
            assert(pres + spec_missing(tm, m).take(mcount as int) == pres + spec_missing(tm, m));
            assert(spec_parse_ok(tm, m));
        }
        Ok(df)
    }
}

/// A populated configured entry appears among the populated columns.
proof fn lemma_present_member(tm: Seq<(Seq<char>, DataTypeV)>, m: Seq<(String, JsonValue)>, i: int)
    requires
        0 <= i < tm.len(),
        spec_lookup(m, tm[i].0) is Some,
    ensures
        spec_present(tm, m).len() > 0,
    decreases tm.len(),
{
    if i < tm.len() - 1 {
        lemma_present_member(tm.drop_last(), m, i);
    }
}

/// Every populated column comes from some configured entry.
proof fn lemma_present_source(tm: Seq<(Seq<char>, DataTypeV)>, m: Seq<(String, JsonValue)>, p: int)
    requires
        0 <= p < spec_present(tm, m).len(),
    ensures
        exists|i: int|
            0 <= i < tm.len() && #[trigger] tm[i] == spec_present(tm, m)[p] && spec_lookup(
                m,
                tm[i].0,
            ) is Some,
    decreases tm.len(),
{
    let pres = spec_present(tm, m);
    let presd = spec_present(tm.drop_last(), m);
    if spec_lookup(m, tm.last().0) is Some && p == pres.len() - 1 {
        assert(tm[tm.len() - 1] == pres[p]);
    } else {
        lemma_present_source(tm.drop_last(), m, p);
        let i0 = choose|i0: int|
            0 <= i0 < tm.drop_last().len() && #[trigger] tm.drop_last()[i0] == presd[p]
                && spec_lookup(m, tm.drop_last()[i0].0) is Some;
        assert(tm[i0] == spec_present(tm, m)[p]);
    }
}

/// First entry of the object carrying `key`.
fn lookup_index(map: &Vec<(String, JsonValue)>, key: &String) -> (r: Option<usize>)
    ensures
        match r {
            Some(i) => i < map@.len() && map@[i as int].0@ == key@ && forall|j: int|
                0 <= j < i ==> map@[j].0@ != key@,
            None => forall|j: int| 0 <= j < map@.len() ==> map@[j].0@ != key@,
        },
{
    let n = map.len();
    let mut i: usize = 0;
    while i < n
        invariant
            n == map@.len(),
            i <= n,
            forall|j: int| 0 <= j < i ==> map@[j].0@ != key@,
        decreases n - i,
    {
        if map[i].0.eq(key) {
            return Some(i);
        }
        i += 1;
    }
    None
}

/// `spec_lookup` returns the first matching entry.
proof fn lemma_lookup_at(m: Seq<(String, JsonValue)>, key: Seq<char>, i: int)
    requires
        0 <= i < m.len(),
        m[i].0@ == key,
        forall|j: int| 0 <= j < i ==> m[j].0@ != key,
    ensures
        spec_lookup(m, key) == Some(m[i].1),
    decreases m.len(),
{
    if i > 0 {
        lemma_lookup_at(m.drop_first(), key, i - 1);
    }
}

proof fn lemma_lookup_none(m: Seq<(String, JsonValue)>, key: Seq<char>)
    requires
        forall|j: int| 0 <= j < m.len() ==> m[j].0@ != key,
    ensures
        spec_lookup(m, key) is None,
    decreases m.len(),
{
    if m.len() > 0 {
        lemma_lookup_none(m.drop_first(), key);
    }
}

/// Every materialized cell matches the declared type's storage.
proof fn lemma_cells_ok(dt: DataTypeV, items: Seq<JsonValue>, cvs: Seq<CellV>, q: int)
    requires
        spec_cells(dt, items) == Some(cvs),
        0 <= q < cvs.len(),
    ensures
        cell_ok(dt, cvs[q]),
    decreases items.len(),
{
    if items.len() > 0 {
        let pre = spec_cells(dt, items.drop_last());
        if q < cvs.len() - 1 {
            lemma_cells_ok(dt, items.drop_last(), pre.unwrap(), q);
        }
    }
}

/// Materialization keeps the element count.
proof fn lemma_cells_len(dt: DataTypeV, items: Seq<JsonValue>)
    ensures
        spec_cells(dt, items) matches Some(cs) ==> cs.len() == items.len(),
    decreases items.len(),
{
    if items.len() > 0 {
        lemma_cells_len(dt, items.drop_last());
    }
}

/// A prefix's populated columns are a prefix of the whole configuration's.
proof fn lemma_present_prefix(tm: Seq<(Seq<char>, DataTypeV)>, m: Seq<(String, JsonValue)>, j: int)
    requires
        0 <= j <= tm.len(),
    ensures
        spec_present(tm, m).len() >= spec_present(tm.take(j), m).len(),
        forall|i: int|
            0 <= i < spec_present(tm.take(j), m).len() ==> #[trigger] spec_present(tm, m)[i]
                == spec_present(tm.take(j), m)[i],
    decreases tm.len() - j,
{
    if j == tm.len() {
        assert(tm.take(j) =~= tm);
    } else {
        lemma_present_prefix(tm, m, j + 1);
        assert(tm.take(j + 1).drop_last() =~= tm.take(j));
        assert(tm.take(j + 1).last() == tm[j]);
    }
}

/// After the populated columns are in place, the store's row count is the
/// declared row count.
proof fn lemma_present_rows(
    tm: Seq<(Seq<char>, DataTypeV)>,
    m: Seq<(String, JsonValue)>,
    df: DataFrame,
    rows: nat,
)
    requires
        df.wf(),
        df.spec_col_count() == spec_present(tm, m).len(),
        spec_present(tm, m).len() > 0 ==> rows == df.spec_rows(),
        spec_present(tm, m).len() == 0 ==> rows == 0,
        forall|i: int|
            0 <= i < spec_present(tm, m).len() ==> match spec_lookup(
                m,
                (#[trigger] spec_present(tm, m)[i]).0,
            ) {
                Some(v) => v matches JsonValue::Arr(items) && items@.len() == df.spec_rows(),
                None => false,
            },
    ensures
        rows == spec_row_count(tm, m),
{
    if spec_present(tm, m).len() > 0 {
        assert(spec_present(tm, m)[0] == spec_present(tm, m)[0]);
    }
}

/// Materialize one JSON scalar.
fn cell_from(dt: &DataType, v: &JsonValue) -> (r: Option<Cell>)
    ensures
        match r {
            Some(c) => spec_scalar_cell(dt@, *v) == Some(c@),
            None => spec_scalar_cell(dt@, *v) is None,
        },
{
    match (v, dt) {
        (JsonValue::Null, _) => Some(Cell::Null),
        (JsonValue::Bool(b), DataType::Boolean) => Some(Cell::Bool(*b)),
        (JsonValue::Num(n), DataType::Int8) => match n.as_int {
            Some(i) => if -128 <= i && i <= 127 {
                Some(Cell::I8(i as i8))
            } else {
                None
            },
            None => None,
        },
        (JsonValue::Num(n), DataType::Int16) => match n.as_int {
            Some(i) => if -32768 <= i && i <= 32767 {
                Some(Cell::I16(i as i16))
            } else {
                None
            },
            None => None,
        },
        (JsonValue::Num(n), DataType::Int32) => match n.as_int {
            Some(i) => if -2147483648 <= i && i <= 2147483647 {
                Some(Cell::I32(i as i32))
            } else {
                None
            },
            None => None,
        },
        (JsonValue::Num(n), DataType::Int64) => match n.as_int {
            Some(i) => Some(Cell::I64(i)),
            None => None,
        },
        (JsonValue::Num(n), DataType::UInt8) => match n.as_uint {
            Some(u) => if u <= 255 {
                Some(Cell::U8(u as u8))
            } else {
                None
            },
            None => None,
        },
        (JsonValue::Num(n), DataType::UInt16) => match n.as_uint {
            Some(u) => if u <= 65535 {
                Some(Cell::U16(u as u16))
            } else {
                None
            },
            None => None,
        },
        (JsonValue::Num(n), DataType::UInt32) => match n.as_uint {
            Some(u) => if u <= 4294967295 {
                Some(Cell::U32(u as u32))
            } else {
                None
            },
            None => None,
        },
        (JsonValue::Num(n), DataType::UInt64) => match n.as_uint {
            Some(u) => Some(Cell::U64(u)),
            None => None,
        },
        (JsonValue::Num(n), DataType::Float32) => Some(Cell::F32Bits(n.bits32)),
        (JsonValue::Num(n), DataType::Float64) => Some(Cell::F64Bits(n.bits64)),
        (JsonValue::Str(s), DataType::Utf8) => Some(Cell::Str(s.clone())),
        (JsonValue::Str(s), DataType::LargeUtf8) => Some(Cell::Str(s.clone())),
        _ => None,
    }
}

/// Materialize a JSON array under the declared type; fails with
/// `TypeMismatch` exactly when some element does not fit.
fn cells_from(dt: &DataType, items: &Vec<JsonValue>) -> (r: Result<Vec<Cell>, Error>)
    ensures
        match r {
            Ok(cs) => spec_cells(dt@, items@) == Some(cs@.map(|i: int, c: Cell| c@)),
            Err(e) => e == Error::TypeMismatch && spec_cells(dt@, items@) is None,
        },
{
    let n = items.len();
    let mut out: Vec<Cell> = Vec::new();
    let mut i: usize = 0;
    proof {
        assert(items@.take(0) =~= Seq::<JsonValue>::empty());
        assert(out@.map(|q: int, c: Cell| c@) =~= Seq::<CellV>::empty());
    }
    while i < n
        invariant
            n == items@.len(),
            i <= n,
            spec_cells(dt@, items@.take(i as int)) == Some(out@.map(|q: int, c: Cell| c@)),
        decreases n - i,
    {
        proof {
            assert(items@.take(i + 1).drop_last() =~= items@.take(i as int));
            assert(items@.take(i + 1).last() == items@[i as int]);
        }
        let cell = cell_from(dt, &items[i]);
        match cell {
            Some(c) => {
                let ghost before = out@.map(|q: int, c: Cell| c@);
                out.push(c);
                proof {
                    assert(out@.map(|q: int, c: Cell| c@) =~= before.push(
                        spec_scalar_cell(dt@, items@[i as int]).unwrap(),
                    ));
                }
            },
            None => {
                proof {
                    lemma_cells_extend_none(dt@, items@, i as int);
                }
                return Err(Error::TypeMismatch);
            },
        }
        i += 1;
    }
    proof {
        assert(items@.take(n as int) =~= items@);
    }
    Ok(out)
}

/// Once one element fails, the whole array fails.
proof fn lemma_cells_extend_none(dt: DataTypeV, items: Seq<JsonValue>, i: int)
    requires
        0 <= i < items.len(),
        spec_scalar_cell(dt, items[i]) is None,
    ensures
        spec_cells(dt, items) is None,
    decreases items.len(),
{
    if items.len() > 0 {
        if i < items.len() - 1 {
            lemma_cells_extend_none(dt, items.drop_last(), i);
        }
    }
}

} // verus!
