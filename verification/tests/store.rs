use colstore::df::DataFrame;
use colstore::meta::Metadata;
use colstore::series::{Cell, DataType, Series, TimeUnit};
use colstore::Error;

fn int_col(vals: &[i64]) -> Series {
    let cells: Vec<Cell> = vals.iter().map(|v| Cell::I64(*v)).collect();
    Series::new(DataType::Int64, cells).unwrap()
}

fn str_col(vals: &[Option<&str>]) -> Series {
    let cells: Vec<Cell> = vals
        .iter()
        .map(|v| match v {
            Some(s) => Cell::Str((*s).to_owned()),
            None => Cell::Null,
        })
        .collect();
    Series::new(DataType::LargeUtf8, cells).unwrap()
}

#[test]
fn rectangular_after_adds_and_inserts() {
    let mut df = DataFrame::new0();
    assert!(df.is_empty());
    assert!(df.rows().is_none());
    df.add_series0("a", int_col(&[1, 2, 3])).unwrap();
    df.add_series0("b", int_col(&[4, 5, 6])).unwrap();
    df.insert_series0("c", int_col(&[7, 8, 9]), 1).unwrap();
    assert_eq!(df.rows(), Some(3));
    for s in df.data() {
        assert_eq!(s.len(), 3);
    }
    let names = df.names();
    assert_eq!(names, vec!["a", "c", "b"]);
}

#[test]
fn add_rejects_mismatched_rows() {
    let mut df = DataFrame::new(Some(2));
    df.add_series0("a", int_col(&[1, 2])).unwrap();
    let e = df.add_series0("b", int_col(&[1, 2, 3])).unwrap_err();
    assert!(matches!(e, Error::RowsNotMatch));
    assert_eq!(df.names().len(), 1);
}

#[test]
fn insert_rejects_bad_index() {
    let mut df = DataFrame::new0();
    df.add_series0("a", int_col(&[1])).unwrap();
    let e = df.insert_series0("b", int_col(&[2]), 5).unwrap_err();
    assert!(matches!(e, Error::OutOfBounds));
}

#[test]
fn slice_bounds_are_exact() {
    let mut df = DataFrame::new0();
    df.add_series0("a", int_col(&[10, 20, 30, 40])).unwrap();
    let s = df.try_sliced(1, 2).unwrap();
    assert_eq!(s.rows(), Some(2));
    assert!(matches!(s.data()[0].get(0), Cell::I64(20)));
    assert!(matches!(s.data()[0].get(1), Cell::I64(30)));
    // offset + length == rows is fine; one past fails
    assert!(df.try_sliced(2, 2).is_ok());
    let e = df.try_sliced(3, 2).unwrap_err();
    assert!(matches!(e, Error::OutOfBounds));
    assert!(matches!(df.try_series_sliced(4, 1), Err(Error::OutOfBounds)));
}

#[test]
fn slicing_an_empty_store_never_fails() {
    let df = DataFrame::new0();
    assert!(df.try_sliced(1000, 1000).is_ok());
    assert_eq!(df.try_series_sliced(99, 99).unwrap().len(), 0);
    assert_eq!(df.try_chunk_sliced(5, 5).unwrap().arrays.len(), 0);
}

#[test]
fn pop_and_rename() {
    let mut df = DataFrame::new0();
    df.add_series0("a", int_col(&[1])).unwrap();
    df.add_series0("b", int_col(&[2])).unwrap();
    let (s, dt) = df.pop_series("a").unwrap();
    assert_eq!(s.len(), 1);
    assert!(dt == DataType::Int64);
    assert!(matches!(df.pop_series("zz"), Err(Error::NotFound(_))));
    df.rename("b", "bb").unwrap();
    assert_eq!(df.names(), vec!["bb"]);
    let (s2, name, _) = df.pop_series_at(0).unwrap();
    assert_eq!(name, "bb");
    assert_eq!(s2.len(), 1);
    assert!(matches!(df.pop_series_at(0), Err(Error::OutOfBounds)));
}

#[test]
fn field_edits() {
    let mut df = DataFrame::new0();
    df.add_series0("a", int_col(&[1])).unwrap();
    df.set_name_at(0, "x").unwrap();
    df.set_data_type("x", DataType::Timestamp(TimeUnit::Second, None))
        .unwrap();
    assert!(df.fields()[0].data_type == DataType::Timestamp(TimeUnit::Second, None));
    df.set_data_type_at(0, DataType::Int64).unwrap();
    let mut m = Metadata::new();
    m.insert("k".to_owned(), "v".to_owned());
    df.set_col_metadata("x", m).unwrap();
    assert_eq!(
        df.col_metadata("x").unwrap().get(&"k".to_owned()).unwrap().as_str(),
        "v"
    );
    df.set_col_metadata_field("missing", "k", "v").unwrap_err();
    df.set_col_metadata_field("x", "k", "w").unwrap();
    assert_eq!(
        df.col_metadata_at(0).unwrap().get(&"k".to_owned()).unwrap().as_str(),
        "w"
    );
    assert!(matches!(df.col_metadata_at(9), Err(Error::OutOfBounds)));
}

#[test]
fn store_metadata() {
    let mut df = DataFrame::new0();
    df.set_metadata_field("origin", "ingest");
    df.set_metadata_field("origin", "manual");
    assert_eq!(
        df.metadata().get(&"origin".to_owned()).unwrap().as_str(),
        "manual"
    );
    assert_eq!(df.metadata().len(), 1);
}

#[test]
fn approximate_size() {
    let mut df = DataFrame::new0();
    df.add_series0("a", int_col(&[1, 2, 3])).unwrap();
    let bools = Series::new(
        DataType::Boolean,
        vec![Cell::Bool(true), Cell::Null, Cell::Bool(false)],
    )
    .unwrap();
    df.add_series0("b", bools).unwrap();
    // three 8-byte values plus three 1-byte values
    assert_eq!(df.size(), 27);
}

#[test]
fn ordering_by_names() {
    let mut df = DataFrame::new0();
    df.add_series0("b", int_col(&[2])).unwrap();
    df.add_series0("a", int_col(&[1])).unwrap();
    df.add_series0("c", int_col(&[3])).unwrap();
    df.set_ordering(&vec!["a".to_owned(), "b".to_owned(), "c".to_owned()]);
    assert_eq!(df.names(), vec!["a", "b", "c"]);
    assert!(matches!(df.data()[0].get(0), Cell::I64(1)));
    assert!(matches!(df.data()[2].get(0), Cell::I64(3)));
}

#[test]
fn parse_string_columns() {
    let mut df = DataFrame::new0();
    df.add_series0(
        "n",
        str_col(&[Some("42"), Some("-7"), Some("abc"), None, Some("+5")]),
    )
    .unwrap();
    df.parse("n", DataType::Int32).unwrap();
    assert!(df.fields()[0].data_type == DataType::Int32);
    let col = &df.data()[0];
    assert!(matches!(col.get(0), Cell::I32(42)));
    assert!(matches!(col.get(1), Cell::I32(-7)));
    assert!(matches!(col.get(2), Cell::Null));
    assert!(matches!(col.get(3), Cell::Null));
    assert!(matches!(col.get(4), Cell::I32(5)));
}

#[test]
fn parse_range_and_errors() {
    let mut df = DataFrame::new0();
    df.add_series0("n", str_col(&[Some("300"), Some("255")])).unwrap();
    df.parse_at(0, DataType::UInt8).unwrap();
    assert!(matches!(df.data()[0].get(0), Cell::Null));
    assert!(matches!(df.data()[0].get(1), Cell::U8(255)));

    let mut df2 = DataFrame::new0();
    df2.add_series0("x", int_col(&[1])).unwrap();
    assert!(matches!(df2.parse_at(0, DataType::Int64), Err(Error::TypeMismatch)));
    assert!(matches!(df2.parse_at(5, DataType::Int64), Err(Error::OutOfBounds)));
    let mut df3 = DataFrame::new0();
    df3.add_series0("s", str_col(&[Some("1")])).unwrap();
    assert!(matches!(
        df3.parse_at(0, DataType::Float64),
        Err(Error::Unimplemented(_))
    ));
    assert!(matches!(
        df3.parse("zz", DataType::Int64),
        Err(Error::NotFound(_))
    ));
}

#[test]
fn timeseries_constructor() {
    let df = DataFrame::new_timeseries(
        vec![100, 200],
        None,
        TimeUnit::Nanosecond,
        Some("UTC".to_owned()),
    );
    assert_eq!(df.names(), vec!["time"]);
    assert!(
        df.fields()[0].data_type
            == DataType::Timestamp(TimeUnit::Nanosecond, Some("UTC".to_owned()))
    );
    assert!(matches!(df.data()[0].get(1), Cell::I64(200)));
}

#[test]
fn from_parts_checks_shape() {
    let fields = vec![colstore::df::Field::new("a".to_owned(), DataType::Int64)];
    let data = vec![int_col(&[1]), int_col(&[2, 3])];
    assert!(matches!(
        DataFrame::from_parts(vec![], data, None),
        Err(Error::RowsNotMatch)
    ));
    let data2 = vec![int_col(&[1]), int_col(&[2])];
    assert!(matches!(
        DataFrame::from_parts(fields, data2, None),
        Err(Error::ColsNotMatch)
    ));
}

#[test]
fn sorting_columns_by_name() {
    let mut df = DataFrame::new0();
    df.add_series0("delta", int_col(&[4])).unwrap();
    df.add_series0("alpha", int_col(&[1])).unwrap();
    df.add_series0("charlie", int_col(&[3])).unwrap();
    df.add_series0("bravo", int_col(&[2])).unwrap();
    df.sort_columns();
    assert_eq!(df.names(), vec!["alpha", "bravo", "charlie", "delta"]);
    for (i, expect) in [1i64, 2, 3, 4].iter().enumerate() {
        match df.data()[i].get(0) {
            Cell::I64(v) => assert_eq!(v, expect),
            _ => panic!("expected a value"),
        }
    }
}

#[test]
fn error_messages() {
    assert_eq!(Error::OutOfBounds.message(), "index out of bounds");
    assert_eq!(
        Error::NotFound("col".to_owned()).message(),
        "not found: col"
    );
    assert_eq!(
        Error::other("boom".to_owned()).message(),
        "boom"
    );
}

#[test]
fn unmatched_ordering_names_are_ignored() {
    let mut df = DataFrame::new0();
    df.add_series0("b", int_col(&[2])).unwrap();
    df.add_series0("a", int_col(&[1])).unwrap();
    df.set_ordering(&vec!["zz".to_owned(), "b".to_owned()]);
    // "zz" is ignored; position 1 receives "b" by swap
    assert_eq!(df.names(), vec!["a", "b"]);
    assert!(matches!(df.data()[1].get(0), Cell::I64(2)));
}

#[test]
fn signed_text_never_parses_for_unsigned_targets() {
    let mut df = DataFrame::new0();
    df.add_series0(
        "n",
        str_col(&[Some("-0"), Some("-00"), Some("-1"), Some("+0"), Some("0")]),
    )
    .unwrap();
    df.parse_at(0, DataType::UInt8).unwrap();
    let col = &df.data()[0];
    // machine unsigned parsing rejects any minus sign, even on zero
    assert!(matches!(col.get(0), Cell::Null));
    assert!(matches!(col.get(1), Cell::Null));
    assert!(matches!(col.get(2), Cell::Null));
    assert!(matches!(col.get(3), Cell::U8(0)));
    assert!(matches!(col.get(4), Cell::U8(0)));

    let mut signed = DataFrame::new0();
    signed.add_series0("n", str_col(&[Some("-0")])).unwrap();
    signed.parse_at(0, DataType::Int32).unwrap();
    assert!(matches!(signed.data()[0].get(0), Cell::I32(0)));
}

#[test]
fn arithmetic_by_name_reports_the_clash() {
    let mut df = DataFrame::new0();
    df.add_series0("n", int_col(&[1])).unwrap();
    assert!(matches!(
        df.add("n", colstore::df::Num::I32(1)),
        Err(Error::TypeMismatch)
    ));
    assert!(matches!(
        df.div("n", colstore::df::Num::I16(2)),
        Err(Error::TypeMismatch)
    ));
}
