use colstore::db::{
    bind_value_at, build_insert_query, contains_str, create_df, name_ok, pg_excluded, pg_join,
    pg_vals, u64_dec, BindValue, Col, FieldParams, Ingest, Params, PgParams,
};
use colstore::df::{DataFrame, Num};
use colstore::series::{Cell, DataType, Series, TimeUnit};
use colstore::{Error, Time, TimeZone};

fn strs(v: &[&str]) -> Vec<String> {
    v.iter().map(|s| (*s).to_owned()).collect()
}

#[test]
fn statement_fragments() {
    assert_eq!(u64_dec(0).as_str(), "0");
    assert_eq!(u64_dec(18446744073709551615).as_str(), "18446744073709551615");
    assert_eq!(pg_join(&strs(&["a", "b"])).unwrap().as_str(), "\"a\",\"b\"");
    assert_eq!(pg_join(&strs(&[])).unwrap().as_str(), "");
    assert_eq!(pg_vals(3).unwrap().as_str(), "$1,$2,$3");
    assert_eq!(pg_vals(0).unwrap().as_str(), "");
    assert_eq!(
        pg_excluded(&strs(&["a", "b"])).unwrap().as_str(),
        "\"a\"=EXCLUDED.\"a\",\"b\"=EXCLUDED.\"b\""
    );
}

#[test]
fn whole_statement_with_upsert() {
    let q = build_insert_query(
        &"t".to_owned(),
        Some(&"s".to_owned()),
        &strs(&["id", "name"]),
        &strs(&["id"]),
    )
    .unwrap();
    assert_eq!(
        q.as_str(),
        "INSERT INTO \"s\".\"t\"(\"id\",\"name\") VALUES ($1,$2) ON CONFLICT (\"id\") DO UPDATE SET \"name\"=EXCLUDED.\"name\""
    );
    let q2 = build_insert_query(&"t".to_owned(), None, &strs(&["a"]), &strs(&[])).unwrap();
    assert_eq!(q2.as_str(), "INSERT INTO \"t\"(\"a\") VALUES ($1)");
}

#[test]
fn forbidden_symbols_are_rejected() {
    assert!(name_ok("fine_name"));
    assert!(!name_ok("bad\"name"));
    assert!(!name_ok("bad'name"));
    assert!(!name_ok("bad`name"));
    let e = build_insert_query(&"a\"b".to_owned(), None, &strs(&[]), &strs(&[])).unwrap_err();
    assert!(matches!(e, Error::Other(_)));
    let e2 =
        build_insert_query(&"t".to_owned(), None, &strs(&["x'y"]), &strs(&[])).unwrap_err();
    assert!(matches!(e2, Error::Other(_)));
}

#[test]
fn key_and_json_configuration() {
    let params = Params {
        table: "t".to_owned(),
        postgres: Some(PgParams { schema: Some("s".to_owned()) }),
        keys: strs(&["id"]),
        fields: Some(vec![
            ("extra".to_owned(), FieldParams { key: true, json: false }),
            ("id".to_owned(), FieldParams { key: true, json: false }),
            ("doc".to_owned(), FieldParams { key: false, json: true }),
        ]),
    };
    let keys = params.effective_keys();
    assert_eq!(keys, strs(&["id", "extra"]));
    assert!(params.is_json_field(&"doc".to_owned()));
    assert!(!params.is_json_field(&"id".to_owned()));
    assert!(contains_str(&keys, &"extra".to_owned()));
    assert!(!contains_str(&keys, &"doc".to_owned()));
}

#[test]
fn binding_single_row_values() {
    let ints = Series::new(DataType::Int64, vec![Cell::I64(5), Cell::Null]).unwrap();
    match bind_value_at(&ints, &DataType::Int64, false, 0).unwrap() {
        BindValue::I64(Some(5)) => {},
        other => panic!("unexpected {:?}", other),
    }
    match bind_value_at(&ints, &DataType::Int64, false, 1).unwrap() {
        BindValue::I64(None) => {},
        other => panic!("unexpected {:?}", other),
    }
    let texts = Series::new(
        DataType::LargeUtf8,
        vec![Cell::Str("{\"a\":1}".to_owned())],
    )
    .unwrap();
    match bind_value_at(&texts, &DataType::LargeUtf8, true, 0).unwrap() {
        BindValue::Json(Some(s)) => assert_eq!(s.as_str(), "{\"a\":1}"),
        other => panic!("unexpected {:?}", other),
    }
    match bind_value_at(&texts, &DataType::Utf8, false, 0).unwrap() {
        BindValue::Str(Some(_)) => {},
        other => panic!("unexpected {:?}", other),
    }
}

#[test]
fn binding_timestamps_splits_units() {
    let stamps = Series::new(DataType::Int64, vec![Cell::I64(1_500), Cell::I64(-1)]).unwrap();
    let dt = DataType::Timestamp(TimeUnit::Millisecond, None);
    match bind_value_at(&stamps, &dt, false, 0).unwrap() {
        BindValue::Timestamp(Some((1, 500_000_000))) => {},
        other => panic!("unexpected {:?}", other),
    }
    // Euclidean split: -1 ms is one millisecond before the epoch.
    match bind_value_at(&stamps, &dt, false, 1).unwrap() {
        BindValue::Timestamp(Some((-1, 999_000_000))) => {},
        other => panic!("unexpected {:?}", other),
    }
    let dtn = DataType::Timestamp(TimeUnit::Nanosecond, None);
    match bind_value_at(&stamps, &dtn, false, 0).unwrap() {
        BindValue::Timestamp(Some((0, 1_500))) => {},
        other => panic!("unexpected {:?}", other),
    }
    let e = bind_value_at(&stamps, &DataType::UInt8, false, 0).unwrap_err();
    assert!(matches!(e, Error::Unimplemented(_)));
    let e2 = bind_value_at(&stamps, &DataType::Boolean, false, 0).unwrap_err();
    assert!(matches!(e2, Error::TypeMismatch));
}

#[test]
fn ingest_chunks_exactly_at_the_threshold() {
    // Two INT8 columns: each row accumulates 16 bytes; with a 40-byte
    // threshold the first batch holds exactly the first three rows.
    let cols = vec![
        ("a".to_owned(), "INT8".to_owned()),
        ("b".to_owned(), "INT8".to_owned()),
    ];
    let mut ingest = Ingest::new(cols, Some(40)).unwrap();
    let mut batches: Vec<usize> = Vec::new();
    for r in 0..4u32 {
        let row = vec![Cell::I64(r as i64), Cell::I64(0)];
        if let Some(df) = ingest.push_row(row).unwrap() {
            batches.push(df.rows().unwrap());
        }
    }
    assert_eq!(batches, vec![3]);
    let rest = ingest.finish().unwrap();
    assert_eq!(rest.rows(), Some(1));
    assert!(matches!(rest.data()[0].get(0), Cell::I64(3)));
}

#[test]
fn ingest_without_threshold_emits_once_at_the_end() {
    let cols = vec![("a".to_owned(), "VARCHAR".to_owned())];
    let mut ingest = Ingest::new(cols, None).unwrap();
    ingest.push_row(vec![Cell::Str("hello".to_owned())]).unwrap();
    ingest.push_row(vec![Cell::Null]).unwrap();
    let df = ingest.finish().unwrap();
    assert_eq!(df.rows(), Some(2));
    assert!(df.fields()[0].data_type == DataType::LargeUtf8);

    let none = Ingest::new(vec![("a".to_owned(), "BOOL".to_owned())], None)
        .unwrap()
        .finish();
    assert!(none.is_none());
}

#[test]
fn ingest_types_and_errors() {
    assert!(matches!(
        Ingest::new(vec![("a".to_owned(), "MONEY".to_owned())], None),
        Err(Error::Unimplemented(_))
    ));
    let mut col = Col::create(0, "TIMESTAMPTZ").unwrap();
    col.push(Cell::I64(42)).unwrap();
    col.push(Cell::Null).unwrap();
    assert_eq!(col.len(), 2);
    assert_eq!(col.size(), 16);
    assert!(matches!(col.push(Cell::Bool(true)), Err(Error::TypeMismatch)));
    let (series, declared) = col.into_series_type();
    assert_eq!(series.len(), 2);
    assert!(declared == DataType::Timestamp(TimeUnit::Nanosecond, None));
    assert!(*series.data_type() == DataType::Int64);

    let mut c1 = Col::create(0, "BOOL").unwrap();
    c1.push(Cell::Bool(true)).unwrap();
    let c2 = Col::create(1, "BOOL").unwrap();
    let e = create_df(vec![("a".to_owned(), c1), ("b".to_owned(), c2)]).unwrap_err();
    assert!(matches!(e, Error::RowsNotMatch));
}

#[test]
fn text_sizes_use_byte_lengths() {
    let mut col = Col::create(0, "CHAR").unwrap();
    col.push(Cell::Str("abc".to_owned())).unwrap();
    col.push(Cell::Null).unwrap();
    assert_eq!(col.size(), 4);
}

#[test]
fn time_conversions() {
    let t = Time { sec: 2, nsec: 500_000_000 };
    assert_eq!(t.timestamp_ns(), 2_500_000_000);
    assert_eq!(t.timestamp_us(), 2_500_000);
    assert_eq!(t.timestamp_ms(), 2_500);
    assert_eq!(
        TimeZone::Custom("UTC".to_owned()).into_zone_name("CET".to_owned()),
        Some("UTC".to_owned())
    );
    assert_eq!(TimeZone::Local.into_zone_name("CET".to_owned()), Some("CET".to_owned()));
    assert_eq!(TimeZone::No.into_zone_name("CET".to_owned()), None);
}

#[test]
fn arithmetic_transforms() {
    let mut df = DataFrame::new0();
    let ints = Series::new(
        DataType::Int64,
        vec![Cell::I64(10), Cell::Null, Cell::I64(-7)],
    )
    .unwrap();
    df.add_series0("n", ints).unwrap();
    df.add("n", Num::I64(5)).unwrap();
    assert!(matches!(df.data()[0].get(0), Cell::I64(15)));
    assert!(matches!(df.data()[0].get(1), Cell::Null));
    assert!(matches!(df.data()[0].get(2), Cell::I64(-2)));
    df.sub_at(0, Num::I64(5)).unwrap();
    assert!(matches!(df.data()[0].get(2), Cell::I64(-7)));
    df.mul_at(0, Num::I64(3)).unwrap();
    assert!(matches!(df.data()[0].get(0), Cell::I64(30)));
    // machine division truncates toward zero
    df.div_at(0, Num::I64(4)).unwrap();
    assert!(matches!(df.data()[0].get(0), Cell::I64(7)));
    assert!(matches!(df.data()[0].get(2), Cell::I64(-5)));
    assert!(matches!(df.add("zz", Num::I64(1)), Err(Error::NotFound(_))));
    assert!(matches!(df.add_at(0, Num::I32(1)), Err(Error::TypeMismatch)));
    assert!(matches!(df.add_at(7, Num::I64(1)), Err(Error::OutOfBounds)));
}

#[test]
fn ingest_text_sizes_drive_chunking() {
    // One text column; the threshold is crossed by byte length, so the
    // four-byte name lands in the first batch together with the earlier rows.
    let cols = vec![("name".to_owned(), "VARCHAR".to_owned())];
    let mut ingest = Ingest::new(cols, Some(6)).unwrap();
    let mut emitted: Vec<usize> = Vec::new();
    for txt in ["ab", "cd", "efgh", "z"] {
        if let Some(df) = ingest.push_row(vec![Cell::Str(txt.to_owned())]).unwrap() {
            emitted.push(df.rows().unwrap());
        }
    }
    // sizes: 2, 4, 8 >= 6 -> flush after the third row
    assert_eq!(emitted, vec![3]);
    assert_eq!(ingest.finish().unwrap().rows(), Some(1));
}
