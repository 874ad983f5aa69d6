use colstore::json::{JsonNum, JsonValue, Parser};
use colstore::series::{Cell, DataType};
use colstore::Error;

fn num(i: i64) -> JsonValue {
    JsonValue::Num(JsonNum {
        as_int: Some(i),
        as_uint: if i >= 0 { Some(i as u64) } else { None },
        bits64: (i as f64).to_bits(),
        bits32: (i as f32).to_bits(),
    })
}

#[test]
fn declared_schema_always_comes_back() {
    let parser = Parser::new()
        .with_type_mapping("a", DataType::Int32)
        .with_type_mapping("b", DataType::Float64);
    let map = vec![(
        "a".to_owned(),
        JsonValue::Arr(vec![num(1), num(2), num(3)]),
    )];
    let df = parser.parse_map(map).unwrap();
    assert_eq!(df.names(), vec!["a", "b"]);
    assert_eq!(df.rows(), Some(3));
    let a = &df.data()[0];
    assert!(matches!(a.get(0), Cell::I32(1)));
    assert!(matches!(a.get(1), Cell::I32(2)));
    assert!(matches!(a.get(2), Cell::I32(3)));
    let b = &df.data()[1];
    for r in 0..3 {
        assert!(matches!(b.get(r), Cell::Null));
    }
    assert!(df.fields()[1].data_type == DataType::Float64);
}

#[test]
fn nullable_scalars_and_strings() {
    let parser = Parser::new()
        .with_type_mapping("s", DataType::LargeUtf8)
        .with_type_mapping("u", DataType::UInt16);
    let map = vec![
        (
            "s".to_owned(),
            JsonValue::Arr(vec![
                JsonValue::Str("x".to_owned()),
                JsonValue::Null,
            ]),
        ),
        ("u".to_owned(), JsonValue::Arr(vec![num(65535), JsonValue::Null])),
    ];
    let df = parser.parse_map(map).unwrap();
    assert!(matches!(df.data()[0].get(1), Cell::Null));
    assert!(matches!(df.data()[1].get(0), Cell::U16(65535)));
}

#[test]
fn top_level_must_be_an_object() {
    let parser = Parser::new();
    assert!(matches!(
        parser.parse_value(JsonValue::Arr(vec![])),
        Err(Error::Unimplemented(_))
    ));
    let df = parser
        .parse_value(JsonValue::Obj(vec![]))
        .unwrap();
    assert!(df.is_empty());
}

#[test]
fn out_of_range_and_wrong_shapes_fail() {
    let parser = Parser::new().with_type_mapping("a", DataType::Int8);
    let map = vec![("a".to_owned(), JsonValue::Arr(vec![num(200)]))];
    assert!(matches!(parser.parse_map(map), Err(Error::TypeMismatch)));

    let parser2 = Parser::new().with_type_mapping("a", DataType::Int32);
    let map2 = vec![("a".to_owned(), JsonValue::Bool(true))];
    assert!(matches!(parser2.parse_map(map2), Err(Error::TypeMismatch)));
}

#[test]
fn timestamps_are_outside_the_whitelist() {
    let parser = Parser::new().with_type_mapping(
        "t",
        DataType::Timestamp(colstore::series::TimeUnit::Second, None),
    );
    assert!(matches!(parser.parse_map(vec![]), Err(Error::Unimplemented(_))));
}

#[test]
fn mismatched_column_lengths_fail() {
    let parser = Parser::new()
        .with_type_mapping("a", DataType::Int64)
        .with_type_mapping("b", DataType::Int64);
    let map = vec![
        ("a".to_owned(), JsonValue::Arr(vec![num(1)])),
        ("b".to_owned(), JsonValue::Arr(vec![num(1), num(2)])),
    ];
    assert!(matches!(parser.parse_map(map), Err(Error::RowsNotMatch)));
}

#[test]
fn unmentioned_keys_are_ignored() {
    let parser = Parser::new().with_type_mapping("a", DataType::Boolean);
    let map = vec![
        ("zz".to_owned(), JsonValue::Null),
        (
            "a".to_owned(),
            JsonValue::Arr(vec![JsonValue::Bool(true), JsonValue::Bool(false)]),
        ),
    ];
    let df = parser.parse_map(map).unwrap();
    assert_eq!(df.names(), vec!["a"]);
    assert!(matches!(df.data()[0].get(0), Cell::Bool(true)));
}
