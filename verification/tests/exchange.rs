use colstore::df::{Chunk, DataFrame, Field, Schema};
use colstore::meta::Metadata;
use colstore::series::{Cell, DataType, Series, TimeUnit};

fn sample_store() -> DataFrame {
    let mut df = DataFrame::new0();
    df.set_metadata_field("source", "unit");
    df.set_metadata_field("kind", "sample");
    let ints = Series::new(
        DataType::Int64,
        vec![Cell::I64(-3), Cell::Null, Cell::I64(7)],
    )
    .unwrap();
    df.add_series0("n", ints).unwrap();
    let texts = Series::new(
        DataType::LargeUtf8,
        vec![
            Cell::Str("alpha".to_owned()),
            Cell::Str("".to_owned()),
            Cell::Null,
        ],
    )
    .unwrap();
    df.add_series0("t", texts).unwrap();
    let floats = Series::new(
        DataType::Float64,
        vec![
            Cell::F64Bits(0x3ff0000000000000),
            Cell::F64Bits(0),
            Cell::Null,
        ],
    )
    .unwrap();
    df.add_series0("f", floats).unwrap();
    let stamps = Series::new(
        DataType::Timestamp(TimeUnit::Nanosecond, Some("UTC".to_owned())),
        vec![Cell::I64(1_000_000_001), Cell::I64(-5), Cell::Null],
    )
    .unwrap();
    df.add_series("ts", stamps, None, None).unwrap();
    df.set_col_metadata_field("n", "unit", "count").unwrap();
    df
}

fn assert_same(a: &DataFrame, b: &DataFrame) {
    assert_eq!(a.names(), b.names());
    assert_eq!(a.rows(), b.rows());
    assert_eq!(a.metadata().pairs(), b.metadata().pairs());
    let fa = a.fields();
    let fb = b.fields();
    for i in 0..fa.len() {
        assert!(fa[i].data_type == fb[i].data_type);
        assert_eq!(fa[i].metadata.pairs(), fb[i].metadata.pairs());
    }
    let da = a.data();
    let db = b.data();
    for i in 0..da.len() {
        assert!(da[i].data_type() == db[i].data_type());
        assert_eq!(da[i].len(), db[i].len());
        for r in 0..da[i].len() {
            assert_eq!(format!("{:?}", da[i].get(r)), format!("{:?}", db[i].get(r)));
        }
    }
}

#[test]
fn round_trip_preserves_everything() {
    let df = sample_store();
    let reference = sample_store();
    let block = df.into_ipc_block().unwrap();
    let back = DataFrame::from_ipc_block(&block).unwrap();
    assert_same(&reference, &back);
}

#[test]
fn round_trip_of_the_empty_store() {
    let mut df = DataFrame::new0();
    df.set_metadata_field("only", "metadata");
    let block = df.into_ipc_block().unwrap();
    let back = DataFrame::from_ipc_block(&block).unwrap();
    assert!(back.is_empty());
    assert_eq!(
        back.metadata().get(&"only".to_owned()).unwrap().as_str(),
        "metadata"
    );
}

#[test]
fn truncated_blocks_are_rejected() {
    let df = sample_store();
    let mut block = df.into_ipc_block().unwrap();
    block.truncate(block.len() - 1);
    assert!(DataFrame::from_ipc_block(&block).is_err());
    assert!(DataFrame::from_ipc_block(&vec![1u8, 2, 3]).is_err());
}

#[test]
fn parts_split_and_rejoin() {
    let df = sample_store();
    let reference = sample_store();
    let (schema, chunk) = df.into_ipc_parts();
    let back = DataFrame::from_chunk(chunk, &schema).unwrap();
    assert_same(&reference, &back);
}

#[test]
fn round_trip_covers_every_type() {
    let mut df = DataFrame::new0();
    let cols: Vec<(&str, DataType, Vec<Cell>)> = vec![
        ("b", DataType::Boolean, vec![Cell::Bool(true), Cell::Null]),
        ("i8", DataType::Int8, vec![Cell::I8(-128), Cell::I8(127)]),
        ("i16", DataType::Int16, vec![Cell::I16(-32768), Cell::Null]),
        ("i32", DataType::Int32, vec![Cell::I32(-1), Cell::I32(7)]),
        ("i64", DataType::Int64, vec![Cell::I64(i64::MIN), Cell::I64(i64::MAX)]),
        ("u8", DataType::UInt8, vec![Cell::U8(255), Cell::Null]),
        ("u16", DataType::UInt16, vec![Cell::U16(65535), Cell::U16(0)]),
        ("u32", DataType::UInt32, vec![Cell::U32(4294967295), Cell::Null]),
        ("u64", DataType::UInt64, vec![Cell::U64(u64::MAX), Cell::U64(1)]),
        ("f32", DataType::Float32, vec![Cell::F32Bits(0x3f800000), Cell::Null]),
        ("f64", DataType::Float64, vec![Cell::F64Bits(u64::MAX), Cell::Null]),
        ("s", DataType::Utf8, vec![Cell::Str("héllo ✓".to_owned()), Cell::Null]),
        ("ls", DataType::LargeUtf8, vec![Cell::Str("wide".to_owned()), Cell::Str("".to_owned())]),
    ];
    for (name, dt, cells) in cols {
        let s = Series::new(dt, cells).unwrap();
        df.add_series0(name, s).unwrap();
    }
    let mut reference = DataFrame::new0();
    let block = df.into_ipc_block().unwrap();
    let back = DataFrame::from_ipc_block(&block).unwrap();
    assert_eq!(back.names().len(), 13);
    assert_eq!(back.rows(), Some(2));
    assert!(matches!(back.data()[4].get(0), Cell::I64(i64::MIN)));
    assert!(matches!(back.data()[8].get(0), Cell::U64(u64::MAX)));
    match back.data()[11].get(0) {
        Cell::Str(s) => assert_eq!(s.as_str(), "héllo ✓"),
        _ => panic!("expected text"),
    }
    reference.add_series0("only", Series::new(DataType::Boolean, vec![]).unwrap()).unwrap();
    let b2 = reference.into_ipc_block().unwrap();
    let back2 = DataFrame::from_ipc_block(&b2).unwrap();
    assert_eq!(back2.rows(), Some(0));
    assert_eq!(back2.names(), vec!["only"]);
}

#[test]
fn rejoining_mismatched_parts_reports_the_cause() {
    let one = Series::new(DataType::Int64, vec![Cell::I64(1)]).unwrap();
    let two = Series::new(DataType::Int64, vec![Cell::I64(1), Cell::I64(2)]).unwrap();
    let schema = Schema {
        fields: vec![
            Field::new("a".to_owned(), DataType::Int64),
            Field::new("b".to_owned(), DataType::Int64),
        ],
        metadata: Metadata::new(),
    };
    let ragged = Chunk::new(vec![one, two]);
    assert!(matches!(
        DataFrame::from_chunk(ragged, &schema),
        Err(colstore::Error::RowsNotMatch)
    ));
    let narrow = Chunk::new(vec![Series::new(DataType::Int64, vec![Cell::I64(1)]).unwrap()]);
    assert!(matches!(
        DataFrame::from_chunk(narrow, &schema),
        Err(colstore::Error::ColsNotMatch)
    ));
}
