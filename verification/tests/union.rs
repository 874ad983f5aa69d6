use colstore::df::DataFrame;
use colstore::series::{Cell, DataType, Series};
use colstore::Error;

fn int_col(vals: &[i64]) -> Series {
    let cells: Vec<Cell> = vals.iter().map(|v| Cell::I64(*v)).collect();
    Series::new(DataType::Int64, cells).unwrap()
}

#[test]
fn union_pads_missing_columns_with_nulls() {
    let mut a = DataFrame::new0();
    a.add_series0("x", int_col(&[1, 2])).unwrap();
    a.add_series0("y", int_col(&[3, 4])).unwrap();
    let mut b = DataFrame::new0();
    b.add_series0("y", int_col(&[5, 6, 7])).unwrap();
    b.add_series0("z", int_col(&[8, 9, 10])).unwrap();

    let out = colstore::concat::concat(&vec![&a, &b]).unwrap();
    assert_eq!(out.names(), vec!["x", "y", "z"]);
    assert_eq!(out.rows(), Some(5));

    let x = &out.data()[0];
    assert!(matches!(x.get(0), Cell::I64(1)));
    assert!(matches!(x.get(1), Cell::I64(2)));
    for r in 2..5 {
        assert!(matches!(x.get(r), Cell::Null));
    }
    let y = &out.data()[1];
    let expect = [3i64, 4, 5, 6, 7];
    for r in 0..5 {
        match y.get(r) {
            Cell::I64(v) => assert_eq!(*v, expect[r]),
            _ => panic!("expected a value"),
        }
    }
    let z = &out.data()[2];
    for r in 0..2 {
        assert!(matches!(z.get(r), Cell::Null));
    }
    assert!(matches!(z.get(4), Cell::I64(10)));
}

#[test]
fn union_merges_metadata_with_later_stores_winning() {
    let mut a = DataFrame::new0();
    a.set_metadata_field("k", "first");
    a.set_metadata_field("only-a", "1");
    let mut b = DataFrame::new0();
    b.set_metadata_field("k", "second");
    let out = colstore::concat::concat(&vec![&a, &b]).unwrap();
    assert_eq!(out.metadata().get(&"k".to_owned()).unwrap().as_str(), "second");
    assert_eq!(out.metadata().get(&"only-a".to_owned()).unwrap().as_str(), "1");
}

#[test]
fn empty_inputs_contribute_nothing() {
    let empty = DataFrame::new0();
    let mut a = DataFrame::new0();
    a.add_series0("x", int_col(&[1])).unwrap();
    let out = colstore::concat::concat(&vec![&empty, &a, &empty]).unwrap();
    assert_eq!(out.names(), vec!["x"]);
    assert_eq!(out.rows(), Some(1));

    let none = colstore::concat::concat(&vec![]).unwrap();
    assert!(none.is_empty());
}

#[test]
fn incompatible_storage_kinds_fail() {
    let mut a = DataFrame::new0();
    a.add_series0("x", int_col(&[1])).unwrap();
    let mut b = DataFrame::new0();
    let texts = Series::new(DataType::LargeUtf8, vec![Cell::Str("s".to_owned())]).unwrap();
    b.add_series0("x", texts).unwrap();
    assert!(matches!(colstore::concat::concat(&vec![&a, &b]), Err(Error::TypeMismatch)));
}
