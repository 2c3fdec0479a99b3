use qfactors::column_store::{ColumnStore, ensure_dtype, ensure_no_nulls};
use qfactors::error::QFactorsError;
use qfactors::factor::DType;
use qfactors::frame::{Cell, ColumnData, DataKind, Frame};

fn u32_col(name: &str, values: &[u32]) -> ColumnData {
    ColumnData {
        name: name.to_string(),
        kind: DataKind::UInt32,
        cells: values.iter().map(|v| Cell::UInt(*v)).collect(),
    }
}

fn str_col(name: &str, values: &[&str]) -> ColumnData {
    ColumnData {
        name: name.to_string(),
        kind: DataKind::Str,
        cells: values.iter().map(|v| Cell::Str(v.to_string())).collect(),
    }
}

fn i64_col(name: &str, values: &[i64]) -> ColumnData {
    ColumnData {
        name: name.to_string(),
        kind: DataKind::Int64,
        cells: values.iter().map(|v| Cell::Int(*v)).collect(),
    }
}

fn f64_col(name: &str, values: &[Option<f64>]) -> ColumnData {
    ColumnData {
        name: name.to_string(),
        kind: DataKind::Float64,
        cells: values
            .iter()
            .map(|v| match v {
                Some(x) => Cell::Float(x.to_bits()),
                None => Cell::Null,
            })
            .collect(),
    }
}

fn column<'a>(df: &'a Frame, name: &str) -> &'a ColumnData {
    let index = df.column_index(name).expect("column exists");
    &df.columns[index]
}

fn floats(col: &ColumnData) -> Vec<f64> {
    col.cells
        .iter()
        .map(|c| match c {
            Cell::Float(b) => f64::from_bits(*b),
            other => panic!("not a float: {other:?}"),
        })
        .collect()
}

fn strings(col: &ColumnData) -> Vec<String> {
    col.cells
        .iter()
        .map(|c| match c {
            Cell::Str(s) => s.clone(),
            other => panic!("not a string: {other:?}"),
        })
        .collect()
}


#[test]
fn f64_returns_contiguous_slice() {
    let df = Frame { columns: vec![f64_col("close", &[Some(1.0), Some(2.0), Some(3.0)])] };
    let store = ColumnStore::new(&df);

    let values = store.float64("close").unwrap();
    assert_eq!(values.iter().map(|b| f64::from_bits(*b)).collect::<Vec<_>>(), [1.0, 2.0, 3.0]);
}

#[test]
fn f64_rejects_wrong_dtype() {
    let df = Frame { columns: vec![u32_col("close", &[1, 2, 3])] };
    let store = ColumnStore::new(&df);

    let err = store.float64("close").unwrap_err();
    assert!(matches!(err, QFactorsError::DTypeMismatch { .. }));
}

#[test]
fn f64_rejects_nulls() {
    let df = Frame { columns: vec![f64_col("close", &[Some(1.0), None])] };
    let store = ColumnStore::new(&df);

    let err = store.float64("close").unwrap_err();
    assert!(matches!(err, QFactorsError::NullNotAllowed { .. }));
}

#[test]
fn integer_readers_return_values() {
    let df = Frame { columns: vec![u32_col("ids", &[4, 5]), i64_col("time", &[-1, 7])] };
    let store = ColumnStore::new(&df);
    assert_eq!(store.u32("ids").unwrap(), vec![4, 5]);
    assert_eq!(store.i64("time").unwrap(), vec![-1, 7]);
    let err = store.i64("ids").unwrap_err();
    assert!(matches!(
        err,
        QFactorsError::DTypeMismatch { column, expected: "Int64", actual } if column == "ids" && actual == "UInt32"
    ));
}

#[test]
fn missing_column_is_reported() {
    let df = Frame { columns: vec![u32_col("ids", &[4])] };
    let store = ColumnStore::new(&df);
    let err = store.u32("other").unwrap_err();
    assert!(matches!(err, QFactorsError::MissingColumn(name) if name == "other"));
}

#[test]
fn dtype_and_null_checks_report_the_column() {
    let col = f64_col("close", &[Some(1.0), None]);
    assert!(ensure_dtype(&col, DType::F64).is_ok());
    let err = ensure_dtype(&col, DType::U32).unwrap_err();
    assert!(matches!(
        err,
        QFactorsError::DTypeMismatch { column, expected: "UInt32", actual } if column == "close" && actual == "Float64"
    ));
    let err = ensure_no_nulls(&col).unwrap_err();
    assert!(matches!(err, QFactorsError::NullNotAllowed { column } if column == "close"));
    assert!(ensure_no_nulls(&f64_col("open", &[Some(2.0)])).is_ok());
}

#[test]
fn dtype_names_are_polars_names() {
    assert_eq!(DType::F64.name(), "Float64");
    assert_eq!(DType::U32.name(), "UInt32");
    assert_eq!(DType::I64.name(), "Int64");
}
