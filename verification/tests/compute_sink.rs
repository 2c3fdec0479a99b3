use qfactors::compute_sink::MemorySink;
use qfactors::error::QFactorsError;
use qfactors::frame::{Cell, ColumnData, DataKind, Frame};

fn str_col(name: &str, values: &[&str]) -> ColumnData {
    ColumnData {
        name: name.to_string(),
        kind: DataKind::Str,
        cells: values.iter().map(|v| Cell::Str(v.to_string())).collect(),
    }
}

fn i64_col(name: &str, values: &[i64]) -> ColumnData {
    ColumnData {
        name: name.to_string(),
        kind: DataKind::Int64,
        cells: values.iter().map(|v| Cell::Int(*v)).collect(),
    }
}

fn f64_col(name: &str, values: &[Option<f64>]) -> ColumnData {
    ColumnData {
        name: name.to_string(),
        kind: DataKind::Float64,
        cells: values
            .iter()
            .map(|v| match v {
                Some(x) => Cell::Float(x.to_bits()),
                None => Cell::Null,
            })
            .collect(),
    }
}

fn column<'a>(df: &'a Frame, name: &str) -> &'a ColumnData {
    let index = df.column_index(name).expect("column exists");
    &df.columns[index]
}

fn floats(col: &ColumnData) -> Vec<f64> {
    col.cells
        .iter()
        .map(|c| match c {
            Cell::Float(b) => f64::from_bits(*b),
            other => panic!("not a float: {other:?}"),
        })
        .collect()
}

fn strings(col: &ColumnData) -> Vec<String> {
    col.cells
        .iter()
        .map(|c| match c {
            Cell::Str(s) => s.clone(),
            other => panic!("not a string: {other:?}"),
        })
        .collect()
}


#[test]
fn memory_sink_stacks_observations() {
    let mut sink = MemorySink::new();
    sink.write_observation(Frame { columns: vec![i64_col("time", &[1]), f64_col("ret", &[Some(0.1)])] });
    sink.write_observation(Frame { columns: vec![i64_col("time", &[2]), f64_col("ret", &[Some(0.2)])] });

    let out = sink.finish().unwrap();
    assert_eq!(out.height(), 2);
    assert_eq!(floats(column(&out, "ret")), [0.1, 0.2]);
}

#[test]
fn empty_sink_gives_empty_frame() {
    let out = MemorySink::new().finish().unwrap();
    assert_eq!(out.columns.len(), 0);
    assert_eq!(out.height(), 0);
}

#[test]
fn mismatched_schema_is_refused() {
    let mut sink = MemorySink::new();
    sink.write_observation(Frame { columns: vec![i64_col("time", &[1])] });
    sink.write_observation(Frame { columns: vec![f64_col("time", &[Some(2.0)])] });
    let err = sink.finish().unwrap_err();
    assert!(matches!(err, QFactorsError::SchemaMismatch { frame: 1 }));
}
