use qfactors::cellset::build_cellset;
use qfactors::error::QFactorsError;
use qfactors::frame::{Cell, ColumnData, DataKind, Frame};
use qfactors::grid::ComputePanelOptions;

fn str_col(name: &str, values: &[&str]) -> ColumnData {
    ColumnData {
        name: name.to_string(),
        kind: DataKind::Str,
        cells: values.iter().map(|v| Cell::Str(v.to_string())).collect(),
    }
}

fn i64_col(name: &str, values: &[i64]) -> ColumnData {
    ColumnData {
        name: name.to_string(),
        kind: DataKind::Int64,
        cells: values.iter().map(|v| Cell::Int(*v)).collect(),
    }
}

fn f64_col(name: &str, values: &[Option<f64>]) -> ColumnData {
    ColumnData {
        name: name.to_string(),
        kind: DataKind::Float64,
        cells: values
            .iter()
            .map(|v| match v {
                Some(x) => Cell::Float(x.to_bits()),
                None => Cell::Null,
            })
            .collect(),
    }
}

fn column<'a>(df: &'a Frame, name: &str) -> &'a ColumnData {
    let index = df.column_index(name).expect("column exists");
    &df.columns[index]
}

fn floats(col: &ColumnData) -> Vec<f64> {
    col.cells
        .iter()
        .map(|c| match c {
            Cell::Float(b) => f64::from_bits(*b),
            other => panic!("not a float: {other:?}"),
        })
        .collect()
}

fn strings(col: &ColumnData) -> Vec<String> {
    col.cells
        .iter()
        .map(|c| match c {
            Cell::Str(s) => s.clone(),
            other => panic!("not a string: {other:?}"),
        })
        .collect()
}


fn options() -> ComputePanelOptions {
    ComputePanelOptions {
        symbol_col: "asset".to_string(),
        time_col: "time".to_string(),
        column_aliases: Vec::new(),
    }
}

fn field<'a>(fields: &'a [(String, Vec<u64>)], name: &str) -> Vec<f64> {
    fields
        .iter()
        .find(|(n, _)| n == name)
        .expect("field present")
        .1
        .iter()
        .map(|b| f64::from_bits(*b))
        .collect()
}

#[test]
fn build_cellset_sorts_nt_and_builds_tn_blocks() {
    let df = Frame {
        columns: vec![
            str_col("asset", &["B", "A", "B"]),
            i64_col("time", &[1, 2, 2]),
            f64_col("open", &[Some(20.0), Some(10.0), Some(21.0)]),
            f64_col("close", &[Some(21.0), Some(10.5), Some(22.0)]),
        ],
    };
    let fields = vec!["close".to_string(), "open".to_string()];

    let cs = build_cellset(&df, &options(), &fields).unwrap();

    assert_eq!(cs.n_cells, 3);
    assert_eq!(cs.sym_blocks, [0..1, 1..3]);
    assert_eq!(cs.tn_order, [1, 0, 2]);
    assert_eq!(cs.time_blocks, [0..1, 1..3]);
    assert_eq!(field(&cs.fields, "open"), [10.0, 20.0, 21.0]);
    assert_eq!(strings(&cs.symbols_tn), ["B", "A", "B"]);
    assert_eq!(cs.times_tn.cells, vec![Cell::Int(1), Cell::Int(2), Cell::Int(2)]);
    assert_eq!(cs.time_block_by_value(&Cell::Int(1)), Some(0));
    assert_eq!(cs.time_block_by_value(&Cell::Int(2)), Some(1));
}

#[test]
fn build_cellset_uses_aliases_and_float_nulls_become_nan() {
    let mut options = options();
    options.column_aliases.push(("open".to_string(), "raw_open".to_string()));
    let df = Frame {
        columns: vec![
            str_col("asset", &["A", "A"]),
            i64_col("time", &[1, 2]),
            f64_col("raw_open", &[Some(10.0), None]),
        ],
    };
    let fields = vec!["open".to_string()];

    let cs = build_cellset(&df, &options, &fields).unwrap();

    let open = field(&cs.fields, "open");
    assert_eq!(open[0], 10.0);
    assert!(open[1].is_nan());
}

#[test]
fn build_cellset_rejects_duplicate_symbol_time() {
    let df = Frame {
        columns: vec![
            str_col("asset", &["A", "A"]),
            i64_col("time", &[1, 1]),
            f64_col("open", &[Some(10.0), Some(11.0)]),
        ],
    };
    let fields = vec!["open".to_string()];

    let err = build_cellset(&df, &options(), &fields).unwrap_err();

    assert!(matches!(err, QFactorsError::DuplicateSymbolTime { .. }));
}

#[test]
fn build_cellset_rejects_missing_wrong_dtype_and_structural_null() {
    let fields = vec!["open".to_string()];
    let missing = Frame { columns: vec![str_col("asset", &["A"]), i64_col("time", &[1])] };
    let err = build_cellset(&missing, &options(), &fields).unwrap_err();
    assert!(matches!(err, QFactorsError::MissingColumn(_)));

    let wrong_dtype = Frame {
        columns: vec![str_col("asset", &["A"]), i64_col("time", &[1]), i64_col("open", &[1])],
    };
    let err = build_cellset(&wrong_dtype, &options(), &fields).unwrap_err();
    assert!(matches!(err, QFactorsError::DTypeMismatch { .. }));

    let structural_null = Frame {
        columns: vec![
            ColumnData {
                name: "asset".to_string(),
                kind: DataKind::Str,
                cells: vec![Cell::Str("A".to_string()), Cell::Null],
            },
            i64_col("time", &[1, 2]),
            f64_col("open", &[Some(10.0), Some(11.0)]),
        ],
    };
    let err = build_cellset(&structural_null, &options(), &fields).unwrap_err();
    assert!(matches!(err, QFactorsError::SymbolNull(_)));
}

#[test]
fn time_null_is_reported_with_its_column() {
    let df = Frame {
        columns: vec![
            str_col("asset", &["A", "B"]),
            ColumnData { name: "time".to_string(), kind: DataKind::Int64, cells: vec![Cell::Int(1), Cell::Null] },
        ],
    };
    let err = build_cellset(&df, &options(), &vec![]).unwrap_err();
    assert!(matches!(err, QFactorsError::TimeNull(name) if name == "time"));
}
