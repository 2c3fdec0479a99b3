use qfactors::error::QFactorsError;
use qfactors::frame::{Cell, ColumnData, DataKind, Frame};
use qfactors::grid::{ComputePanelOptions, build_grid};

fn str_col(name: &str, values: &[&str]) -> ColumnData {
    ColumnData {
        name: name.to_string(),
        kind: DataKind::Str,
        cells: values.iter().map(|v| Cell::Str(v.to_string())).collect(),
    }
}

fn i64_col(name: &str, values: &[i64]) -> ColumnData {
    ColumnData {
        name: name.to_string(),
        kind: DataKind::Int64,
        cells: values.iter().map(|v| Cell::Int(*v)).collect(),
    }
}

fn f64_col(name: &str, values: &[Option<f64>]) -> ColumnData {
    ColumnData {
        name: name.to_string(),
        kind: DataKind::Float64,
        cells: values
            .iter()
            .map(|v| match v {
                Some(x) => Cell::Float(x.to_bits()),
                None => Cell::Null,
            })
            .collect(),
    }
}

fn column<'a>(df: &'a Frame, name: &str) -> &'a ColumnData {
    let index = df.column_index(name).expect("column exists");
    &df.columns[index]
}

fn floats(col: &ColumnData) -> Vec<f64> {
    col.cells
        .iter()
        .map(|c| match c {
            Cell::Float(b) => f64::from_bits(*b),
            other => panic!("not a float: {other:?}"),
        })
        .collect()
}

fn strings(col: &ColumnData) -> Vec<String> {
    col.cells
        .iter()
        .map(|c| match c {
            Cell::Str(s) => s.clone(),
            other => panic!("not a string: {other:?}"),
        })
        .collect()
}


fn options() -> ComputePanelOptions {
    ComputePanelOptions {
        symbol_col: "asset".to_string(),
        time_col: "time".to_string(),
        column_aliases: Vec::new(),
    }
}

fn field<'a>(fields: &'a [(String, Vec<u64>)], name: &str) -> Vec<f64> {
    fields
        .iter()
        .find(|(n, _)| n == name)
        .expect("field present")
        .1
        .iter()
        .map(|b| f64::from_bits(*b))
        .collect()
}

#[test]
fn build_grid_sorts_axes_scatters_fields_and_presence() {
    let df = Frame {
        columns: vec![
            str_col("asset", &["B", "A", "A"]),
            i64_col("time", &[2, 1, 2]),
            f64_col("open", &[Some(20.0), Some(10.0), Some(11.0)]),
            f64_col("close", &[Some(21.0), Some(10.5), Some(12.0)]),
        ],
    };
    let fields = vec!["close".to_string(), "open".to_string()];

    let (ctx, symbols, times) = build_grid(&df, &options(), &fields).unwrap();

    assert_eq!(ctx.n_symbols, 2);
    assert_eq!(ctx.n_times, 2);
    assert_eq!(symbols.values, vec![Cell::Str("A".to_string()), Cell::Str("B".to_string())]);
    assert_eq!(times.values, vec![Cell::Int(1), Cell::Int(2)]);
    assert_eq!(ctx.presence, [true, true, false, true]);
    let open = field(&ctx.fields, "open");
    assert_eq!(open[0], 10.0);
    assert_eq!(open[1], 11.0);
    assert!(open[2].is_nan());
    assert_eq!(open[3], 20.0);
}

#[test]
fn build_grid_uses_aliases_and_float_nulls_become_nan() {
    let mut options = options();
    options.column_aliases.push(("open".to_string(), "raw_open".to_string()));
    let df = Frame {
        columns: vec![
            str_col("asset", &["A", "A"]),
            i64_col("time", &[1, 2]),
            f64_col("raw_open", &[Some(10.0), None]),
        ],
    };
    let fields = vec!["open".to_string()];

    let (ctx, _, _) = build_grid(&df, &options, &fields).unwrap();

    let open = field(&ctx.fields, "open");
    assert_eq!(open[0], 10.0);
    assert!(open[1].is_nan());
}

#[test]
fn build_grid_rejects_duplicate_symbol_time() {
    let df = Frame {
        columns: vec![
            str_col("asset", &["A", "A"]),
            i64_col("time", &[1, 1]),
            f64_col("open", &[Some(10.0), Some(11.0)]),
        ],
    };
    let fields = vec!["open".to_string()];

    let err = build_grid(&df, &options(), &fields).unwrap_err();

    assert!(matches!(err, QFactorsError::DuplicateSymbolTime { .. }));
}

#[test]
fn build_grid_rejects_missing_wrong_dtype_and_structural_null() {
    let fields = vec!["open".to_string()];
    let missing = Frame { columns: vec![str_col("asset", &["A"]), i64_col("time", &[1])] };
    let err = build_grid(&missing, &options(), &fields).unwrap_err();
    assert!(matches!(err, QFactorsError::MissingColumn(_)));

    let wrong_dtype = Frame {
        columns: vec![str_col("asset", &["A"]), i64_col("time", &[1]), i64_col("open", &[1])],
    };
    let err = build_grid(&wrong_dtype, &options(), &fields).unwrap_err();
    assert!(matches!(err, QFactorsError::DTypeMismatch { .. }));

    let structural_null = Frame {
        columns: vec![
            ColumnData {
                name: "asset".to_string(),
                kind: DataKind::Str,
                cells: vec![Cell::Str("A".to_string()), Cell::Null],
            },
            i64_col("time", &[1, 2]),
            f64_col("open", &[Some(10.0), Some(11.0)]),
        ],
    };
    let err = build_grid(&structural_null, &options(), &fields).unwrap_err();
    assert!(matches!(err, QFactorsError::SymbolNull(_)));
}

#[test]
fn axes_keep_first_source_rows_and_find_values() {
    let df = Frame {
        columns: vec![
            str_col("asset", &["B", "A", "B", "A"]),
            i64_col("time", &[3, 3, 1, 1]),
        ],
    };
    let (ctx, symbols, times) = build_grid(&df, &options(), &vec![]).unwrap();
    assert_eq!(symbols.source_rows, vec![1, 0]);
    assert_eq!(times.source_rows, vec![2, 0]);
    assert_eq!(times.index_by_value(&Cell::Int(3)), Some(1));
    assert_eq!(times.index_by_value(&Cell::Int(2)), None);
    assert_eq!(ctx.presence, [true, true, true, true]);
}

#[test]
fn nan_time_is_not_comparable() {
    let df = Frame {
        columns: vec![str_col("asset", &["A", "B"]), f64_col("time", &[Some(1.0), Some(f64::NAN)])],
    };
    let err = build_grid(&df, &options(), &vec![]).unwrap_err();
    assert!(matches!(err, QFactorsError::NonComparableColumn { column } if column == "time"));
}
