use qfactors::compute_alpha::{resolve_alpha_observations, resolve_alphas, sample_alpha_panel};
use qfactors::error::QFactorsError;
use qfactors::frame::{Cell, ColumnData, DataKind, Frame};
use qfactors::grid::{ComputePanelOptions, build_grid};
use qfactors::key::Key;

fn str_col(name: &str, values: &[&str]) -> ColumnData {
    ColumnData {
        name: name.to_string(),
        kind: DataKind::Str,
        cells: values.iter().map(|v| Cell::Str(v.to_string())).collect(),
    }
}

fn i64_col(name: &str, values: &[i64]) -> ColumnData {
    ColumnData {
        name: name.to_string(),
        kind: DataKind::Int64,
        cells: values.iter().map(|v| Cell::Int(*v)).collect(),
    }
}

fn f64_col(name: &str, values: &[Option<f64>]) -> ColumnData {
    ColumnData {
        name: name.to_string(),
        kind: DataKind::Float64,
        cells: values
            .iter()
            .map(|v| match v {
                Some(x) => Cell::Float(x.to_bits()),
                None => Cell::Null,
            })
            .collect(),
    }
}

fn column<'a>(df: &'a Frame, name: &str) -> &'a ColumnData {
    let index = df.column_index(name).expect("column exists");
    &df.columns[index]
}

fn floats(col: &ColumnData) -> Vec<f64> {
    col.cells
        .iter()
        .map(|c| match c {
            Cell::Float(b) => f64::from_bits(*b),
            other => panic!("not a float: {other:?}"),
        })
        .collect()
}

fn strings(col: &ColumnData) -> Vec<String> {
    col.cells
        .iter()
        .map(|c| match c {
            Cell::Str(s) => s.clone(),
            other => panic!("not a string: {other:?}"),
        })
        .collect()
}


fn options() -> ComputePanelOptions {
    ComputePanelOptions {
        symbol_col: "asset".to_string(),
        time_col: "time".to_string(),
        column_aliases: Vec::new(),
    }
}

/// Runs the alpha `test_alpha`, which is the `close` field itself.
fn run(df: &Frame, observation_times: Vec<Cell>) -> Result<Frame, QFactorsError> {
    let options = options();
    let resolved = resolve_alphas(&options, vec!["test_alpha".to_string()], &["test_alpha"])?;
    let (ctx, symbols, times) = build_grid(df, &options, &vec!["close".to_string()])?;
    let results = resolved
        .iter()
        .map(|(name, _)| (name.clone(), ctx.fields[0].1.clone()))
        .collect::<Vec<_>>();
    let observations = resolve_alpha_observations(&times, observation_times)?;
    let symbol_column = column(df, "asset");
    let time_kind = column(df, "time").kind.clone();
    Ok(sample_alpha_panel(&ctx, &symbols, symbol_column, &results, &observations, &time_kind, &options))
}

#[test]
fn compute_alphas_samples_only_present_symbols() {
    let df = Frame {
        columns: vec![
            str_col("asset", &["B", "A", "A"]),
            i64_col("time", &[2, 1, 2]),
            f64_col("close", &[Some(20.0), Some(10.0), Some(11.0)]),
        ],
    };

    let out = run(&df, vec![Cell::Int(1), Cell::Int(2)]).unwrap();

    assert_eq!(out.height(), 3);
    assert_eq!(floats(column(&out, "test_alpha")), [10.0, 11.0, 20.0]);
}

#[test]
fn missing_observation_time_preserves_schema() {
    let df = Frame {
        columns: vec![str_col("asset", &["A"]), i64_col("time", &[1]), f64_col("close", &[Some(10.0)])],
    };

    let out = run(&df, vec![Cell::Int(9)]).unwrap();

    assert_eq!(out.height(), 0);
    assert_eq!(
        out.columns.iter().map(|c| c.name.clone()).collect::<Vec<_>>(),
        ["time", "asset", "test_alpha"]
    );
}

#[test]
fn alpha_names_are_checked_in_order() {
    let options = options();
    let ok = resolve_alphas(&options, vec!["b".to_string(), "a".to_string()], &["a", "b"]).unwrap();
    assert_eq!(ok, vec![("b".to_string(), 1), ("a".to_string(), 0)]);
    let err = resolve_alphas(&options, vec!["time".to_string()], &["time"]).unwrap_err();
    assert!(matches!(err, QFactorsError::OutputColumnConflict(name) if name == "time"));
    let err = resolve_alphas(&options, vec!["a".to_string(), "a".to_string()], &["a"]).unwrap_err();
    assert!(matches!(err, QFactorsError::OutputColumnConflict(name) if name == "a"));
    let err = resolve_alphas(&options, vec!["zzz".to_string()], &["a"]).unwrap_err();
    assert!(matches!(err, QFactorsError::UnknownFactor(name) if name == "zzz"));
}

#[test]
fn alpha_observation_times_are_checked() {
    let df = Frame { columns: vec![str_col("asset", &["A"]), i64_col("time", &[1])] };
    let (_, _, times) = build_grid(&df, &options(), &vec![]).unwrap();
    let err = resolve_alpha_observations(&times, vec![]).unwrap_err();
    assert!(matches!(err, QFactorsError::ObservationTimesEmpty));
    let err = resolve_alpha_observations(&times, vec![Cell::Int(1), Cell::Null]).unwrap_err();
    assert!(matches!(err, QFactorsError::ObservationTimeNull));
    let err = resolve_alpha_observations(&times, vec![Cell::Float(f64::NAN.to_bits())]).unwrap_err();
    assert!(matches!(err, QFactorsError::ObservationTimeNan));
    let err = resolve_alpha_observations(&times, vec![Cell::Int(1), Cell::Int(1)]).unwrap_err();
    assert!(matches!(err, QFactorsError::DuplicateObservationTime(Key::Int(1))));
    let ok = resolve_alpha_observations(&times, vec![Cell::Int(5), Cell::Int(1)]).unwrap();
    assert_eq!(ok.time_rows, vec![None, Some(0)]);
}
