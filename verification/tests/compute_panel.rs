use std::ops::Range;

use qfactors::column_store::ColumnStore;
use qfactors::compute_panel::{
    collect_distinct_windows, plan_compute_panel, record_observation, resolve_alias,
    validate_factor_result,
};
use qfactors::compute_run::compute_panel_with;
use qfactors::compute_sink::MemorySink;
use qfactors::error::QFactorsError;
use qfactors::factor::{ColumnSpec, DType, FactorDescriptor, ResolvedFactor};
use qfactors::frame::{Cell, ColumnData, DataKind, Frame};
use qfactors::prepared_panel::{NullPolicy, PreparePanelOptions, PreparedPanel};

fn str_col(name: &str, values: &[&str]) -> ColumnData {
    ColumnData {
        name: name.to_string(),
        kind: DataKind::Str,
        cells: values.iter().map(|v| Cell::Str(v.to_string())).collect(),
    }
}

fn i64_col(name: &str, values: &[i64]) -> ColumnData {
    ColumnData {
        name: name.to_string(),
        kind: DataKind::Int64,
        cells: values.iter().map(|v| Cell::Int(*v)).collect(),
    }
}

fn f64_col(name: &str, values: &[Option<f64>]) -> ColumnData {
    ColumnData {
        name: name.to_string(),
        kind: DataKind::Float64,
        cells: values
            .iter()
            .map(|v| match v {
                Some(x) => Cell::Float(x.to_bits()),
                None => Cell::Null,
            })
            .collect(),
    }
}

fn column<'a>(df: &'a Frame, name: &str) -> &'a ColumnData {
    let index = df.column_index(name).expect("column exists");
    &df.columns[index]
}

fn floats(col: &ColumnData) -> Vec<f64> {
    col.cells
        .iter()
        .map(|c| match c {
            Cell::Float(b) => f64::from_bits(*b),
            other => panic!("not a float: {other:?}"),
        })
        .collect()
}

fn strings(col: &ColumnData) -> Vec<String> {
    col.cells
        .iter()
        .map(|c| match c {
            Cell::Str(s) => s.clone(),
            other => panic!("not a string: {other:?}"),
        })
        .collect()
}


const INPUTS: &[ColumnSpec] = &[ColumnSpec { name: "close", dtype: DType::F64 }];
const OUTPUTS: &[ColumnSpec] = &[ColumnSpec { name: "dummy", dtype: DType::F64 }];

fn dummy_descriptor() -> FactorDescriptor {
    FactorDescriptor {
        factor_name: "dummy",
        kernel_name: "dummy",
        window: 2,
        inputs: INPUTS,
        outputs: OUTPUTS,
        param_set: None,
    }
}

fn dummy_compute(
    columns: &ColumnStore<'_>,
    ranges: &[Option<Range<usize>>],
    factor: &ResolvedFactor,
) -> Vec<ColumnData> {
    let close = columns
        .float64(&factor.input_columns[0])
        .unwrap()
        .into_iter()
        .map(f64::from_bits)
        .collect::<Vec<_>>();
    let mut values = vec![f64::NAN; ranges.len()];
    for (idx, range) in ranges.iter().enumerate() {
        if let Some(range) = range {
            values[idx] = close[range.end - 1] - close[range.start];
        }
    }
    vec![ColumnData {
        name: factor.output_columns[0].clone(),
        kind: DataKind::Float64,
        cells: values.into_iter().map(|v| Cell::Float(v.to_bits())).collect(),
    }]
}

fn panel() -> PreparedPanel {
    let df = Frame {
        columns: vec![
            str_col("asset", &["B", "A", "A", "B", "A"]),
            i64_col("time", &[1, 3, 1, 3, 2]),
            f64_col("close", &[Some(20.0), Some(12.0), Some(10.0), Some(22.0), Some(11.0)]),
        ],
    };
    PreparedPanel::new(
        df,
        PreparePanelOptions {
            group_col: "asset".to_string(),
            time_col: "time".to_string(),
            column_aliases: Vec::new(),
            sort: true,
            rechunk: true,
            null_policy: NullPolicy::Error,
            output_group_id: false,
        },
    )
    .unwrap()
}

fn run(
    panel: &PreparedPanel,
    observation_times: Vec<Cell>,
    factor_names: Vec<String>,
    descriptors: &[FactorDescriptor],
) -> Result<Frame, QFactorsError> {
    compute_panel_with(panel, observation_times, &factor_names, None, descriptors, |columns, ranges, factor| {
        Ok(dummy_compute(columns, ranges, factor))
    })
}

#[test]
fn computes_memory_panel_in_observation_then_group_order() {
    let panel = panel();
    let out = run(
        &panel,
        vec![Cell::Int(2), Cell::Int(3)],
        vec!["dummy".to_string()],
        &[dummy_descriptor()],
    )
    .unwrap();

    assert_eq!(out.height(), 4);
    assert_eq!(strings(column(&out, "asset")), ["A", "B", "A", "B"]);
    let values = floats(column(&out, "dummy"));
    assert_eq!(values[0], 1.0);
    assert!(values[1].is_nan());
    assert_eq!(values[2], 1.0);
    assert_eq!(values[3], 2.0);
}

#[test]
fn resolve_rejects_unknown_factor() {
    let panel = panel();
    let err = run(
        &panel,
        vec![Cell::Int(2)],
        vec!["missing".to_string()],
        &[dummy_descriptor()],
    )
    .unwrap_err();

    assert!(matches!(err, QFactorsError::UnknownFactor(_)));
}

#[test]
fn output_path_is_unsupported() {
    let panel = panel();
    let err = plan_compute_panel(
        &panel,
        vec![Cell::Int(2)],
        &vec!["dummy".to_string()],
        Some("out.parquet"),
        &[dummy_descriptor()],
    )
    .unwrap_err();
    assert!(matches!(err, QFactorsError::UnsupportedOutputPath));
}

#[test]
fn duplicate_descriptor_names_conflict() {
    let panel = panel();
    let err = plan_compute_panel(
        &panel,
        vec![Cell::Int(2)],
        &vec!["dummy".to_string()],
        None,
        &[dummy_descriptor(), dummy_descriptor()],
    )
    .unwrap_err();
    assert!(matches!(err, QFactorsError::OutputColumnConflict(name) if name == "dummy"));
}

#[test]
fn zero_window_is_invalid() {
    let panel = panel();
    let mut desc = dummy_descriptor();
    desc.window = 0;
    let err = plan_compute_panel(&panel, vec![Cell::Int(2)], &vec!["dummy".to_string()], None, &[desc])
        .unwrap_err();
    assert!(matches!(err, QFactorsError::InvalidWindow { factor_name: "dummy", window: 0 }));
}

#[test]
fn requesting_a_factor_twice_conflicts() {
    let panel = panel();
    let err = plan_compute_panel(
        &panel,
        vec![Cell::Int(2)],
        &vec!["dummy".to_string(), "dummy".to_string()],
        None,
        &[dummy_descriptor()],
    )
    .unwrap_err();
    assert!(matches!(err, QFactorsError::OutputColumnConflict(name) if name == "dummy"));
}

#[test]
fn output_named_like_the_time_column_conflicts() {
    let panel = panel();
    let desc = FactorDescriptor { factor_name: "time", ..dummy_descriptor() };
    let err = plan_compute_panel(&panel, vec![Cell::Int(2)], &vec!["time".to_string()], None, &[desc])
        .unwrap_err();
    assert!(matches!(err, QFactorsError::OutputColumnConflict(name) if name == "time"));
}

#[test]
fn aliased_input_must_exist() {
    let df = Frame {
        columns: vec![str_col("asset", &["A"]), i64_col("time", &[1]), f64_col("px", &[Some(1.0)])],
    };
    let options = PreparePanelOptions {
        group_col: "asset".to_string(),
        time_col: "time".to_string(),
        column_aliases: vec![("close".to_string(), "adj_close".to_string())],
        sort: true,
        rechunk: true,
        null_policy: NullPolicy::Error,
        output_group_id: false,
    };
    let panel = PreparedPanel::new(df, options).unwrap();
    let err = plan_compute_panel(&panel, vec![Cell::Int(1)], &vec!["dummy".to_string()], None, &[dummy_descriptor()])
        .unwrap_err();
    assert!(matches!(err, QFactorsError::MissingColumn(name) if name == "adj_close"));
    assert_eq!(resolve_alias(panel.column_aliases(), "close"), "adj_close");
    assert_eq!(resolve_alias(panel.column_aliases(), "open"), "open");
}

#[test]
fn distinct_windows_are_sorted() {
    let mk = |w: usize| ResolvedFactor {
        desc: FactorDescriptor { window: w, ..dummy_descriptor() },
        input_columns: vec![],
        output_columns: vec![],
    };
    let windows = collect_distinct_windows(&vec![mk(5), mk(2), mk(5), mk(3)]).unwrap();
    assert_eq!(windows, vec![2, 3, 5]);
    let err = collect_distinct_windows(&vec![mk(5), mk(0)]).unwrap_err();
    assert!(matches!(err, QFactorsError::InvalidWindow { window: 0, .. }));
}

#[test]
fn factor_results_are_checked() {
    let panel = panel();
    let factor = ResolvedFactor {
        desc: dummy_descriptor(),
        input_columns: vec!["close".to_string()],
        output_columns: vec!["dummy".to_string()],
    };
    let err = validate_factor_result(&panel, &factor, &vec![]).unwrap_err();
    assert!(matches!(err, QFactorsError::FactorOutputCount { expected: 1, actual: 0, .. }));
    let short = vec![f64_col("dummy", &[Some(1.0)])];
    let err = validate_factor_result(&panel, &factor, &short).unwrap_err();
    assert!(matches!(err, QFactorsError::FactorOutputLength { expected: 2, actual: 1, .. }));
    let misnamed = vec![f64_col("other", &[Some(1.0), Some(2.0)])];
    let err = validate_factor_result(&panel, &factor, &misnamed).unwrap_err();
    assert!(matches!(err, QFactorsError::FactorOutputName { expected, actual, .. } if expected == "dummy" && actual == "other"));
    let good = vec![f64_col("dummy", &[Some(1.0), Some(2.0)])];
    assert!(validate_factor_result(&panel, &factor, &good).is_ok());
}

#[test]
fn faulty_result_leaves_the_sink_unchanged() {
    let panel = panel();
    let plan = plan_compute_panel(&panel, vec![Cell::Int(3)], &vec!["dummy".to_string()], None, &[dummy_descriptor()])
        .unwrap();
    let mut sink = MemorySink::new();
    let err = record_observation(
        &panel,
        &plan.resolved,
        &plan.observations[0],
        vec![vec![f64_col("wrong", &[Some(1.0), Some(2.0)])]],
        &mut sink,
    )
    .unwrap_err();
    assert!(matches!(err, QFactorsError::FactorOutputName { .. }));
    assert_eq!(sink.finish().unwrap().columns.len(), 0);
}

const OTHER_OUTPUTS: &[ColumnSpec] = &[ColumnSpec { name: "other", dtype: DType::F64 }];

fn other_descriptor() -> FactorDescriptor {
    FactorDescriptor {
        factor_name: "other",
        kernel_name: "other",
        window: 1,
        inputs: INPUTS,
        outputs: OTHER_OUTPUTS,
        param_set: None,
    }
}

#[test]
fn each_result_is_checked_before_the_next_kernel_runs() {
    let panel = panel();
    let counter = std::cell::Cell::new(0);
    let err = compute_panel_with(
        &panel,
        vec![Cell::Int(2)],
        &vec!["dummy".to_string(), "other".to_string()],
        None,
        &[dummy_descriptor(), other_descriptor()],
        |_columns, _ranges, factor| {
            counter.set(counter.get() + 1);
            if factor.desc.factor_name == "dummy" {
                Ok(Vec::new())
            } else {
                Err(QFactorsError::UnknownFactor("other".to_string()))
            }
        },
    )
    .unwrap_err();
    assert!(matches!(
        err,
        QFactorsError::FactorOutputCount { factor_name: "dummy", expected: 1, actual: 0 }
    ));
    assert_eq!(counter.get(), 1);
}

#[test]
fn a_kernel_error_stops_the_computation() {
    let panel = panel();
    let err = compute_panel_with(
        &panel,
        vec![Cell::Int(2), Cell::Int(3)],
        &vec!["dummy".to_string()],
        None,
        &[dummy_descriptor()],
        |_columns, _ranges, _factor| Err(QFactorsError::MissingWindowRange(7)),
    )
    .unwrap_err();
    assert!(matches!(err, QFactorsError::MissingWindowRange(7)));
}
