use qfactors::error::QFactorsError;
use qfactors::frame::{Cell, ColumnData, DataKind, Frame};
use qfactors::key::Key;
use qfactors::prepared_panel::{
    GROUP_ID_COL, NullPolicy, PreparePanelOptions, PreparedPanel, TIME_ORD_COL,
};

fn str_col(name: &str, values: &[&str]) -> ColumnData {
    ColumnData {
        name: name.to_string(),
        kind: DataKind::Str,
        cells: values.iter().map(|v| Cell::Str(v.to_string())).collect(),
    }
}

fn i64_col(name: &str, values: &[Option<i64>]) -> ColumnData {
    ColumnData {
        name: name.to_string(),
        kind: DataKind::Int64,
        cells: values
            .iter()
            .map(|v| match v {
                Some(x) => Cell::Int(*x),
                None => Cell::Null,
            })
            .collect(),
    }
}

fn f64_col(name: &str, values: &[Option<f64>]) -> ColumnData {
    ColumnData {
        name: name.to_string(),
        kind: DataKind::Float64,
        cells: values
            .iter()
            .map(|v| match v {
                Some(x) => Cell::Float(x.to_bits()),
                None => Cell::Null,
            })
            .collect(),
    }
}

fn frame(columns: Vec<ColumnData>) -> Frame {
    Frame { columns }
}

fn default_options() -> PreparePanelOptions {
    PreparePanelOptions {
        group_col: "asset".to_string(),
        time_col: "time".to_string(),
        column_aliases: Vec::new(),
        sort: true,
        rechunk: true,
        null_policy: NullPolicy::Error,
        output_group_id: false,
    }
}

fn column<'a>(df: &'a Frame, name: &str) -> &'a ColumnData {
    let index = df.column_index(name).expect("column exists");
    &df.columns[index]
}

fn strings(col: &ColumnData) -> Vec<String> {
    col.cells
        .iter()
        .map(|c| match c {
            Cell::Str(s) => s.clone(),
            other => panic!("not a string: {other:?}"),
        })
        .collect()
}

fn times(values: &[i64]) -> Vec<Cell> {
    values.iter().map(|v| Cell::Int(*v)).collect()
}

#[test]
fn prepare_panel_sorts_and_encodes_groups() {
    let df = frame(vec![
        str_col("asset", &["B", "A", "A"]),
        i64_col("time", &[Some(1), Some(2), Some(1)]),
        f64_col("close", &[Some(20.0), Some(11.0), Some(10.0)]),
    ]);

    let panel = PreparedPanel::new(df, default_options()).unwrap();

    assert_eq!(panel.groups().len(), 2);
    assert_eq!(panel.groups()[0].start, 0);
    assert_eq!(panel.groups()[0].end, 2);
    assert_eq!(strings(column(panel.dataframe(), "asset")), ["A", "A", "B"]);
    assert!(panel.dataframe().column_index(GROUP_ID_COL).is_some());
    assert!(panel.dataframe().column_index(TIME_ORD_COL).is_some());
}

#[test]
fn sort_false_rejects_unsorted_input() {
    let df = frame(vec![
        str_col("asset", &["A", "A"]),
        i64_col("time", &[Some(2), Some(1)]),
        f64_col("close", &[Some(11.0), Some(10.0)]),
    ]);
    let mut options = default_options();
    options.sort = false;

    let err = PreparedPanel::new(df, options).unwrap_err();
    assert!(matches!(err, QFactorsError::SortOrder { .. }));
}

#[test]
fn duplicate_group_time_is_rejected() {
    let df = frame(vec![
        str_col("asset", &["A", "A"]),
        i64_col("time", &[Some(1), Some(1)]),
        f64_col("close", &[Some(10.0), Some(11.0)]),
    ]);

    let err = PreparedPanel::new(df, default_options()).unwrap_err();
    assert!(matches!(err, QFactorsError::DuplicateGroupTime { .. }));
}

#[test]
fn time_null_is_rejected() {
    let df = frame(vec![
        str_col("asset", &["A", "A"]),
        i64_col("time", &[Some(1), None]),
        f64_col("close", &[Some(10.0), Some(11.0)]),
    ]);

    let err = PreparedPanel::new(df, default_options()).unwrap_err();
    assert!(matches!(err, QFactorsError::TimeNull(_)));
}

#[test]
fn float_null_to_nan_replaces_float_nulls() {
    let df = frame(vec![
        str_col("asset", &["A", "A"]),
        i64_col("time", &[Some(1), Some(2)]),
        f64_col("close", &[Some(10.0), None]),
    ]);
    let mut options = default_options();
    options.null_policy = NullPolicy::FloatNullToNan;

    let panel = PreparedPanel::new(df, options).unwrap();
    let values = column(panel.dataframe(), "close")
        .cells
        .iter()
        .map(|c| match c {
            Cell::Float(b) => f64::from_bits(*b),
            other => panic!("not a float: {other:?}"),
        })
        .collect::<Vec<_>>();
    assert!(values[1].is_nan());
}

#[test]
fn resolve_observation_times_keeps_input_order_and_uses_upper_bound() {
    let df = frame(vec![
        str_col("asset", &["A", "A", "A"]),
        i64_col("time", &[Some(1), Some(3), Some(5)]),
        f64_col("close", &[Some(10.0), Some(11.0), Some(12.0)]),
    ]);
    let panel = PreparedPanel::new(df, default_options()).unwrap();

    let observations = panel.resolve_observation_times(times(&[4, 0, 6])).unwrap();

    assert_eq!(
        observations.iter().map(|o| o.input_index).collect::<Vec<_>>(),
        [0, 1, 2]
    );
    assert_eq!(
        observations.iter().map(|o| o.ord_exclusive).collect::<Vec<_>>(),
        [2, 0, 3]
    );
}

#[test]
fn resolve_observation_times_rejects_duplicates() {
    let df = frame(vec![
        str_col("asset", &["A", "A"]),
        i64_col("time", &[Some(1), Some(2)]),
        f64_col("close", &[Some(10.0), Some(11.0)]),
    ]);
    let panel = PreparedPanel::new(df, default_options()).unwrap();

    let err = panel.resolve_observation_times(times(&[1, 1])).unwrap_err();
    assert!(matches!(err, QFactorsError::DuplicateObservationTime(_)));
}

#[test]
fn build_observation_frame_restores_group_labels() {
    let df = frame(vec![
        str_col("asset", &["B", "A", "A"]),
        i64_col("time", &[Some(1), Some(1), Some(2)]),
        f64_col("close", &[Some(20.0), Some(10.0), Some(11.0)]),
    ]);
    let panel = PreparedPanel::new(df, default_options()).unwrap();
    let observations = panel.resolve_observation_times(times(&[2])).unwrap();
    let out = panel
        .build_observation_frame(
            &observations[0],
            vec![f64_col("ret", &[Some(0.1), Some(f64::NAN)])],
        )
        .unwrap();

    assert_eq!(strings(column(&out, "asset")), ["A", "B"]);
    assert_eq!(column(&out, "time").cells.len(), 2);
}

#[test]
fn group_null_is_rejected() {
    let df = frame(vec![
        ColumnData {
            name: "asset".to_string(),
            kind: DataKind::Str,
            cells: vec![Cell::Str("A".to_string()), Cell::Null],
        },
        i64_col("time", &[Some(1), Some(2)]),
    ]);
    let err = PreparedPanel::new(df, default_options()).unwrap_err();
    assert!(matches!(err, QFactorsError::GroupNull(name) if name == "asset"));
}

#[test]
fn null_policy_error_rejects_value_nulls() {
    let df = frame(vec![
        str_col("asset", &["A", "A"]),
        i64_col("time", &[Some(1), Some(2)]),
        f64_col("close", &[Some(10.0), None]),
    ]);
    let err = PreparedPanel::new(df, default_options()).unwrap_err();
    assert!(matches!(err, QFactorsError::NullNotAllowed { column } if column == "close"));
}

#[test]
fn float_null_to_nan_rejects_integer_nulls() {
    let df = frame(vec![
        str_col("asset", &["A", "A"]),
        i64_col("time", &[Some(1), Some(2)]),
        i64_col("volume", &[Some(10), None]),
    ]);
    let mut options = default_options();
    options.null_policy = NullPolicy::FloatNullToNan;
    let err = PreparedPanel::new(df, options).unwrap_err();
    assert!(matches!(
        err,
        QFactorsError::FloatNullToNanTypeMismatch { column, dtype } if column == "volume" && dtype == "Int64"
    ));
}

#[test]
fn internal_column_names_are_refused() {
    let df = frame(vec![
        str_col("asset", &["A"]),
        i64_col("time", &[Some(1)]),
        i64_col(GROUP_ID_COL, &[Some(0)]),
    ]);
    let err = PreparedPanel::new(df, default_options()).unwrap_err();
    assert!(matches!(err, QFactorsError::InternalColumnConflict(name) if name == GROUP_ID_COL));
}

#[test]
fn missing_group_column_is_reported() {
    let df = frame(vec![i64_col("time", &[Some(1)])]);
    let err = PreparedPanel::new(df, default_options()).unwrap_err();
    assert!(matches!(err, QFactorsError::MissingColumn(name) if name == "asset"));
}

#[test]
fn time_ordinals_number_distinct_times() {
    let df = frame(vec![
        str_col("asset", &["B", "A", "A", "B"]),
        i64_col("time", &[Some(5), Some(3), Some(5), Some(9)]),
    ]);
    let panel = PreparedPanel::new(df, default_options()).unwrap();
    assert_eq!(panel.unique_times(), &[Key::Int(3), Key::Int(5), Key::Int(9)]);
    assert_eq!(panel.time_ordinals(), &[0, 1, 1, 2]);
    let ids = column(panel.dataframe(), GROUP_ID_COL);
    assert_eq!(ids.cells, vec![Cell::UInt(0), Cell::UInt(0), Cell::UInt(1), Cell::UInt(1)]);
}

#[test]
fn null_policy_parses_known_names() {
    assert_eq!(NullPolicy::parse("error").unwrap(), NullPolicy::Error);
    assert_eq!(
        NullPolicy::parse("float_null_to_nan").unwrap(),
        NullPolicy::FloatNullToNan
    );
    let err = NullPolicy::parse("ignore").unwrap_err();
    assert!(matches!(err, QFactorsError::UnsupportedNullPolicy(name) if name == "ignore"));
}

#[test]
fn observation_frame_refuses_wrong_factor_length() {
    let df = frame(vec![
        str_col("asset", &["A", "B"]),
        i64_col("time", &[Some(1), Some(1)]),
    ]);
    let panel = PreparedPanel::new(df, default_options()).unwrap();
    let observations = panel.resolve_observation_times(times(&[1])).unwrap();
    let err = panel
        .build_observation_frame(&observations[0], vec![f64_col("ret", &[Some(0.1)])])
        .unwrap_err();
    assert!(matches!(
        err,
        QFactorsError::ColumnLengthMismatch { column, expected: 2, actual: 1 } if column == "ret"
    ));
}

#[test]
fn null_observation_time_is_rejected() {
    let df = frame(vec![str_col("asset", &["A"]), i64_col("time", &[Some(1)])]);
    let panel = PreparedPanel::new(df, default_options()).unwrap();
    let err = panel.resolve_observation_times(vec![Cell::Null]).unwrap_err();
    assert!(matches!(err, QFactorsError::ObservationTimeNull));
}

#[test]
fn signed_zero_times_are_distinct() {
    let df = frame(vec![
        str_col("asset", &["A", "A"]),
        f64_col("time", &[Some(-0.0), Some(0.0)]),
        f64_col("close", &[Some(10.0), Some(11.0)]),
    ]);

    let panel = PreparedPanel::new(df, default_options()).unwrap();
    assert_eq!(panel.groups().len(), 1);
    assert_eq!(panel.groups()[0].end, 2);
    assert_eq!(panel.unique_times().len(), 2);
    assert_eq!(panel.time_ordinals(), &[0, 1]);
}

#[test]
fn nan_times_sort_last_whatever_their_sign() {
    let negative_nan = f64::from_bits(f64::NAN.to_bits() | 0x8000_0000_0000_0000);
    let df = frame(vec![
        str_col("asset", &["A", "A"]),
        f64_col("time", &[Some(negative_nan), Some(-5.0)]),
        f64_col("close", &[Some(10.0), Some(11.0)]),
    ]);

    let panel = PreparedPanel::new(df, default_options()).unwrap();
    let close = column(panel.dataframe(), "close");
    assert_eq!(close.cells[0], Cell::Float(11.0f64.to_bits()));
    assert_eq!(close.cells[1], Cell::Float(10.0f64.to_bits()));
    assert_eq!(panel.time_ordinals(), &[0, 1]);
}
