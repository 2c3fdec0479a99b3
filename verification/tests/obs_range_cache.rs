use qfactors::frame::{Cell, ColumnData, DataKind, Frame};
use qfactors::obs_range_cache::ObsRangeCache;
use qfactors::prepared_panel::{NullPolicy, PreparePanelOptions, PreparedPanel};

fn str_col(name: &str, values: &[&str]) -> ColumnData {
    ColumnData {
        name: name.to_string(),
        kind: DataKind::Str,
        cells: values.iter().map(|v| Cell::Str(v.to_string())).collect(),
    }
}

fn i64_col(name: &str, values: &[i64]) -> ColumnData {
    ColumnData {
        name: name.to_string(),
        kind: DataKind::Int64,
        cells: values.iter().map(|v| Cell::Int(*v)).collect(),
    }
}

fn f64_col(name: &str, values: &[Option<f64>]) -> ColumnData {
    ColumnData {
        name: name.to_string(),
        kind: DataKind::Float64,
        cells: values
            .iter()
            .map(|v| match v {
                Some(x) => Cell::Float(x.to_bits()),
                None => Cell::Null,
            })
            .collect(),
    }
}

fn column<'a>(df: &'a Frame, name: &str) -> &'a ColumnData {
    let index = df.column_index(name).expect("column exists");
    &df.columns[index]
}

fn floats(col: &ColumnData) -> Vec<f64> {
    col.cells
        .iter()
        .map(|c| match c {
            Cell::Float(b) => f64::from_bits(*b),
            other => panic!("not a float: {other:?}"),
        })
        .collect()
}

fn strings(col: &ColumnData) -> Vec<String> {
    col.cells
        .iter()
        .map(|c| match c {
            Cell::Str(s) => s.clone(),
            other => panic!("not a string: {other:?}"),
        })
        .collect()
}


fn panel() -> PreparedPanel {
    let df = Frame {
        columns: vec![
            str_col("asset", &["A", "A", "A", "B", "B"]),
            i64_col("time", &[1, 2, 3, 1, 3]),
            f64_col("close", &[Some(10.0), Some(11.0), Some(12.0), Some(20.0), Some(22.0)]),
        ],
    };
    PreparedPanel::new(
        df,
        PreparePanelOptions {
            group_col: "asset".to_string(),
            time_col: "time".to_string(),
            column_aliases: Vec::new(),
            sort: true,
            rechunk: true,
            null_policy: NullPolicy::Error,
            output_group_id: false,
        },
    )
    .unwrap()
}

#[test]
fn builds_group_local_ranges() {
    let panel = panel();
    let cache = ObsRangeCache::new(&panel, 3, &[2]);
    let ranges = cache.ranges_for(2).unwrap();

    assert_eq!(ranges[0], Some(1..3));
    assert_eq!(ranges[1], Some(3..5));
}

#[test]
fn insufficient_window_is_none() {
    let panel = panel();
    let cache = ObsRangeCache::new(&panel, 1, &[2]);
    let ranges = cache.ranges_for(2).unwrap();

    assert_eq!(ranges, &[None, None]);
}

#[test]
fn uncached_window_is_reported() {
    let panel = panel();
    let cache = ObsRangeCache::new(&panel, 3, &[2]);
    let err = cache.ranges_for(3).unwrap_err();
    assert!(matches!(err, qfactors::error::QFactorsError::MissingWindowRange(3)));
}

#[test]
fn ranges_stop_before_the_observation() {
    // Observation ordinal 2 covers times 1 and 2 only: group B has one such row.
    let panel = panel();
    let cache = ObsRangeCache::new(&panel, 2, &[1, 2]);
    assert_eq!(cache.ranges_for(2).unwrap(), &[Some(0..2), None]);
    assert_eq!(cache.ranges_for(1).unwrap(), &[Some(1..2), Some(3..4)]);
    assert_eq!(cache.obs_ord_exclusive, 2);
}
