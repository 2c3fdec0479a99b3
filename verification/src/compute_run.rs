//! Running a planned factor computation over a prepared panel: for each
//! requested time in turn, every factor's kernel on its trailing windows,
//! each result checked as soon as it comes back, and the per-time tables
//! stacked.
use vstd::prelude::*;
use std::ops::Range;
use crate::column_store::ColumnStore;
use crate::compute_panel::{
    columns_view, lemma_plan_windows_cached, output_error, output_fault, plan_compute_panel,
    resolve_error, resolve_failure, resolved_as, result_columns, validate_factor_result,
    window_used,
};
use crate::compute_sink::{MemorySink, first_schema_mismatch, stacked};
use crate::error::QFactorsError;
use crate::factor::{FactorDescriptor, ResolvedFactor, strings_view};
use crate::frame::{Cell, CellView, ColumnData, ColumnView, Frame, cells_view};
use crate::obs_range_cache::{ObsRangeCache, window_ranges};
use crate::prepared_panel::{
    PreparedObservation, PreparedPanel, frame_error, frame_refused, observation_error,
    observation_key_columns, observations_rejected, observations_resolved,
};

verus! {

/// `out` is a possible answer of `kernel` on a table `f`, the row ranges
/// `ranges` and `factor`.
pub open spec fn kernel_gave<K>(
    kernel: K,
    f: Seq<ColumnView>,
    ranges: Seq<Option<Range<usize>>>,
    factor: ResolvedFactor,
    out: Result<Vec<ColumnData>, QFactorsError>,
) -> bool where
    K: Fn(&ColumnStore, &[Option<Range<usize>>], &ResolvedFactor) -> Result<Vec<ColumnData>, QFactorsError>,
 {
    exists|store: &ColumnStore, rs: &[Option<Range<usize>>]|
        store.frame() == f && rs@ == ranges && call_ensures(kernel, (store, rs, &factor), out)
}

/// The trailing row ranges `factor` sees at observation `obs`.
pub open spec fn factor_ranges(
    panel: PreparedPanel,
    obs: PreparedObservation,
    factor: ResolvedFactor,
) -> Seq<Option<Range<usize>>> {
    window_ranges(panel, obs.ord_exclusive as int, factor.desc.window as int)
}

/// `res` is what the kernel gave for `factor` at `obs`, and it has one
/// well-named column per output, each holding one value per group.
pub open spec fn result_good<K>(
    kernel: K,
    panel: PreparedPanel,
    obs: PreparedObservation,
    factor: ResolvedFactor,
    res: Vec<ColumnData>,
) -> bool where
    K: Fn(&ColumnStore, &[Option<Range<usize>>], &ResolvedFactor) -> Result<Vec<ColumnData>, QFactorsError>,
 {
    &&& kernel_gave(kernel, panel.frame(), factor_ranges(panel, obs, factor), factor, Ok(res))
    &&& output_fault(
        panel.spec_groups().len() as int,
        strings_view(factor.output_columns@),
        columns_view(res),
    ) is None
}

/// The table of one observation: its key columns, then every factor's columns.
pub open spec fn row_frame(
    panel: PreparedPanel,
    obs: PreparedObservation,
    row: Seq<Vec<ColumnData>>,
) -> Seq<ColumnView> {
    observation_key_columns(panel, obs.value@) + result_columns(row)
}

/// The first `row.len()` factors gave good results at `obs`.
pub open spec fn results_good<K>(
    kernel: K,
    panel: PreparedPanel,
    resolved: Seq<ResolvedFactor>,
    obs: PreparedObservation,
    row: Seq<Vec<ColumnData>>,
) -> bool where
    K: Fn(&ColumnStore, &[Option<Range<usize>>], &ResolvedFactor) -> Result<Vec<ColumnData>, QFactorsError>,
 {
    &&& row.len() <= resolved.len()
    &&& forall|k: int| 0 <= k < row.len() ==> result_good(kernel, panel, obs, resolved[k], #[trigger] row[k])
}

/// Every factor gave a good result at `obs` and their table is accepted.
pub open spec fn row_good<K>(
    kernel: K,
    panel: PreparedPanel,
    resolved: Seq<ResolvedFactor>,
    obs: PreparedObservation,
    row: Seq<Vec<ColumnData>>,
) -> bool where
    K: Fn(&ColumnStore, &[Option<Range<usize>>], &ResolvedFactor) -> Result<Vec<ColumnData>, QFactorsError>,
 {
    &&& results_good(kernel, panel, resolved, obs, row)
    &&& row.len() == resolved.len()
    &&& !frame_refused(row_frame(panel, obs, row), panel.spec_groups().len())
}

/// After the good results `prefix`, observation `obs` fails with `e`: the
/// next factor's kernel answers `e`, or its result is faulty and `e` reports
/// the fault, or, with every factor done, their table is refused with `e`.
pub open spec fn row_failed<K>(
    kernel: K,
    panel: PreparedPanel,
    resolved: Seq<ResolvedFactor>,
    obs: PreparedObservation,
    prefix: Seq<Vec<ColumnData>>,
    e: QFactorsError,
) -> bool where
    K: Fn(&ColumnStore, &[Option<Range<usize>>], &ResolvedFactor) -> Result<Vec<ColumnData>, QFactorsError>,
 {
    let k = prefix.len() as int;
    let ng = panel.spec_groups().len();
    &&& results_good(kernel, panel, resolved, obs, prefix)
    &&& if k < resolved.len() {
        ||| kernel_gave(kernel, panel.frame(), factor_ranges(panel, obs, resolved[k]), resolved[k], Err(e))
        ||| exists|res: Vec<ColumnData>|
            #![trigger columns_view(res)]
            {
                &&& kernel_gave(kernel, panel.frame(), factor_ranges(panel, obs, resolved[k]), resolved[k], Ok(res))
                &&& output_fault(ng as int, strings_view(resolved[k].output_columns@), columns_view(res))
                    matches Some(f) && output_error(e, f, resolved[k], ng as int, columns_view(res))
            }
    } else {
        frame_refused(row_frame(panel, obs, prefix), ng) && frame_error(row_frame(panel, obs, prefix), ng, e)
    }
}

/// `r` is what stacking `frames` gives.
pub open spec fn stacking(frames: Seq<Seq<ColumnView>>, r: Result<Frame, QFactorsError>) -> bool {
    &&& frames.len() == 0 ==> (r matches Ok(f) && f@.len() == 0)
    &&& frames.len() > 0 ==> match first_schema_mismatch(frames) {
        Some(k) => r matches Err(QFactorsError::SchemaMismatch { frame }) && frame == k,
        None => r matches Ok(f) && f@ == stacked(frames),
    }
}

/// `r` is an outcome of running the kernel for `resolved` at every
/// observation in turn: the observations before the first failing one gave
/// good rows, and either all did and `r` stacks their tables, or the first
/// failing observation fails with the error `r` holds.
pub open spec fn panel_run<K>(
    kernel: K,
    panel: PreparedPanel,
    resolved: Seq<ResolvedFactor>,
    observations: Seq<PreparedObservation>,
    r: Result<Frame, QFactorsError>,
) -> bool where
    K: Fn(&ColumnStore, &[Option<Range<usize>>], &ResolvedFactor) -> Result<Vec<ColumnData>, QFactorsError>,
 {
    exists|rows: Seq<Seq<Vec<ColumnData>>>|
        #![trigger rows.len()]
        rows.len() <= observations.len() && (forall|i: int|
            0 <= i < rows.len() ==> row_good(kernel, panel, resolved, observations[i], #[trigger] rows[i]))
            && if rows.len() == observations.len() {
            stacking(Seq::new(rows.len(), |i: int| row_frame(panel, observations[i], rows[i])), r)
        } else {
            r matches Err(e) && exists|prefix: Seq<Vec<ColumnData>>|
                #![trigger prefix.len()]
                row_failed(kernel, panel, resolved, observations[rows.len() as int], prefix, e)
        }
}

/// `r` is the outcome of computing `factor_names` over `panel` at
/// `observation_times` with `kernel`: the planning refusals first, then the
/// run of the plan.
pub open spec fn panel_outcome<K>(
    kernel: K,
    panel: PreparedPanel,
    observation_times: Seq<CellView>,
    factor_names: Seq<Seq<char>>,
    has_output_path: bool,
    descriptors: Seq<FactorDescriptor>,
    r: Result<Frame, QFactorsError>,
) -> bool where
    K: Fn(&ColumnStore, &[Option<Range<usize>>], &ResolvedFactor) -> Result<Vec<ColumnData>, QFactorsError>,
 {
    if has_output_path {
        r matches Err(QFactorsError::UnsupportedOutputPath)
    } else {
        match resolve_failure(panel, descriptors, factor_names) {
            Some(f) => r matches Err(e) && resolve_error(e, f, panel, descriptors),
            None => if observations_rejected(observation_times) {
                r matches Err(e) && observation_error(observation_times, e)
            } else {
                exists|resolved: Seq<ResolvedFactor>, observations: Seq<PreparedObservation>|
                    #![trigger resolved.len(), observations.len()]
                    resolved.len() == factor_names.len() && (forall|i: int|
                        0 <= i < resolved.len() ==> resolved_as(
                            panel,
                            descriptors,
                            factor_names[i],
                            #[trigger] resolved[i],
                        )) && observations_resolved(panel, observation_times, observations)
                        && panel_run(kernel, panel, resolved, observations, r)
            },
        }
    }
}

/// Computes factors over a prepared panel at the requested times: plans the
/// computation, then for each requested time in order runs every factor's
/// kernel on that time's trailing windows, checking each result as soon as
/// the kernel returns it, and stacks the per-time tables.
#[verifier::loop_isolation(false)]
pub fn compute_panel_with<K>(
    panel: &PreparedPanel,
    observation_times: Vec<Cell>,
    factor_names: &Vec<String>,
    output_path: Option<&str>,
    descriptors: &[FactorDescriptor],
    kernel: K,
) -> (r: Result<Frame, QFactorsError>) where
    K: Fn(&ColumnStore, &[Option<Range<usize>>], &ResolvedFactor) -> Result<Vec<ColumnData>, QFactorsError>,

    requires
        panel.wf(),
        forall|s: &ColumnStore, rs: &[Option<Range<usize>>], f: &ResolvedFactor|
            call_requires(kernel, (s, rs, f)),
    ensures
        panel_outcome(
            kernel,
            *panel,
            cells_view(observation_times@),
            strings_view(factor_names@),
            output_path is Some,
            descriptors@,
            r,
        ),
{
    let ghost times = cells_view(observation_times@);
    let ghost names = strings_view(factor_names@);
    let plan = match plan_compute_panel(panel, observation_times, factor_names, output_path, descriptors) {
        Ok(p) => p,
        Err(e) => return Err(e),
    };
    let ghost resolved = plan.resolved@;
    let ghost observations = plan.observations@;
    let ghost ng = panel.spec_groups().len();
    proof {
        assert(resolved.len() == names.len());
        assert forall|i: int| 0 <= i < resolved.len() implies resolved_as(
            *panel,
            descriptors@,
            names[i],
            #[trigger] resolved[i],
        ) by {
            assert(names[i] == factor_names@[i]@);
        }
    }
    let store = ColumnStore::new(panel.dataframe());
    let mut sink = MemorySink::new();
    let ghost mut rows: Seq<Seq<Vec<ColumnData>>> = Seq::empty();
    let mut i: usize = 0;
    while i < plan.observations.len()
        invariant
            i <= plan.observations.len(),
            rows.len() == i,
            forall|j: int|
                0 <= j < i ==> row_good(kernel, *panel, resolved, observations[j], #[trigger] rows[j]),
            sink.spec_frames() == Seq::new(i as nat, |j: int| row_frame(*panel, observations[j], rows[j])),
        decreases plan.observations.len() - i,
    {
        let observation = &plan.observations[i];
        let cache = ObsRangeCache::new(panel, observation.ord_exclusive, plan.windows.as_slice());
        let mut results: Vec<Vec<ColumnData>> = Vec::new();
        let mut k: usize = 0;
        while k < plan.resolved.len()
            invariant
                k <= plan.resolved.len(),
                results.len() == k,
                results_good(kernel, *panel, resolved, observations[i as int], results@),
            decreases plan.resolved.len() - k,
        {
            let factor = &plan.resolved[k];
            proof {
                lemma_plan_windows_cached(plan.windows@, resolved, cache.ranges_by_window@, k as int);
            }
            let ranges = match cache.ranges_for(factor.desc.window) {
                Ok(v) => v,
                Err(e) => {
                    proof {
                        assert(false);
                    }
                    return Err(e);
                },
            };
            let out = kernel(&store, ranges, factor);
            proof {
                assert(ranges@ == factor_ranges(*panel, observations[i as int], resolved[k as int]));
                assert(kernel_gave(
                    kernel,
                    panel.frame(),
                    factor_ranges(*panel, observations[i as int], resolved[k as int]),
                    resolved[k as int],
                    out,
                ));
            }
            let res = match out {
                Ok(v) => v,
                Err(e) => {
                    proof {
                        lemma_run_stops(kernel, *panel, resolved, observations, rows, results@, e);
                        lemma_outcome(kernel, *panel, times, names, descriptors@, resolved, observations, Err(e));
                    }
                    return Err(e);
                },
            };
            match validate_factor_result(panel, factor, &res) {
                Ok(()) => {},
                Err(e) => {
                    proof {
                        let f = output_fault(
                            ng as int,
                            strings_view(resolved[k as int].output_columns@),
                            columns_view(res),
                        ).unwrap();
                        assert(res@.map_values(|c: ColumnData| c@) == columns_view(res));
                        assert(row_failed(kernel, *panel, resolved, observations[i as int], results@, e));
                        lemma_run_stops(kernel, *panel, resolved, observations, rows, results@, e);
                        lemma_outcome(kernel, *panel, times, names, descriptors@, resolved, observations, Err(e));
                    }
                    return Err(e);
                },
            }
            proof {
                assert(res@.map_values(|c: ColumnData| c@) == columns_view(res));
            }
            let ghost before = results@;
            results.push(res);
            proof {
                assert forall|j: int| 0 <= j < results.len() implies result_good(
                    kernel,
                    *panel,
                    observations[i as int],
                    resolved[j],
                    #[trigger] results@[j],
                ) by {
                    if j < k {
                        assert(results@[j] == before[j]);
                    }
                }
            }
            k = k + 1;
        }
        let ghost row = results@;
        proof {
            let faulty = |j: int|
                output_fault(
                    ng as int,
                    strings_view(resolved[j].output_columns@),
                    columns_view(row[j]),
                ) is Some;
            assert forall|j: int| 0 <= j < resolved.len() implies !#[trigger] faulty(j) by {
                assert(result_good(kernel, *panel, observations[i as int], resolved[j], row[j]));
            }
            crate::frame::lemma_first_where_none(resolved.len(), faulty);
        }
        match crate::compute_panel::record_observation(panel, &plan.resolved, observation, results, &mut sink) {
            Ok(()) => {},
            Err(e) => {
                proof {
                    assert(row_failed(kernel, *panel, resolved, observations[i as int], row, e));
                    lemma_run_stops(kernel, *panel, resolved, observations, rows, row, e);
                    lemma_outcome(kernel, *panel, times, names, descriptors@, resolved, observations, Err(e));
                }
                return Err(e);
            },
        }
        proof {
            let old_rows = rows;
            rows = rows.push(row);
            assert forall|j: int| 0 <= j < i + 1 implies row_good(
                kernel,
                *panel,
                resolved,
                observations[j],
                #[trigger] rows[j],
            ) by {
                if j < i {
                    assert(rows[j] == old_rows[j]);
                }
            }
            assert(sink.spec_frames() =~= Seq::new((i + 1) as nat, |j: int| row_frame(*panel, observations[j], rows[j])));
        }
        i = i + 1;
    }
    let r = sink.finish();
    proof {
        assert(rows.len() == observations.len());
        assert(panel_run(kernel, *panel, resolved, observations, r));
        lemma_outcome(kernel, *panel, times, names, descriptors@, resolved, observations, r);
    }
    r
}

/// Good rows for the first observations, then a failure at the next one,
/// make a run that ends in that failure.
proof fn lemma_run_stops<K>(
    kernel: K,
    panel: PreparedPanel,
    resolved: Seq<ResolvedFactor>,
    observations: Seq<PreparedObservation>,
    rows: Seq<Seq<Vec<ColumnData>>>,
    prefix: Seq<Vec<ColumnData>>,
    e: QFactorsError,
) where
    K: Fn(&ColumnStore, &[Option<Range<usize>>], &ResolvedFactor) -> Result<Vec<ColumnData>, QFactorsError>,

    requires
        rows.len() < observations.len(),
        forall|j: int| 0 <= j < rows.len() ==> row_good(kernel, panel, resolved, observations[j], #[trigger] rows[j]),
        row_failed(kernel, panel, resolved, observations[rows.len() as int], prefix, e),
    ensures
        panel_run(kernel, panel, resolved, observations, Err(e)),
{
    assert(prefix.len() == prefix.len());
    assert(rows.len() == rows.len());
}

/// A run of the plan that `resolved` and `observations` describe is an
/// outcome of the whole computation.
proof fn lemma_outcome<K>(
    kernel: K,
    panel: PreparedPanel,
    times: Seq<CellView>,
    names: Seq<Seq<char>>,
    descriptors: Seq<FactorDescriptor>,
    resolved: Seq<ResolvedFactor>,
    observations: Seq<PreparedObservation>,
    r: Result<Frame, QFactorsError>,
) where
    K: Fn(&ColumnStore, &[Option<Range<usize>>], &ResolvedFactor) -> Result<Vec<ColumnData>, QFactorsError>,

    requires
        resolve_failure(panel, descriptors, names) is None,
        !observations_rejected(times),
        resolved.len() == names.len(),
        forall|i: int| 0 <= i < resolved.len() ==> resolved_as(panel, descriptors, names[i], #[trigger] resolved[i]),
        observations_resolved(panel, times, observations),
        panel_run(kernel, panel, resolved, observations, r),
    ensures
        panel_outcome(kernel, panel, times, names, false, descriptors, r),
{
    assert(resolved.len() == resolved.len() && observations.len() == observations.len());
}

} // verus!
