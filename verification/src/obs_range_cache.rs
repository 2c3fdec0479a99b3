//! For one observation, the trailing row window of every group, by window length.
use std::collections::HashMap;
use std::ops::Range;
use vstd::prelude::*;
use crate::error::QFactorsError;
use crate::key::{KeyView, key_le};
use crate::prepared_panel::{PreparedPanel, is_upper_bound};

verus! {

broadcast use vstd::std_specs::hash::group_hash_axioms;

/// How many of `ords[lo..hi]` lie below `obs`.
pub open spec fn count_below(ords: Seq<u32>, lo: int, hi: int, obs: int) -> int
    decreases hi - lo,
{
    if hi <= lo {
        0
    } else {
        count_below(ords, lo, hi - 1, obs) + if (ords[hi - 1] as int) < obs {
            1int
        } else {
            0int
        }
    }
}

/// The rows of group `k` observed before ordinal `obs`.
pub open spec fn rows_before(panel: PreparedPanel, k: int, obs: int) -> int {
    let g = panel.spec_groups()[k];
    count_below(panel.spec_time_ords(), g.start as int, g.end as int, obs)
}

/// The last `window` rows of group `k` before ordinal `obs`, when it has that many.
pub open spec fn window_range(panel: PreparedPanel, k: int, obs: int, window: int) -> Option<
    Range<usize>,
> {
    let start = panel.spec_groups()[k].start as int;
    let end = rows_before(panel, k, obs);
    if end >= window {
        Some(Range { start: (start + end - window) as usize, end: (start + end) as usize })
    } else {
        None
    }
}

/// The window ranges of every group, in group order.
pub open spec fn window_ranges(panel: PreparedPanel, obs: int, window: int) -> Seq<
    Option<Range<usize>>,
> {
    Seq::new(panel.spec_groups().len(), |k: int| window_range(panel, k, obs, window))
}

/// Per-window trailing row ranges of every group at one observation.
#[derive(Debug)]
pub struct ObsRangeCache {
    pub obs_ord_exclusive: usize,
    pub ranges_by_window: HashMap<usize, Vec<Option<Range<usize>>>>,
}

proof fn lemma_count_partition(ords: Seq<u32>, lo: int, p: int, hi: int, obs: int)
    requires
        lo <= p <= hi <= ords.len(),
        0 <= lo,
        forall|i: int| lo <= i < p ==> (ords[i] as int) < obs,
        forall|i: int| p <= i < hi ==> (ords[i] as int) >= obs,
    ensures
        count_below(ords, lo, hi, obs) == p - lo,
    decreases hi - lo,
{
    if hi > lo {
        if hi > p {
            lemma_count_partition(ords, lo, p, hi - 1, obs);
        } else {
            lemma_count_partition(ords, lo, p - 1, hi - 1, obs);
        }
    }
}

/// The number of rows of `lo..hi` whose ordinal is below `obs`, by bisection.
fn partition_point(ords: &[u32], lo: usize, hi: usize, obs: usize) -> (r: usize)
    requires
        lo <= hi <= ords.len(),
        forall|i: int, j: int| lo <= i < j < hi ==> ords@[i] < ords@[j],
    ensures
        lo <= r <= hi,
        r - lo == count_below(ords@, lo as int, hi as int, obs as int),
{
    let mut a = lo;
    let mut b = hi;
    while a < b
        invariant
            lo <= a <= b <= hi <= ords.len(),
            forall|i: int, j: int| lo <= i < j < hi ==> ords@[i] < ords@[j],
            forall|i: int| lo <= i < a ==> (ords@[i] as int) < obs,
            forall|i: int| b <= i < hi ==> (ords@[i] as int) >= obs,
        decreases b - a,
    {
        let mid = a + (b - a) / 2;
        if (ords[mid] as usize) < obs {
            a = mid + 1;
        } else {
            b = mid;
        }
    }
    proof {
        lemma_count_partition(ords@, lo as int, a as int, hi as int, obs as int);
    }
    a
}

impl ObsRangeCache {
    /// For each window length, the last `window` rows of every group observed
    /// before ordinal `obs_ord_exclusive` (`None` when a group has fewer).
    pub fn new(panel: &PreparedPanel, obs_ord_exclusive: usize, windows: &[usize]) -> (r: Self)
        requires
            panel.wf(),
        ensures
            r.obs_ord_exclusive == obs_ord_exclusive,
            forall|w: usize| #[trigger] r.ranges_by_window@.contains_key(w) <==> windows@.contains(w),
            forall|w: usize|
                windows@.contains(w) ==> #[trigger] r.ranges_by_window@[w]@ == window_ranges(
                    *panel,
                    obs_ord_exclusive as int,
                    w as int,
                ),
    {
        let ords = panel.time_ordinals();
        let groups = panel.groups();
        let mut ranges_by_window: HashMap<usize, Vec<Option<Range<usize>>>> = HashMap::with_capacity(
            windows.len(),
        );
        let mut wi: usize = 0;
        while wi < windows.len()
            invariant
                panel.wf(),
                ords@ == panel.spec_time_ords(),
                groups@ == panel.spec_groups(),
                wi <= windows.len(),
                forall|w: usize|
                    #[trigger] ranges_by_window@.contains_key(w) <==> windows@.take(
                        wi as int,
                    ).contains(w),
                forall|w: usize|
                    windows@.take(wi as int).contains(w) ==> #[trigger] ranges_by_window@[w]@
                        == window_ranges(*panel, obs_ord_exclusive as int, w as int),
            decreases windows.len() - wi,
        {
            let window = windows[wi];
            let mut ranges: Vec<Option<Range<usize>>> = Vec::new();
            let mut k: usize = 0;
            while k < groups.len()
                invariant
                    panel.wf(),
                    ords@ == panel.spec_time_ords(),
                    groups@ == panel.spec_groups(),
                    k <= groups.len(),
                    ranges.len() == k,
                    forall|a: int|
                        0 <= a < k ==> #[trigger] ranges@[a] == window_range(
                            *panel,
                            a,
                            obs_ord_exclusive as int,
                            window as int,
                        ),
                decreases groups.len() - k,
            {
                let start = groups[k].start;
                let stop = groups[k].end;
                proof {
                    assert(groups@[k as int].id == k);
                    assert(stop <= panel.n_rows());
                }
                let end = partition_point(ords, start, stop, obs_ord_exclusive) - start;
                let lower = end.saturating_sub(window);
                if end - lower < window {
                    ranges.push(None);
                } else {
                    ranges.push(Some(start + lower..start + end));
                }
                k = k + 1;
            }
            proof {
                assert(ranges@ =~= window_ranges(*panel, obs_ord_exclusive as int, window as int));
            }
            ranges_by_window.insert(window, ranges);
            proof {
                assert(windows@.take(wi + 1) =~= windows@.take(wi as int).push(window));
                assert forall|w: usize|
                    #[trigger] ranges_by_window@.contains_key(w) <==> windows@.take(
                        wi + 1,
                    ).contains(w) by {
                    crate::sort::lemma_push_contains(windows@.take(wi as int), window, w);
                }
                assert forall|w: usize|
                    windows@.take(wi + 1).contains(w) implies #[trigger] ranges_by_window@[w]@
                        == window_ranges(*panel, obs_ord_exclusive as int, w as int) by {
                    crate::sort::lemma_push_contains(windows@.take(wi as int), window, w);
                }
            }
            wi = wi + 1;
        }
        assert(windows@.take(windows.len() as int) =~= windows@);
        ObsRangeCache { obs_ord_exclusive, ranges_by_window }
    }

    /// The ranges for one window length.
    pub fn ranges_for(&self, window: usize) -> (r: Result<&[Option<Range<usize>>], QFactorsError>)
        ensures
            self.ranges_by_window@.contains_key(window) ==> (r matches Ok(v) && v@
                == self.ranges_by_window@[window]@),
            !self.ranges_by_window@.contains_key(window) ==> (r matches Err(
                QFactorsError::MissingWindowRange(w),
            ) && w == window),
    {
        match self.ranges_by_window.get(&window) {
            Some(v) => Ok(v.as_slice()),
            None => Err(QFactorsError::MissingWindowRange(window)),
        }
    }
}

/// Below `obs`, the increasing ordinals of `lo..hi` form a prefix.
proof fn lemma_count_prefix(ords: Seq<u32>, lo: int, hi: int, obs: int)
    requires
        0 <= lo <= hi <= ords.len(),
        forall|i: int, j: int| lo <= i < j < hi ==> ords[i] < ords[j],
    ensures
        0 <= count_below(ords, lo, hi, obs) <= hi - lo,
        forall|i: int| lo <= i < lo + count_below(ords, lo, hi, obs) ==> (ords[i] as int) < obs,
        forall|i: int| lo + count_below(ords, lo, hi, obs) <= i < hi ==> (ords[i] as int) >= obs,
    decreases hi - lo,
{
    if hi > lo {
        lemma_count_prefix(ords, lo, hi - 1, obs);
        let c = count_below(ords, lo, hi - 1, obs);
        if (ords[hi - 1] as int) < obs {
            assert forall|i: int| lo + c <= i < hi - 1 implies (#[trigger] ords[i] as int) < obs by {
                assert(ords[i] < ords[hi - 1]);
            }
            assert(c == hi - 1 - lo);
        }
    }
}

/// A window range holds exactly `window` rows of its own group, all observed
/// before ordinal `obs`, and every later row of the group is observed at or
/// after it; there is no range when the group has fewer such rows.
pub proof fn lemma_window_range_shape(panel: PreparedPanel, obs: int, window: int, k: int)
    requires
        panel.wf(),
        0 <= k < panel.spec_groups().len(),
        window >= 0,
    ensures
        window_range(panel, k, obs, window) matches Some(rg) ==> {
            let g = panel.spec_groups()[k];
            &&& rg.end - rg.start == window
            &&& g.start <= rg.start && rg.end <= g.end
            &&& forall|r: int| rg.start <= r < rg.end ==> (panel.spec_time_ords()[r] as int) < obs
            &&& forall|r: int| rg.end <= r < g.end ==> (panel.spec_time_ords()[r] as int) >= obs
        },
        window_range(panel, k, obs, window) is None ==> rows_before(panel, k, obs) < window,
{
    let g = panel.spec_groups()[k];
    let ords = panel.spec_time_ords();
    assert(g.id == k);
    assert(g.start < g.end <= panel.n_rows());
    assert forall|i: int, j: int| g.start <= i < j < g.end implies ords[i] < ords[j] by {
        assert(panel.spec_groups()[k] == g);
    }
    lemma_count_prefix(ords, g.start as int, g.end as int, obs);
}

/// No look-ahead: for an observation whose ordinal counts the distinct times
/// at or before time `x`, every row of every window range is a row of that
/// range's group whose time is at or before `x`.
pub proof fn lemma_ranges_see_only_the_past(
    panel: PreparedPanel,
    x: KeyView,
    ord: int,
    window: int,
    k: int,
    r: int,
)
    requires
        panel.wf(),
        is_upper_bound(panel.spec_unique_times(), x, ord),
        0 <= k < panel.spec_groups().len(),
        window >= 0,
        window_range(panel, k, ord, window) matches Some(rg) && rg.start <= r < rg.end,
    ensures
        key_le(panel.time_keys()[r], x),
        panel.group_keys()[r] == panel.spec_groups()[k].label_key@,
{
    lemma_window_range_shape(panel, ord, window, k);
    let g = panel.spec_groups()[k];
    let ords = panel.spec_time_ords();
    assert(g.id == k);
    assert((ords[r] as int) < ord);
    assert(ords[r] < panel.spec_unique_times().len());
    assert(key_le(panel.spec_unique_times()[ords[r] as int], x));
}

} // verus!
