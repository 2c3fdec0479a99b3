//! Planning and assembling an alpha computation on a symbol-by-time grid:
//! which alphas run under which names, which grid time each requested
//! observation falls on, and the table written for one observation.
use vstd::prelude::*;
use vstd::string::StringExecFns;
use crate::error::QFactorsError;
use crate::factor::strings_view;
use crate::frame::{
    Cell, CellView, ColumnData, ColumnView, DataKind, Frame, KindView, cell_key, cells_view,
    copy_cell, copy_kind, first_where, lemma_first_where_none, lemma_first_where_some, str_eq,
};
use crate::grid::{Axis, ComputePanelOptions, GridCtx, nan_cell, position_of};
use crate::compute_sink::{MemorySink, same_schema, stacked};
use crate::key::{Key, KeyView};
use crate::prepared_panel::{appears_in, first_repeat, has_null_cell, repeats_earlier};

verus! {

/// Alpha name `i` cannot be used: it names the time or symbol column, repeats
/// an earlier name, or no alpha is registered under it.
pub open spec fn alpha_refused(
    o: ComputePanelOptions,
    names: Seq<Seq<char>>,
    registered: Seq<&'static str>,
    i: int,
) -> bool {
    alpha_name_taken(o, names, i) || !registered.map_values(|s: &'static str| s@).contains(names[i])
}

/// Alpha name `i` clashes with a structural column or an earlier alpha name.
pub open spec fn alpha_name_taken(o: ComputePanelOptions, names: Seq<Seq<char>>, i: int) -> bool {
    names[i] == o.time_col@ || names[i] == o.symbol_col@ || names.take(i).contains(names[i])
}

/// Checks the requested alpha names in order, pairing each with the position
/// of its registered alpha; a name that clashes is refused before it is looked up.
#[verifier::loop_isolation(false)]
pub fn resolve_alphas(
    options: &ComputePanelOptions,
    alpha_names: Vec<String>,
    registered: &[&'static str],
) -> (r: Result<Vec<(String, usize)>, QFactorsError>)
    ensures
        first_where(
            alpha_names.len() as nat,
            |i: int| alpha_refused(*options, strings_view(alpha_names@), registered@, i),
        ) matches Some(i) ==> (r matches Err(e) && if alpha_name_taken(
            *options,
            strings_view(alpha_names@),
            i,
        ) {
            e matches QFactorsError::OutputColumnConflict(n) && n@ == alpha_names@[i]@
        } else {
            e matches QFactorsError::UnknownFactor(n) && n@ == alpha_names@[i]@
        }),
        first_where(
            alpha_names.len() as nat,
            |i: int| alpha_refused(*options, strings_view(alpha_names@), registered@, i),
        ) is None ==> (r matches Ok(v) && v.len() == alpha_names.len() && forall|i: int|
            0 <= i < v.len() ==> (#[trigger] v@[i]).0@ == alpha_names@[i]@ && v@[i].1 < registered.len()
                && registered@[v@[i].1 as int]@ == alpha_names@[i]@ && forall|j: int|
                0 <= j < v@[i].1 ==> registered@[j]@ != alpha_names@[i]@),
{
    let ghost names = strings_view(alpha_names@);
    let ghost regs = registered@.map_values(|s: &'static str| s@);
    let ghost refused = |i: int| alpha_refused(*options, names, registered@, i);
    let mut out: Vec<(String, usize)> = Vec::new();
    let mut i: usize = 0;
    while i < alpha_names.len()
        invariant
            i <= alpha_names.len(),
            out.len() == i,
            forall|a: int| 0 <= a < i ==> !#[trigger] refused(a),
            forall|a: int|
                0 <= a < i ==> (#[trigger] out@[a]).0@ == alpha_names@[a]@ && out@[a].1 < registered.len()
                    && registered@[out@[a].1 as int]@ == alpha_names@[a]@ && forall|j: int|
                    0 <= j < out@[a].1 ==> registered@[j]@ != alpha_names@[a]@,
        decreases alpha_names.len() - i,
    {
        let name = alpha_names[i].as_str();
        proof {
            assert(names[i as int] == name@);
        }
        let mut clash = str_eq(name, options.time_col.as_str()) || str_eq(
            name,
            options.symbol_col.as_str(),
        );
        let mut a: usize = 0;
        while a < i && !clash
            invariant
                a <= i,
                !clash ==> !(names[i as int] == options.time_col@ || names[i as int]
                    == options.symbol_col@),
                !clash ==> forall|b: int| 0 <= b < a ==> names[b] != names[i as int],
                clash ==> alpha_name_taken(*options, names, i as int),
            decreases i - a,
        {
            if str_eq(alpha_names[a].as_str(), name) {
                proof {
                    assert(names[a as int] == alpha_names@[a as int]@);
                    assert(names.take(i as int)[a as int] == names[i as int]);
                }
                clash = true;
            }
            a = a + 1;
        }
        if clash {
            proof {
                lemma_first_where_some(alpha_names.len() as nat, refused, i as int);
            }
            return Err(QFactorsError::OutputColumnConflict(alpha_names[i].clone()));
        }
        proof {
            assert forall|b: int| 0 <= b < i implies names.take(i as int)[b] != names[i as int] by {
                assert(names[b] == alpha_names@[b]@);
            }
            assert(!names.take(i as int).contains(names[i as int]));
        }
        let mut k: usize = 0;
        let mut found = false;
        while k < registered.len() && !found
            invariant
                k <= registered.len(),
                found ==> k > 0 && registered@[k - 1]@ == name@,
                forall|j: int| 0 <= j < (if found { k - 1 } else { k as int }) ==> registered@[j]@ != name@,
            decreases registered.len() - k,
        {
            if str_eq(registered[k], name) {
                found = true;
            }
            k = k + 1;
        }
        if !found {
            proof {
                assert forall|j: int| 0 <= j < regs.len() implies regs[j] != names[i as int] by {
                    assert(regs[j] == registered@[j]@);
                }
                lemma_first_where_some(alpha_names.len() as nat, refused, i as int);
            }
            return Err(QFactorsError::UnknownFactor(alpha_names[i].clone()));
        }
        proof {
            assert(regs[k - 1] == names[i as int]);
        }
        out.push((alpha_names[i].clone(), k - 1));
        i = i + 1;
    }
    proof {
        lemma_first_where_none(alpha_names.len() as nat, refused);
    }
    Ok(out)
}

/// The requested observation times, with the grid time each falls on.
#[derive(Debug)]
pub struct ResolvedAlphaObservations {
    pub values: Vec<Cell>,
    /// The time position on the grid of each requested time, if the grid has it.
    pub time_rows: Vec<Option<usize>>,
}

/// Some requested time is a NaN.
pub open spec fn has_nan_cell(cells: Seq<CellView>) -> bool {
    exists|i: int| 0 <= i < cells.len() && nan_cell(#[trigger] cells[i])
}

/// The first cell that repeats an earlier value.
#[verifier::loop_isolation(false)]
fn find_repeat(values: &Vec<Cell>) -> (r: Option<usize>)
    ensures
        r matches Some(j) ==> first_repeat(cells_view(values@)) == Some(j as int),
        r is None ==> first_repeat(cells_view(values@)) is None,
{
    let ghost obs = cells_view(values@);
    let ghost p = |j: int| repeats_earlier(obs, j);
    let mut keys: Vec<Key> = Vec::new();
    let mut j: usize = 0;
    while j < values.len()
        invariant
            obs == cells_view(values@),
            p == (|j: int| repeats_earlier(obs, j)),
            j <= values.len(),
            keys.len() == j,
            forall|a: int| 0 <= a < j ==> #[trigger] keys@[a]@ == cell_key(obs[a]),
            forall|a: int| 0 <= a < j ==> !#[trigger] p(a),
        decreases values.len() - j,
    {
        let kj = crate::frame::key_of(&values[j]);
        proof {
            assert(obs[j as int] == values@[j as int]@);
        }
        let mut a: usize = 0;
        while a < j
            invariant
                j < values.len(),
                keys.len() == j,
                kj@ == cell_key(obs[j as int]),
                forall|b: int| 0 <= b < j ==> #[trigger] keys@[b]@ == cell_key(obs[b]),
                a <= j,
                forall|b: int| 0 <= b < a ==> cell_key(obs[b]) != cell_key(obs[j as int]),
            decreases j - a,
        {
            if keys[a].same(&kj) {
                proof {
                    assert(repeats_earlier(obs, j as int));
                    lemma_first_where_some(obs.len(), p, j as int);
                }
                return Some(j);
            }
            a = a + 1;
        }
        keys.push(kj);
        j = j + 1;
    }
    proof {
        lemma_first_where_none(obs.len(), p);
    }
    None
}

/// Why requested observation times are refused, in the order checked.
pub open spec fn alpha_observations_rejected(obs: Seq<CellView>) -> bool {
    obs.len() == 0 || has_null_cell(obs) || has_nan_cell(obs) || first_repeat(obs) is Some
}

/// `e` reports why `obs` is refused.
pub open spec fn alpha_observation_error(obs: Seq<CellView>, e: QFactorsError) -> bool {
    if obs.len() == 0 {
        e matches QFactorsError::ObservationTimesEmpty
    } else if has_null_cell(obs) {
        e matches QFactorsError::ObservationTimeNull
    } else if has_nan_cell(obs) {
        e matches QFactorsError::ObservationTimeNan
    } else {
        e matches QFactorsError::DuplicateObservationTime(k) && k@ == cell_key(
            obs[first_repeat(obs).unwrap()],
        )
    }
}

/// Checks the requested times (at least one, no null, no NaN, no repeat) and
/// finds the grid time of each.
pub fn resolve_alpha_observations(times: &Axis, observation_times: Vec<Cell>) -> (r: Result<
    ResolvedAlphaObservations,
    QFactorsError,
>)
    requires
        times.wf(),
    ensures
        alpha_observations_rejected(cells_view(observation_times@)) ==> (r matches Err(e)
            && alpha_observation_error(cells_view(observation_times@), e)),
        !alpha_observations_rejected(cells_view(observation_times@)) ==> (r matches Ok(v) && cells_view(
            v.values@,
        ) == cells_view(observation_times@) && v.time_rows.len() == observation_times.len() && forall|i: int|
            0 <= i < v.time_rows.len() ==> #[trigger] v.time_rows@[i] == if appears_in(
                times.spec_keys(),
                cell_key(cells_view(observation_times@)[i]),
            ) {
                Some(position_of(times.spec_keys(), cell_key(cells_view(observation_times@)[i])) as usize)
            } else {
                None::<usize>
            }),
{
    let ghost obs = cells_view(observation_times@);
    if observation_times.len() == 0 {
        return Err(QFactorsError::ObservationTimesEmpty);
    }
    let mut i: usize = 0;
    while i < observation_times.len()
        invariant
            obs == cells_view(observation_times@),
            i <= observation_times.len(),
            forall|j: int| 0 <= j < i ==> obs[j] != CellView::Null,
        decreases observation_times.len() - i,
    {
        if let Cell::Null = &observation_times[i] {
            assert(obs[i as int] == CellView::Null);
            return Err(QFactorsError::ObservationTimeNull);
        }
        i = i + 1;
    }
    let mut i: usize = 0;
    while i < observation_times.len()
        invariant
            obs == cells_view(observation_times@),
            !has_null_cell(obs),
            i <= observation_times.len(),
            forall|j: int| 0 <= j < i ==> !nan_cell(#[trigger] obs[j]),
        decreases observation_times.len() - i,
    {
        if let Cell::Float(b) = &observation_times[i] {
            if *b % 0x8000_0000_0000_0000u64 > 0x7ff0_0000_0000_0000u64 {
                assert(obs[i as int] == CellView::Float(*b));
                assert(nan_cell(obs[i as int]));
                return Err(QFactorsError::ObservationTimeNan);
            }
        }
        proof {
            assert(obs[i as int] == observation_times@[i as int]@);
        }
        i = i + 1;
    }
    match find_repeat(&observation_times) {
        Some(j) => {
            return Err(QFactorsError::DuplicateObservationTime(crate::frame::key_of(&observation_times[j])));
        },
        None => {},
    }
    let mut rows: Vec<Option<usize>> = Vec::new();
    let mut k: usize = 0;
    while k < observation_times.len()
        invariant
            obs == cells_view(observation_times@),
            times.wf(),
            k <= observation_times.len(),
            rows.len() == k,
            forall|a: int|
                0 <= a < k ==> #[trigger] rows@[a] == if appears_in(times.spec_keys(), cell_key(obs[a])) {
                    Some(position_of(times.spec_keys(), cell_key(obs[a])) as usize)
                } else {
                    None::<usize>
                },
        decreases observation_times.len() - k,
    {
        let row = times.index_by_value(&observation_times[k]);
        proof {
            assert(obs[k as int] == observation_times@[k as int]@);
        }
        rows.push(row);
        k = k + 1;
    }
    Ok(ResolvedAlphaObservations { values: observation_times, time_rows: rows })
}

/// The symbols present at grid time `t`, in increasing order.
pub open spec fn present_symbols(presence: Seq<bool>, ns: int, nt: int, t: int) -> Seq<int>
    decreases ns,
{
    if ns <= 0 {
        Seq::empty()
    } else {
        let before = present_symbols(presence, ns - 1, nt, t);
        if presence[(ns - 1) * nt + t] {
            before.push(ns - 1)
        } else {
            before
        }
    }
}

/// The symbols present at grid time `t` are exactly the symbols with a cell
/// at `t`, each once, in increasing order.
pub proof fn lemma_present_symbols(presence: Seq<bool>, ns: int, nt: int, t: int)
    requires
        0 <= ns,
        0 <= t < nt,
    ensures
        forall|a: int, b: int|
            0 <= a < b < present_symbols(presence, ns, nt, t).len() ==> #[trigger] present_symbols(
                presence,
                ns,
                nt,
                t,
            )[a] < #[trigger] present_symbols(presence, ns, nt, t)[b],
        forall|a: int|
            0 <= a < present_symbols(presence, ns, nt, t).len() ==> {
                let s = #[trigger] present_symbols(presence, ns, nt, t)[a];
                0 <= s < ns && presence[s * nt + t]
            },
        forall|s: int|
            0 <= s < ns && #[trigger] presence[s * nt + t] ==> present_symbols(presence, ns, nt, t).contains(s),
    decreases ns,
{
    if ns > 0 {
        lemma_present_symbols(presence, ns - 1, nt, t);
        let before = present_symbols(presence, ns - 1, nt, t);
        let p = present_symbols(presence, ns, nt, t);
        if presence[(ns - 1) * nt + t] {
            assert(p == before.push(ns - 1));
            assert forall|s: int| 0 <= s < ns && #[trigger] presence[s * nt + t] implies p.contains(s) by {
                if s < ns - 1 {
                    assert(before.contains(s));
                    let a = choose|a: int| 0 <= a < before.len() && before[a] == s;
                    assert(p[a] == s);
                } else {
                    assert(p[p.len() - 1] == s);
                }
            }
        } else {
            assert forall|s: int| 0 <= s < ns && #[trigger] presence[s * nt + t] implies p.contains(s) by {
                if s == ns - 1 {
                    assert((ns - 1) * nt + t == s * nt + t);
                }
            }
        }
    }
}

/// Row `i` of the table written for a requested time on grid time `t` is
/// the `i`-th symbol present at `t`: its time cell is the requested time,
/// its symbol cell that symbol's own label (the cell at its first source
/// row), and each alpha cell that alpha's grid value for that symbol at `t`.
pub proof fn lemma_observation_frame_rows(
    ctx: GridCtx,
    symbols: Axis,
    source_symbol: ColumnView,
    results: Seq<(String, Vec<u64>)>,
    value: CellView,
    time_kind: KindView,
    t: usize,
    o: ComputePanelOptions,
    i: int,
)
    requires
        t < ctx.n_times,
        0 <= i < present_symbols(ctx.presence@, ctx.n_symbols as int, ctx.n_times as int, t as int).len(),
    ensures
        ({
            let f = observation_frame(ctx, symbols, source_symbol, results, value, time_kind, Some(t), o);
            let s = present_symbols(ctx.presence@, ctx.n_symbols as int, ctx.n_times as int, t as int)[i];
            &&& 0 <= s < ctx.n_symbols && ctx.presence@[s * ctx.n_times + t]
            &&& f.len() == results.len() + 2
            &&& f[0].cells[i] == value
            &&& f[1].cells[i] == source_symbol.cells[symbols.source_rows@[s] as int]
            &&& forall|k: int|
                0 <= k < results.len() ==> #[trigger] f[k + 2].cells[i] == CellView::Float(
                    results[k].1@[s * ctx.n_times + t],
                )
        }),
{
    lemma_present_symbols(ctx.presence@, ctx.n_symbols as int, ctx.n_times as int, t as int);
    let f = observation_frame(ctx, symbols, source_symbol, results, value, time_kind, Some(t), o);
    let p = present_symbols(ctx.presence@, ctx.n_symbols as int, ctx.n_times as int, t as int);
    assert(0 <= p[i] < ctx.n_symbols);
    assert forall|k: int| 0 <= k < results.len() implies #[trigger] f[k + 2].cells[i] == CellView::Float(
        results[k].1@[p[i] * ctx.n_times + t],
    ) by {
        assert(f[k + 2].cells.len() == p.len());
    }
}

/// The table written for one requested time: the time repeated, then each
/// symbol present at that grid time (by its first source row), then each
/// alpha's value there; no rows when the grid lacks the time.
pub open spec fn observation_frame(
    ctx: GridCtx,
    symbols: Axis,
    source_symbol: ColumnView,
    results: Seq<(String, Vec<u64>)>,
    value: CellView,
    time_kind: KindView,
    time_row: Option<usize>,
    o: ComputePanelOptions,
) -> Seq<ColumnView> {
    let present = match time_row {
        Some(t) => present_symbols(ctx.presence@, ctx.n_symbols as int, ctx.n_times as int, t as int),
        None => Seq::empty(),
    };
    let t = time_row.unwrap_or(0) as int;
    let n = present.len();
    seq![
        ColumnView { name: o.time_col@, kind: time_kind, cells: Seq::new(n, |i: int| value) },
        ColumnView {
            name: o.symbol_col@,
            kind: source_symbol.kind,
            cells: Seq::new(n, |i: int| source_symbol.cells[symbols.source_rows@[present[i]] as int]),
        },
    ] + Seq::new(
        results.len(),
        |k: int|
            ColumnView {
                name: results[k].0@,
                kind: KindView::Float64,
                cells: Seq::new(
                    n,
                    |i: int| CellView::Float(results[k].1@[present[i] * ctx.n_times + t]),
                ),
            },
    )
}

/// The symbols present at grid time `t`.
fn present_at(ctx: &GridCtx, t: usize) -> (r: Vec<usize>)
    requires
        ctx.presence.len() == ctx.n_symbols * ctx.n_times,
        t < ctx.n_times,
    ensures
        r@.map_values(|s: usize| s as int) == present_symbols(
            ctx.presence@,
            ctx.n_symbols as int,
            ctx.n_times as int,
            t as int,
        ),
        forall|i: int| 0 <= i < r.len() ==> (#[trigger] r@[i]) < ctx.n_symbols,
{
    let mut r: Vec<usize> = Vec::new();
    let mut s: usize = 0;
    while s < ctx.n_symbols
        invariant
            ctx.presence.len() == ctx.n_symbols * ctx.n_times,
            t < ctx.n_times,
            s <= ctx.n_symbols,
            r@.map_values(|x: usize| x as int) == present_symbols(
                ctx.presence@,
                s as int,
                ctx.n_times as int,
                t as int,
            ),
            forall|i: int| 0 <= i < r.len() ==> (#[trigger] r@[i]) < s,
        decreases ctx.n_symbols - s,
    {
        proof {
            crate::grid::lemma_slot_bounds(s as int, t as int, ctx.n_symbols as int, ctx.n_times as int);
        }
        let ghost before = r@;
        if ctx.presence[s * ctx.n_times + t] {
            r.push(s);
            proof {
                assert(r@.map_values(|x: usize| x as int) =~= before.map_values(|x: usize| x as int).push(
                    s as int,
                ));
            }
        }
        s = s + 1;
    }
    r
}

/// The table written for one requested time.
#[verifier::loop_isolation(false)]
pub fn build_observation_frame(
    ctx: &GridCtx,
    symbols: &Axis,
    source_symbol: &ColumnData,
    results: &Vec<(String, Vec<u64>)>,
    observation_values: &Vec<Cell>,
    time_kind: &DataKind,
    input_index: usize,
    time_row: Option<usize>,
    options: &ComputePanelOptions,
) -> (r: Frame)
    requires
        ctx.presence.len() == ctx.n_symbols * ctx.n_times,
        symbols.source_rows.len() == ctx.n_symbols,
        forall|s: int| 0 <= s < ctx.n_symbols ==> (#[trigger] symbols.source_rows@[s]) < source_symbol.cells.len(),
        forall|k: int| 0 <= k < results.len() ==> (#[trigger] results@[k]).1.len() == ctx.n_symbols * ctx.n_times,
        input_index < observation_values.len(),
        time_row matches Some(t) ==> t < ctx.n_times,
    ensures
        r@ == observation_frame(
            *ctx,
            *symbols,
            source_symbol@,
            results@,
            observation_values@[input_index as int]@,
            time_kind@,
            time_row,
            *options,
        ),
{
    let present = match time_row {
        Some(t) => present_at(ctx, t),
        None => Vec::new(),
    };
    let t = match time_row {
        Some(t) => t,
        None => 0,
    };
    let ghost pres = match time_row {
        Some(t) => present_symbols(ctx.presence@, ctx.n_symbols as int, ctx.n_times as int, t as int),
        None => Seq::<int>::empty(),
    };
    proof {
        if time_row is None {
            assert(present@.map_values(|s: usize| s as int) =~= pres);
        }
    }
    let n = present.len();
    let value = &observation_values[input_index];
    let mut time_cells: Vec<Cell> = Vec::new();
    let mut symbol_cells: Vec<Cell> = Vec::new();
    let mut i: usize = 0;
    while i < n
        invariant
            n == present.len(),
            i <= n,
            time_cells.len() == i,
            symbol_cells.len() == i,
            forall|a: int| 0 <= a < i ==> #[trigger] time_cells@[a]@ == value@,
            forall|a: int|
                0 <= a < i ==> #[trigger] symbol_cells@[a]@ == source_symbol@.cells[symbols.source_rows@[pres[a]] as int],
        decreases n - i,
    {
        proof {
            assert(present@.map_values(|s: usize| s as int)[i as int] == pres[i as int]);
        }
        time_cells.push(copy_cell(value));
        symbol_cells.push(copy_cell(&source_symbol.cells[symbols.source_rows[present[i]]]));
        i = i + 1;
    }
    let mut columns: Vec<ColumnData> = Vec::new();
    columns.push(ColumnData { name: options.time_col.clone(), kind: copy_kind(time_kind), cells: time_cells });
    columns.push(ColumnData { name: options.symbol_col.clone(), kind: copy_kind(&source_symbol.kind), cells: symbol_cells });
    proof {
        assert(columns@[0]@.cells =~= Seq::new(n as nat, |i: int| value@));
        assert(columns@[1]@.cells =~= Seq::new(
            n as nat,
            |i: int| source_symbol@.cells[symbols.source_rows@[pres[i]] as int],
        ));
    }
    let mut k: usize = 0;
    while k < results.len()
        invariant
            k <= results.len(),
            columns.len() == k + 2,
            forall|a: int|
                2 <= a < k + 2 ==> (#[trigger] columns@[a])@ == (ColumnView {
                    name: results@[a - 2].0@,
                    kind: KindView::Float64,
                    cells: Seq::new(
                        n as nat,
                        |i: int| CellView::Float(results@[a - 2].1@[pres[i] * ctx.n_times + t]),
                    ),
                }),
            columns@[0]@ == (ColumnView { name: options.time_col@, kind: time_kind@, cells: Seq::new(n as nat, |i: int| value@) }),
            columns@[1]@ == (ColumnView {
                name: options.symbol_col@,
                kind: source_symbol@.kind,
                cells: Seq::new(n as nat, |i: int| source_symbol@.cells[symbols.source_rows@[pres[i]] as int]),
            }),
        decreases results.len() - k,
    {
        let values = &results[k].1;
        let mut cells: Vec<Cell> = Vec::new();
        let mut i: usize = 0;
        while i < n
            invariant
                i <= n,
                cells.len() == i,
                forall|a: int|
                    0 <= a < i ==> #[trigger] cells@[a]@ == CellView::Float(values@[pres[a] * ctx.n_times + t]),
            decreases n - i,
        {
            proof {
                assert(present@.map_values(|s: usize| s as int)[i as int] == pres[i as int]);
                crate::grid::lemma_slot_bounds(present@[i as int] as int, t as int, ctx.n_symbols as int, ctx.n_times as int);
            }
            cells.push(Cell::Float(values[present[i] * ctx.n_times + t]));
            i = i + 1;
        }
        let column = ColumnData { name: results[k].0.clone(), kind: DataKind::Float64, cells };
        proof {
            assert(column@.cells =~= Seq::new(
                n as nat,
                |i: int| CellView::Float(results@[k as int].1@[pres[i] * ctx.n_times + t]),
            ));
        }
        columns.push(column);
        k = k + 1;
    }
    let out = Frame { columns };
    proof {
        let expected = observation_frame(
            *ctx,
            *symbols,
            source_symbol@,
            results@,
            observation_values@[input_index as int]@,
            time_kind@,
            time_row,
            *options,
        );
        assert(out@.len() == expected.len());
        assert forall|a: int| 0 <= a < out@.len() implies out@[a] == expected[a] by {
            assert(out@[a] == columns@[a]@);
            if a == 0 {
                assert(columns@[0]@.cells =~= expected[0].cells);
            } else if a == 1 {
                assert(columns@[1]@.cells =~= expected[1].cells);
            } else {
                assert(columns@[a]@.cells =~= expected[a].cells);
            }
        }
        assert(out@ =~= expected);
    }
    out
}

/// The tables of all requested times, one per time in request order.
pub open spec fn observation_frames(
    ctx: GridCtx,
    symbols: Axis,
    source_symbol: ColumnView,
    results: Seq<(String, Vec<u64>)>,
    observations: ResolvedAlphaObservations,
    time_kind: KindView,
    o: ComputePanelOptions,
) -> Seq<Seq<ColumnView>> {
    Seq::new(
        observations.values.len() as nat,
        |i: int|
            observation_frame(
                ctx,
                symbols,
                source_symbol,
                results,
                observations.values@[i]@,
                time_kind,
                observations.time_rows@[i],
                o,
            ),
    )
}

/// Every per-time table has the same columns: the time, the symbol and one
/// float column per alpha.
proof fn lemma_observation_schema(
    ctx: GridCtx,
    symbols: Axis,
    source_symbol: ColumnView,
    results: Seq<(String, Vec<u64>)>,
    observations: ResolvedAlphaObservations,
    time_kind: KindView,
    o: ComputePanelOptions,
    k: int,
)
    requires
        0 <= k < observations.values.len(),
    ensures
        ({
            let f = observation_frames(ctx, symbols, source_symbol, results, observations, time_kind, o)[k];
            &&& f.len() == results.len() + 2
            &&& f[0].name == o.time_col@ && f[0].kind == time_kind
            &&& f[1].name == o.symbol_col@ && f[1].kind == source_symbol.kind
            &&& forall|j: int| 2 <= j < f.len() ==> #[trigger] f[j].name == results[j - 2].0@ && f[j].kind
                == KindView::Float64
        }),
{
}

/// Samples the evaluated grid at every requested time and stacks the
/// per-time tables in request order; no requested time gives an empty table.
#[verifier::loop_isolation(false)]
pub fn sample_alpha_panel(
    ctx: &GridCtx,
    symbols: &Axis,
    source_symbol: &ColumnData,
    results: &Vec<(String, Vec<u64>)>,
    observations: &ResolvedAlphaObservations,
    time_kind: &DataKind,
    options: &ComputePanelOptions,
) -> (r: Frame)
    requires
        ctx.presence.len() == ctx.n_symbols * ctx.n_times,
        symbols.source_rows.len() == ctx.n_symbols,
        forall|s: int| 0 <= s < ctx.n_symbols ==> (#[trigger] symbols.source_rows@[s]) < source_symbol.cells.len(),
        forall|k: int| 0 <= k < results.len() ==> (#[trigger] results@[k]).1.len() == ctx.n_symbols * ctx.n_times,
        observations.time_rows.len() == observations.values.len(),
        forall|i: int|
            0 <= i < observations.time_rows.len() ==> (#[trigger] observations.time_rows@[i] matches Some(t)
                ==> t < ctx.n_times),
    ensures
        observations.values.len() == 0 ==> r@.len() == 0,
        observations.values.len() > 0 ==> r@ == stacked(
            observation_frames(*ctx, *symbols, source_symbol@, results@, *observations, time_kind@, *options),
        ),
{
    let ghost frames = observation_frames(
        *ctx,
        *symbols,
        source_symbol@,
        results@,
        *observations,
        time_kind@,
        *options,
    );
    let mut sink = MemorySink::new();
    let mut i: usize = 0;
    while i < observations.values.len()
        invariant
            i <= observations.values.len(),
            sink.spec_frames() == frames.take(i as int),
        decreases observations.values.len() - i,
    {
        let f = build_observation_frame(
            ctx,
            symbols,
            source_symbol,
            results,
            &observations.values,
            time_kind,
            i,
            observations.time_rows[i],
            options,
        );
        sink.write_observation(f);
        proof {
            assert(frames.take(i + 1) =~= frames.take(i as int).push(frames[i as int]));
        }
        i = i + 1;
    }
    proof {
        assert(frames.take(frames.len() as int) =~= frames);
        assert forall|k: int| 0 <= k < frames.len() implies same_schema(frames[0], #[trigger] frames[k]) by {
            lemma_observation_schema(*ctx, *symbols, source_symbol@, results@, *observations, time_kind@, *options, 0);
            lemma_observation_schema(*ctx, *symbols, source_symbol@, results@, *observations, time_kind@, *options, k);
        }
        lemma_first_where_none(frames.len(), |k: int| !same_schema(frames[0], frames[k]));
    }
    match sink.finish() {
        Ok(f) => f,
        Err(_) => {
            proof {
                assert(false);
            }
            Frame { columns: Vec::new() }
        },
    }
}

} // verus!
