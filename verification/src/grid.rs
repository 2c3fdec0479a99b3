//! A dense symbol-by-time grid: the distinct symbols and times of a table,
//! each sorted, and every field scattered to `symbol * n_times + time`.
use vstd::prelude::*;
use vstd::string::StringExecFns;
use crate::column_store::ensure_dtype;
use crate::compute_panel::{alias_of, resolve_alias};
use crate::error::QFactorsError;
use crate::factor::{DType, strings_view};
use crate::frame::{
    Cell, CellView, ColumnData, ColumnView, Frame, KindView, NAN_BITS, cell_key, copy_cell,
    find_column, first_where, frame_typed, frame_wf, has_null, height_of, key_column, keys_of,
    lemma_find_column, lemma_first_where, lemma_first_where_none, lemma_first_where_some,
};
use crate::key::{Key, KeyView, key_lt, lemma_key_order, views};
use crate::prepared_panel::{
    appears_in, build_time_ordinals, has_duplicate_pair, kind_name, same_pair, strictly_increasing,
    upper_bound, is_upper_bound,
};

verus! {

/// Which columns of a table hold the symbol and the time, and which column
/// each logical field reads (first alias entry wins).
pub struct ComputePanelOptions {
    pub symbol_col: String,
    pub time_col: String,
    pub column_aliases: Vec<(String, String)>,
}

/// A NaN float cell.
pub open spec fn nan_cell(c: CellView) -> bool {
    match c {
        CellView::Float(b) => crate::frame::nan_bits(b),
        _ => false,
    }
}

/// Some cell of the column is a NaN float.
pub open spec fn has_nan(c: ColumnView) -> bool {
    exists|i: int| 0 <= i < c.cells.len() && nan_cell(#[trigger] c.cells[i])
}

/// A column that cannot serve as a symbol or time axis: it holds a null, or
/// a NaN, which orders against nothing.
pub open spec fn structural_fault(c: ColumnView) -> bool {
    has_null(c) || has_nan(c)
}

/// `e` reports why column `c` cannot serve as the symbol (or the time) axis.
pub open spec fn structural_error(e: QFactorsError, c: ColumnView, is_symbol: bool) -> bool {
    if has_null(c) {
        if is_symbol {
            e matches QFactorsError::SymbolNull(n) && n@ == c.name
        } else {
            e matches QFactorsError::TimeNull(n) && n@ == c.name
        }
    } else {
        e matches QFactorsError::NonComparableColumn { column } && column@ == c.name
    }
}

/// Rejects a symbol or time column holding a null or a NaN.
pub fn validate_structural_column(column: &ColumnData, is_symbol: bool) -> (r: Result<(), QFactorsError>)
    ensures
        !structural_fault(column@) ==> r is Ok,
        structural_fault(column@) ==> (r matches Err(e) && structural_error(e, column@, is_symbol)),
{
    if crate::frame::column_has_null(column) {
        if is_symbol {
            return Err(QFactorsError::SymbolNull(column.name.clone()));
        } else {
            return Err(QFactorsError::TimeNull(column.name.clone()));
        }
    }
    let mut i: usize = 0;
    while i < column.cells.len()
        invariant
            !has_null(column@),
            i <= column.cells.len(),
            forall|j: int| 0 <= j < i ==> !nan_cell(#[trigger] column@.cells[j]),
        decreases column.cells.len() - i,
    {
        if let Cell::Float(b) = &column.cells[i] {
            if *b % 0x8000_0000_0000_0000u64 > 0x7ff0_0000_0000_0000u64 {
                assert(column@.cells[i as int] == CellView::Float(*b));
                return Err(QFactorsError::NonComparableColumn { column: column.name.clone() });
            }
        }
        i = i + 1;
    }
    Ok(())
}

/// The distinct values of a column in increasing order, each with the first
/// row that holds it.
#[derive(Debug)]
pub struct Axis {
    pub values: Vec<Cell>,
    pub source_rows: Vec<usize>,
    /// The key of each value, by which the axis is ordered.
    pub keys: Vec<Key>,
}

/// The position of `x` in `u`.
pub open spec fn position_of(u: Seq<KeyView>, x: KeyView) -> int {
    choose|a: int| 0 <= a < u.len() && u[a] == x
}

/// In increasing keys, a key found at `a` has position `a`.
pub proof fn lemma_position_of(u: Seq<KeyView>, a: int)
    requires
        strictly_increasing(u),
        0 <= a < u.len(),
    ensures
        position_of(u, u[a]) == a,
{
    lemma_key_order();
    let b = position_of(u, u[a]);
    assert(0 <= b < u.len() && u[b] == u[a]);
    if b < a {
        assert(key_lt(u[b], u[a]));
    } else if b > a {
        assert(key_lt(u[a], u[b]));
    }
}

impl Axis {
    /// The keys of the axis values, in order.
    pub open spec fn spec_keys(&self) -> Seq<KeyView> {
        views(self.keys@)
    }

    /// What every axis satisfies.
    pub open spec fn wf(&self) -> bool {
        &&& strictly_increasing(self.spec_keys())
        &&& self.values.len() == self.spec_keys().len()
        &&& self.source_rows.len() == self.spec_keys().len()
        &&& forall|a: int|
            0 <= a < self.values.len() ==> cell_key(#[trigger] self.values@[a]@) == self.spec_keys()[a]
    }

    /// The number of distinct values.
    pub fn len(&self) -> (r: usize)
        requires
            self.wf(),
        ensures
            r == self.spec_keys().len(),
    {
        self.values.len()
    }

    /// The position of `value` on the axis, if it is there.
    pub fn index_by_value(&self, value: &Cell) -> (r: Option<usize>)
        requires
            self.wf(),
        ensures
            appears_in(self.spec_keys(), cell_key(value@)) ==> r == Some(
                position_of(self.spec_keys(), cell_key(value@)) as usize,
            ),
            !appears_in(self.spec_keys(), cell_key(value@)) ==> r is None,
    {
        let k = crate::frame::key_of(value);
        let ord = upper_bound(&self.keys, &k);
        proof {
            lemma_key_order();
        }
        if ord > 0 && self.keys[ord - 1].same(&k) {
            proof {
                lemma_position_of(self.spec_keys(), ord - 1);
            }
            Some(ord - 1)
        } else {
            proof {
                if appears_in(self.spec_keys(), cell_key(value@)) {
                    let a = choose|a: int|
                        0 <= a < self.spec_keys().len() && self.spec_keys()[a] == cell_key(value@);
                    if a < ord - 1 {
                        assert(key_lt(self.spec_keys()[a], self.spec_keys()[ord - 1]));
                        assert(crate::key::key_le(self.spec_keys()[ord - 1], k@));
                    } else if a >= ord {
                        assert(key_lt(k@, self.spec_keys()[a]));
                    }
                }
            }
            None
        }
    }
}

/// `axis` holds the distinct values of column `c`, increasing, each with the
/// first row that holds it.
pub open spec fn axis_of(axis: Axis, c: ColumnView) -> bool {
    let u = axis.spec_keys();
    let ks = keys_of(c);
    &&& axis.wf()
    &&& forall|r: int| 0 <= r < ks.len() ==> #[trigger] appears_in(u, ks[r])
    &&& forall|a: int|
        0 <= a < u.len() ==> (#[trigger] axis.source_rows@[a]) < ks.len() && ks[axis.source_rows@[a] as int]
            == u[a] && axis.values@[a]@ == c.cells[axis.source_rows@[a] as int] && forall|r: int|
            0 <= r < axis.source_rows@[a] ==> ks[r] != u[a]
}

/// The distinct values of a column, increasing, each with its first row.
pub fn build_axis(column: &ColumnData) -> (r: Axis)
    ensures
        axis_of(r, column@),
        r.spec_keys().len() <= column.cells.len(),
{
    let ks = key_column(column);
    let n = ks.len();
    proof {
        assert(views(ks@).len() == ks@.len());
        assert(keys_of(column@).len() == column@.cells.len());
    }
    let (ords, unique) = build_time_ordinals(&ks);
    let m = unique.len();
    let mut source: Vec<usize> = Vec::new();
    let mut seen: Vec<bool> = Vec::new();
    let mut a: usize = 0;
    while a < m
        invariant
            a <= m,
            m == unique.len(),
            source.len() == a,
            seen.len() == a,
            forall|b: int| 0 <= b < a ==> !#[trigger] seen@[b] && source@[b] == 0,
        decreases m - a,
    {
        source.push(0);
        seen.push(false);
        a = a + 1;
    }
    let mut r: usize = 0;
    while r < n
        invariant
            n == ks.len(),
            n == column.cells.len(),
            m == unique.len(),
            ords.len() == n,
            forall|i: int| 0 <= i < n ==> (#[trigger] ords@[i]) < m && unique@[ords@[i] as int]@ == ks@[i]@,
            strictly_increasing(views(unique@)),
            r <= n,
            source.len() == m,
            seen.len() == m,
            forall|b: int|
                0 <= b < m ==> (#[trigger] seen@[b] <==> exists|i: int| 0 <= i < r && ords@[i] == b),
            forall|b: int|
                0 <= b < m && seen@[b] ==> (#[trigger] source@[b]) < r && ords@[source@[b] as int] == b
                    && forall|i: int| 0 <= i < source@[b] ==> ords@[i] != b,
        decreases n - r,
    {
        let o = ords[r];
        if !seen[o] {
            seen.set(o, true);
            source.set(o, r);
        }
        proof {
            assert forall|b: int| 0 <= b < m implies (#[trigger] seen@[b] <==> exists|i: int|
                0 <= i < r + 1 && ords@[i] == b) by {
                if b == o {
                    assert(ords@[r as int] == b);
                }
            }
        }
        r = r + 1;
    }
    proof {
        assert forall|b: int| 0 <= b < m implies #[trigger] seen@[b] by {
            assert(appears_in(views(ks@), views(unique@)[b]));
            let i = choose|i: int| 0 <= i < views(ks@).len() && views(ks@)[i] == views(unique@)[b];
            assert(unique@[ords@[i] as int]@ == ks@[i]@);
            lemma_position_of(views(unique@), b);
            lemma_position_of(views(unique@), ords@[i] as int);
        }
    }
    let mut values: Vec<Cell> = Vec::new();
    let mut b: usize = 0;
    while b < m
        invariant
            n == column.cells.len(),
            m == unique.len(),
            source.len() == m,
            forall|c: int| 0 <= c < m ==> (#[trigger] source@[c]) < n,
            b <= m,
            values.len() == b,
            forall|c: int| 0 <= c < b ==> #[trigger] values@[c]@ == column@.cells[source@[c] as int],
        decreases m - b,
    {
        values.push(copy_cell(&column.cells[source[b]]));
        b = b + 1;
    }
    let axis = Axis { values, source_rows: source, keys: unique };
    proof {
        let u = axis.spec_keys();
        let kc = keys_of(column@);
        assert(kc == views(ks@));
        assert forall|rr: int| 0 <= rr < kc.len() implies #[trigger] appears_in(u, kc[rr]) by {
            assert(u[ords@[rr] as int] == kc[rr]);
        }
        assert forall|c: int| 0 <= c < axis.values.len() implies cell_key(
            #[trigger] axis.values@[c]@,
        ) == u[c] by {
            assert(ords@[source@[c] as int] == c);
            assert(kc[source@[c] as int] == cell_key(column@.cells[source@[c] as int]));
        }
        assert forall|c: int| 0 <= c < u.len() implies (#[trigger] axis.source_rows@[c]) < kc.len()
            && kc[axis.source_rows@[c] as int] == u[c] && axis.values@[c]@ == column@.cells[axis.source_rows@[c] as int]
            && forall|i: int| 0 <= i < axis.source_rows@[c] ==> kc[i] != u[c] by {
            assert(seen@[c]);
            assert(ords@[source@[c] as int] == c);
            assert forall|i: int| 0 <= i < axis.source_rows@[c] implies kc[i] != u[c] by {
                assert(ords@[i] != c);
                assert(u[ords@[i] as int] == kc[i]);
                if kc[i] == u[c] {
                    lemma_position_of(u, c);
                    lemma_position_of(u, ords@[i] as int);
                }
            }
        }
    }
    axis
}

/// A logical field that cannot be read as a float column: its column is
/// missing or of another type.
pub open spec fn field_unusable(d: Seq<ColumnView>, aliases: Seq<(String, String)>, f: Seq<char>) -> bool {
    let name = alias_of(aliases, f);
    find_column(d, name) is None || d[find_column(d, name).unwrap()].kind != KindView::Float64
}

/// Why a grid cannot be built.
pub enum GridFailure {
    MissingColumn(Seq<char>),
    /// The column at this position cannot serve as the symbol (or time) axis.
    BadAxis(int, bool),
    /// The column at this position, read by a field, is not a float column.
    FieldType(int),
    Duplicate,
}

/// The first reason, in the order the checks run, that no grid can be built
/// from `d`.
pub open spec fn grid_failure(d: Seq<ColumnView>, o: ComputePanelOptions, fields: Seq<Seq<char>>) -> Option<
    GridFailure,
> {
    if find_column(d, o.symbol_col@) is None {
        Some(GridFailure::MissingColumn(o.symbol_col@))
    } else if find_column(d, o.time_col@) is None {
        Some(GridFailure::MissingColumn(o.time_col@))
    } else {
        let si = find_column(d, o.symbol_col@).unwrap();
        let ti = find_column(d, o.time_col@).unwrap();
        if structural_fault(d[si]) {
            Some(GridFailure::BadAxis(si, true))
        } else if structural_fault(d[ti]) {
            Some(GridFailure::BadAxis(ti, false))
        } else {
            match first_where(
                fields.len(),
                |f: int| field_unusable(d, o.column_aliases@, fields[f]),
            ) {
                Some(f) => {
                    let name = alias_of(o.column_aliases@, fields[f]);
                    if find_column(d, name) is None {
                        Some(GridFailure::MissingColumn(name))
                    } else {
                        Some(GridFailure::FieldType(find_column(d, name).unwrap()))
                    }
                },
                None => if has_duplicate_pair(keys_of(d[si]), keys_of(d[ti])) {
                    Some(GridFailure::Duplicate)
                } else {
                    None
                },
            }
        }
    }
}

/// `e` is the error that reports failure `f`.
pub open spec fn grid_error(e: QFactorsError, f: GridFailure, d: Seq<ColumnView>, o: ComputePanelOptions) -> bool {
    match f {
        GridFailure::MissingColumn(n) => e matches QFactorsError::MissingColumn(m) && m@ == n,
        GridFailure::BadAxis(c, is_symbol) => structural_error(e, d[c], is_symbol),
        GridFailure::FieldType(c) => e matches QFactorsError::DTypeMismatch { column, expected, actual }
            && column@ == d[c].name && expected@ == crate::factor::dtype_name(DType::F64) && actual@
            == kind_name(d[c].kind),
        GridFailure::Duplicate => e matches QFactorsError::DuplicateSymbolTime { symbol_col, time_col }
            && symbol_col@ == o.symbol_col@ && time_col@ == o.time_col@,
    }
}

/// The bits a float cell contributes to a field: its own, or NaN for a null.
pub open spec fn field_bits(c: CellView) -> u64 {
    match c {
        CellView::Float(b) => b,
        _ => NAN_BITS,
    }
}

/// The fields of a table scattered on a dense symbol-by-time grid; cells
/// that no row fills are absent and hold NaN.
#[derive(Debug)]
pub struct GridCtx {
    pub n_symbols: usize,
    pub n_times: usize,
    /// Each field's values, one per grid cell, by IEEE-754 bits.
    pub fields: Vec<(String, Vec<u64>)>,
    pub presence: Vec<bool>,
}

/// The grid cell of row `r`.
pub open spec fn slot_of(symbols: Axis, times: Axis, sk: Seq<KeyView>, tk: Seq<KeyView>, r: int) -> int {
    position_of(symbols.spec_keys(), sk[r]) * times.spec_keys().len() + position_of(
        times.spec_keys(),
        tk[r],
    )
}

/// `ctx` with its axes is the grid of `d` for `fields`.
pub open spec fn grid_built(
    ctx: GridCtx,
    symbols: Axis,
    times: Axis,
    d: Seq<ColumnView>,
    o: ComputePanelOptions,
    fields: Seq<Seq<char>>,
) -> bool {
    let si = find_column(d, o.symbol_col@).unwrap();
    let ti = find_column(d, o.time_col@).unwrap();
    let sk = keys_of(d[si]);
    let tk = keys_of(d[ti]);
    let h = height_of(d) as int;
    let ns = symbols.spec_keys().len() as int;
    let nt = times.spec_keys().len() as int;
    &&& axis_of(symbols, d[si])
    &&& axis_of(times, d[ti])
    &&& ctx.n_symbols == ns
    &&& ctx.n_times == nt
    &&& ctx.presence.len() == ns * nt
    &&& ctx.fields.len() == fields.len()
    &&& forall|f: int|
        0 <= f < fields.len() ==> (#[trigger] ctx.fields@[f]).0@ == fields[f] && ctx.fields@[f].1.len()
            == ns * nt
    &&& forall|g: int|
        0 <= g < ns * nt ==> (#[trigger] ctx.presence@[g] <==> exists|r: int|
            0 <= r < h && slot_of(symbols, times, sk, tk, r) == g)
    &&& forall|f: int, r: int|
        #![trigger ctx.fields@[f], sk[r]]
        0 <= f < fields.len() && 0 <= r < h ==> ctx.fields@[f].1@[slot_of(symbols, times, sk, tk, r)]
            == field_bits(d[find_column(d, alias_of(o.column_aliases@, fields[f])).unwrap()].cells[r])
    &&& forall|f: int, g: int|
        #![trigger ctx.fields@[f].1@[g]]
        0 <= f < fields.len() && 0 <= g < ns * nt && !ctx.presence@[g] ==> ctx.fields@[f].1@[g]
            == NAN_BITS
}

pub(crate) proof fn lemma_slot_bounds(s: int, t: int, ns: int, nt: int)
    by (nonlinear_arith)
    requires
        0 <= s < ns,
        0 <= t < nt,
    ensures
        0 <= s * nt + t < ns * nt,
{
    assert(s * nt + t < (s + 1) * nt);
    assert((s + 1) * nt <= ns * nt);
}

pub(crate) proof fn lemma_slot_injective(s1: int, t1: int, s2: int, t2: int, nt: int)
    by (nonlinear_arith)
    requires
        0 <= s1,
        0 <= s2,
        0 <= t1 < nt,
        0 <= t2 < nt,
        s1 * nt + t1 == s2 * nt + t2,
    ensures
        s1 == s2,
        t1 == t2,
{
    if s1 < s2 {
        assert(s1 * nt + t1 < (s1 + 1) * nt);
        assert((s1 + 1) * nt <= s2 * nt);
    } else if s2 < s1 {
        assert(s2 * nt + t2 < (s2 + 1) * nt);
        assert((s2 + 1) * nt <= s1 * nt);
    }
}

/// The number of distinct values a column holds.
pub open spec fn distinct_count(c: ColumnView) -> nat {
    keys_of(c).to_set().len()
}

/// The axes of `d` are usable, but the grid they span has more cells than a
/// `usize` can count.
pub open spec fn grid_too_large(d: Seq<ColumnView>, o: ComputePanelOptions) -> bool {
    let si = find_column(d, o.symbol_col@).unwrap();
    let ti = find_column(d, o.time_col@).unwrap();
    &&& find_column(d, o.symbol_col@) is Some
    &&& find_column(d, o.time_col@) is Some
    &&& !structural_fault(d[si])
    &&& !structural_fault(d[ti])
    &&& distinct_count(d[si]) * distinct_count(d[ti]) > usize::MAX
}

/// An axis has one entry per distinct value of its column.
pub proof fn lemma_axis_len(axis: Axis, c: ColumnView)
    requires
        axis_of(axis, c),
    ensures
        axis.spec_keys().len() == distinct_count(c),
{
    let u = axis.spec_keys();
    let ks = keys_of(c);
    lemma_key_order();
    assert forall|a: int, b: int| 0 <= a < u.len() && 0 <= b < u.len() && a != b implies u[a] != u[b] by {
        if a < b {
            assert(key_lt(u[a], u[b]));
        } else {
            assert(key_lt(u[b], u[a]));
        }
    }
    assert(u.no_duplicates());
    u.unique_seq_to_set();
    assert forall|x: KeyView| u.to_set().contains(x) <==> ks.to_set().contains(x) by {
        if u.contains(x) {
            let a = choose|a: int| 0 <= a < u.len() && u[a] == x;
            let r = axis.source_rows@[a] as int;
            assert(ks[r] == x);
        }
        if ks.contains(x) {
            let r = choose|r: int| 0 <= r < ks.len() && ks[r] == x;
            assert(appears_in(u, ks[r]));
        }
    }
    assert(u.to_set() =~= ks.to_set());
}

/// The column each field reads, refusing a missing column or one that is not
/// a float column.
#[verifier::loop_isolation(false)]
pub(crate) fn resolve_field_columns(
    df: &Frame,
    aliases: &Vec<(String, String)>,
    fields: &Vec<String>,
) -> (r: Result<Vec<usize>, QFactorsError>)
    ensures
        first_where(fields.len() as nat, |f: int| field_unusable(df@, aliases@, strings_view(fields@)[f])) matches Some(
            f,
        ) ==> (r matches Err(e) && {
            let name = alias_of(aliases@, strings_view(fields@)[f]);
            if find_column(df@, name) is None {
                e matches QFactorsError::MissingColumn(m) && m@ == name
            } else {
                let c = find_column(df@, name).unwrap();
                e matches QFactorsError::DTypeMismatch { column, expected, actual } && column@
                    == df@[c].name && expected@ == crate::factor::dtype_name(DType::F64) && actual@
                    == kind_name(df@[c].kind)
            }
        }),
        first_where(fields.len() as nat, |f: int| field_unusable(df@, aliases@, strings_view(fields@)[f])) is None
            ==> (r matches Ok(cols) && cols.len() == fields.len() && forall|f: int|
            0 <= f < fields.len() ==> find_column(df@, alias_of(aliases@, strings_view(fields@)[f])) == Some(
                #[trigger] cols@[f] as int,
            ) && df@[cols@[f] as int].kind == KindView::Float64),
{
    let ghost unusable = |f: int| field_unusable(df@, aliases@, strings_view(fields@)[f]);
    let mut cols: Vec<usize> = Vec::new();
    let mut f: usize = 0;
    while f < fields.len()
        invariant
            f <= fields.len(),
            cols.len() == f,
            forall|a: int| 0 <= a < f ==> !#[trigger] unusable(a),
            forall|a: int|
                0 <= a < f ==> find_column(df@, alias_of(aliases@, strings_view(fields@)[a])) == Some(
                    #[trigger] cols@[a] as int,
                ) && df@[cols@[a] as int].kind == KindView::Float64,
        decreases fields.len() - f,
    {
        proof {
            assert(strings_view(fields@)[f as int] == fields@[f as int]@);
        }
        let name = resolve_alias(aliases, fields[f].as_str());
        let c = match df.column_index(name.as_str()) {
            Some(c) => c,
            None => {
                proof {
                    lemma_first_where_some(fields.len() as nat, unusable, f as int);
                }
                return Err(QFactorsError::MissingColumn(name));
            },
        };
        match ensure_dtype(&df.columns[c], DType::F64) {
            Ok(()) => {},
            Err(e) => {
                proof {
                    assert(df@[c as int] == df.columns@[c as int]@);
                    lemma_first_where_some(fields.len() as nat, unusable, f as int);
                }
                return Err(e);
            },
        }
        proof {
            assert(df@[c as int] == df.columns@[c as int]@);
        }
        cols.push(c);
        f = f + 1;
    }
    proof {
        lemma_first_where_none(fields.len() as nat, unusable);
    }
    Ok(cols)
}

/// The grid cell of every row, and which cells some row fills; `None` when
/// two rows fall on one cell.
#[verifier::loop_isolation(false)]
fn grid_slots(
    symbol_col: &ColumnData,
    time_col: &ColumnData,
    symbols: &Axis,
    times: &Axis,
    size: usize,
) -> (r: Option<(Vec<usize>, Vec<bool>)>)
    requires
        symbol_col.cells.len() == time_col.cells.len(),
        axis_of(*symbols, symbol_col@),
        axis_of(*times, time_col@),
        size == symbols.spec_keys().len() * times.spec_keys().len(),
    ensures
        has_duplicate_pair(keys_of(symbol_col@), keys_of(time_col@)) <==> r is None,
        r matches Some(v) ==> {
            let (slots, presence) = v;
            let sk = keys_of(symbol_col@);
            let tk = keys_of(time_col@);
            &&& slots.len() == symbol_col.cells.len()
            &&& presence.len() == size
            &&& forall|i: int|
                0 <= i < slots.len() ==> (#[trigger] slots@[i]) == slot_of(*symbols, *times, sk, tk, i)
                    && slots@[i] < size
            &&& forall|i: int, j: int| 0 <= i < j < slots.len() ==> slots@[i] != slots@[j]
            &&& forall|g: int|
                0 <= g < size ==> (#[trigger] presence@[g] <==> exists|i: int|
                    0 <= i < slots.len() && slots@[i] == g)
        },
{
    let ghost sk = keys_of(symbol_col@);
    let ghost tk = keys_of(time_col@);
    let ghost su = symbols.spec_keys();
    let ghost tu = times.spec_keys();
    let n = symbol_col.cells.len();
    let nt = times.len();
    let ns = symbols.len();
    let mut presence: Vec<bool> = Vec::new();
    let mut z: usize = 0;
    while z < size
        invariant
            z <= size,
            presence.len() == z,
            forall|g: int| 0 <= g < z ==> !#[trigger] presence@[g],
        decreases size - z,
    {
        presence.push(false);
        z = z + 1;
    }
    let mut slots: Vec<usize> = Vec::new();
    let mut r: usize = 0;
    while r < n
        invariant
            r <= n,
            presence.len() == size,
            slots.len() == r,
            forall|i: int|
                0 <= i < r ==> (#[trigger] slots@[i]) == slot_of(*symbols, *times, sk, tk, i)
                    && slots@[i] < size,
            forall|i: int, j: int| 0 <= i < j < r ==> slots@[i] != slots@[j],
            forall|i: int, j: int| 0 <= i < j < r ==> !#[trigger] same_pair(sk, tk, i, j),
            forall|g: int|
                0 <= g < size ==> (#[trigger] presence@[g] <==> exists|i: int|
                    0 <= i < r && slots@[i] == g),
        decreases n - r,
    {
        proof {
            assert(sk[r as int] == cell_key(symbol_col@.cells[r as int]));
            assert(tk[r as int] == cell_key(time_col@.cells[r as int]));
            assert(appears_in(su, sk[r as int]));
            assert(appears_in(tu, tk[r as int]));
        }
        let s = match symbols.index_by_value(&symbol_col.cells[r]) {
            Some(s) => s,
            None => {
                proof {
                    assert(false);
                }
                0
            },
        };
        let t = match times.index_by_value(&time_col.cells[r]) {
            Some(t) => t,
            None => {
                proof {
                    assert(false);
                }
                0
            },
        };
        proof {
            let a = choose|a: int| 0 <= a < su.len() && su[a] == sk[r as int];
            let b = choose|b: int| 0 <= b < tu.len() && tu[b] == tk[r as int];
            lemma_position_of(su, a);
            lemma_position_of(tu, b);
            lemma_slot_bounds(s as int, t as int, ns as int, nt as int);
        }
        let g = s * nt + t;
        if presence[g] {
            proof {
                let i = choose|i: int| 0 <= i < r && slots@[i] == g;
                let si = position_of(su, sk[i]);
                let ti = position_of(tu, tk[i]);
                assert(appears_in(su, sk[i]));
                assert(appears_in(tu, tk[i]));
                lemma_slot_injective(si, ti, s as int, t as int, nt as int);
                assert(su[si] == sk[i]);
                assert(tu[ti] == tk[i]);
                assert(same_pair(sk, tk, i, r as int));
            }
            return None;
        }
        proof {
            assert forall|i: int| 0 <= i < r implies !#[trigger] same_pair(sk, tk, i, r as int) by {
                if same_pair(sk, tk, i, r as int) {
                    assert(slots@[i] == g);
                }
            }
        }
        let ghost old_presence = presence@;
        let ghost old_slots = slots@;
        presence.set(g, true);
        slots.push(g);
        proof {
            assert forall|gg: int| 0 <= gg < size implies (#[trigger] presence@[gg] <==> exists|i: int|
                0 <= i < r + 1 && slots@[i] == gg) by {
                if gg == g {
                    assert(slots@[r as int] == gg);
                } else {
                    assert(presence@[gg] == old_presence[gg]);
                    if exists|i: int| 0 <= i < r + 1 && slots@[i] == gg {
                        let i = choose|i: int| 0 <= i < r + 1 && slots@[i] == gg;
                        assert(i < r);
                        assert(old_slots[i] == gg);
                    }
                    if exists|i: int| 0 <= i < r && old_slots[i] == gg {
                        let i = choose|i: int| 0 <= i < r && old_slots[i] == gg;
                        assert(slots@[i] == gg);
                    }
                }
            }
        }
        r = r + 1;
    }
    proof {
        if has_duplicate_pair(sk, tk) {
            let (i, j) = choose|i: int, j: int| 0 <= i < j < sk.len() && #[trigger] same_pair(sk, tk, i, j);
        }
    }
    Some((slots, presence))
}

/// A field's values on the grid: each row's float at its cell, NaN elsewhere.
fn scatter_field(column: &ColumnData, slots: &Vec<usize>, size: usize) -> (r: Vec<u64>)
    requires
        slots.len() == column.cells.len(),
        forall|i: int| 0 <= i < slots.len() ==> (#[trigger] slots@[i]) < size,
        forall|i: int, j: int| 0 <= i < j < slots.len() ==> slots@[i] != slots@[j],
    ensures
        r.len() == size,
        forall|i: int| 0 <= i < slots.len() ==> r@[#[trigger] slots@[i] as int] == field_bits(column@.cells[i]),
        forall|g: int|
            0 <= g < size && (forall|i: int| 0 <= i < slots.len() ==> slots@[i] != g) ==> #[trigger] r@[g]
                == NAN_BITS,
{
    let mut values: Vec<u64> = Vec::new();
    let mut z: usize = 0;
    while z < size
        invariant
            z <= size,
            values.len() == z,
            forall|g: int| 0 <= g < z ==> #[trigger] values@[g] == NAN_BITS,
        decreases size - z,
    {
        values.push(NAN_BITS);
        z = z + 1;
    }
    let mut r: usize = 0;
    while r < slots.len()
        invariant
            slots.len() == column.cells.len(),
            forall|i: int| 0 <= i < slots.len() ==> (#[trigger] slots@[i]) < size,
            forall|i: int, j: int| 0 <= i < j < slots.len() ==> slots@[i] != slots@[j],
            r <= slots.len(),
            values.len() == size,
            forall|i: int| 0 <= i < r ==> values@[#[trigger] slots@[i] as int] == field_bits(column@.cells[i]),
            forall|g: int|
                0 <= g < size && (forall|i: int| 0 <= i < r ==> slots@[i] != g) ==> #[trigger] values@[g]
                    == NAN_BITS,
        decreases slots.len() - r,
    {
        let v = match &column.cells[r] {
            Cell::Float(b) => *b,
            _ => NAN_BITS,
        };
        proof {
            assert(column@.cells[r as int] == column.cells@[r as int]@);
        }
        let ghost before = values@;
        values.set(slots[r], v);
        proof {
            assert forall|i: int| 0 <= i < r + 1 implies values@[#[trigger] slots@[i] as int] == field_bits(
                column@.cells[i],
            ) by {
                if i < r {
                    assert(slots@[i] != slots@[r as int]);
                }
            }
            assert forall|g: int|
                0 <= g < size && (forall|i: int| 0 <= i < r + 1 ==> slots@[i] != g) implies #[trigger] values@[g]
                == NAN_BITS by {
                assert(slots@[r as int] != g);
                assert(before[g] == NAN_BITS);
            }
        }
        r = r + 1;
    }
    values
}

/// Builds the sorted symbol and time axes of a table and scatters each field
/// onto the symbol-by-time grid, refusing a missing or unusable axis column,
/// a field that is missing or not a float column, and a repeated
/// `(symbol, time)` pair.
#[verifier::loop_isolation(false)]
pub fn build_grid(df: &Frame, options: &ComputePanelOptions, fields: &Vec<String>) -> (r: Result<
    (GridCtx, Axis, Axis),
    QFactorsError,
>)
    requires
        frame_wf(df@),
    ensures
        grid_too_large(df@, *options) ==> (r matches Err(QFactorsError::GridTooLarge { n_symbols, n_times })
            && n_symbols == distinct_count(df@[find_column(df@, options.symbol_col@).unwrap()])
            && n_times == distinct_count(df@[find_column(df@, options.time_col@).unwrap()])),
        !grid_too_large(df@, *options) ==> (grid_failure(df@, *options, strings_view(fields@)) matches Some(f)
            ==> (r matches Err(e) && grid_error(e, f, df@, *options))),
        !grid_too_large(df@, *options) && grid_failure(df@, *options, strings_view(fields@)) is None ==> (r matches Ok(v) && grid_built(
            v.0,
            v.1,
            v.2,
            df@,
            *options,
            strings_view(fields@),
        )),
{
    let ghost d = df@;
    let ghost names = strings_view(fields@);
    let si = match df.column_index(options.symbol_col.as_str()) {
        Some(i) => i,
        None => return Err(QFactorsError::MissingColumn(options.symbol_col.clone())),
    };
    let ti = match df.column_index(options.time_col.as_str()) {
        Some(i) => i,
        None => return Err(QFactorsError::MissingColumn(options.time_col.clone())),
    };
    proof {
        lemma_find_column(d, options.symbol_col@);
        lemma_find_column(d, options.time_col@);
        assert(d[si as int] == df.columns@[si as int]@);
        assert(d[ti as int] == df.columns@[ti as int]@);
    }
    match validate_structural_column(&df.columns[si], true) {
        Ok(()) => {},
        Err(e) => return Err(e),
    }
    match validate_structural_column(&df.columns[ti], false) {
        Ok(()) => {},
        Err(e) => return Err(e),
    }
    let symbols = build_axis(&df.columns[si]);
    let times = build_axis(&df.columns[ti]);
    let ns = symbols.len();
    let nt = times.len();
    proof {
        lemma_axis_len(symbols, d[si as int]);
        lemma_axis_len(times, d[ti as int]);
    }
    let size = match ns.checked_mul(nt) {
        Some(size) => size,
        None => return Err(QFactorsError::GridTooLarge { n_symbols: ns, n_times: nt }),
    };
    let cols = match resolve_field_columns(df, &options.column_aliases, fields) {
        Ok(c) => c,
        Err(e) => return Err(e),
    };
    let (slots, presence) = match grid_slots(&df.columns[si], &df.columns[ti], &symbols, &times, size) {
        Some(v) => v,
        None => {
            return Err(
                QFactorsError::DuplicateSymbolTime {
                    symbol_col: options.symbol_col.clone(),
                    time_col: options.time_col.clone(),
                },
            );
        },
    };
    let mut out_fields: Vec<(String, Vec<u64>)> = Vec::new();
    let mut f: usize = 0;
    while f < fields.len()
        invariant
            f <= fields.len(),
            out_fields.len() == f,
            forall|a: int|
                0 <= a < f ==> (#[trigger] out_fields@[a]).0@ == names[a] && out_fields@[a].1.len()
                    == size,
            forall|a: int, i: int|
                0 <= a < f && 0 <= i < slots.len() ==> (#[trigger] out_fields@[a]).1@[#[trigger] slots@[i] as int]
                    == field_bits(d[cols@[a] as int].cells[i]),
            forall|a: int, g: int|
                0 <= a < f && 0 <= g < size && !presence@[g] ==> #[trigger] out_fields@[a].1@[g]
                    == NAN_BITS,
        decreases fields.len() - f,
    {
        let c = cols[f];
        proof {
            lemma_find_column(d, alias_of(options.column_aliases@, names[f as int]));
            assert(d[c as int] == df.columns@[c as int]@);
            assert(d[c as int].cells.len() == height_of(d));
            assert(d[si as int].cells.len() == height_of(d));
            assert(names[f as int] == fields@[f as int]@);
        }
        let values = scatter_field(&df.columns[c], &slots, size);
        proof {
            assert forall|g: int| 0 <= g < size && !presence@[g] implies #[trigger] values@[g] == NAN_BITS by {
                assert forall|i: int| 0 <= i < slots.len() implies slots@[i] != g by {
                    if slots@[i] == g {
                        assert(presence@[g]);
                    }
                }
            }
        }
        out_fields.push((fields[f].clone(), values));
        f = f + 1;
    }
    let ctx = GridCtx { n_symbols: ns, n_times: nt, fields: out_fields, presence };
    proof {
        let sk = keys_of(d[si as int]);
        let tk = keys_of(d[ti as int]);
        let h = height_of(d) as int;
        assert(d[si as int].cells.len() == h);
        assert forall|g: int| 0 <= g < size implies (#[trigger] ctx.presence@[g] <==> exists|r: int|
            0 <= r < h && slot_of(symbols, times, sk, tk, r) == g) by {
            if ctx.presence@[g] {
                let i = choose|i: int| 0 <= i < slots.len() && slots@[i] == g;
                assert(slots@[i] == slot_of(symbols, times, sk, tk, i));
            }
            if exists|r: int| 0 <= r < h && slot_of(symbols, times, sk, tk, r) == g {
                let r = choose|r: int| 0 <= r < h && slot_of(symbols, times, sk, tk, r) == g;
                assert(slots@[r] == slot_of(symbols, times, sk, tk, r));
            }
        }
        assert forall|a: int, i: int|
            #![trigger ctx.fields@[a], sk[i]]
            0 <= a < names.len() && 0 <= i < height_of(d) implies ctx.fields@[a].1@[slot_of(symbols, times, sk, tk, i)]
            == field_bits(d[find_column(d, alias_of(options.column_aliases@, names[a])).unwrap()].cells[i]) by {
            assert(slots@[i] == slot_of(symbols, times, sk, tk, i));
            assert(out_fields@[a].1@[slots@[i] as int] == field_bits(d[cols@[a] as int].cells[i]));
        }
    }
    Ok((ctx, symbols, times))
}

} // verus!
