//! A panel sorted by `(group, time)`, split into per-group row blocks, with
//! every row's time replaced by its ordinal among the distinct times.
use vstd::prelude::*;
use vstd::string::StringExecFns;
use crate::error::QFactorsError;
use crate::frame::{
    Cell, CellView, ColumnData, ColumnView, DataKind, Frame, KindView, NAN_BITS, column_has_null,
    copy_cell, copy_kind, find_column, first_index, frame_wf, has_null, height_of, is_first,
    key_column, keys_of, lemma_find_append, lemma_find_column, lemma_find_same_names,
    lemma_first_index, lemma_first_index_unique,
    permute_cells, permute_column, permute_frame, cell_key, cells_view, cell_fits, frame_typed,
};
use crate::key::{Cmp, Key, KeyView, key_le, key_lt, lemma_key_order, views};
use crate::sort::{
    argsort_rows, is_perm, lemma_adjacent_sorted, lemma_permuted_sorted, pairs_sorted,
    permute_keys, row_le, row_le_exec, rows_sorted,
};

verus! {

/// The name of the group-id column a prepared panel adds.
pub const GROUP_ID_COL: &'static str = "__qfactors_group_id";

/// The name of the time-ordinal column a prepared panel adds.
pub const TIME_ORD_COL: &'static str = "__qfactors_time_ord";

/// What to do with nulls outside the structural columns.
#[derive(PartialEq, Eq, Structural, Clone, Copy, Debug)]
pub enum NullPolicy {
    /// Any null is an error.
    Error,
    /// Nulls in float columns become NaN; nulls elsewhere are an error.
    FloatNullToNan,
}

impl NullPolicy {
    /// Reads a policy from its name.
    pub fn parse(value: &str) -> (r: Result<Self, QFactorsError>)
        ensures
            value@ == "error"@ ==> r == Ok::<Self, QFactorsError>(NullPolicy::Error),
            value@ == "float_null_to_nan"@ ==> r == Ok::<Self, QFactorsError>(
                NullPolicy::FloatNullToNan,
            ),
            value@ != "error"@ && value@ != "float_null_to_nan"@ ==> (r matches Err(
                QFactorsError::UnsupportedNullPolicy(s),
            ) && s@ == value@),
    {
        proof {
            reveal_strlit("error");
            reveal_strlit("float_null_to_nan");
            assert("error"@.len() != "float_null_to_nan"@.len());
        }
        if crate::frame::str_eq(value, "error") {
            Ok(NullPolicy::Error)
        } else if crate::frame::str_eq(value, "float_null_to_nan") {
            Ok(NullPolicy::FloatNullToNan)
        } else {
            Err(QFactorsError::UnsupportedNullPolicy(<String as StringExecFns>::from_str(value)))
        }
    }
}

/// The name a data kind goes by in messages.
pub open spec fn kind_name(k: KindView) -> Seq<char> {
    match k {
        KindView::Float64 => "Float64"@,
        KindView::UInt32 => "UInt32"@,
        KindView::Int64 => "Int64"@,
        KindView::Str => "String"@,
        KindView::Other(s) => s,
    }
}

/// The name a data kind goes by in messages.
pub fn kind_name_of(k: &DataKind) -> (r: String)
    ensures
        r@ == kind_name(k@),
{
    match k {
        DataKind::Float64 => <String as StringExecFns>::from_str("Float64"),
        DataKind::UInt32 => <String as StringExecFns>::from_str("UInt32"),
        DataKind::Int64 => <String as StringExecFns>::from_str("Int64"),
        DataKind::Str => <String as StringExecFns>::from_str("String"),
        DataKind::Other(s) => s.clone(),
    }
}

/// A float column's nulls replaced by NaN.
pub open spec fn null_to_nan(c: ColumnView) -> ColumnView {
    ColumnView {
        name: c.name,
        kind: c.kind,
        cells: c.cells.map_values(
            |x: CellView|
                if x == CellView::Null {
                    CellView::Float(NAN_BITS)
                } else {
                    x
                },
        ),
    }
}

/// The table once the null policy has been applied (when it applies cleanly).
pub open spec fn nulls_resolved(f: Seq<ColumnView>, policy: NullPolicy) -> Seq<ColumnView> {
    match policy {
        NullPolicy::Error => f,
        NullPolicy::FloatNullToNan => f.map_values(|c: ColumnView| null_to_nan(c)),
    }
}

/// A column with a null that the float-null policy cannot repair.
pub open spec fn unrepairable_null(c: ColumnView) -> bool {
    has_null(c) && c.kind != KindView::Float64
}

/// Rejects a table that already holds one of the columns a panel adds.
fn ensure_no_internal_column_conflicts(df: &Frame) -> (r: Result<(), QFactorsError>)
    ensures
        find_column(df@, GROUP_ID_COL@) is Some ==> (r matches Err(
            QFactorsError::InternalColumnConflict(n),
        ) && n@ == GROUP_ID_COL@),
        find_column(df@, GROUP_ID_COL@) is None && find_column(df@, TIME_ORD_COL@) is Some
            ==> (r matches Err(QFactorsError::InternalColumnConflict(n)) && n@ == TIME_ORD_COL@),
        find_column(df@, GROUP_ID_COL@) is None && find_column(df@, TIME_ORD_COL@) is None ==> r
            is Ok,
{
    if df.column_index(GROUP_ID_COL).is_some() {
        return Err(QFactorsError::InternalColumnConflict(GROUP_ID_COL));
    }
    if df.column_index(TIME_ORD_COL).is_some() {
        return Err(QFactorsError::InternalColumnConflict(TIME_ORD_COL));
    }
    Ok(())
}

/// The position of a column that must exist.
fn ensure_column_exists(df: &Frame, name: &String) -> (r: Result<usize, QFactorsError>)
    ensures
        find_column(df@, name@) matches Some(i) ==> r == Ok::<usize, QFactorsError>(i as usize),
        find_column(df@, name@) is None ==> (r matches Err(QFactorsError::MissingColumn(n)) && n@
            == name@),
{
    match df.column_index(name.as_str()) {
        Some(i) => Ok(i),
        None => Err(QFactorsError::MissingColumn(name.clone())),
    }
}

/// A copy of a float column with its nulls replaced by NaN.
fn nulls_to_nan_column(col: &ColumnData) -> (r: ColumnData)
    ensures
        r@ == null_to_nan(col@),
{
    let mut cells: Vec<Cell> = Vec::new();
    let mut i: usize = 0;
    while i < col.cells.len()
        invariant
            i <= col.cells.len(),
            cells.len() == i,
            forall|j: int| 0 <= j < i ==> #[trigger] cells@[j]@ == null_to_nan(col@).cells[j],
        decreases col.cells.len() - i,
    {
        let c = match &col.cells[i] {
            Cell::Null => Cell::Float(NAN_BITS),
            other => copy_cell(other),
        };
        cells.push(c);
        i = i + 1;
    }
    let r = ColumnData { name: col.name.clone(), kind: copy_kind(&col.kind), cells };
    assert(r@.cells =~= null_to_nan(col@).cells);
    r
}

/// Rejects nulls in the structural columns and applies the null policy.
#[verifier::loop_isolation(false)]
fn apply_null_policy(
    df: Frame,
    group_col: &String,
    time_col: &String,
    gi: usize,
    ti: usize,
    policy: NullPolicy,
) -> (r: Result<Frame, QFactorsError>)
    requires
        gi < df.columns.len(),
        ti < df.columns.len(),
        frame_wf(df@),
    ensures
        has_null(df@[gi as int]) ==> (r matches Err(QFactorsError::GroupNull(n)) && n@
            == group_col@),
        !has_null(df@[gi as int]) && has_null(df@[ti as int]) ==> (r matches Err(
            QFactorsError::TimeNull(n),
        ) && n@ == time_col@),
        !has_null(df@[gi as int]) && !has_null(df@[ti as int]) ==> match policy {
            NullPolicy::Error => match first_index(df@, |c: ColumnView| has_null(c)) {
                Some(c) => r matches Err(QFactorsError::NullNotAllowed { column }) && column@
                    == df@[c].name,
                None => r matches Ok(d) && d@ == df@,
            },
            NullPolicy::FloatNullToNan => match first_index(
                df@,
                |c: ColumnView| unrepairable_null(c),
            ) {
                Some(c) => r matches Err(QFactorsError::FloatNullToNanTypeMismatch { column, dtype })
                    && column@ == df@[c].name && dtype@ == kind_name(df@[c].kind),
                None => r matches Ok(d) && d@ == nulls_resolved(df@, policy),
            },
        },
        r matches Ok(d) ==> frame_wf(d@),
        frame_typed(df@) ==> (r matches Ok(d) ==> frame_typed(d@)),
{
    if column_has_null(&df.columns[gi]) {
        return Err(QFactorsError::GroupNull(group_col.clone()));
    }
    if column_has_null(&df.columns[ti]) {
        return Err(QFactorsError::TimeNull(time_col.clone()));
    }
    match policy {
        NullPolicy::Error => {
            let mut i: usize = 0;
            while i < df.columns.len()
                invariant
                    i <= df.columns.len(),
                    forall|j: int| 0 <= j < i ==> !has_null(#[trigger] df@[j]),
                decreases df.columns.len() - i,
            {
                if column_has_null(&df.columns[i]) {
                    proof {
                        assert(is_first(df@, |c: ColumnView| has_null(c), i as int));
                        lemma_first_index_unique(df@, |c: ColumnView| has_null(c), i as int);
                    }
                    return Err(QFactorsError::NullNotAllowed { column: df.columns[i].name.clone() });
                }
                i = i + 1;
            }
            proof {
                lemma_first_index(df@, |c: ColumnView| has_null(c));
            }
            Ok(df)
        },
        NullPolicy::FloatNullToNan => {
            let mut columns: Vec<ColumnData> = Vec::new();
            let mut i: usize = 0;
            while i < df.columns.len()
                invariant
                    i <= df.columns.len(),
                    frame_wf(df@),
                    forall|j: int| 0 <= j < i ==> !unrepairable_null(#[trigger] df@[j]),
                    columns.len() == i,
                    forall|j: int| 0 <= j < i ==> #[trigger] columns@[j]@ == null_to_nan(df@[j]),
                decreases df.columns.len() - i,
            {
                let has = column_has_null(&df.columns[i]);
                let is_float = match &df.columns[i].kind {
                    DataKind::Float64 => true,
                    _ => false,
                };
                if has && !is_float {
                    proof {
                        assert(is_first(df@, |c: ColumnView| unrepairable_null(c), i as int));
                        lemma_first_index_unique(df@, |c: ColumnView| unrepairable_null(c), i as int);
                    }
                    return Err(
                        QFactorsError::FloatNullToNanTypeMismatch {
                            column: df.columns[i].name.clone(),
                            dtype: kind_name_of(&df.columns[i].kind),
                        },
                    );
                }
                columns.push(nulls_to_nan_column(&df.columns[i]));
                i = i + 1;
            }
            proof {
                lemma_first_index(df@, |c: ColumnView| unrepairable_null(c));
            }
            let out = Frame { columns };
            assert(out@ =~= nulls_resolved(df@, policy));
            proof {
                if frame_typed(df@) {
                    assert forall|j: int, i: int|
                        0 <= j < out@.len() && 0 <= i < out@[j].cells.len() implies crate::frame::cell_fits(
                            out@[j].kind,
                            #[trigger] out@[j].cells[i],
                        ) by {
                        assert(out@[j] == null_to_nan(df@[j]));
                        if df@[j].cells[i] == CellView::Null {
                            assert(!unrepairable_null(df@[j]));
                        }
                        assert(crate::frame::cell_fits(df@[j].kind, df@[j].cells[i]));
                    }
                }
            }
            Ok(out)
        },
    }
}


/// One group of a prepared panel: the rows `start..end` share the label.
#[derive(Debug)]
pub struct GroupInfo {
    pub id: u32,
    pub label_key: Key,
    pub start: usize,
    pub end: usize,
}

/// Rows `i` and `j` carry the same `(group, time)` pair.
pub open spec fn same_pair(g: Seq<KeyView>, t: Seq<KeyView>, i: int, j: int) -> bool {
    g[i] == g[j] && t[i] == t[j]
}

/// Some row carries the same `(group, time)` pair as the row before it.
pub open spec fn adjacent_duplicate(g: Seq<KeyView>, t: Seq<KeyView>) -> bool {
    exists|i: int| 1 <= i < g.len() && #[trigger] same_pair(g, t, i - 1, i)
}

/// `groups` splits the rows `0..upto` into consecutive non-empty blocks of equal
/// group value, neighbouring blocks differing in value, numbered from zero.
pub open spec fn groups_tile(groups: Seq<GroupInfo>, g: Seq<KeyView>, upto: int) -> bool {
    &&& groups.len() == 0 ==> upto == 0
    &&& groups.len() > 0 ==> groups[0].start == 0 && groups.last().end == upto
    &&& forall|k: int|
        0 <= k < groups.len() ==> #[trigger] groups[k].id == k && groups[k].start
            < groups[k].end && groups[k].end <= upto
    &&& forall|k: int| 0 <= k < groups.len() - 1 ==> #[trigger] groups[k].end == groups[k + 1].start
    &&& forall|k: int, r: int|
        #![trigger groups[k], g[r]]
        0 <= k < groups.len() && groups[k].start <= r < groups[k].end ==> g[r]
            == groups[k].label_key@
    &&& forall|k: int|
        0 <= k < groups.len() - 1 ==> #[trigger] groups[k].label_key@ != groups[k + 1].label_key@
}

/// Every row carries the id of the group it belongs to.
pub open spec fn ids_match(ids: Seq<u32>, groups: Seq<GroupInfo>) -> bool {
    forall|k: int, r: int|
        #![trigger groups[k], ids[r]]
        0 <= k < groups.len() && groups[k].start <= r < groups[k].end ==> ids[r] == k
}

/// `x` is one of the keys of `ks`.
pub open spec fn appears_in(ks: Seq<KeyView>, x: KeyView) -> bool {
    exists|i: int| 0 <= i < ks.len() && ks[i] == x
}

/// The keys of `u` strictly increase.
pub open spec fn strictly_increasing(u: Seq<KeyView>) -> bool {
    forall|a: int, b: int| 0 <= a < b < u.len() ==> #[trigger] key_lt(u[a], u[b])
}

/// Two distinct rows carry the same `(group, time)` pair.
pub open spec fn has_duplicate_pair(g: Seq<KeyView>, t: Seq<KeyView>) -> bool {
    exists|i: int, j: int| 0 <= i < j < g.len() && #[trigger] same_pair(g, t, i, j)
}

/// In sorted rows a repeated pair shows up on neighbouring rows.
pub(crate) proof fn lemma_sorted_duplicate_adjacent(g: Seq<KeyView>, t: Seq<KeyView>)
    requires
        g.len() == t.len(),
        pairs_sorted(g, t),
    ensures
        has_duplicate_pair(g, t) <==> adjacent_duplicate(g, t),
{
    if has_duplicate_pair(g, t) {
        let (i, j) = choose|i: int, j: int| 0 <= i < j < g.len() && #[trigger] same_pair(g, t, i, j);
        assert(row_le(g, t, i, i + 1));
        if i + 1 < j {
            assert(row_le(g, t, i + 1, j));
            assert(row_le(g, t, i + 1, i));
            crate::sort::lemma_row_le_antisym(g, t, i, i + 1);
        }
        assert(same_pair(g, t, (i + 1) - 1, i + 1));
    }
    if adjacent_duplicate(g, t) {
        let i = choose|i: int| 1 <= i < g.len() && #[trigger] same_pair(g, t, i - 1, i);
        assert(same_pair(g, t, i - 1, i));
    }
}

/// Reordering rows neither creates nor removes repeated pairs.
pub(crate) proof fn lemma_perm_duplicates(g: Seq<KeyView>, t: Seq<KeyView>, p: Seq<usize>)
    requires
        g.len() == t.len(),
        g.len() <= usize::MAX,
        is_perm(p, g.len()),
    ensures
        has_duplicate_pair(permute_keys(g, p), permute_keys(t, p)) == has_duplicate_pair(g, t),
{
    let g2 = permute_keys(g, p);
    let t2 = permute_keys(t, p);
    if has_duplicate_pair(g2, t2) {
        let (i, j) = choose|i: int, j: int| 0 <= i < j < g2.len() && #[trigger] same_pair(g2, t2, i, j);
        let (a, b) = (p[i] as int, p[j] as int);
        assert(a != b);
        if a < b {
            assert(same_pair(g, t, a, b));
        } else {
            assert(same_pair(g, t, b, a));
        }
    }
    if has_duplicate_pair(g, t) {
        let (a, b) = choose|a: int, b: int| 0 <= a < b < g.len() && #[trigger] same_pair(g, t, a, b);
        assert(p.contains(a as usize));
        assert(p.contains(b as usize));
        let i = choose|i: int| 0 <= i < p.len() && p[i] == a as usize;
        let j = choose|j: int| 0 <= j < p.len() && p[j] == b as usize;
        assert(i != j);
        assert(g2[i] == g[a] && t2[i] == t[a]);
        assert(g2[j] == g[b] && t2[j] == t[b]);
        if i < j {
            assert(same_pair(g2, t2, i, j));
        } else {
            assert(same_pair(g2, t2, j, i));
        }
    }
}

/// Within one group of sorted rows without repeated pairs, times strictly increase.
proof fn lemma_group_times_increase(g: Seq<KeyView>, t: Seq<KeyView>, i: int, j: int)
    requires
        g.len() == t.len(),
        pairs_sorted(g, t),
        !adjacent_duplicate(g, t),
        0 <= i < j < g.len(),
        g[i] == g[j],
    ensures
        key_lt(t[i], t[j]),
{
    lemma_key_order();
    assert(row_le(g, t, i, j));
    if t[i] == t[j] {
        assert(same_pair(g, t, i, j));
        lemma_sorted_duplicate_adjacent(g, t);
    }
}

/// A table's rows taken in the order that sorts them by `(group, time)`.
pub(crate) fn sort_panel(df: &Frame, gi: usize, ti: usize) -> (r: (Frame, Vec<usize>))
    requires
        gi < df.columns.len(),
        ti < df.columns.len(),
        frame_wf(df@),
    ensures
        is_perm(r.1@, height_of(df@)),
        r.0@ == permute_frame(df@, r.1@),
        frame_wf(r.0@),
        r.0.columns.len() == df.columns.len(),
        pairs_sorted(keys_of(r.0@[gi as int]), keys_of(r.0@[ti as int])),
        frame_typed(df@) ==> frame_typed(r.0@),
{
    let gk = key_column(&df.columns[gi]);
    let tk = key_column(&df.columns[ti]);
    proof {
        assert(df@[gi as int].cells.len() == height_of(df@));
        assert(df@[ti as int].cells.len() == height_of(df@));
        assert(views(gk@).len() == gk@.len());
        assert(views(tk@).len() == tk@.len());
    }
    let p = argsort_rows(&gk, &tk);
    let mut columns: Vec<ColumnData> = Vec::new();
    let mut c: usize = 0;
    while c < df.columns.len()
        invariant
            frame_wf(df@),
            is_perm(p@, height_of(df@)),
            c <= df.columns.len(),
            columns.len() == c,
            forall|j: int| 0 <= j < c ==> #[trigger] columns@[j]@ == permute_frame(df@, p@)[j],
        decreases df.columns.len() - c,
    {
        assert(df@[c as int].cells.len() == height_of(df@));
        columns.push(permute_column(&df.columns[c], &p));
        c = c + 1;
    }
    let out = Frame { columns };
    assert(out@ =~= permute_frame(df@, p@));
    proof {
        lemma_permuted_sorted(views(gk@), views(tk@), p@);
        assert(keys_of(out@[gi as int]) =~= permute_keys(views(gk@), p@));
        assert(keys_of(out@[ti as int]) =~= permute_keys(views(tk@), p@));
        if frame_typed(df@) {
            assert forall|j: int, i: int|
                0 <= j < out@.len() && 0 <= i < out@[j].cells.len() implies crate::frame::cell_fits(
                    out@[j].kind,
                    #[trigger] out@[j].cells[i],
                ) by {
                assert(out@[j] == permute_frame(df@, p@)[j]);
                assert(p@[i] < height_of(df@));
                assert(crate::frame::cell_fits(df@[j].kind, df@[j].cells[p@[i] as int]));
            }
        }
    }
    (out, p)
}

/// Rejects a table whose rows are not already in `(group, time)` order.
fn ensure_panel_sorted(
    df: &Frame,
    gi: usize,
    ti: usize,
    group_col: &String,
    time_col: &String,
) -> (r: Result<(), QFactorsError>)
    requires
        gi < df.columns.len(),
        ti < df.columns.len(),
        frame_wf(df@),
    ensures
        r is Ok <==> pairs_sorted(keys_of(df@[gi as int]), keys_of(df@[ti as int])),
        r matches Err(e) ==> (e matches QFactorsError::SortOrder { group_col: g, time_col: t }
            && g@ == group_col@ && t@ == time_col@),
{
    let gk = key_column(&df.columns[gi]);
    let tk = key_column(&df.columns[ti]);
    proof {
        assert(df@[gi as int].cells.len() == height_of(df@));
        assert(df@[ti as int].cells.len() == height_of(df@));
        assert(views(gk@).len() == gk@.len());
        assert(views(tk@).len() == tk@.len());
    }
    let mut i: usize = 1;
    while i < gk.len()
        invariant
            gk.len() == tk.len(),
            views(gk@) == keys_of(df@[gi as int]),
            views(tk@) == keys_of(df@[ti as int]),
            1 <= i,
            forall|j: int| 1 <= j < i && j < gk.len() ==> #[trigger] row_le(views(gk@), views(tk@), j - 1, j),
        decreases gk.len() - i,
    {
        if !row_le_exec(&gk, &tk, i - 1, i) {
            return Err(
                QFactorsError::SortOrder { group_col: group_col.clone(), time_col: time_col.clone() },
            );
        }
        i = i + 1;
    }
    proof {
        lemma_adjacent_sorted(views(gk@), views(tk@));
    }
    Ok(())
}

/// Splits rows sorted by `(group, time)` into group blocks and numbers them;
/// the rows are those of a prepared table, at most `u32::MAX` of them.
pub(crate) fn build_groups(
    gk: &Vec<Key>,
    tk: &Vec<Key>,
    group_col: &String,
    time_col: &String,
) -> (r: Result<(Vec<u32>, Vec<GroupInfo>), QFactorsError>)
    requires
        gk.len() == tk.len(),
        gk.len() <= u32::MAX,
    ensures
        adjacent_duplicate(views(gk@), views(tk@)) ==> (r matches Err(
            QFactorsError::DuplicateGroupTime { group_col: g, time_col: t },
        ) && g@ == group_col@ && t@ == time_col@),
        !adjacent_duplicate(views(gk@), views(tk@)) ==> (r matches Ok((ids, groups)) && ids.len()
            == gk.len() && groups_tile(groups@, views(gk@), gk.len() as int) && ids_match(
            ids@,
            groups@,
        )),
{
    let n = gk.len();
    let mut ids: Vec<u32> = Vec::new();
    let mut groups: Vec<GroupInfo> = Vec::new();
    if n == 0 {
        return Ok((ids, groups));
    }
    let mut start: usize = 0;
    let mut id: u32 = 0;
    ids.push(0);
    let mut i: usize = 1;
    while i < n
        invariant
            n == gk.len(),
            gk.len() == tk.len(),
            gk.len() <= u32::MAX,
            1 <= i <= n,
            start < i,
            id as int == groups.len(),
            id as int <= start,
            ids.len() == i,
            forall|r: int| start <= r < i ==> #[trigger] gk@[r]@ == gk@[start as int]@,
            forall|r: int| start <= r < i ==> #[trigger] ids@[r] == id,
            groups_tile(groups@, views(gk@), start as int),
            ids_match(ids@, groups@),
            forall|k: int| 0 <= k < groups.len() ==> #[trigger] groups@[k].end <= start,
            groups.len() > 0 ==> groups@.last().label_key@ != gk@[start as int]@,
            forall|j: int| 1 <= j < i ==> !#[trigger] same_pair(views(gk@), views(tk@), j - 1, j),
        decreases n - i,
    {
        if !gk[i].same(&gk[start]) {
            let ghost old_groups = groups@;
            let ghost old_ids = ids@;
            groups.push(GroupInfo { id, label_key: gk[start].duplicate(), start, end: i });
            proof {
                assert(groups@ == old_groups.push(groups@.last()));
                if old_groups.len() > 0 {
                    assert(old_groups.last().end == start);
                    assert(groups@[old_groups.len() - 1] == old_groups.last());
                } else {
                    assert(start == 0);
                }
                assert forall|k: int| 0 <= k < groups.len() - 1 implies #[trigger] groups@[k].end
                    == groups@[k + 1].start by {
                    if k < old_groups.len() - 1 {
                        assert(groups@[k] == old_groups[k]);
                        assert(groups@[k + 1] == old_groups[k + 1]);
                    }
                }
                assert forall|k: int| 0 <= k < groups.len() - 1 implies #[trigger] groups@[k].label_key@
                    != groups@[k + 1].label_key@ by {
                    if k < old_groups.len() - 1 {
                        assert(groups@[k] == old_groups[k]);
                        assert(groups@[k + 1] == old_groups[k + 1]);
                    }
                }
                assert forall|k: int, r: int|
                    #![trigger groups@[k], views(gk@)[r]]
                    0 <= k < groups.len() && groups@[k].start <= r < groups@[k].end implies views(
                        gk@,
                    )[r] == groups@[k].label_key@ by {
                    if k == groups.len() - 1 {
                        assert(gk@[r]@ == gk@[start as int]@);
                    } else {
                        assert(groups@[k] == old_groups[k]);
                    }
                }
                assert forall|k: int, r: int|
                    #![trigger groups@[k], ids@[r]]
                    0 <= k < groups.len() && groups@[k].start <= r < groups@[k].end implies ids@[r]
                        == k by {
                    if k < groups.len() - 1 {
                        assert(groups@[k] == old_groups[k]);
                    }
                }
            }
            id = id + 1;
            start = i;
        } else if tk[i].same(&tk[i - 1]) {
            proof {
                assert(gk@[i - 1]@ == gk@[start as int]@);
                assert(same_pair(views(gk@), views(tk@), i - 1, i as int));
            }
            return Err(
                QFactorsError::DuplicateGroupTime {
                    group_col: group_col.clone(),
                    time_col: time_col.clone(),
                },
            );
        }
        proof {
            if start < i {
                assert(gk@[i - 1]@ == gk@[start as int]@);
            }
        }
        let ghost before_push = ids@;
        ids.push(id);
        proof {
            assert forall|k: int, r: int|
                #![trigger groups@[k], ids@[r]]
                0 <= k < groups.len() && groups@[k].start <= r < groups@[k].end implies ids@[r]
                    == k by {
                assert(groups@[k].end <= start);
                assert(ids@[r] == before_push[r]);
            }
        }
        i = i + 1;
    }
    let ghost old_groups = groups@;
    groups.push(GroupInfo { id, label_key: gk[start].duplicate(), start, end: n });
    proof {
        assert forall|k: int, r: int|
            #![trigger groups@[k], views(gk@)[r]]
            0 <= k < groups.len() && groups@[k].start <= r < groups@[k].end implies views(gk@)[r]
                == groups@[k].label_key@ by {
            if k == groups.len() - 1 {
                assert(gk@[r]@ == gk@[start as int]@);
            } else {
                assert(groups@[k] == old_groups[k]);
            }
        }
        assert forall|k: int, r: int|
            #![trigger groups@[k], ids@[r]]
            0 <= k < groups.len() && groups@[k].start <= r < groups@[k].end implies ids@[r] == k by {
            if k < groups.len() - 1 {
                assert(groups@[k] == old_groups[k]);
            }
        }
        assert(!adjacent_duplicate(views(gk@), views(tk@)));
    }
    Ok((ids, groups))
}

/// The distinct times in increasing order, and each row's position among them.
pub(crate) fn build_time_ordinals(tk: &Vec<Key>) -> (r: (Vec<usize>, Vec<Key>))
    ensures
        r.0.len() == tk.len(),
        r.1.len() <= tk.len(),
        strictly_increasing(views(r.1@)),
        forall|i: int|
            0 <= i < tk.len() ==> (#[trigger] r.0@[i]) < r.1.len() && r.1@[r.0@[i] as int]@
                == tk@[i]@,
        forall|j: int| 0 <= j < r.1.len() ==> #[trigger] appears_in(views(tk@), views(r.1@)[j]),
{
    let n = tk.len();
    let p = argsort_rows(tk, tk);
    let mut ords: Vec<usize> = Vec::new();
    let mut z: usize = 0;
    while z < n
        invariant
            z <= n,
            ords.len() == z,
        decreases n - z,
    {
        ords.push(0);
        z = z + 1;
    }
    let mut unique: Vec<Key> = Vec::new();
    let mut k: usize = 0;
    proof {
        lemma_key_order();
    }
    while k < n
        invariant
            n == tk.len(),
            is_perm(p@, n as nat),
            rows_sorted(views(tk@), views(tk@), p@),
            k <= n,
            ords.len() == n,
            unique.len() <= k,
            k > 0 ==> unique.len() > 0 && unique@.last()@ == tk@[p@[k - 1] as int]@,
            strictly_increasing(views(unique@)),
            forall|a: int|
                0 <= a < k ==> (#[trigger] ords@[p@[a] as int]) < unique.len()
                    && unique@[ords@[p@[a] as int] as int]@ == tk@[p@[a] as int]@,
            forall|j: int| 0 <= j < unique.len() ==> #[trigger] appears_in(views(tk@), views(unique@)[j]),
        decreases n - k,
    {
        let row = p[k];
        let push = if k == 0 {
            true
        } else {
            !tk[row].same(&unique[unique.len() - 1])
        };
        let ghost old_unique = unique@;
        let ghost old_ords = ords@;
        proof {
            lemma_key_order();
        }
        if push {
            proof {
                if k > 0 {
                    assert(row_le(views(tk@), views(tk@), p@[k - 1] as int, p@[k as int] as int));
                }
            }
            unique.push(tk[row].duplicate());
            proof {
                let new_key = tk@[row as int]@;
                let ol = old_unique.len() as int;
                if k > 0 {
                    let last = views(old_unique)[ol - 1];
                    assert(last == tk@[p@[k - 1] as int]@);
                    assert(!key_lt(new_key, last));
                    assert(new_key != last);
                    assert(key_lt(last, new_key));
                }
                assert(views(unique@)[unique.len() - 1] == new_key);
                assert forall|a: int, b: int| 0 <= a < b < unique.len() implies #[trigger] key_lt(
                    views(unique@)[a],
                    views(unique@)[b],
                ) by {
                    assert(views(unique@)[a] == views(old_unique)[a]);
                    if b == unique.len() - 1 {
                        if a < ol - 1 {
                            assert(key_lt(views(old_unique)[a], views(old_unique)[ol - 1]));
                        }
                    } else {
                        assert(views(unique@)[b] == views(old_unique)[b]);
                        assert(key_lt(views(old_unique)[a], views(old_unique)[b]));
                    }
                }
                assert forall|j: int| 0 <= j < unique.len() implies #[trigger] appears_in(
                    views(tk@),
                    views(unique@)[j],
                ) by {
                    if j == unique.len() - 1 {
                        assert(views(tk@)[row as int] == views(unique@)[j]);
                    } else {
                        assert(views(unique@)[j] == views(old_unique)[j]);
                        assert(appears_in(views(tk@), views(old_unique)[j]));
                    }
                }
            }
        }
        ords.set(row, unique.len() - 1);
        proof {
            assert forall|a: int|
                0 <= a < k + 1 implies (#[trigger] ords@[p@[a] as int]) < unique.len()
                    && unique@[ords@[p@[a] as int] as int]@ == tk@[p@[a] as int]@ by {
                if a < k {
                    assert(p@[a] != p@[k as int]);
                    assert(ords@[p@[a] as int] == old_ords[p@[a] as int]);
                    if push {
                        assert(unique@[old_ords[p@[a] as int] as int] == old_unique[old_ords[p@[a] as int] as int]);
                    }
                }
            }
        }
        k = k + 1;
    }
    proof {
        assert forall|i: int| 0 <= i < tk.len() implies (#[trigger] ords@[i]) < unique.len()
            && unique@[ords@[i] as int]@ == tk@[i]@ by {
            assert(p@.contains(i as usize));
            let a = choose|a: int| 0 <= a < p.len() && p@[a] == i as usize;
            assert(ords@[p@[a] as int] < unique.len());
        }
    }
    (ords, unique)
}

/// How to prepare a panel.
#[derive(Debug)]
pub struct PreparePanelOptions {
    pub group_col: String,
    pub time_col: String,
    /// Logical input name to column name, first entry wins.
    pub column_aliases: Vec<(String, String)>,
    pub sort: bool,
    pub rechunk: bool,
    pub null_policy: NullPolicy,
    pub output_group_id: bool,
}

/// The first reason a table cannot be prepared.
pub enum PrepareFailure {
    InternalColumnConflict(Seq<char>),
    MissingColumn(Seq<char>),
    GroupNull,
    TimeNull,
    NullNotAllowed(int),
    FloatNullToNanTypeMismatch(int),
    SortOrder,
    DuplicateGroupTime,
}

/// The first reason, in the order the checks run, that `d` cannot be prepared
/// with `o`; `None` when it can.
pub open spec fn prepare_failure(d: Seq<ColumnView>, o: PreparePanelOptions) -> Option<PrepareFailure> {
    if find_column(d, GROUP_ID_COL@) is Some {
        Some(PrepareFailure::InternalColumnConflict(GROUP_ID_COL@))
    } else if find_column(d, TIME_ORD_COL@) is Some {
        Some(PrepareFailure::InternalColumnConflict(TIME_ORD_COL@))
    } else if find_column(d, o.group_col@) is None {
        Some(PrepareFailure::MissingColumn(o.group_col@))
    } else if find_column(d, o.time_col@) is None {
        Some(PrepareFailure::MissingColumn(o.time_col@))
    } else {
        let gi = find_column(d, o.group_col@).unwrap();
        let ti = find_column(d, o.time_col@).unwrap();
        if has_null(d[gi]) {
            Some(PrepareFailure::GroupNull)
        } else if has_null(d[ti]) {
            Some(PrepareFailure::TimeNull)
        } else if o.null_policy == NullPolicy::Error && first_index(
            d,
            |c: ColumnView| has_null(c),
        ) is Some {
            Some(PrepareFailure::NullNotAllowed(first_index(d, |c: ColumnView| has_null(c)).unwrap()))
        } else if o.null_policy == NullPolicy::FloatNullToNan && first_index(
            d,
            |c: ColumnView| unrepairable_null(c),
        ) is Some {
            Some(
                PrepareFailure::FloatNullToNanTypeMismatch(
                    first_index(d, |c: ColumnView| unrepairable_null(c)).unwrap(),
                ),
            )
        } else {
            let d1 = nulls_resolved(d, o.null_policy);
            let g = keys_of(d1[gi]);
            let t = keys_of(d1[ti]);
            if !o.sort && !pairs_sorted(g, t) {
                Some(PrepareFailure::SortOrder)
            } else if has_duplicate_pair(g, t) {
                Some(PrepareFailure::DuplicateGroupTime)
            } else {
                None
            }
        }
    }
}

/// `e` is the error that reports failure `f`.
pub open spec fn error_reports(
    e: QFactorsError,
    f: PrepareFailure,
    d: Seq<ColumnView>,
    o: PreparePanelOptions,
) -> bool {
    match f {
        PrepareFailure::InternalColumnConflict(n) => e matches QFactorsError::InternalColumnConflict(
            m,
        ) && m@ == n,
        PrepareFailure::MissingColumn(n) => e matches QFactorsError::MissingColumn(m) && m@ == n,
        PrepareFailure::GroupNull => e matches QFactorsError::GroupNull(m) && m@ == o.group_col@,
        PrepareFailure::TimeNull => e matches QFactorsError::TimeNull(m) && m@ == o.time_col@,
        PrepareFailure::NullNotAllowed(c) => e matches QFactorsError::NullNotAllowed { column }
            && column@ == d[c].name,
        PrepareFailure::FloatNullToNanTypeMismatch(c) => e matches QFactorsError::FloatNullToNanTypeMismatch {
            column,
            dtype,
        } && column@ == d[c].name && dtype@ == kind_name(d[c].kind),
        PrepareFailure::SortOrder => e matches QFactorsError::SortOrder { group_col, time_col }
            && group_col@ == o.group_col@ && time_col@ == o.time_col@,
        PrepareFailure::DuplicateGroupTime => e matches QFactorsError::DuplicateGroupTime {
            group_col,
            time_col,
        } && group_col@ == o.group_col@ && time_col@ == o.time_col@,
    }
}

/// A table sorted by `(group, time)`, split into groups, with time ordinals.
#[derive(Debug)]
pub struct PreparedPanel {
    df: Frame,
    group_col: String,
    time_col: String,
    column_aliases: Vec<(String, String)>,
    groups: Vec<GroupInfo>,
    unique_times: Vec<Key>,
    time_ords: Vec<u32>,
    group_index: usize,
    time_index: usize,
    output_group_id: bool,
}

/// One requested observation time.
#[derive(Debug)]
pub struct PreparedObservation {
    /// Its position among the requested times.
    pub input_index: usize,
    /// The requested time.
    pub value: Cell,
    /// How many distinct panel times are at or before it.
    pub ord_exclusive: usize,
}

/// The table an observation writes has one row per group, in group order:
/// its time column holds the requested time on every row, and its group
/// column holds, on row `k`, a label of group `k`, the key every row of that
/// group carries.
pub proof fn lemma_observation_rows(panel: PreparedPanel, value: CellView, k: int, r: int)
    requires
        panel.wf(),
        0 <= k < panel.spec_groups().len(),
        panel.spec_groups()[k].start <= r < panel.spec_groups()[k].end,
    ensures
        ({
            let cols = observation_key_columns(panel, value);
            &&& cols[0].name == panel.spec_time_col()
            &&& cols[0].cells.len() == panel.spec_groups().len()
            &&& cols[0].cells[k] == value
            &&& cols[1].name == panel.spec_group_col()
            &&& cols[1].cells.len() == panel.spec_groups().len()
            &&& cell_key(cols[1].cells[k]) == panel.group_keys()[r]
        }),
{
    let groups = panel.spec_groups();
    let g = panel.group_keys();
    assert(groups[k].id == k);
    assert(g[r] == groups[k].label_key@);
    assert(g[groups[k].start as int] == groups[k].label_key@);
    assert(panel.frame()[panel.group_index()].cells.len() == panel.n_rows());
}

/// With group ids requested, row `k` of an observation's table carries the
/// id that the prepared panel's own group-id column gives every row of
/// group `k`.
pub proof fn lemma_observation_group_ids(
    panel: PreparedPanel,
    d: Seq<ColumnView>,
    o: PreparePanelOptions,
    value: CellView,
    k: int,
    r: int,
)
    requires
        prepared_from(panel, d, o),
        o.output_group_id,
        0 <= k < panel.spec_groups().len(),
        panel.spec_groups()[k].start <= r < panel.spec_groups()[k].end,
    ensures
        ({
            let cols = observation_key_columns(panel, value);
            &&& cols.len() == 3
            &&& cols[2].name == GROUP_ID_COL@
            &&& panel.frame()[d.len() as int].name == GROUP_ID_COL@
            &&& cols[2].cells[k] == panel.frame()[d.len() as int].cells[r]
        }),
{
    let groups = panel.spec_groups();
    assert(groups[k].id == k);
    assert(panel.frame()[d.len() as int].cells[r] == CellView::UInt(k as u32));
}

impl PreparedPanel {
    /// The table, with the group-id and time-ordinal columns appended.
    pub closed spec fn frame(&self) -> Seq<ColumnView> {
        self.df@
    }

    pub closed spec fn spec_groups(&self) -> Seq<GroupInfo> {
        self.groups@
    }

    /// The distinct times, increasing.
    pub closed spec fn spec_unique_times(&self) -> Seq<KeyView> {
        views(self.unique_times@)
    }

    /// Each row's position among the distinct times.
    pub closed spec fn spec_time_ords(&self) -> Seq<u32> {
        self.time_ords@
    }

    pub closed spec fn group_index(&self) -> int {
        self.group_index as int
    }

    pub closed spec fn time_index(&self) -> int {
        self.time_index as int
    }

    pub closed spec fn spec_group_col(&self) -> Seq<char> {
        self.group_col@
    }

    pub closed spec fn spec_time_col(&self) -> Seq<char> {
        self.time_col@
    }

    pub closed spec fn spec_aliases(&self) -> Seq<(String, String)> {
        self.column_aliases@
    }

    pub closed spec fn spec_output_group_id(&self) -> bool {
        self.output_group_id
    }

    /// The group value of each row.
    pub open spec fn group_keys(&self) -> Seq<KeyView> {
        keys_of(self.frame()[self.group_index()])
    }

    /// The time value of each row.
    pub open spec fn time_keys(&self) -> Seq<KeyView> {
        keys_of(self.frame()[self.time_index()])
    }

    /// The number of rows.
    pub open spec fn n_rows(&self) -> nat {
        self.spec_time_ords().len()
    }

    /// What every prepared panel satisfies.
    pub open spec fn wf(&self) -> bool {
        let h = self.n_rows() as int;
        let groups = self.spec_groups();
        let ords = self.spec_time_ords();
        let unique = self.spec_unique_times();
        &&& frame_wf(self.frame())
        &&& frame_typed(self.frame())
        &&& height_of(self.frame()) == h
        &&& h <= u32::MAX
        &&& 0 <= self.group_index() < self.frame().len()
        &&& 0 <= self.time_index() < self.frame().len()
        &&& find_column(self.frame(), self.spec_group_col()) == Some(self.group_index())
        &&& find_column(self.frame(), self.spec_time_col()) == Some(self.time_index())
        &&& groups_tile(groups, self.group_keys(), h)
        &&& pairs_sorted(self.group_keys(), self.time_keys())
        &&& strictly_increasing(unique)
        &&& forall|i: int|
            0 <= i < h ==> (#[trigger] ords[i]) < unique.len() && unique[ords[i] as int]
                == self.time_keys()[i]
        &&& forall|j: int| 0 <= j < unique.len() ==> #[trigger] appears_in(self.time_keys(), unique[j])
        &&& forall|k: int, i: int, j: int|
            #![trigger groups[k], ords[i], ords[j]]
            0 <= k < groups.len() && groups[k].start <= i < j < groups[k].end ==> ords[i] < ords[j]
    }
}

/// The prepared panel built from `d` with `o` when no check fails.
pub open spec fn prepared_from(panel: PreparedPanel, d: Seq<ColumnView>, o: PreparePanelOptions) -> bool {
    let d1 = nulls_resolved(d, o.null_policy);
    let n = d.len() as int;
    let h = height_of(d);
    let out = panel.frame();
    &&& panel.wf()
    &&& panel.n_rows() == h
    &&& out.len() == n + 2
    &&& o.sort ==> exists|p: Seq<usize>| is_perm(p, h) && out.take(n) == permute_frame(d1, p)
    &&& !o.sort ==> out.take(n) == d1
    &&& panel.group_index() == find_column(d, o.group_col@).unwrap()
    &&& panel.time_index() == find_column(d, o.time_col@).unwrap()
    &&& out[n].name == GROUP_ID_COL@ && out[n].kind == KindView::UInt32
    &&& out[n].cells.len() == h
    &&& forall|k: int, r: int|
        #![trigger panel.spec_groups()[k], out[n].cells[r]]
        0 <= k < panel.spec_groups().len() && panel.spec_groups()[k].start <= r
            < panel.spec_groups()[k].end ==> out[n].cells[r] == CellView::UInt(k as u32)
    &&& out[n + 1].name == TIME_ORD_COL@ && out[n + 1].kind == KindView::UInt32
    &&& out[n + 1].cells.len() == h
    &&& forall|r: int|
        0 <= r < h ==> #[trigger] out[n + 1].cells[r] == CellView::UInt(panel.spec_time_ords()[r])
    &&& panel.spec_group_col() == o.group_col@
    &&& panel.spec_time_col() == o.time_col@
    &&& panel.spec_aliases() == o.column_aliases@
    &&& panel.spec_output_group_id() == o.output_group_id
}

/// The table of a panel built by `new`: its columns and where the structural ones are.
proof fn lemma_new_frame(panel: PreparedPanel, ds: Seq<ColumnView>, h: nat)
    requires
        frame_wf(ds),
        height_of(ds) == h,
        ds.len() > 0,
        panel.df@.len() == ds.len() + 2,
        panel.df@.take(ds.len() as int) == ds,
        panel.df@[ds.len() as int].cells.len() == h,
        panel.df@[ds.len() as int + 1].cells.len() == h,
        panel.group_index < ds.len(),
        panel.time_index < ds.len(),
        find_column(ds, panel.group_col@) == Some(panel.group_index as int),
        find_column(ds, panel.time_col@) == Some(panel.time_index as int),
        frame_typed(ds),
        panel.df@[ds.len() as int].kind == KindView::UInt32,
        panel.df@[ds.len() as int + 1].kind == KindView::UInt32,
        forall|r: int| 0 <= r < h ==> #[trigger] panel.df@[ds.len() as int].cells[r] is UInt,
        forall|r: int| 0 <= r < h ==> #[trigger] panel.df@[ds.len() as int + 1].cells[r] is UInt,
    ensures
        frame_wf(panel.frame()),
        frame_typed(panel.frame()),
        height_of(panel.frame()) == h,
        find_column(panel.frame(), panel.spec_group_col()) == Some(panel.group_index()),
        find_column(panel.frame(), panel.spec_time_col()) == Some(panel.time_index()),
        panel.group_keys() == keys_of(ds[panel.group_index as int]),
        panel.time_keys() == keys_of(ds[panel.time_index as int]),
{
    let out = panel.frame();
    let n = ds.len() as int;
    assert(out =~= ds + seq![out[n], out[n + 1]]);
    assert(out[panel.group_index as int] == ds[panel.group_index as int]);
    assert(out[panel.time_index as int] == ds[panel.time_index as int]);
    lemma_find_append(ds, seq![out[n], out[n + 1]], panel.spec_group_col());
    lemma_find_append(ds, seq![out[n], out[n + 1]], panel.spec_time_col());
    assert(out[0] == ds[0]);
    assert forall|c: int| 0 <= c < out.len() implies #[trigger] out[c].cells.len() == height_of(
        out,
    ) by {
        if c < n {
            assert(out[c] == ds[c]);
        }
    }
    assert forall|j: int, i: int|
        0 <= j < out.len() && 0 <= i < out[j].cells.len() implies cell_fits(
        out[j].kind,
        #[trigger] out[j].cells[i],
    ) by {
        if j < n {
            assert(out[j] == ds[j]);
        }
    }
}

/// The ordinals of a panel built by `new` increase within each group.
#[verifier::rlimit(40)]
proof fn lemma_new_order(
    panel: PreparedPanel,
    gk: Seq<Key>,
    tk: Seq<Key>,
    groups: Seq<GroupInfo>,
    unique: Seq<Key>,
)
    requires
        gk.len() == tk.len(),
        groups == panel.groups@,
        unique == panel.unique_times@,
        groups_tile(groups, views(gk), gk.len() as int),
        pairs_sorted(views(gk), views(tk)),
        !adjacent_duplicate(views(gk), views(tk)),
        panel.time_ords.len() == tk.len(),
        strictly_increasing(views(unique)),
        forall|i: int|
            0 <= i < tk.len() ==> (#[trigger] panel.time_ords@[i]) < unique.len()
                && unique[panel.time_ords@[i] as int]@ == tk[i]@,
        forall|j: int| 0 <= j < unique.len() ==> #[trigger] appears_in(views(tk), views(unique)[j]),
    ensures
        forall|i: int|
            0 <= i < tk.len() ==> (#[trigger] panel.spec_time_ords()[i]) < panel.spec_unique_times().len()
                && panel.spec_unique_times()[panel.spec_time_ords()[i] as int] == views(tk)[i],
        forall|j: int|
            0 <= j < panel.spec_unique_times().len() ==> #[trigger] appears_in(
                views(tk),
                panel.spec_unique_times()[j],
            ),
        forall|k: int, i: int, j: int|
            #![trigger panel.spec_groups()[k], panel.spec_time_ords()[i], panel.spec_time_ords()[j]]
            0 <= k < panel.spec_groups().len() && panel.spec_groups()[k].start <= i < j
                < panel.spec_groups()[k].end ==> panel.spec_time_ords()[i] < panel.spec_time_ords()[j],
{
    lemma_key_order();
    let ords_s = panel.spec_time_ords();
    let unique_s = panel.spec_unique_times();
    let gs = panel.spec_groups();
    assert forall|k: int, i: int, j: int|
        #![trigger gs[k], ords_s[i], ords_s[j]]
        0 <= k < gs.len() && gs[k].start <= i < j < gs[k].end implies ords_s[i] < ords_s[j] by {
        assert(gs[k].id == k);
        assert(views(gk)[i] == gs[k].label_key@);
        assert(views(gk)[j] == gs[k].label_key@);
        lemma_group_times_increase(views(gk), views(tk), i, j);
        let (oi, oj) = (ords_s[i] as int, ords_s[j] as int);
        assert(unique_s[oi] == views(tk)[i]);
        assert(unique_s[oj] == views(tk)[j]);
        if oi > oj {
            assert(key_lt(unique_s[oj], unique_s[oi]));
        }
    }
    assert(unique_s == views(unique));
    assert forall|i: int| 0 <= i < tk.len() implies (#[trigger] ords_s[i]) < unique_s.len()
        && unique_s[ords_s[i] as int] == views(tk)[i] by {
        assert(panel.time_ords@[i] < unique.len());
    }
}

/// Ordinals known to fit in `u32`, as `u32`.
fn narrow_ordinals(ords: &Vec<usize>) -> (r: Vec<u32>)
    requires
        forall|i: int| 0 <= i < ords.len() ==> #[trigger] ords@[i] <= u32::MAX,
    ensures
        r.len() == ords.len(),
        forall|i: int| 0 <= i < ords.len() ==> #[trigger] r@[i] as int == ords@[i] as int,
{
    let mut r: Vec<u32> = Vec::new();
    let mut i: usize = 0;
    while i < ords.len()
        invariant
            forall|i: int| 0 <= i < ords.len() ==> #[trigger] ords@[i] <= u32::MAX,
            i <= ords.len(),
            r.len() == i,
            forall|j: int| 0 <= j < i ==> #[trigger] r@[j] as int == ords@[j] as int,
        decreases ords.len() - i,
    {
        r.push(ords[i] as u32);
        i = i + 1;
    }
    r
}

/// A column of `u32` values.
fn u32_column(name: &'static str, values: &Vec<u32>) -> (r: ColumnData)
    ensures
        r@.name == name@,
        r@.kind == KindView::UInt32,
        r@.cells.len() == values.len(),
        forall|i: int| 0 <= i < values.len() ==> #[trigger] r@.cells[i] == CellView::UInt(values@[i]),
{
    let mut cells: Vec<Cell> = Vec::new();
    let mut i: usize = 0;
    while i < values.len()
        invariant
            i <= values.len(),
            cells.len() == i,
            forall|j: int| 0 <= j < i ==> #[trigger] cells@[j]@ == CellView::UInt(values@[j]),
        decreases values.len() - i,
    {
        cells.push(Cell::UInt(values[i]));
        i = i + 1;
    }
    ColumnData { name: <String as StringExecFns>::from_str(name), kind: DataKind::UInt32, cells }
}

impl PreparedPanel {
    /// Validates a table, sorts it by `(group, time)` (or checks that it is
    /// sorted), numbers its groups and its distinct times.
    ///
    /// A table holds at most `u32::MAX` rows: rows are addressed by polars'
    /// `u32` row index, the distinct times are taken back out of the sorted
    /// time column by such indices, and group ids and time ordinals are
    /// stored as `u32` columns.
    pub fn new(df: Frame, options: PreparePanelOptions) -> (r: Result<Self, QFactorsError>)
        requires
            frame_wf(df@),
            frame_typed(df@),
            height_of(df@) <= u32::MAX,
        ensures
            prepare_failure(df@, options) matches Some(f) ==> (r matches Err(e) && error_reports(
                e,
                f,
                df@,
                options,
            )),
            prepare_failure(df@, options) is None ==> (r matches Ok(panel) && prepared_from(
                panel,
                df@,
                options,
            )),
    {
        let ghost d = df@;
        let ghost h = height_of(d);
        match ensure_no_internal_column_conflicts(&df) {
            Ok(()) => {},
            Err(e) => return Err(e),
        }
        let gi = match ensure_column_exists(&df, &options.group_col) {
            Ok(i) => i,
            Err(e) => return Err(e),
        };
        let ti = match ensure_column_exists(&df, &options.time_col) {
            Ok(i) => i,
            Err(e) => return Err(e),
        };
        proof {
            lemma_find_column(d, options.group_col@);
            lemma_find_column(d, options.time_col@);
        }
        let df = match apply_null_policy(
            df,
            &options.group_col,
            &options.time_col,
            gi,
            ti,
            options.null_policy,
        ) {
            Ok(d1) => d1,
            Err(e) => return Err(e),
        };
        let ghost d1 = df@;
        proof {
            assert(d1 == nulls_resolved(d, options.null_policy));
            assert(d1.len() == d.len());
            assert forall|c: int| 0 <= c < d.len() implies #[trigger] d1[c].name == d[c].name
                && d1[c].cells.len() == d[c].cells.len() by {}
            assert(height_of(d1) == h);
        }
        let ghost mut perm: Seq<usize> = Seq::empty();
        let mut df = if options.sort {
            let (sorted, p) = sort_panel(&df, gi, ti);
            proof {
                perm = p@;
            }
            sorted
        } else {
            match ensure_panel_sorted(&df, gi, ti, &options.group_col, &options.time_col) {
                Ok(()) => {},
                Err(e) => return Err(e),
            }
            df
        };
        let ghost ds = df@;
        proof {
            assert(ds.len() == d.len());
            if options.sort {
                assert(ds == permute_frame(d1, perm));
                assert forall|c: int| 0 <= c < d.len() implies #[trigger] ds[c].name == d[c].name by {
                    assert(ds[c].name == d1[c].name);
                }
                assert(height_of(ds) == h);
            } else {
                assert(ds == d1);
            }
            assert forall|c: int| 0 <= c < d.len() implies #[trigger] ds[c].name == d[c].name by {
                if options.sort {
                    assert(ds[c] == permute_frame(d1, perm)[c]);
                }
            }
            assert(height_of(ds) == h);
        }
        let gk = key_column(&df.columns[gi]);
        let tk = key_column(&df.columns[ti]);
        proof {
            assert(ds[gi as int].cells.len() == h);
            assert(ds[ti as int].cells.len() == h);
            assert(views(gk@).len() == gk@.len());
            assert(views(tk@).len() == tk@.len());
            let g1 = keys_of(d1[gi as int]);
            let t1 = keys_of(d1[ti as int]);
            lemma_sorted_duplicate_adjacent(views(gk@), views(tk@));
            if options.sort {
                assert(views(gk@) =~= permute_keys(g1, perm));
                assert(views(tk@) =~= permute_keys(t1, perm));
                lemma_perm_duplicates(g1, t1, perm);
            } else {
                assert(views(gk@) == g1);
                assert(views(tk@) == t1);
            }
        }
        let (ids, groups) = match build_groups(&gk, &tk, &options.group_col, &options.time_col) {
            Ok(v) => v,
            Err(e) => return Err(e),
        };
        proof {
            assert(!adjacent_duplicate(views(gk@), views(tk@)));
            assert(groups_tile(groups@, views(gk@), gk.len() as int));
            assert(ids_match(ids@, groups@));
        }
        let ghost ids_g = ids@;
        let ghost groups_g = groups@;
        let (wide_ords, unique) = build_time_ordinals(&tk);
        let ords = narrow_ordinals(&wide_ords);
        let ghost unique_g = unique@;
        let gid_col = u32_column(GROUP_ID_COL, &ids);
        let ord_col = u32_column(TIME_ORD_COL, &ords);
        let ghost gid_view = gid_col@;
        let ghost ord_view = ord_col@;
        df.columns.push(gid_col);
        df.columns.push(ord_col);
        proof {
            assert(df@ =~= ds.push(gid_view).push(ord_view));
            assert(df@.take(ds.len() as int) =~= ds);
        }
        let panel = PreparedPanel {
            df,
            group_col: options.group_col,
            time_col: options.time_col,
            column_aliases: options.column_aliases,
            groups,
            unique_times: unique,
            time_ords: ords,
            group_index: gi,
            time_index: ti,
            output_group_id: options.output_group_id,
        };
        proof {
            let n = d.len() as int;
            lemma_find_same_names(ds, d, options.group_col@);
            lemma_find_same_names(ds, d, options.time_col@);
            lemma_new_frame(panel, ds, h);
            lemma_new_order(panel, gk@, tk@, groups_g, unique_g);
            assert(panel.group_keys() == views(gk@));
            assert(panel.time_keys() == views(tk@));
            assert(panel.wf());
            let out = panel.frame();
            assert(out[n] == gid_view);
            assert(out[n + 1] == ord_view);
            assert forall|k: int, r: int|
                #![trigger panel.spec_groups()[k], out[n].cells[r]]
                0 <= k < panel.spec_groups().len() && panel.spec_groups()[k].start <= r
                    < panel.spec_groups()[k].end implies out[n].cells[r] == CellView::UInt(k as u32) by {
                assert(panel.spec_groups()[k] == groups_g[k]);
                assert(groups_g[k].id == k);
                assert(ids_g[r] == k);
            }
            if options.sort {
                assert(is_perm(perm, h) && panel.frame().take(n) == permute_frame(d1, perm));
            }
        }
        Ok(panel)
    }
}

/// Some requested time is null.
pub open spec fn has_null_cell(cells: Seq<CellView>) -> bool {
    exists|i: int| 0 <= i < cells.len() && cells[i] == CellView::Null
}

/// Cell `j` repeats the value of an earlier cell.
pub open spec fn repeats_earlier(cells: Seq<CellView>, j: int) -> bool {
    exists|i: int| 0 <= i < j && cell_key(cells[i]) == cell_key(cells[j])
}

/// The first cell that repeats an earlier value, if any.
pub open spec fn first_repeat(cells: Seq<CellView>) -> Option<int> {
    first_index(Seq::new(cells.len(), |j: int| j), |j: int| repeats_earlier(cells, j))
}

/// `ord` counts the keys of the increasing `u` at or before `x`.
pub open spec fn is_upper_bound(u: Seq<KeyView>, x: KeyView, ord: int) -> bool {
    &&& 0 <= ord <= u.len()
    &&& forall|a: int| 0 <= a < ord ==> #[trigger] key_le(u[a], x)
    &&& forall|a: int| ord <= a < u.len() ==> #[trigger] key_lt(x, u[a])
}

/// The number of keys of the increasing `u` at or before `x`.
pub(crate) fn upper_bound(u: &Vec<Key>, x: &Key) -> (r: usize)
    requires
        strictly_increasing(views(u@)),
    ensures
        is_upper_bound(views(u@), x@, r as int),
{
    proof {
        lemma_key_order();
    }
    let mut lo: usize = 0;
    let mut hi: usize = u.len();
    while lo < hi
        invariant
            lo <= hi <= u.len(),
            strictly_increasing(views(u@)),
            forall|a: int| 0 <= a < lo ==> #[trigger] key_le(views(u@)[a], x@),
            forall|a: int| hi <= a < u.len() ==> #[trigger] key_lt(x@, views(u@)[a]),
        decreases hi - lo,
    {
        proof {
            lemma_key_order();
        }
        let mid = lo + (hi - lo) / 2;
        match u[mid].compare(x) {
            Cmp::Greater => {
                proof {
                    assert(views(u@)[mid as int] == u@[mid as int]@);
                    assert(key_lt(x@, views(u@)[mid as int]));
                    assert forall|a: int| mid <= a < u.len() implies #[trigger] key_lt(
                        x@,
                        views(u@)[a],
                    ) by {
                        if a > mid {
                            assert(key_lt(views(u@)[mid as int], views(u@)[a]));
                        }
                    }
                }
                hi = mid;
            },
            _ => {
                proof {
                    assert forall|a: int| 0 <= a < mid + 1 implies #[trigger] key_le(
                        views(u@)[a],
                        x@,
                    ) by {
                        if a < mid {
                            assert(key_lt(views(u@)[a], views(u@)[mid as int]));
                        }
                    }
                }
                lo = mid + 1;
            },
        }
    }
    lo
}

/// Some requested time is null or repeats an earlier one.
pub open spec fn observations_rejected(obs: Seq<CellView>) -> bool {
    has_null_cell(obs) || first_repeat(obs) is Some
}

/// `e` reports why the requested times `obs` are refused: a null first, else
/// the first time that repeats an earlier one.
pub open spec fn observation_error(obs: Seq<CellView>, e: QFactorsError) -> bool {
    if has_null_cell(obs) {
        e matches QFactorsError::ObservationTimeNull
    } else {
        e matches QFactorsError::DuplicateObservationTime(k) && k@ == cell_key(
            obs[first_repeat(obs).unwrap()],
        )
    }
}

/// `v` holds, in request order, each requested time with the number of the
/// panel's distinct times at or before it.
pub open spec fn observations_resolved(
    panel: PreparedPanel,
    obs: Seq<CellView>,
    v: Seq<PreparedObservation>,
) -> bool {
    &&& v.len() == obs.len()
    &&& forall|i: int|
        0 <= i < v.len() ==> (#[trigger] v[i]).input_index == i && v[i].value@ == obs[i]
            && is_upper_bound(panel.spec_unique_times(), cell_key(obs[i]), v[i].ord_exclusive as int)
}

impl PreparedPanel {
    /// Matches each requested time against the panel's distinct times, keeping
    /// the order in which they were requested.
    #[verifier::loop_isolation(false)]
    pub fn resolve_observation_times(&self, observation_times: Vec<Cell>) -> (r: Result<
        Vec<PreparedObservation>,
        QFactorsError,
    >)
        requires
            self.wf(),
        ensures
            observations_rejected(cells_view(observation_times@)) ==> (r matches Err(e)
                && observation_error(cells_view(observation_times@), e)),
            !observations_rejected(cells_view(observation_times@)) ==> (r matches Ok(v)
                && observations_resolved(*self, cells_view(observation_times@), v@)),
    {
        let ghost obs = observation_times@.map_values(|c: Cell| c@);
        let ghost idx = Seq::new(obs.len(), |j: int| j);
        let ghost pred = |j: int| repeats_earlier(obs, j);
        let n = observation_times.len();
        let mut i: usize = 0;
        while i < n
            invariant
                n == observation_times.len(),
                obs == observation_times@.map_values(|c: Cell| c@),
                i <= n,
                forall|j: int| 0 <= j < i ==> obs[j] != CellView::Null,
            decreases n - i,
        {
            if let Cell::Null = &observation_times[i] {
                assert(obs[i as int] == CellView::Null);
                return Err(QFactorsError::ObservationTimeNull);
            }
            i = i + 1;
        }
        let mut keys: Vec<Key> = Vec::new();
        let mut j: usize = 0;
        while j < n
            invariant
                n == observation_times.len(),
                obs == observation_times@.map_values(|c: Cell| c@),
                idx == Seq::new(obs.len(), |j: int| j),
                pred == (|j: int| repeats_earlier(obs, j)),
                j <= n,
                keys.len() == j,
                forall|a: int| 0 <= a < j ==> #[trigger] keys@[a]@ == cell_key(obs[a]),
                forall|a: int| 0 <= a < j ==> !repeats_earlier(obs, #[trigger] idx[a]),
            decreases n - j,
        {
            let kj = crate::frame::key_of(&observation_times[j]);
            let mut a: usize = 0;
            while a < j
                invariant
                    j < n,
                    keys.len() == j,
                    kj@ == cell_key(obs[j as int]),
                    forall|b: int| 0 <= b < j ==> #[trigger] keys@[b]@ == cell_key(obs[b]),
                    a <= j,
                    forall|b: int| 0 <= b < a ==> cell_key(obs[b]) != cell_key(obs[j as int]),
                decreases j - a,
            {
                if keys[a].same(&kj) {
                    proof {
                        assert(repeats_earlier(obs, j as int));
                        assert(idx[j as int] == j);
                        assert(is_first(idx, pred, j as int));
                        lemma_first_index_unique(idx, pred, j as int);
                    }
                    return Err(QFactorsError::DuplicateObservationTime(kj));
                }
                a = a + 1;
            }
            assert(idx[j as int] == j);
            keys.push(kj);
            j = j + 1;
        }
        proof {
            lemma_first_index(idx, pred);
            assert(!has_null_cell(obs));
        }
        let mut out: Vec<PreparedObservation> = Vec::new();
        let mut k: usize = 0;
        while k < n
            invariant
                n == observation_times.len(),
                obs == observation_times@.map_values(|c: Cell| c@),
                keys.len() == n,
                forall|a: int| 0 <= a < n ==> #[trigger] keys@[a]@ == cell_key(obs[a]),
                self.wf(),
                k <= n,
                out.len() == k,
                forall|a: int|
                    0 <= a < k ==> (#[trigger] out@[a]).input_index == a && out@[a].value@ == obs[a]
                        && is_upper_bound(
                        self.spec_unique_times(),
                        cell_key(obs[a]),
                        out@[a].ord_exclusive as int,
                    ),
            decreases n - k,
        {
            let ord = upper_bound(&self.unique_times, &keys[k]);
            out.push(
                PreparedObservation {
                    input_index: k,
                    value: copy_cell(&observation_times[k]),
                    ord_exclusive: ord,
                },
            );
            k = k + 1;
        }
        Ok(out)
    }
}

/// Column `j` carries the name of an earlier column.
pub open spec fn name_repeats(cols: Seq<ColumnView>, j: int) -> bool {
    exists|i: int| 0 <= i < j && cols[i].name == cols[j].name
}

/// The first column whose height is not `h`, if any.
pub open spec fn first_wrong_height(cols: Seq<ColumnView>, h: nat) -> Option<int> {
    first_index(Seq::new(cols.len(), |j: int| j), |j: int| cols[j].cells.len() != h)
}

/// The first column that repeats an earlier name, if any.
pub open spec fn first_repeated_name(cols: Seq<ColumnView>) -> Option<int> {
    first_index(Seq::new(cols.len(), |j: int| j), |j: int| name_repeats(cols, j))
}

/// Columns that do not make a table of height `h`: one has another height,
/// or two share a name.
pub open spec fn frame_refused(cols: Seq<ColumnView>, h: nat) -> bool {
    first_wrong_height(cols, h) is Some || first_repeated_name(cols) is Some
}

/// `e` reports why `cols` do not make a table of height `h`: the first column
/// of another height, else the first repeated name.
pub open spec fn frame_error(cols: Seq<ColumnView>, h: nat, e: QFactorsError) -> bool {
    match first_wrong_height(cols, h) {
        Some(j) => e matches QFactorsError::ColumnLengthMismatch { column, expected, actual }
            && column@ == cols[j].name && expected == h && actual == cols[j].cells.len(),
        None => e matches QFactorsError::OutputColumnConflict(n) && n@ == cols[
            first_repeated_name(cols).unwrap()
        ].name,
    }
}

/// Assembles a table from columns, as a table constructor does: every column
/// must have the height of the first, and no name may repeat.
#[verifier::loop_isolation(false)]
pub fn frame_from_columns(columns: Vec<ColumnData>) -> (r: Result<Frame, QFactorsError>)
    ensures
        ({
            let cols = columns@.map_values(|c: ColumnData| c@);
            let h = if cols.len() == 0 { 0 } else { cols[0].cells.len() };
            &&& (first_wrong_height(cols, h) matches Some(j) ==> (r matches Err(
                QFactorsError::ColumnLengthMismatch { column, expected, actual },
            ) && column@ == cols[j].name && expected == h && actual == cols[j].cells.len()))
            &&& (first_repeated_name(cols) matches Some(j) ==> (first_wrong_height(cols, h) is None
                ==> (r matches Err(QFactorsError::OutputColumnConflict(n)) && n@ == cols[j].name)))
            &&& (first_wrong_height(cols, h) is None && first_repeated_name(cols) is None ==> (r matches Ok(
                f,
            ) && f@ == cols && frame_wf(f@)))
        }),
{
    let ghost cols = columns@.map_values(|c: ColumnData| c@);
    let h: usize = if columns.len() == 0 {
        0
    } else {
        columns[0].cells.len()
    };
    let ghost idx = Seq::new(cols.len(), |j: int| j);
    let ghost hn: nat = if cols.len() == 0 { 0 } else { cols[0].cells.len() };
    let ghost wrong = |j: int| cols[j].cells.len() != hn;
    let ghost rep = |j: int| name_repeats(cols, j);
    let mut j: usize = 0;
    while j < columns.len()
        invariant
            cols == columns@.map_values(|c: ColumnData| c@),
            idx == Seq::new(cols.len(), |j: int| j),
            hn == h,
            wrong == (|j: int| cols[j].cells.len() != hn),
            j <= columns.len(),
            forall|a: int| 0 <= a < j ==> !wrong(#[trigger] idx[a]),
        decreases columns.len() - j,
    {
        assert(idx[j as int] == j);
        if columns[j].cells.len() != h {
            proof {
                assert(is_first(idx, wrong, j as int));
                lemma_first_index_unique(idx, wrong, j as int);
            }
            return Err(
                QFactorsError::ColumnLengthMismatch {
                    column: columns[j].name.clone(),
                    expected: h,
                    actual: columns[j].cells.len(),
                },
            );
        }
        j = j + 1;
    }
    proof {
        lemma_first_index(idx, wrong);
    }
    let mut j: usize = 0;
    while j < columns.len()
        invariant
            cols == columns@.map_values(|c: ColumnData| c@),
            idx == Seq::new(cols.len(), |j: int| j),
            rep == (|j: int| name_repeats(cols, j)),
            j <= columns.len(),
            forall|a: int| 0 <= a < j ==> !rep(#[trigger] idx[a]),
        decreases columns.len() - j,
    {
        let mut i: usize = 0;
        while i < j
            invariant
                cols == columns@.map_values(|c: ColumnData| c@),
                j < columns.len(),
                i <= j,
                forall|b: int| 0 <= b < i ==> cols[b].name != cols[j as int].name,
            decreases j - i,
        {
            if crate::frame::str_eq(columns[i].name.as_str(), columns[j].name.as_str()) {
                proof {
                    assert(idx[j as int] == j);
                    assert(cols[i as int].name == cols[j as int].name);
                    assert(name_repeats(cols, j as int));
                    assert(rep(idx[j as int]));
                    assert(is_first(idx, rep, j as int));
                    lemma_first_index_unique(idx, rep, j as int);
                }
                return Err(QFactorsError::OutputColumnConflict(columns[j].name.clone()));
            }
            i = i + 1;
        }
        assert(idx[j as int] == j);
        j = j + 1;
    }
    proof {
        lemma_first_index(idx, rep);
        assert forall|c: int| 0 <= c < cols.len() implies #[trigger] cols[c].cells.len() == height_of(cols) by {
            assert(!wrong(idx[c]));
        }
    }
    let f = Frame { columns };
    assert(f@ == cols);
    Ok(f)
}

/// The columns that frame one observation, before the factor columns.
pub open spec fn observation_key_columns(panel: PreparedPanel, value: CellView) -> Seq<ColumnView> {
    let groups = panel.spec_groups();
    let gcol = panel.frame()[panel.group_index()];
    let time = ColumnView {
        name: panel.spec_time_col(),
        kind: panel.frame()[panel.time_index()].kind,
        cells: Seq::new(groups.len(), |k: int| value),
    };
    let group = ColumnView {
        name: panel.spec_group_col(),
        kind: gcol.kind,
        cells: Seq::new(groups.len(), |k: int| gcol.cells[groups[k].start as int]),
    };
    let ids = ColumnView {
        name: GROUP_ID_COL@,
        kind: KindView::UInt32,
        cells: Seq::new(groups.len(), |k: int| CellView::UInt(k as u32)),
    };
    if panel.spec_output_group_id() {
        seq![time, group, ids]
    } else {
        seq![time, group]
    }
}

impl PreparedPanel {
    /// The table, with the group-id and time-ordinal columns appended.
    pub fn dataframe(&self) -> (r: &Frame)
        ensures
            r@ == self.frame(),
    {
        &self.df
    }

    pub fn group_col(&self) -> (r: &str)
        ensures
            r@ == self.spec_group_col(),
    {
        self.group_col.as_str()
    }

    pub fn time_col(&self) -> (r: &str)
        ensures
            r@ == self.spec_time_col(),
    {
        self.time_col.as_str()
    }

    pub fn column_aliases(&self) -> (r: &Vec<(String, String)>)
        ensures
            r@ == self.spec_aliases(),
    {
        &self.column_aliases
    }

    pub fn groups(&self) -> (r: &[GroupInfo])
        ensures
            r@ == self.spec_groups(),
    {
        self.groups.as_slice()
    }

    /// The distinct times, increasing.
    pub fn unique_times(&self) -> (r: &[Key])
        ensures
            views(r@) == self.spec_unique_times(),
    {
        self.unique_times.as_slice()
    }

    /// Each row's position among the distinct times.
    pub fn time_ordinals(&self) -> (r: &[u32])
        ensures
            r@ == self.spec_time_ords(),
    {
        self.time_ords.as_slice()
    }

    pub fn output_group_id(&self) -> (r: bool)
        ensures
            r == self.spec_output_group_id(),
    {
        self.output_group_id
    }

    /// One output row per group for an observation: the observation time, the
    /// group's label, its id when asked for, then the factor columns.
    pub fn build_observation_frame(
        &self,
        observation: &PreparedObservation,
        factor_columns: Vec<ColumnData>,
    ) -> (r: Result<Frame, QFactorsError>)
        requires
            self.wf(),
        ensures
            frame_refused(
                observation_key_columns(*self, observation.value@) + factor_columns@.map_values(
                    |c: ColumnData| c@,
                ),
                self.spec_groups().len(),
            ) ==> (r matches Err(e) && frame_error(
                observation_key_columns(*self, observation.value@) + factor_columns@.map_values(
                    |c: ColumnData| c@,
                ),
                self.spec_groups().len(),
                e,
            )),
            !frame_refused(
                observation_key_columns(*self, observation.value@) + factor_columns@.map_values(
                    |c: ColumnData| c@,
                ),
                self.spec_groups().len(),
            ) ==> (r matches Ok(f) && f@ == observation_key_columns(*self, observation.value@)
                + factor_columns@.map_values(|c: ColumnData| c@)),
    {
        let n_groups = self.groups.len();
        let mut time_cells: Vec<Cell> = Vec::new();
        let mut group_cells: Vec<Cell> = Vec::new();
        let mut id_cells: Vec<Cell> = Vec::new();
        let ghost gcol = self.df@[self.group_index as int];
        let mut k: usize = 0;
        while k < n_groups
            invariant
                self.wf(),
                n_groups == self.groups.len(),
                gcol == self.df@[self.group_index as int],
                k <= n_groups,
                time_cells.len() == k,
                group_cells.len() == k,
                id_cells.len() == k,
                forall|a: int| 0 <= a < k ==> #[trigger] time_cells@[a]@ == observation.value@,
                forall|a: int|
                    0 <= a < k ==> #[trigger] group_cells@[a]@ == gcol.cells[self.groups@[a].start as int],
                forall|a: int| 0 <= a < k ==> #[trigger] id_cells@[a]@ == CellView::UInt(a as u32),
            decreases n_groups - k,
        {
            time_cells.push(copy_cell(&observation.value));
            let start = self.groups[k].start;
            proof {
                assert(self.groups@[k as int].id == k);
                assert(start < self.groups@[k as int].end <= self.n_rows());
                assert(gcol.cells.len() == self.n_rows());
                assert(self.df@[self.group_index as int] == self.df.columns@[self.group_index as int]@);
            }
            group_cells.push(copy_cell(&self.df.columns[self.group_index].cells[start]));
            id_cells.push(Cell::UInt(self.groups[k].id));
            k = k + 1;
        }
        let time_col = ColumnData {
            name: self.time_col.clone(),
            kind: copy_kind(&self.df.columns[self.time_index].kind),
            cells: time_cells,
        };
        let group_col = ColumnData {
            name: self.group_col.clone(),
            kind: copy_kind(&self.df.columns[self.group_index].kind),
            cells: group_cells,
        };
        let mut columns: Vec<ColumnData> = Vec::new();
        columns.push(time_col);
        columns.push(group_col);
        if self.output_group_id {
            columns.push(
                ColumnData {
                    name: <String as StringExecFns>::from_str(GROUP_ID_COL),
                    kind: DataKind::UInt32,
                    cells: id_cells,
                },
            );
        }
        let ghost keycols = columns@.map_values(|c: ColumnData| c@);
        proof {
            let expect = observation_key_columns(*self, observation.value@);
            assert(keycols[0].cells =~= expect[0].cells);
            assert(keycols[1].cells =~= expect[1].cells);
            if self.output_group_id {
                assert(keycols[2].cells =~= expect[2].cells);
            }
            assert(keycols =~= expect);
        }
        let ghost extra = factor_columns@.map_values(|c: ColumnData| c@);
        let mut factor_columns = factor_columns;
        columns.append(&mut factor_columns);
        proof {
            assert(columns@.map_values(|c: ColumnData| c@) =~= keycols + extra);
            assert(keycols[0].cells.len() == n_groups);
        }
        frame_from_columns(columns)
    }
}

} // verus!
