//! The present `(symbol, time)` cells of a table in two orders: symbol-major
//! (split into per-symbol blocks) and time-major (split into per-time blocks).
use vstd::prelude::*;
use std::ops::Range;
use crate::compute_panel::alias_of;
use crate::error::QFactorsError;
use crate::factor::strings_view;
use crate::frame::{
    Cell, CellView, ColumnData, ColumnView, Frame, find_column, frame_wf, height_of, key_column,
    keys_of, lemma_find_column, permute_cells, permute_column, permute_frame,
};
use crate::grid::{
    ComputePanelOptions, field_bits, grid_error, grid_failure, resolve_field_columns,
    validate_structural_column, position_of, lemma_position_of,
};
use crate::key::{Key, KeyView, key_le, key_lt, lemma_key_order, views};
use crate::prepared_panel::{
    adjacent_duplicate, appears_in, lemma_perm_duplicates, lemma_sorted_duplicate_adjacent, same_pair, sort_panel,
    strictly_increasing, upper_bound,
};
use crate::sort::{argsort_rows, is_perm, pairs_sorted, permute_keys, row_le, row_lt, rows_sorted};

verus! {

/// `blocks` split the positions `0..n` into consecutive non-empty runs of
/// equal key, neighbouring runs differing in key.
pub open spec fn runs_tile(blocks: Seq<Range<usize>>, keys: Seq<KeyView>, n: int) -> bool {
    &&& blocks.len() == 0 ==> n == 0
    &&& blocks.len() > 0 ==> blocks[0].start == 0 && blocks.last().end == n
    &&& forall|k: int| 0 <= k < blocks.len() ==> #[trigger] blocks[k].start < blocks[k].end <= n
    &&& forall|k: int| 0 <= k < blocks.len() - 1 ==> #[trigger] blocks[k].end == blocks[k + 1].start
    &&& forall|k: int, r: int|
        #![trigger blocks[k], keys[r]]
        0 <= k < blocks.len() && blocks[k].start <= r < blocks[k].end ==> keys[r]
            == keys[blocks[k].start as int]
    &&& forall|k: int|
        0 <= k < blocks.len() - 1 ==> #[trigger] keys[blocks[k].start as int] != keys[blocks[k
            + 1].start as int]
}

/// The present cells of a table, symbol-major and time-major.
#[derive(Debug)]
pub struct CellSet {
    pub n_cells: usize,
    /// Per-symbol blocks of the symbol-major order.
    pub sym_blocks: Vec<Range<usize>>,
    /// Per-time blocks of the time-major order.
    pub time_blocks: Vec<Range<usize>>,
    /// For each time-major position, the symbol-major position of its cell.
    pub tn_order: Vec<usize>,
    /// Each field's values in symbol-major order, by IEEE-754 bits.
    pub fields: Vec<(String, Vec<u64>)>,
    pub symbols_tn: ColumnData,
    pub times_tn: ColumnData,
    /// The time of each time block, increasing.
    pub time_block_keys: Vec<Key>,
}

/// `cs` is the cell set of `d` for `fields`, the symbol-major order being the
/// rows of `d` taken in the order `p`.
pub open spec fn cellset_of(
    cs: CellSet,
    d: Seq<ColumnView>,
    o: ComputePanelOptions,
    fields: Seq<Seq<char>>,
    p: Seq<usize>,
) -> bool {
    let si = find_column(d, o.symbol_col@).unwrap();
    let ti = find_column(d, o.time_col@).unwrap();
    let h = height_of(d);
    let ssk = permute_keys(keys_of(d[si]), p);
    let stk = permute_keys(keys_of(d[ti]), p);
    let tn = cs.tn_order@;
    &&& is_perm(p, h)
    &&& pairs_sorted(ssk, stk)
    &&& cs.n_cells == h
    &&& runs_tile(cs.sym_blocks@, ssk, h as int)
    &&& is_perm(tn, h)
    &&& rows_sorted(stk, ssk, tn)
    &&& runs_tile(cs.time_blocks@, permute_keys(stk, tn), h as int)
    &&& cs.time_block_keys.len() == cs.time_blocks.len()
    &&& forall|b: int|
        0 <= b < cs.time_blocks.len() ==> (#[trigger] cs.time_block_keys@[b])@ == permute_keys(
            stk,
            tn,
        )[cs.time_blocks@[b].start as int]
    &&& strictly_increasing(views(cs.time_block_keys@))
    &&& cs.fields.len() == fields.len()
    &&& forall|f: int|
        0 <= f < fields.len() ==> (#[trigger] cs.fields@[f]).0@ == fields[f] && cs.fields@[f].1@
            == Seq::new(
            h,
            |i: int|
                field_bits(
                    d[find_column(d, alias_of(o.column_aliases@, fields[f])).unwrap()].cells[p[i] as int],
                ),
        )
    &&& cs.symbols_tn@ == (ColumnView {
        name: d[si].name,
        kind: d[si].kind,
        cells: permute_cells(permute_cells(d[si].cells, p), tn),
    })
    &&& cs.times_tn@ == (ColumnView {
        name: d[ti].name,
        kind: d[ti].kind,
        cells: permute_cells(permute_cells(d[ti].cells, p), tn),
    })
}

impl CellSet {
    /// The time block holding cells at time `value`, if any.
    pub fn time_block_by_value(&self, value: &Cell) -> (r: Option<usize>)
        requires
            strictly_increasing(views(self.time_block_keys@)),
        ensures
            appears_in(views(self.time_block_keys@), crate::frame::cell_key(value@)) ==> r == Some(
                position_of(views(self.time_block_keys@), crate::frame::cell_key(value@)) as usize,
            ),
            !appears_in(views(self.time_block_keys@), crate::frame::cell_key(value@)) ==> r is None,
    {
        let k = crate::frame::key_of(value);
        let ord = upper_bound(&self.time_block_keys, &k);
        proof {
            lemma_key_order();
        }
        if ord > 0 && self.time_block_keys[ord - 1].same(&k) {
            proof {
                lemma_position_of(views(self.time_block_keys@), ord - 1);
            }
            Some(ord - 1)
        } else {
            proof {
                let u = views(self.time_block_keys@);
                if appears_in(u, k@) {
                    let a = choose|a: int| 0 <= a < u.len() && u[a] == k@;
                    if a < ord - 1 {
                        assert(key_lt(u[a], u[ord - 1]));
                        assert(key_le(u[ord - 1], k@));
                    } else if a >= ord {
                        assert(key_lt(k@, u[a]));
                    }
                }
            }
            None
        }
    }
}

/// The maximal runs of equal keys, in order.
fn key_runs(keys: &Vec<Key>) -> (r: Vec<Range<usize>>)
    ensures
        runs_tile(r@, views(keys@), keys.len() as int),
{
    let ghost ks = views(keys@);
    let n = keys.len();
    let mut blocks: Vec<Range<usize>> = Vec::new();
    if n == 0 {
        return blocks;
    }
    let mut start: usize = 0;
    let mut i: usize = 1;
    while i < n
        invariant
            n == keys.len(),
            ks == views(keys@),
            1 <= i <= n,
            start < i,
            runs_tile(blocks@, ks, start as int),
            forall|r: int| start <= r < i ==> #[trigger] ks[r] == ks[start as int],
            blocks.len() > 0 ==> ks[blocks@.last().start as int] != ks[start as int],
        decreases n - i,
    {
        if !keys[i].same(&keys[start]) {
            let ghost old = blocks@;
            blocks.push(start..i);
            proof {
                lemma_push_run(old, ks, start as int, i as int);
            }
            start = i;
        }
        i = i + 1;
    }
    let ghost old = blocks@;
    blocks.push(start..n);
    proof {
        lemma_push_run(old, ks, start as int, n as int);
    }
    blocks
}

/// Appending the run `start..end` of one key to runs tiling `0..start`.
proof fn lemma_push_run(blocks: Seq<Range<usize>>, ks: Seq<KeyView>, start: int, end: int)
    requires
        runs_tile(blocks, ks, start),
        0 <= start < end <= ks.len(),
        end <= usize::MAX,
        forall|r: int| start <= r < end ==> #[trigger] ks[r] == ks[start],
        blocks.len() > 0 ==> ks[blocks.last().start as int] != ks[start],
    ensures
        runs_tile(blocks.push(start as usize..end as usize), ks, end),
{
    let nb = blocks.push(start as usize..end as usize);
    let l = blocks.len() as int;
    assert(nb[l].start == start && nb[l].end == end);
    assert forall|k: int| 0 <= k < nb.len() implies #[trigger] nb[k].start < nb[k].end <= end by {
        if k < l {
            assert(nb[k] == blocks[k]);
        }
    }
    assert forall|k: int| 0 <= k < nb.len() - 1 implies #[trigger] nb[k].end == nb[k + 1].start by {
        assert(nb[k] == blocks[k]);
        if k < l - 1 {
            assert(nb[k + 1] == blocks[k + 1]);
        } else {
            assert(blocks.last() == blocks[l - 1]);
        }
    }
    assert forall|k: int, r: int|
        #![trigger nb[k], ks[r]]
        0 <= k < nb.len() && nb[k].start <= r < nb[k].end implies ks[r] == ks[nb[k].start as int] by {
        if k < l {
            assert(nb[k] == blocks[k]);
            assert(ks[r] == ks[blocks[k].start as int]);
        }
    }
    assert forall|k: int| 0 <= k < nb.len() - 1 implies #[trigger] ks[nb[k].start as int] != ks[nb[k
        + 1].start as int] by {
        assert(nb[k] == blocks[k]);
        if k < l - 1 {
            assert(nb[k + 1] == blocks[k + 1]);
        } else {
            assert(blocks.last() == blocks[l - 1]);
        }
    }
    if l > 0 {
        assert(nb[0] == blocks[0]);
    }
}

/// Whether two neighbouring rows carry the same pair of keys.
fn adjacent_pair_repeats(gk: &Vec<Key>, tk: &Vec<Key>) -> (r: bool)
    requires
        gk.len() == tk.len(),
    ensures
        r == adjacent_duplicate(views(gk@), views(tk@)),
{
    let mut i: usize = 1;
    while i < gk.len()
        invariant
            gk.len() == tk.len(),
            1 <= i,
            forall|j: int| 1 <= j < i && j < gk.len() ==> !#[trigger] same_pair(views(gk@), views(tk@), j - 1, j),
        decreases gk.len() - i,
    {
        if gk[i].same(&gk[i - 1]) && tk[i].same(&tk[i - 1]) {
            proof {
                assert(same_pair(views(gk@), views(tk@), i - 1, i as int));
            }
            return true;
        }
        i = i + 1;
    }
    false
}

/// Run starts increase with the run number.
proof fn lemma_run_starts_increase(blocks: Seq<Range<usize>>, keys: Seq<KeyView>, n: int, a: int, b: int)
    requires
        runs_tile(blocks, keys, n),
        0 <= a < b < blocks.len(),
    ensures
        blocks[a].start < blocks[b].start,
    decreases b - a,
{
    assert(blocks[a].start < blocks[a].end);
    assert(blocks[a].end == blocks[a + 1].start);
    if b > a + 1 {
        lemma_run_starts_increase(blocks, keys, n, a + 1, b);
    }
}

/// The keys at which the runs of keys sorted by `(keys, second)` start
/// strictly increase.
proof fn lemma_run_keys_increase(blocks: Seq<Range<usize>>, keys: Seq<KeyView>, second: Seq<KeyView>, n: int)
    requires
        runs_tile(blocks, keys, n),
        keys.len() == n,
        pairs_sorted(keys, second),
    ensures
        strictly_increasing(Seq::new(blocks.len(), |b: int| keys[blocks[b].start as int])),
{
    let labels = Seq::new(blocks.len(), |b: int| keys[blocks[b].start as int]);
    lemma_key_order();
    assert forall|a: int, b: int| 0 <= a < b < labels.len() implies #[trigger] key_lt(labels[a], labels[b]) by {
        let sa = blocks[a].start as int;
        let sa1 = blocks[a + 1].start as int;
        let sb = blocks[b].start as int;
        assert(blocks[a].start < blocks[a].end <= n);
        assert(blocks[a].end == blocks[a + 1].start);
        assert(blocks[a + 1].start < blocks[a + 1].end <= n);
        assert(keys[sa] != keys[sa1]);
        lemma_first_nondecreasing(keys, second, sa, sa1);
        if b > a + 1 {
            lemma_run_starts_increase(blocks, keys, n, a + 1, b);
            assert(blocks[b].start < blocks[b].end <= n);
            lemma_first_nondecreasing(keys, second, sa1, sb);
        }
    }
}

/// The keys taken in the order `order`.
fn take_keys(keys: &Vec<Key>, order: &Vec<usize>) -> (r: Vec<Key>)
    requires
        forall|i: int| 0 <= i < order.len() ==> #[trigger] order@[i] < keys.len(),
    ensures
        views(r@) == permute_keys(views(keys@), order@),
{
    let mut r: Vec<Key> = Vec::new();
    let mut i: usize = 0;
    while i < order.len()
        invariant
            forall|i: int| 0 <= i < order.len() ==> #[trigger] order@[i] < keys.len(),
            i <= order.len(),
            r.len() == i,
            forall|j: int| 0 <= j < i ==> #[trigger] r@[j]@ == keys@[order@[j] as int]@,
        decreases order.len() - i,
    {
        r.push(keys[order[i]].duplicate());
        i = i + 1;
    }
    assert(views(r@) =~= permute_keys(views(keys@), order@));
    r
}

/// A float column's values by bits, nulls as NaN.
fn field_values(column: &ColumnData) -> (r: Vec<u64>)
    ensures
        r@ == Seq::new(column@.cells.len(), |i: int| field_bits(column@.cells[i])),
{
    let mut r: Vec<u64> = Vec::new();
    let mut i: usize = 0;
    while i < column.cells.len()
        invariant
            i <= column.cells.len(),
            r.len() == i,
            forall|j: int| 0 <= j < i ==> #[trigger] r@[j] == field_bits(column@.cells[j]),
        decreases column.cells.len() - i,
    {
        let v = match &column.cells[i] {
            Cell::Float(b) => *b,
            _ => crate::frame::NAN_BITS,
        };
        proof {
            assert(column@.cells[i as int] == column.cells@[i as int]@);
        }
        r.push(v);
        i = i + 1;
    }
    assert(r@ =~= Seq::new(column@.cells.len(), |i: int| field_bits(column@.cells[i])));
    r
}

/// Keys sorted by `(first, second)` have non-decreasing `first`.
proof fn lemma_first_nondecreasing(first: Seq<KeyView>, second: Seq<KeyView>, a: int, b: int)
    requires
        pairs_sorted(first, second),
        0 <= a <= b < first.len(),
    ensures
        key_le(first[a], first[b]),
{
    lemma_key_order();
    if a < b {
        assert(row_le(first, second, a, b));
    }
}

/// Sorts a table by `(symbol, time)` and lays out its cells symbol-major and
/// time-major, refusing what `build_grid` refuses, in the same order.
#[verifier::loop_isolation(false)]
#[verifier::rlimit(50)]
pub fn build_cellset(df: &Frame, options: &ComputePanelOptions, fields: &Vec<String>) -> (r: Result<
    CellSet,
    QFactorsError,
>)
    requires
        frame_wf(df@),
    ensures
        grid_failure(df@, *options, strings_view(fields@)) matches Some(f) ==> (r matches Err(e)
            && grid_error(e, f, df@, *options)),
        grid_failure(df@, *options, strings_view(fields@)) is None ==> (r matches Ok(cs) && exists|
            p: Seq<usize>,
        | cellset_of(cs, df@, *options, strings_view(fields@), p)),
{
    let ghost d = df@;
    let ghost names = strings_view(fields@);
    let ghost h = height_of(d);
    let si = match df.column_index(options.symbol_col.as_str()) {
        Some(i) => i,
        None => return Err(QFactorsError::MissingColumn(options.symbol_col.clone())),
    };
    let ti = match df.column_index(options.time_col.as_str()) {
        Some(i) => i,
        None => return Err(QFactorsError::MissingColumn(options.time_col.clone())),
    };
    proof {
        lemma_find_column(d, options.symbol_col@);
        lemma_find_column(d, options.time_col@);
        assert(d[si as int] == df.columns@[si as int]@);
        assert(d[ti as int] == df.columns@[ti as int]@);
    }
    match validate_structural_column(&df.columns[si], true) {
        Ok(()) => {},
        Err(e) => return Err(e),
    }
    match validate_structural_column(&df.columns[ti], false) {
        Ok(()) => {},
        Err(e) => return Err(e),
    }
    let cols = match resolve_field_columns(df, &options.column_aliases, fields) {
        Ok(c) => c,
        Err(e) => return Err(e),
    };
    let n = df.height();
    let (sorted, p) = sort_panel(df, si, ti);
    let ghost ds = sorted@;
    let ssk = key_column(&sorted.columns[si]);
    let stk = key_column(&sorted.columns[ti]);
    let ghost sk = keys_of(d[si as int]);
    let ghost tk = keys_of(d[ti as int]);
    proof {
        assert(ds[si as int] == sorted.columns@[si as int]@);
        assert(ds[ti as int] == sorted.columns@[ti as int]@);
        assert(d[si as int].cells.len() == h);
        assert(d[ti as int].cells.len() == h);
        assert(views(ssk@) =~= permute_keys(sk, p@));
        assert(views(stk@) =~= permute_keys(tk, p@));
        lemma_sorted_duplicate_adjacent(views(ssk@), views(stk@));
        lemma_perm_duplicates(sk, tk, p@);
    }
    if adjacent_pair_repeats(&ssk, &stk) {
        return Err(
            QFactorsError::DuplicateSymbolTime {
                symbol_col: options.symbol_col.clone(),
                time_col: options.time_col.clone(),
            },
        );
    }
    let sym_blocks = key_runs(&ssk);
    let tn = argsort_rows(&stk, &ssk);
    let tkn = take_keys(&stk, &tn);
    let skn = take_keys(&ssk, &tn);
    proof {
        assert(views(tkn@).len() == tkn.len());
        assert(views(skn@).len() == skn.len());
        crate::sort::lemma_permuted_sorted(views(stk@), views(ssk@), tn@);
    }
    let time_blocks = key_runs(&tkn);
    proof {
        lemma_run_keys_increase(time_blocks@, views(tkn@), views(skn@), n as int);
    }
    let mut time_block_keys: Vec<Key> = Vec::new();
    let mut b: usize = 0;
    while b < time_blocks.len()
        invariant
            runs_tile(time_blocks@, views(tkn@), n as int),
            tkn.len() == n,
            b <= time_blocks.len(),
            time_block_keys.len() == b,
            forall|c: int|
                0 <= c < b ==> #[trigger] time_block_keys@[c]@ == views(tkn@)[time_blocks@[c].start as int],
        decreases time_blocks.len() - b,
    {
        assert(time_blocks@[b as int].start < time_blocks@[b as int].end <= n);
        time_block_keys.push(tkn[time_blocks[b].start].duplicate());
        b = b + 1;
    }
    let symbols_tn = permute_column(&sorted.columns[si], &tn);
    let times_tn = permute_column(&sorted.columns[ti], &tn);
    let mut out_fields: Vec<(String, Vec<u64>)> = Vec::new();
    let mut f: usize = 0;
    while f < fields.len()
        invariant
            f <= fields.len(),
            out_fields.len() == f,
            forall|a: int|
                0 <= a < f ==> (#[trigger] out_fields@[a]).0@ == names[a] && out_fields@[a].1@ == Seq::new(
                    h,
                    |i: int| field_bits(d[cols@[a] as int].cells[p@[i] as int]),
                ),
        decreases fields.len() - f,
    {
        let c = cols[f];
        let values = field_values(&sorted.columns[c]);
        proof {
            assert(names[f as int] == fields@[f as int]@);
            lemma_find_column(d, alias_of(options.column_aliases@, names[f as int]));
            assert(ds[c as int] == sorted.columns@[c as int]@);
            assert(d[c as int].cells.len() == h);
            assert(values@ =~= Seq::new(h, |i: int| field_bits(d[c as int].cells[p@[i] as int])));
        }
        out_fields.push((fields[f].clone(), values));
        f = f + 1;
    }
    let cs = CellSet {
        n_cells: n,
        sym_blocks,
        time_blocks,
        tn_order: tn,
        fields: out_fields,
        symbols_tn,
        times_tn,
        time_block_keys,
    };
    proof {
        assert(views(time_block_keys@) =~= Seq::new(
            time_blocks.len() as nat,
            |c: int| views(tkn@)[time_blocks@[c].start as int],
        ));
        assert(cellset_of(cs, d, *options, names, p@));
    }
    Ok(cs)
}

} // verus!
