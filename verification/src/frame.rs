//! A column-oriented table: named columns of equal height, each cell either
//! null or a value. Float cells are held by their IEEE-754 bit pattern.
use vstd::prelude::*;
use crate::key::{Cmp, Key, KeyView, compare_bytes, key_lt, views};

verus! {

/// The data type of a column.
#[derive(Debug, Clone, PartialEq)]
pub enum DataKind {
    Float64,
    UInt32,
    Int64,
    Str,
    /// Any other type, by the name its source gives it.
    Other(String),
}

pub enum KindView {
    Float64,
    UInt32,
    Int64,
    Str,
    Other(Seq<char>),
}

impl View for DataKind {
    type V = KindView;

    open spec fn view(&self) -> KindView {
        match self {
            DataKind::Float64 => KindView::Float64,
            DataKind::UInt32 => KindView::UInt32,
            DataKind::Int64 => KindView::Int64,
            DataKind::Str => KindView::Str,
            DataKind::Other(s) => KindView::Other(s@),
        }
    }
}

/// One cell of a column.
#[derive(Debug, Clone, PartialEq)]
pub enum Cell {
    Null,
    Int(i64),
    UInt(u32),
    /// A float, by its IEEE-754 bits.
    Float(u64),
    Str(String),
}

pub enum CellView {
    Null,
    Int(i64),
    UInt(u32),
    Float(u64),
    Str(Seq<char>),
}

impl View for Cell {
    type V = CellView;

    open spec fn view(&self) -> CellView {
        match self {
            Cell::Null => CellView::Null,
            Cell::Int(v) => CellView::Int(*v),
            Cell::UInt(v) => CellView::UInt(*v),
            Cell::Float(v) => CellView::Float(*v),
            Cell::Str(s) => CellView::Str(s@),
        }
    }
}

/// The bits of the NaN that null floats are replaced by.
pub const NAN_BITS: u64 = 0x7ff8_0000_0000_0000u64;

/// A named column.
#[derive(Debug, Clone, PartialEq)]
pub struct ColumnData {
    pub name: String,
    pub kind: DataKind,
    pub cells: Vec<Cell>,
}

pub struct ColumnView {
    pub name: Seq<char>,
    pub kind: KindView,
    pub cells: Seq<CellView>,
}

impl View for ColumnData {
    type V = ColumnView;

    open spec fn view(&self) -> ColumnView {
        ColumnView { name: self.name@, kind: self.kind@, cells: self.cells@.map_values(|c: Cell| c@) }
    }
}

/// A table of columns.
#[derive(Debug, Clone, PartialEq)]
pub struct Frame {
    pub columns: Vec<ColumnData>,
}

impl View for Frame {
    type V = Seq<ColumnView>;

    open spec fn view(&self) -> Seq<ColumnView> {
        self.columns@.map_values(|c: ColumnData| c@)
    }
}

/// The number of rows of a table.
pub open spec fn height_of(f: Seq<ColumnView>) -> nat {
    if f.len() == 0 {
        0
    } else {
        f[0].cells.len()
    }
}

/// All columns of a table have the same height.
pub open spec fn frame_wf(f: Seq<ColumnView>) -> bool {
    forall|i: int| 0 <= i < f.len() ==> #[trigger] f[i].cells.len() == height_of(f)
}

/// Column `i` is the first one named `name`.
pub open spec fn first_named(f: Seq<ColumnView>, name: Seq<char>, i: int) -> bool {
    &&& 0 <= i < f.len()
    &&& f[i].name == name
    &&& forall|j: int| 0 <= j < i ==> #[trigger] f[j].name != name
}

/// A cell is null or holds a value of the column's kind.
pub open spec fn cell_fits(kind: KindView, c: CellView) -> bool {
    c == CellView::Null || match kind {
        KindView::Float64 => c is Float,
        KindView::UInt32 => c is UInt,
        KindView::Int64 => c is Int,
        KindView::Str => c is Str,
        KindView::Other(_) => true,
    }
}

/// Every cell of every column fits its column's kind.
pub open spec fn frame_typed(f: Seq<ColumnView>) -> bool {
    forall|j: int, i: int|
        0 <= j < f.len() && 0 <= i < f[j].cells.len() ==> cell_fits(f[j].kind, #[trigger] f[j].cells[i])
}

/// The position of the first column named `name`, if any.
pub open spec fn find_column(f: Seq<ColumnView>, name: Seq<char>) -> Option<int> {
    if exists|i: int| first_named(f, name, i) {
        Some(choose|i: int| first_named(f, name, i))
    } else {
        None
    }
}

pub proof fn lemma_find_column(f: Seq<ColumnView>, name: Seq<char>)
    ensures
        find_column(f, name) matches Some(i) ==> first_named(f, name, i),
        find_column(f, name) is None ==> forall|j: int| 0 <= j < f.len() ==> #[trigger] f[j].name != name,
{
    if find_column(f, name) is None {
        assert forall|j: int| 0 <= j < f.len() implies #[trigger] f[j].name != name by {
            if f[j].name == name {
                lemma_first_exists(f, name, j);
            }
        }
    }
}

proof fn lemma_first_exists(f: Seq<ColumnView>, name: Seq<char>, j: int)
    requires
        0 <= j < f.len(),
        f[j].name == name,
    ensures
        exists|i: int| first_named(f, name, i),
    decreases j,
{
    if forall|k: int| 0 <= k < j ==> #[trigger] f[k].name != name {
        assert(first_named(f, name, j));
    } else {
        let k = choose|k: int| 0 <= k < j && #[trigger] f[k].name == name;
        lemma_first_exists(f, name, k);
    }
}

/// Whether two string slices hold the same text.
pub fn str_eq(a: &str, b: &str) -> (r: bool)
    ensures
        r == (a@ == b@),
{
    let r = compare_bytes(a.as_bytes(), b.as_bytes());
    proof {
        vstd::utf8::encode_utf8_decode_utf8(a@);
        vstd::utf8::encode_utf8_decode_utf8(b@);
    }
    r == Cmp::Equal
}

/// The structural value a cell stands for. Two float cells have the same
/// key exactly when they hold the same number or are both NaN, so -0.0 and
/// +0.0 are told apart; floats order by value, -0.0 just below +0.0, with
/// every NaN above every number.
pub open spec fn cell_key(c: CellView) -> KeyView {
    match c {
        CellView::Int(v) => KeyView::Int(v),
        CellView::UInt(v) => KeyView::Int(v as i64),
        CellView::Float(bits) => KeyView::Int(float_order(bits)),
        CellView::Str(s) => KeyView::Str(s),
        CellView::Null => KeyView::Int(0),
    }
}

/// The bits of a NaN float, whatever its sign.
pub open spec fn nan_bits(b: u64) -> bool {
    b % 0x8000_0000_0000_0000u64 > 0x7ff0_0000_0000_0000u64
}

/// An integer that orders float bit patterns as their values order: one
/// integer for every NaN, above all others, and the negative numbers (with
/// -0.0) below zero, the larger the magnitude the lower.
pub open spec fn float_order(bits: u64) -> i64 {
    if nan_bits(bits) {
        i64::MAX
    } else if bits < 0x8000_0000_0000_0000u64 {
        bits as i64
    } else {
        (-((bits - 0x8000_0000_0000_0000u64) as i64) - 1) as i64
    }
}

/// `a` is numerically below `b`, for the bits of two floats that are not
/// NaN: a positive number is below a larger positive one, a negative one
/// below a negative one of smaller magnitude, and every negative number below
/// every positive one; -0.0 and +0.0 are numerically equal.
pub open spec fn float_below(a: u64, b: u64) -> bool {
    let sign = 0x8000_0000_0000_0000u64;
    let ma = a % sign;
    let mb = b % sign;
    if a < sign && b < sign {
        ma < mb
    } else if a >= sign && b >= sign {
        ma > mb
    } else if a >= sign {
        !(ma == 0 && mb == 0)
    } else {
        false
    }
}

/// Float keys follow numeric order: of two floats that are not NaN, the one
/// numerically below has the lower key.
pub proof fn lemma_float_keys_follow_value(a: u64, b: u64)
    requires
        !nan_bits(a),
        !nan_bits(b),
        float_below(a, b),
    ensures
        key_lt(cell_key(CellView::Float(a)), cell_key(CellView::Float(b))),
{
}

/// Every NaN has one key, above the key of every number.
pub proof fn lemma_nan_keys_last(a: u64, b: u64)
    requires
        nan_bits(a),
    ensures
        nan_bits(b) ==> cell_key(CellView::Float(a)) == cell_key(CellView::Float(b)),
        !nan_bits(b) ==> key_lt(cell_key(CellView::Float(b)), cell_key(CellView::Float(a))),
{
}

/// Two different floats that are not NaN have different keys; in particular
/// -0.0 is keyed apart from +0.0, just below it.
pub proof fn lemma_float_keys_distinct(a: u64, b: u64)
    requires
        !nan_bits(a),
        !nan_bits(b),
        a != b,
    ensures
        cell_key(CellView::Float(a)) != cell_key(CellView::Float(b)),
        a == 0x8000_0000_0000_0000u64 && b == 0 ==> key_lt(
            cell_key(CellView::Float(a)),
            cell_key(CellView::Float(b)),
        ),
{
}

/// The structural value of a non-null cell.
pub fn key_of(c: &Cell) -> (k: Key)
    ensures
        k@ == cell_key(c@),
{
    match c {
        Cell::Int(v) => Key::Int(*v),
        Cell::UInt(v) => Key::Int(*v as i64),
        Cell::Float(bits) => {
            if *bits % 0x8000_0000_0000_0000u64 > 0x7ff0_0000_0000_0000u64 {
                Key::Int(i64::MAX)
            } else if *bits < 0x8000_0000_0000_0000u64 {
                Key::Int(*bits as i64)
            } else {
                Key::Int(-((*bits - 0x8000_0000_0000_0000u64) as i64) - 1)
            }
        },
        Cell::Str(s) => Key::Str(s.clone()),
        Cell::Null => Key::Int(0),
    }
}

/// A copy of a cell.
pub fn copy_cell(c: &Cell) -> (r: Cell)
    ensures
        r@ == c@,
{
    match c {
        Cell::Null => Cell::Null,
        Cell::Int(v) => Cell::Int(*v),
        Cell::UInt(v) => Cell::UInt(*v),
        Cell::Float(v) => Cell::Float(*v),
        Cell::Str(s) => Cell::Str(s.clone()),
    }
}

/// A copy of a data kind.
pub fn copy_kind(k: &DataKind) -> (r: DataKind)
    ensures
        r@ == k@,
{
    match k {
        DataKind::Float64 => DataKind::Float64,
        DataKind::UInt32 => DataKind::UInt32,
        DataKind::Int64 => DataKind::Int64,
        DataKind::Str => DataKind::Str,
        DataKind::Other(s) => DataKind::Other(s.clone()),
    }
}

/// Tables whose columns carry the same names find the same columns.
pub proof fn lemma_find_same_names(f1: Seq<ColumnView>, f2: Seq<ColumnView>, name: Seq<char>)
    requires
        f1.len() == f2.len(),
        forall|i: int| 0 <= i < f1.len() ==> #[trigger] f1[i].name == f2[i].name,
    ensures
        find_column(f1, name) == find_column(f2, name),
{
    lemma_find_column(f1, name);
    lemma_find_column(f2, name);
    if let Some(i) = find_column(f1, name) {
        assert forall|j: int| 0 <= j < i implies #[trigger] f2[j].name != name by {
            assert(f1[j].name != name);
        }
        assert(first_named(f2, name, i));
        lemma_find_unique(f2, name, i);
    } else if let Some(i) = find_column(f2, name) {
        assert(f1[i].name == name);
    }
}

/// Appending columns does not move the first column of a name already present.
pub proof fn lemma_find_append(f: Seq<ColumnView>, extra: Seq<ColumnView>, name: Seq<char>)
    requires
        find_column(f, name) is Some,
    ensures
        find_column(f + extra, name) == find_column(f, name),
{
    lemma_find_column(f, name);
    let i = find_column(f, name).unwrap();
    assert(first_named(f + extra, name, i));
    lemma_find_unique(f + extra, name, i);
}

/// Element `i` is the first one of `s` that satisfies `p`.
pub open spec fn is_first<A>(s: Seq<A>, p: spec_fn(A) -> bool, i: int) -> bool {
    &&& 0 <= i < s.len()
    &&& p(s[i])
    &&& forall|j: int| 0 <= j < i ==> !p(#[trigger] s[j])
}

/// The position of the first element of `s` that satisfies `p`, if any.
pub open spec fn first_index<A>(s: Seq<A>, p: spec_fn(A) -> bool) -> Option<int> {
    if exists|i: int| is_first(s, p, i) {
        Some(choose|i: int| is_first(s, p, i))
    } else {
        None
    }
}

pub proof fn lemma_first_index<A>(s: Seq<A>, p: spec_fn(A) -> bool)
    ensures
        first_index(s, p) matches Some(i) ==> is_first(s, p, i),
        first_index(s, p) is None ==> forall|j: int| 0 <= j < s.len() ==> !p(#[trigger] s[j]),
{
    if first_index(s, p) is None {
        assert forall|j: int| 0 <= j < s.len() implies !p(#[trigger] s[j]) by {
            if p(s[j]) {
                lemma_first_index_exists(s, p, j);
            }
        }
    }
}

proof fn lemma_first_index_exists<A>(s: Seq<A>, p: spec_fn(A) -> bool, j: int)
    requires
        0 <= j < s.len(),
        p(s[j]),
    ensures
        exists|i: int| is_first(s, p, i),
    decreases j,
{
    if forall|k: int| 0 <= k < j ==> !p(#[trigger] s[k]) {
        assert(is_first(s, p, j));
    } else {
        let k = choose|k: int| 0 <= k < j && p(#[trigger] s[k]);
        lemma_first_index_exists(s, p, k);
    }
}

pub proof fn lemma_first_index_unique<A>(s: Seq<A>, p: spec_fn(A) -> bool, i: int)
    requires
        is_first(s, p, i),
    ensures
        first_index(s, p) == Some(i),
{
    let k = choose|k: int| is_first(s, p, k);
    if k < i {
        assert(!p(s[k]));
    } else if k > i {
        assert(!p(s[i]));
    }
}

/// The first position below `n` that satisfies `p`, if any.
pub open spec fn first_where(n: nat, p: spec_fn(int) -> bool) -> Option<int> {
    first_index(Seq::new(n, |j: int| j), p)
}

pub proof fn lemma_first_where_some(n: nat, p: spec_fn(int) -> bool, k: int)
    requires
        0 <= k < n,
        p(k),
        forall|j: int| 0 <= j < k ==> !#[trigger] p(j),
    ensures
        first_where(n, p) == Some(k),
{
    let idx = Seq::new(n, |j: int| j);
    assert forall|j: int| 0 <= j < k implies !p(#[trigger] idx[j]) by {
        assert(idx[j] == j);
    }
    assert(idx[k] == k);
    lemma_first_index_unique(idx, p, k);
}

pub proof fn lemma_first_where_none(n: nat, p: spec_fn(int) -> bool)
    requires
        forall|j: int| 0 <= j < n ==> !#[trigger] p(j),
    ensures
        first_where(n, p) is None,
{
    let idx = Seq::new(n, |j: int| j);
    lemma_first_index(idx, p);
    if let Some(i) = first_where(n, p) {
        assert(idx[i] == i);
    }
}

pub proof fn lemma_first_where(n: nat, p: spec_fn(int) -> bool)
    ensures
        first_where(n, p) matches Some(k) ==> 0 <= k < n && p(k) && forall|j: int|
            0 <= j < k ==> !#[trigger] p(j),
        first_where(n, p) is None ==> forall|j: int| 0 <= j < n ==> !#[trigger] p(j),
{
    let idx = Seq::new(n, |j: int| j);
    lemma_first_index(idx, p);
    if let Some(k) = first_where(n, p) {
        assert(idx[k] == k);
        assert forall|j: int| 0 <= j < k implies !#[trigger] p(j) by {
            assert(idx[j] == j);
        }
    } else {
        assert forall|j: int| 0 <= j < n implies !#[trigger] p(j) by {
            assert(idx[j] == j);
        }
    }
}

/// Whether two column types are the same.
pub fn same_kind(a: &DataKind, b: &DataKind) -> (r: bool)
    ensures
        r == (a@ == b@),
{
    match (a, b) {
        (DataKind::Float64, DataKind::Float64) => true,
        (DataKind::UInt32, DataKind::UInt32) => true,
        (DataKind::Int64, DataKind::Int64) => true,
        (DataKind::Str, DataKind::Str) => true,
        (DataKind::Other(x), DataKind::Other(y)) => str_eq(x.as_str(), y.as_str()),
        _ => false,
    }
}

/// Appends copies of the cells of `src` to `dst`.
pub fn extend_cells(dst: &mut Vec<Cell>, src: &Vec<Cell>)
    ensures
        cells_view(final(dst)@) == cells_view(old(dst)@) + cells_view(src@),
{
    let ghost start = cells_view(dst@);
    let mut i: usize = 0;
    while i < src.len()
        invariant
            i <= src.len(),
            cells_view(dst@) == start + cells_view(src@).take(i as int),
        decreases src.len() - i,
    {
        let ghost before = dst@;
        let c = copy_cell(&src[i]);
        dst.push(c);
        proof {
            assert(cells_view(dst@) =~= cells_view(before).push(src@[i as int]@));
            assert(cells_view(src@).take(i + 1) =~= cells_view(src@).take(i as int).push(src@[i as int]@));
            assert(cells_view(dst@) =~= start + cells_view(src@).take(i + 1));
        }
        i = i + 1;
    }
    assert(cells_view(src@).take(src.len() as int) =~= cells_view(src@));
}

/// The values of a sequence of cells.
pub open spec fn cells_view(v: Seq<Cell>) -> Seq<CellView> {
    v.map_values(|c: Cell| c@)
}

/// A column holds at least one null.
pub open spec fn has_null(c: ColumnView) -> bool {
    exists|i: int| 0 <= i < c.cells.len() && c.cells[i] == CellView::Null
}

/// The structural values of a column.
pub open spec fn keys_of(c: ColumnView) -> Seq<KeyView> {
    c.cells.map_values(|x: CellView| cell_key(x))
}

/// The cells of a column taken in the order `p`.
pub open spec fn permute_cells(cells: Seq<CellView>, p: Seq<usize>) -> Seq<CellView> {
    Seq::new(p.len(), |i: int| cells[p[i] as int])
}

/// Every column of a table taken in the row order `p`.
pub open spec fn permute_frame(f: Seq<ColumnView>, p: Seq<usize>) -> Seq<ColumnView> {
    f.map_values(
        |c: ColumnView| ColumnView { name: c.name, kind: c.kind, cells: permute_cells(c.cells, p) },
    )
}

/// Whether a column holds a null.
pub fn column_has_null(col: &ColumnData) -> (r: bool)
    ensures
        r == has_null(col@),
{
    let mut i: usize = 0;
    while i < col.cells.len()
        invariant
            i <= col.cells.len(),
            forall|j: int| 0 <= j < i ==> col@.cells[j] != CellView::Null,
        decreases col.cells.len() - i,
    {
        if let Cell::Null = &col.cells[i] {
            assert(col@.cells[i as int] == CellView::Null);
            return true;
        }
        i = i + 1;
    }
    false
}

/// The structural values of a column.
pub fn key_column(col: &ColumnData) -> (r: Vec<Key>)
    ensures
        views(r@) == keys_of(col@),
{
    let mut r: Vec<Key> = Vec::new();
    let mut i: usize = 0;
    while i < col.cells.len()
        invariant
            i <= col.cells.len(),
            r.len() == i,
            forall|j: int| 0 <= j < i ==> #[trigger] r@[j]@ == cell_key(col@.cells[j]),
        decreases col.cells.len() - i,
    {
        r.push(key_of(&col.cells[i]));
        i = i + 1;
    }
    assert(views(r@) =~= keys_of(col@));
    r
}

/// A copy of a column with its rows taken in the order `p`.
pub fn permute_column(col: &ColumnData, p: &Vec<usize>) -> (r: ColumnData)
    requires
        forall|i: int| 0 <= i < p.len() ==> #[trigger] p[i] < col.cells.len(),
    ensures
        r@ == (ColumnView { name: col@.name, kind: col@.kind, cells: permute_cells(col@.cells, p@) }),
{
    let mut cells: Vec<Cell> = Vec::new();
    let mut i: usize = 0;
    while i < p.len()
        invariant
            forall|i: int| 0 <= i < p.len() ==> #[trigger] p[i] < col.cells.len(),
            i <= p.len(),
            cells.len() == i,
            forall|j: int| 0 <= j < i ==> #[trigger] cells@[j]@ == col@.cells[p[j] as int],
        decreases p.len() - i,
    {
        cells.push(copy_cell(&col.cells[p[i]]));
        i = i + 1;
    }
    let r = ColumnData { name: col.name.clone(), kind: copy_kind(&col.kind), cells };
    assert(r@.cells =~= permute_cells(col@.cells, p@));
    r
}

impl Frame {
    /// The number of rows.
    pub fn height(&self) -> (h: usize)
        ensures
            h == height_of(self@),
    {
        if self.columns.len() == 0 {
            0
        } else {
            self.columns[0].cells.len()
        }
    }

    /// The position of the first column named `name`, if any.
    pub fn column_index(&self, name: &str) -> (r: Option<usize>)
        ensures
            r matches Some(i) ==> find_column(self@, name@) == Some(i as int),
            r is None ==> find_column(self@, name@) is None,
    {
        let mut i: usize = 0;
        while i < self.columns.len()
            invariant
                i <= self.columns.len(),
                forall|j: int| 0 <= j < i ==> #[trigger] self@[j].name != name@,
            decreases self.columns.len() - i,
        {
            if str_eq(self.columns[i].name.as_str(), name) {
                proof {
                    lemma_find_unique(self@, name@, i as int);
                }
                return Some(i);
            }
            i = i + 1;
        }
        proof {
            lemma_find_column(self@, name@);
        }
        None
    }
}

/// The first column with a name is where `find_column` points.
pub proof fn lemma_find_unique(f: Seq<ColumnView>, name: Seq<char>, i: int)
    requires
        first_named(f, name, i),
    ensures
        find_column(f, name) == Some(i),
{
    let k = choose|k: int| first_named(f, name, k);
    if k < i {
        assert(f[k].name != name);
    } else if k > i {
        assert(f[i].name != name);
    }
}

} // verus!
