//! Collecting per-observation tables in memory and stacking them into one.
use vstd::prelude::*;
use crate::error::QFactorsError;
use crate::frame::{
    Cell, ColumnData, ColumnView, Frame, cells_view, copy_kind, extend_cells, first_where,
    lemma_first_where_none, lemma_first_where_some, same_kind, str_eq,
};

verus! {

/// Two tables have the same column names and types, in the same order.
pub open spec fn same_schema(a: Seq<ColumnView>, b: Seq<ColumnView>) -> bool {
    &&& a.len() == b.len()
    &&& forall|j: int| #![trigger a[j]] 0 <= j < a.len() ==> a[j].name == b[j].name && a[j].kind == b[j].kind
}

/// The first table whose schema differs from the first one's.
pub open spec fn first_schema_mismatch(frames: Seq<Seq<ColumnView>>) -> Option<int> {
    first_where(frames.len(), |k: int| !same_schema(frames[0], frames[k]))
}

/// The tables stacked row-wise: the first table's columns, each holding the
/// cells of that column of every table in turn.
pub open spec fn stacked(frames: Seq<Seq<ColumnView>>) -> Seq<ColumnView> {
    Seq::new(
        frames[0].len(),
        |j: int|
            ColumnView {
                name: frames[0][j].name,
                kind: frames[0][j].kind,
                cells: frames.map_values(|f: Seq<ColumnView>| f[j].cells).flatten(),
            },
    )
}

/// Per-observation tables kept in memory until they are stacked.
#[derive(Debug)]
pub struct MemorySink {
    frames: Vec<Frame>,
}

impl MemorySink {
    /// The tables written so far.
    pub closed spec fn spec_frames(&self) -> Seq<Seq<ColumnView>> {
        self.frames@.map_values(|f: Frame| f@)
    }

    pub fn new() -> (r: Self)
        ensures
            r.spec_frames() == Seq::<Seq<ColumnView>>::empty(),
    {
        let r = MemorySink { frames: Vec::new() };
        assert(r.spec_frames() =~= Seq::<Seq<ColumnView>>::empty());
        r
    }

    pub fn write_observation(&mut self, df: Frame)
        ensures
            final(self).spec_frames() == old(self).spec_frames().push(df@),
    {
        let ghost v = df@;
        self.frames.push(df);
        assert(self.spec_frames() =~= old(self).spec_frames().push(v));
    }

    /// The tables stacked in the order they were written; no table gives an
    /// empty one, and a table whose schema differs from the first is refused.
    #[verifier::loop_isolation(false)]
    pub fn finish(self) -> (r: Result<Frame, QFactorsError>)
        ensures
            self.spec_frames().len() == 0 ==> (r matches Ok(f) && f@.len() == 0),
            self.spec_frames().len() > 0 ==> match first_schema_mismatch(self.spec_frames()) {
                Some(k) => r matches Err(QFactorsError::SchemaMismatch { frame }) && frame == k,
                None => r matches Ok(f) && f@ == stacked(self.spec_frames()),
            },
    {
        let ghost fs = self.spec_frames();
        let frames = self.frames;
        if frames.len() == 0 {
            let out = Frame { columns: Vec::new() };
            assert(out@.len() == 0);
            return Ok(out);
        }
        let ghost mismatch = |k: int| !same_schema(fs[0], fs[k]);
        let mut k: usize = 0;
        while k < frames.len()
            invariant
                fs == frames@.map_values(|f: Frame| f@),
                k <= frames.len(),
                forall|a: int| 0 <= a < k ==> !#[trigger] mismatch(a),
            decreases frames.len() - k,
        {
            let same = schemas_match(&frames[0], &frames[k]);
            if !same {
                proof {
                    lemma_first_where_some(fs.len(), mismatch, k as int);
                }
                return Err(QFactorsError::SchemaMismatch { frame: k });
            }
            k = k + 1;
        }
        proof {
            lemma_first_where_none(fs.len(), mismatch);
            assert forall|a: int| 0 <= a < fs.len() implies same_schema(fs[0], #[trigger] fs[a]) by {
                assert(!mismatch(a));
            }
        }
        let width = frames[0].columns.len();
        let mut columns: Vec<ColumnData> = Vec::new();
        let mut j: usize = 0;
        while j < width
            invariant
                fs == frames@.map_values(|f: Frame| f@),
                width == fs[0].len(),
                j <= width,
                forall|a: int| 0 <= a < fs.len() ==> same_schema(fs[0], #[trigger] fs[a]),
                columns@.map_values(|c: ColumnData| c@) == stacked(fs).take(j as int),
            decreases width - j,
        {
            let ghost per = fs.map_values(|f: Seq<ColumnView>| f[j as int].cells);
            let mut cells: Vec<Cell> = Vec::new();
            let mut k: usize = 0;
            proof {
                assert(per.take(0).flatten() =~= Seq::<crate::frame::CellView>::empty());
            }
            while k < frames.len()
                invariant
                    fs == frames@.map_values(|f: Frame| f@),
                    j < width,
                    k <= frames.len(),
                    cells_view(cells@) == per.take(k as int).flatten(),
                decreases frames.len() - k,
            {
                assert(same_schema(fs[0], fs[k as int]));
                assert(fs[k as int] == frames@[k as int]@);
                extend_cells(&mut cells, &frames[k].columns[j].cells);
                proof {
                    assert(per.take(k + 1) =~= per.take(k as int).push(per[k as int]));
                    per.take(k as int).lemma_flatten_push(per[k as int]);
                    assert(per[k as int] == cells_view(frames@[k as int].columns@[j as int].cells@));
                }
                k = k + 1;
            }
            proof {
                assert(per.take(frames.len() as int) =~= per);
            }
            let column = ColumnData {
                name: frames[0].columns[j].name.clone(),
                kind: copy_kind(&frames[0].columns[j].kind),
                cells,
            };
            columns.push(column);
            proof {
                assert(columns@.map_values(|c: ColumnData| c@) =~= stacked(fs).take(j + 1));
            }
            j = j + 1;
        }
        let out = Frame { columns };
        assert(out@ =~= stacked(fs));
        Ok(out)
    }
}

/// Whether two tables have the same schema.
fn schemas_match(a: &Frame, b: &Frame) -> (r: bool)
    ensures
        r == same_schema(a@, b@),
{
    if a.columns.len() != b.columns.len() {
        return false;
    }
    let mut j: usize = 0;
    while j < a.columns.len()
        invariant
            a.columns.len() == b.columns.len(),
            j <= a.columns.len(),
            forall|i: int| #![trigger a@[i]] 0 <= i < j ==> a@[i].name == b@[i].name && a@[i].kind == b@[i].kind,
        decreases a.columns.len() - j,
    {
        if !str_eq(a.columns[j].name.as_str(), b.columns[j].name.as_str()) || !same_kind(
            &a.columns[j].kind,
            &b.columns[j].kind,
        ) {
            proof {
                assert(a@[j as int] == a.columns@[j as int]@);
                assert(b@[j as int] == b.columns@[j as int]@);
                assert(!(a@[j as int].name == b@[j as int].name && a@[j as int].kind == b@[j as int].kind));
                if same_schema(a@, b@) {
                    assert(a@[j as int].name == b@[j as int].name && a@[j as int].kind == b@[j as int].kind);
                }
            }
            return false;
        }
        j = j + 1;
    }
    true
}

} // verus!
