//! Typed, null-free access to the columns of a table.
use vstd::prelude::*;
use vstd::string::StringExecFns;
use crate::error::QFactorsError;
use crate::factor::{DType, dtype_name};
use crate::frame::{
    Cell, CellView, ColumnData, ColumnView, DataKind, Frame, KindView, cell_fits, find_column,
    frame_typed, has_null,
};
use crate::prepared_panel::{kind_name, kind_name_of};

verus! {

/// A column of this kind holds values of that type.
pub open spec fn kind_matches(kind: KindView, expected: DType) -> bool {
    match expected {
        DType::F64 => kind == KindView::Float64,
        DType::U32 => kind == KindView::UInt32,
        DType::I64 => kind == KindView::Int64,
    }
}

/// Rejects a column whose type is not `expected`.
pub fn ensure_dtype(column: &ColumnData, expected: DType) -> (r: Result<(), QFactorsError>)
    ensures
        kind_matches(column@.kind, expected) ==> r is Ok,
        !kind_matches(column@.kind, expected) ==> (r matches Err(
            QFactorsError::DTypeMismatch { column: c, expected: e, actual: a },
        ) && c@ == column@.name && e@ == dtype_name(expected) && a@ == kind_name(column@.kind)),
{
    let matches = match (expected, &column.kind) {
        (DType::F64, DataKind::Float64) => true,
        (DType::U32, DataKind::UInt32) => true,
        (DType::I64, DataKind::Int64) => true,
        _ => false,
    };
    if matches {
        Ok(())
    } else {
        Err(
            QFactorsError::DTypeMismatch {
                column: column.name.clone(),
                expected: expected.name(),
                actual: kind_name_of(&column.kind),
            },
        )
    }
}

/// Rejects a column that holds a null.
pub fn ensure_no_nulls(column: &ColumnData) -> (r: Result<(), QFactorsError>)
    ensures
        !has_null(column@) ==> r is Ok,
        has_null(column@) ==> (r matches Err(QFactorsError::NullNotAllowed { column: c }) && c@
            == column@.name),
{
    if crate::frame::column_has_null(column) {
        Err(QFactorsError::NullNotAllowed { column: column.name.clone() })
    } else {
        Ok(())
    }
}

/// Read access to the columns of a table.
#[derive(Debug, Clone, Copy)]
pub struct ColumnStore<'a> {
    df: &'a Frame,
}

/// The outcome of reading column `name` of `f` as type `expected`, before the
/// values are converted: a missing column, a type mismatch or a null are errors.
pub open spec fn read_ok(f: Seq<ColumnView>, name: Seq<char>, expected: DType) -> bool {
    &&& find_column(f, name) is Some
    &&& kind_matches(f[find_column(f, name).unwrap()].kind, expected)
    &&& !has_null(f[find_column(f, name).unwrap()])
}

/// `e` reports why column `name` of `f` cannot be read as `expected`.
pub open spec fn read_error(f: Seq<ColumnView>, name: Seq<char>, expected: DType, e: QFactorsError) -> bool {
    if find_column(f, name) is None {
        e matches QFactorsError::MissingColumn(n) && n@ == name
    } else {
        let c = f[find_column(f, name).unwrap()];
        if !kind_matches(c.kind, expected) {
            e matches QFactorsError::DTypeMismatch { column, expected: ex, actual } && column@ == c.name
                && ex@ == dtype_name(expected) && actual@ == kind_name(c.kind)
        } else {
            e matches QFactorsError::NullNotAllowed { column } && column@ == c.name
        }
    }
}

impl<'a> ColumnStore<'a> {
    /// Every cell of the table fits its column's type.
    #[verifier::type_invariant]
    spec fn typed(&self) -> bool {
        frame_typed(self.df@)
    }

    pub fn new(df: &'a Frame) -> (r: Self)
        requires
            frame_typed(df@),
        ensures
            r.frame() == df@,
    {
        ColumnStore { df }
    }

    /// The table read from.
    pub closed spec fn frame(&self) -> Seq<ColumnView> {
        self.df@
    }

    /// The values of a float column, by their IEEE-754 bits.
    pub fn float64(&self, name: &str) -> (r: Result<Vec<u64>, QFactorsError>)
        ensures
            read_ok(self.frame(), name@, DType::F64) ==> (r matches Ok(v) && {
                let c = self.frame()[find_column(self.frame(), name@).unwrap()];
                &&& v.len() == c.cells.len()
                &&& forall|i: int| 0 <= i < v.len() ==> c.cells[i] == CellView::Float(#[trigger] v@[i])
            }),
            !read_ok(self.frame(), name@, DType::F64) ==> (r matches Err(e) && read_error(
                self.frame(),
                name@,
                DType::F64,
                e,
            )),
    {
        let column = match self.checked_column(name, DType::F64) {
            Ok(c) => c,
            Err(e) => return Err(e),
        };
        let mut out: Vec<u64> = Vec::new();
        let mut i: usize = 0;
        while i < column.cells.len()
            invariant
                column@.kind == KindView::Float64,
                !has_null(column@),
                forall|j: int| 0 <= j < column@.cells.len() ==> cell_fits(KindView::Float64, #[trigger] column@.cells[j]),
                i <= column.cells.len(),
                out.len() == i,
                forall|j: int| 0 <= j < i ==> column@.cells[j] == CellView::Float(#[trigger] out@[j]),
            decreases column.cells.len() - i,
        {
            proof {
                assert(cell_fits(KindView::Float64, column@.cells[i as int]));
                assert(!(column@.cells[i as int] == CellView::Null));
            }
            let v = match &column.cells[i] {
                Cell::Float(b) => *b,
                _ => {
                    proof {
                        assert(false);
                    }
                    0
                },
            };
            out.push(v);
            i = i + 1;
        }
        Ok(out)
    }

    /// The values of an unsigned 32-bit column.
    pub fn u32(&self, name: &str) -> (r: Result<Vec<u32>, QFactorsError>)
        ensures
            read_ok(self.frame(), name@, DType::U32) ==> (r matches Ok(v) && {
                let c = self.frame()[find_column(self.frame(), name@).unwrap()];
                &&& v.len() == c.cells.len()
                &&& forall|i: int| 0 <= i < v.len() ==> c.cells[i] == CellView::UInt(#[trigger] v@[i])
            }),
            !read_ok(self.frame(), name@, DType::U32) ==> (r matches Err(e) && read_error(
                self.frame(),
                name@,
                DType::U32,
                e,
            )),
    {
        let column = match self.checked_column(name, DType::U32) {
            Ok(c) => c,
            Err(e) => return Err(e),
        };
        let mut out: Vec<u32> = Vec::new();
        let mut i: usize = 0;
        while i < column.cells.len()
            invariant
                column@.kind == KindView::UInt32,
                !has_null(column@),
                forall|j: int| 0 <= j < column@.cells.len() ==> cell_fits(KindView::UInt32, #[trigger] column@.cells[j]),
                i <= column.cells.len(),
                out.len() == i,
                forall|j: int| 0 <= j < i ==> column@.cells[j] == CellView::UInt(#[trigger] out@[j]),
            decreases column.cells.len() - i,
        {
            proof {
                assert(cell_fits(KindView::UInt32, column@.cells[i as int]));
                assert(!(column@.cells[i as int] == CellView::Null));
            }
            let v = match &column.cells[i] {
                Cell::UInt(b) => *b,
                _ => {
                    proof {
                        assert(false);
                    }
                    0
                },
            };
            out.push(v);
            i = i + 1;
        }
        Ok(out)
    }

    /// The values of a signed 64-bit column.
    pub fn i64(&self, name: &str) -> (r: Result<Vec<i64>, QFactorsError>)
        ensures
            read_ok(self.frame(), name@, DType::I64) ==> (r matches Ok(v) && {
                let c = self.frame()[find_column(self.frame(), name@).unwrap()];
                &&& v.len() == c.cells.len()
                &&& forall|i: int| 0 <= i < v.len() ==> c.cells[i] == CellView::Int(#[trigger] v@[i])
            }),
            !read_ok(self.frame(), name@, DType::I64) ==> (r matches Err(e) && read_error(
                self.frame(),
                name@,
                DType::I64,
                e,
            )),
    {
        let column = match self.checked_column(name, DType::I64) {
            Ok(c) => c,
            Err(e) => return Err(e),
        };
        let mut out: Vec<i64> = Vec::new();
        let mut i: usize = 0;
        while i < column.cells.len()
            invariant
                column@.kind == KindView::Int64,
                !has_null(column@),
                forall|j: int| 0 <= j < column@.cells.len() ==> cell_fits(KindView::Int64, #[trigger] column@.cells[j]),
                i <= column.cells.len(),
                out.len() == i,
                forall|j: int| 0 <= j < i ==> column@.cells[j] == CellView::Int(#[trigger] out@[j]),
            decreases column.cells.len() - i,
        {
            proof {
                assert(cell_fits(KindView::Int64, column@.cells[i as int]));
                assert(!(column@.cells[i as int] == CellView::Null));
            }
            let v = match &column.cells[i] {
                Cell::Int(b) => *b,
                _ => {
                    proof {
                        assert(false);
                    }
                    0
                },
            };
            out.push(v);
            i = i + 1;
        }
        Ok(out)
    }

    fn checked_column(&self, name: &str, expected: DType) -> (r: Result<&'a ColumnData, QFactorsError>)
        ensures
            read_ok(self.frame(), name@, expected) ==> (r matches Ok(c) && c@ == self.frame()[find_column(
                self.frame(),
                name@,
            ).unwrap()] && kind_matches(c@.kind, expected) && !has_null(c@) && forall|j: int|
                0 <= j < c@.cells.len() ==> cell_fits(c@.kind, #[trigger] c@.cells[j])),
            !read_ok(self.frame(), name@, expected) ==> (r matches Err(e) && read_error(
                self.frame(),
                name@,
                expected,
                e,
            )),
    {
        proof {
            use_type_invariant(self);
        }
        readable_column(self.df, name, expected)
    }
}

/// The column `name` of `df`, once it is known to exist, to have type
/// `expected` and to hold no null.
pub fn readable_column<'a>(df: &'a Frame, name: &str, expected: DType) -> (r: Result<&'a ColumnData, QFactorsError>)
    ensures
        read_ok(df@, name@, expected) ==> (r matches Ok(c) && c@ == df@[find_column(df@, name@).unwrap()]),
        !read_ok(df@, name@, expected) ==> (r matches Err(e) && read_error(df@, name@, expected, e)),
{
    let column = match df.column_index(name) {
        Some(i) => &df.columns[i],
        None => return Err(QFactorsError::MissingColumn(<String as StringExecFns>::from_str(name))),
    };
    match ensure_dtype(column, expected) {
        Ok(()) => {},
        Err(e) => return Err(e),
    }
    match ensure_no_nulls(column) {
        Ok(()) => {},
        Err(e) => return Err(e),
    }
    Ok(column)
}

} // verus!
