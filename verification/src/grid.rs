//! The incidence grid: a two-dimensional array of marks, kept by `ndarray`.
//!
//! The array itself is outside what the verifier reads. Its contents are
//! known by two names, `grid_rows` and `grid_width`, and every operation on
//! it is a small function whose contract is taken on trust from the
//! `ndarray` sources.

use vstd::prelude::*;

verus! {

/// A two-dimensional array of booleans, one row per object and one column
/// per attribute. The array is an `ndarray::Array2<bool>`, which the verifier
/// does not look into.
#[verifier::external_body]
#[derive(Debug, PartialEq, Eq)]
pub struct Grid {
    cells: ndarray::Array2<bool>,
}

/// The error of `ndarray` for shapes that do not fit.
#[verifier::external_type_specification]
#[verifier::external_body]
pub struct ExShapeError(ndarray::ShapeError);

/// The rows of the array, first to last, each with its cells in column order.
pub uninterp spec fn grid_rows(g: Grid) -> Seq<Seq<bool>>;

/// The length of the array's second axis: the number of columns, which an
/// array has even when it has no row.
pub uninterp spec fn grid_width(g: Grid) -> nat;

/// Every row has as many cells as the array has columns.
pub open spec fn grid_regular(g: Grid) -> bool {
    forall|i: int| 0 <= i < grid_rows(g).len() ==> (#[trigger] grid_rows(g)[i]).len() == grid_width(g)
}

/// `n`, or 1 where `n` is 0: the factor that an axis of length `n` gives to
/// the size that `ndarray` holds against `isize::MAX`.
pub open spec fn axis_factor(n: nat) -> nat {
    if n == 0 {
        1
    } else {
        n
    }
}

/// Whether `ndarray` takes the shape `rows` by `cols`: the product of its
/// axis lengths other than 0 is at most `isize::MAX`.
pub open spec fn shape_fits(rows: nat, cols: nat) -> bool {
    axis_factor(rows) * axis_factor(cols) <= isize::MAX
}

/// Calls `ndarray::Array::default` with the shape `(rows, cols)`. The result
/// has that shape and holds `bool::default()`, which is `false`, in every
/// cell. The call panics where the shape does not fit, so such a shape is
/// not admitted.
#[verifier::external_body]
pub(crate) fn grid_default(rows: usize, cols: usize) -> (g: Grid)
    requires
        shape_fits(rows as nat, cols as nat),
    ensures
        grid_rows(g) == Seq::new(rows as nat, |i: int| Seq::new(cols as nat, |j: int| false)),
        grid_width(g) == cols,
{
    Grid { cells: ndarray::Array::default((rows, cols)) }
}

/// Calls `ArrayBase::append` along the first axis with `row` as an array view
/// of one row (`ArrayView::from_shape`, which takes a slice of exactly the
/// length of the shape). The call succeeds when `row` is as long as the array
/// is wide and the array with one more row still fits; it then adds `row` as
/// the last row. Otherwise it returns the error and leaves the array as it
/// was.
#[verifier::external_body]
pub(crate) fn grid_append(g: &mut Grid, row: &Vec<bool>) -> (r: Result<(), ndarray::ShapeError>)
    requires
        grid_rows(*old(g)).len() < usize::MAX,
    ensures
        r is Ok <==> row.len() == grid_width(*old(g)) && shape_fits(
            grid_rows(*old(g)).len() + 1,
            grid_width(*old(g)),
        ),
        r is Ok ==> grid_rows(*final(g)) == grid_rows(*old(g)).push(row@),
        r is Err ==> grid_rows(*final(g)) == grid_rows(*old(g)),
        grid_width(*final(g)) == grid_width(*old(g)),
{
    match ndarray::ArrayView::from_shape((1, row.len()), row.as_slice()) {
        Ok(view) => g.cells.append(ndarray::Axis(0), view),
        Err(e) => Err(e),
    }
}

/// Calls `ArrayBase::rows` and hands out each lane as a vector: the rows of
/// the array, first to last.
#[verifier::external_body]
pub(crate) fn grid_row_lanes(g: &Grid) -> (lanes: Vec<Vec<bool>>)
    requires
        grid_regular(*g),
    ensures
        lanes.deep_view() == grid_rows(*g),
{
    g.cells.rows().into_iter().map(|lane| lane.to_vec()).collect()
}

/// Calls `ArrayBase::columns` and hands out each lane as a vector: for each
/// column, first to last, its cells from the first row to the last.
#[verifier::external_body]
pub(crate) fn grid_column_lanes(g: &Grid) -> (lanes: Vec<Vec<bool>>)
    requires
        grid_regular(*g),
    ensures
        lanes.deep_view() == Seq::new(
            grid_width(*g),
            |j: int| Seq::new(grid_rows(*g).len(), |i: int| grid_rows(*g)[i][j]),
        ),
{
    g.cells.columns().into_iter().map(|lane| lane.to_vec()).collect()
}

/// Calls `ArrayBase::get` with the index `(row, col)`: the cell there, or
/// nothing where the index is outside the array.
#[verifier::external_body]
pub(crate) fn grid_get(g: &Grid, row: usize, col: usize) -> (cell: Option<bool>)
    requires
        grid_regular(*g),
    ensures
        row < grid_rows(*g).len() && col < grid_width(*g) ==> cell == Some(
            grid_rows(*g)[row as int][col as int],
        ),
        !(row < grid_rows(*g).len() && col < grid_width(*g)) ==> cell is None,
{
    g.cells.get((row, col)).copied()
}

} // verus!
