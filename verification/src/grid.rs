use vstd::prelude::*;

use crate::fixel::Fixel;

verus! {

/// The 2D cell store the workers use, from the `array2d` crate: a row-major
/// `Vec` with a fixed number of rows and columns.
#[verifier::external_type_specification]
#[verifier::external_body]
#[verifier::reject_recursive_types(T)]
pub struct ExArray2D<T>(array2d::Array2D<T>);

/// The cells a grid holds, in row-major order.
pub uninterp spec fn grid_cells(g: array2d::Array2D<Fixel>) -> Seq<Fixel>;

/// The (rows, columns) a grid was allocated with.
pub uninterp spec fn grid_dims(g: array2d::Array2D<Fixel>) -> (int, int);

/// Relies on array2d::Array2D::filled_with: a rows-by-columns grid whose
/// every slot is a clone of the element, stored row-major.
#[verifier::external_body]
pub(crate) fn grid_filled(element: Fixel, num_rows: usize, num_columns: usize) -> (g:
    array2d::Array2D<Fixel>)
    requires
        num_rows * num_columns <= usize::MAX,
    ensures
        grid_dims(g) == (num_rows as int, num_columns as int),
        grid_cells(g).len() == num_rows * num_columns,
        forall|i: int| 0 <= i < grid_cells(g).len() ==> grid_cells(g)[i] == element,
{
    array2d::Array2D::filled_with(element, num_rows, num_columns)
}

/// Relies on array2d::Array2D::get: Some of the element at row-major index
/// `row * columns + column` exactly when the coordinates are in bounds.
#[verifier::external_body]
pub(crate) fn grid_get<'a>(g: &'a array2d::Array2D<Fixel>, row: usize, column: usize) -> (r: Option<
    &'a Fixel,
>)
    ensures
        match r {
            Some(c) => row < grid_dims(*g).0 && column < grid_dims(*g).1 && *c == grid_cells(
                *g,
            )[row * grid_dims(*g).1 + column],
            None => row >= grid_dims(*g).0 || column >= grid_dims(*g).1,
        },
{
    g.get(row, column)
}

/// Relies on array2d::Array2D::get_row_major: Some of the element at the
/// given row-major index exactly when it is inside the grid.
#[verifier::external_body]
pub(crate) fn grid_get_flat<'a>(g: &'a array2d::Array2D<Fixel>, index: usize) -> (r: Option<
    &'a Fixel,
>)
    ensures
        match r {
            Some(c) => index < grid_cells(*g).len() && *c == grid_cells(*g)[index as int],
            None => index >= grid_cells(*g).len(),
        },
{
    g.get_row_major(index)
}

/// Relies on array2d::Array2D::set_row_major: replaces the element at the
/// given row-major index and reports an out-of-bounds index by Err, leaving
/// the grid unchanged.
#[verifier::external_body]
pub(crate) fn grid_set_flat(g: &mut array2d::Array2D<Fixel>, index: usize, element: Fixel) -> (ok:
    bool)
    ensures
        grid_dims(*final(g)) == grid_dims(*old(g)),
        ok == (index < grid_cells(*old(g)).len()),
        ok ==> grid_cells(*final(g)) == grid_cells(*old(g)).update(index as int, element),
        !ok ==> grid_cells(*final(g)) == grid_cells(*old(g)),
{
    g.set_row_major(index, element).is_ok()
}

/// Relies on array2d::Array2D::set: replaces the element at row-major index
/// `row * columns + column` and reports an out-of-bounds pair by Err, leaving
/// the grid unchanged.
#[verifier::external_body]
pub(crate) fn grid_set(g: &mut array2d::Array2D<Fixel>, row: usize, column: usize, element: Fixel) -> (ok:
    bool)
    ensures
        grid_dims(*final(g)) == grid_dims(*old(g)),
        ok == (row < grid_dims(*old(g)).0 && column < grid_dims(*old(g)).1),
        ok ==> grid_cells(*final(g)) == grid_cells(*old(g)).update(
            row * grid_dims(*old(g)).1 + column,
            element,
        ),
        !ok ==> grid_cells(*final(g)) == grid_cells(*old(g)),
{
    g.set(row, column, element).is_ok()
}

} // verus!
