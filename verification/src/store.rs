//! The occupancy store: a fixed-size two-dimensional array of optional
//! occupant tags, kept in an `array2d::Array2D`.

use vstd::prelude::*;
use array2d::Array2D;
use crate::cell::Occupancy;

verus! {

/// `array2d::Array2D`, a two-dimensional array of fixed size. Nothing inside
/// it is visible to the verifier.
#[verifier::external_type_specification]
#[verifier::external_body]
#[verifier::reject_recursive_types(T)]
pub struct ExArray2D<T>(Array2D<T>);

/// What the store holds: one sequence per row, one entry per column.
pub uninterp spec fn store_rows(a: Array2D<Option<Occupancy>>) -> Seq<Seq<Option<Occupancy>>>;

/// A store of `rows` by `columns` entries.
pub open spec fn store_has_shape(a: Array2D<Option<Occupancy>>, rows: nat, columns: nat) -> bool {
    &&& store_rows(a).len() == rows
    &&& forall|r: int| 0 <= r < rows ==> (#[trigger] store_rows(a)[r]).len() == columns
}

/// `Array2D::filled_with` with `None` as the element: a store of the given
/// shape in which every entry is empty. The product of the two sizes must fit
/// a `usize`, since the array is allocated as one vector of that length.
#[verifier::external_body]
pub(crate) fn store_empty(rows: usize, columns: usize) -> (a: Array2D<Option<Occupancy>>)
    requires
        rows * columns <= usize::MAX,
    ensures
        store_has_shape(a, rows as nat, columns as nat),
        forall|r: int, c: int|
            0 <= r < rows && 0 <= c < columns ==> (#[trigger] store_rows(a)[r][c]).is_none(),
{
    Array2D::filled_with(None, rows, columns)
}

/// Indexing an `Array2D` by `(row, column)`: the entry at that place. The
/// index must be in bounds, as the array panics otherwise.
#[verifier::external_body]
pub(crate) fn store_get(a: &Array2D<Option<Occupancy>>, row: usize, column: usize) -> (o: Option<Occupancy>)
    requires
        row < store_rows(*a).len(),
        column < store_rows(*a)[row as int].len(),
    ensures
        o == store_rows(*a)[row as int][column as int],
{
    a[(row, column)]
}

/// Assigning through the mutable index of an `Array2D`: the entry at
/// `(row, column)` becomes `value` and every other entry stays. The index
/// must be in bounds, as the array panics otherwise.
#[verifier::external_body]
pub(crate) fn store_put(a: &mut Array2D<Option<Occupancy>>, row: usize, column: usize, value: Option<Occupancy>)
    requires
        row < store_rows(*old(a)).len(),
        column < store_rows(*old(a))[row as int].len(),
    ensures
        store_rows(*final(a)) == store_rows(*old(a)).update(
            row as int,
            store_rows(*old(a))[row as int].update(column as int, value),
        ),
{
    a[(row, column)] = value;
}

} // verus!
