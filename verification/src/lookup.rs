//! The two-way table between cells and graph nodes, kept in a `bimap::BiMap`.

use vstd::prelude::*;
use bimap::BiHashMap;
use std::collections::hash_map::RandomState;

verus! {

/// The table type: cells on the left, node indices on the right.
pub type CellTable = BiHashMap<(i32, i32), usize, RandomState, RandomState>;

/// `bimap::BiHashMap`, a table of pairs in which each left value and each
/// right value occurs once. Nothing inside it is visible to the verifier.
#[verifier::external_type_specification]
#[verifier::external_body]
#[verifier::reject_recursive_types(L)]
#[verifier::reject_recursive_types(R)]
#[verifier::reject_recursive_types(LS)]
#[verifier::reject_recursive_types(RS)]
pub struct ExBiHashMap<L, R, LS, RS>(BiHashMap<L, R, LS, RS>);

/// The pairs of the table, as the map from each left value to its right
/// value.
pub uninterp spec fn table_pairs(t: CellTable) -> Map<
    (i32, i32),
    usize,
>;

/// `BiHashMap::new`: a table without pairs.
#[verifier::external_body]
pub(crate) fn table_new() -> (t: CellTable)
    ensures
        forall|k: (i32, i32)| !table_pairs(t).contains_key(k),
{
    BiHashMap::new()
}

/// `BiHashMap::insert`: the pair `(left, right)` is in the table afterwards,
/// any earlier pair with that left value or that right value is gone, and
/// every other pair stays.
#[verifier::external_body]
pub(crate) fn table_insert(
    t: &mut CellTable,
    left: (i32, i32),
    right: usize,
)
    ensures
        table_pairs(*final(t)) == Map::new(
            |k: (i32, i32)|
                k == left || (table_pairs(*old(t)).contains_key(k) && table_pairs(*old(t))[k]
                    != right),
            |k: (i32, i32)|
                if k == left {
                    right
                } else {
                    table_pairs(*old(t))[k]
                },
        ),
{
    t.insert(left, right);
}

/// `BiHashMap::get_by_left`: the right value paired with `left`, if any.
#[verifier::external_body]
pub(crate) fn table_right_of(
    t: &CellTable,
    left: (i32, i32),
) -> (right: Option<usize>)
    ensures
        right == (if table_pairs(*t).contains_key(left) {
            Some(table_pairs(*t)[left])
        } else {
            None
        }),
{
    t.get_by_left(&left).copied()
}

/// `BiHashMap::get_by_right`: a left value paired with `right`, if any.
#[verifier::external_body]
pub(crate) fn table_left_of(
    t: &CellTable,
    right: usize,
) -> (left: Option<(i32, i32)>)
    ensures
        match left {
            Some(l) => table_pairs(*t).contains_key(l) && table_pairs(*t)[l] == right,
            None => forall|l: (i32, i32)|
                table_pairs(*t).contains_key(l) ==> #[trigger] table_pairs(*t)[l] != right,
        },
{
    t.get_by_right(&right).copied()
}

} // verus!
