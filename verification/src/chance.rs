//! The random draws of the simulation, made with the `rand` crate's
//! thread-local generator. Nothing is known of a draw but its range.

use vstd::prelude::*;
use rand::seq::IteratorRandom;
use rand::Rng;

verus! {

/// `Rng::gen_range` on an inclusive range, with the generator of
/// `rand::thread_rng`: some value from `low` to `high`, both included. The
/// range must not be empty, as the generator panics on an empty one.
#[verifier::external_body]
pub(crate) fn draw_between(low: i32, high: i32) -> (value: i32)
    requires
        low <= high,
    ensures
        low <= value <= high,
{
    rand::thread_rng().gen_range(low..=high)
}

/// `IteratorRandom::choose` over the items, with the generator of
/// `rand::thread_rng`: one of the items, and nothing only when there is no
/// item.
#[verifier::external_body]
pub(crate) fn draw_one(items: &Vec<u64>) -> (chosen: Option<u64>)
    ensures
        chosen.is_none() <==> items@.len() == 0,
        chosen.is_some() ==> items@.contains(chosen.unwrap()),
{
    items.iter().copied().choose(&mut rand::thread_rng())
}

} // verus!
