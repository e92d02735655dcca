//! Power sets.
use vstd::prelude::*;

use crate::iteration::{lists_power_set, power_set};

verus! {

/// The power set of `collection`, the empty set included (see [`power_set`]).
pub fn _power_set<T: Copy>(collection: Vec<T>) -> (r: Vec<Vec<T>>)
    requires
        collection@.len() < usize::BITS,
    ensures
        lists_power_set(r@, collection@, true),
{
    power_set_impl(collection, true)
}

/// The power set of `collection` without the empty set (see [`power_set`]).
pub fn power_set_without_empty<T: Copy>(collection: Vec<T>) -> (r: Vec<Vec<T>>)
    requires
        collection@.len() < usize::BITS,
    ensures
        lists_power_set(r@, collection@, false),
{
    power_set_impl(collection, false)
}

fn power_set_impl<T: Copy>(collection: Vec<T>, include_empty_set: bool) -> (r: Vec<Vec<T>>)
    requires
        collection@.len() < usize::BITS,
    ensures
        lists_power_set(r@, collection@, include_empty_set),
{
    power_set(collection, include_empty_set)
}

} // verus!
