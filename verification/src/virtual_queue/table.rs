//! A table of numbers by sample, held in bevy's hash map.

use bevy::platform::collections::HashMap;
use vstd::prelude::*;

verus! {

/// A sample as the key of a table: the kind of its id and the number in it.
pub type SampleKey = (u8, u128);

#[verifier::external_type_specification]
#[verifier::external_body]
pub struct ExFixedHasher(bevy::platform::hash::FixedHasher);

#[verifier::external_type_specification]
#[verifier::external_body]
#[verifier::reject_recursive_types(K)]
#[verifier::reject_recursive_types(V)]
#[verifier::reject_recursive_types(S)]
pub struct ExHashMap<K, V, S>(bevy::platform::collections::HashMap<K, V, S>);

/// What a table holds.
pub uninterp spec fn contents(table: HashMap<SampleKey, u128>) -> Map<SampleKey, u128>;

/// The contents of a table that holds nothing.
pub open spec fn no_entries() -> Map<SampleKey, u128> {
    Map::empty()
}

/// `HashMap::default`: a new table holds nothing.
#[verifier::external_body]
pub(crate) fn empty_table() -> (table: HashMap<SampleKey, u128>)
    ensures
        contents(table) == no_entries(),
{
    HashMap::default()
}

/// `HashMap::len`: how many samples the table holds.
#[verifier::external_body]
pub(crate) fn table_len(table: &HashMap<SampleKey, u128>) -> (n: usize)
    ensures
        n == contents(*table).dom().len(),
{
    table.len()
}

/// `HashMap::get`: the number the table holds for the sample, if any.
#[verifier::external_body]
pub(crate) fn table_get(table: &HashMap<SampleKey, u128>, id: SampleKey) -> (r: Option<u128>)
    ensures
        r == if contents(*table).contains_key(id) {
            Some(contents(*table)[id])
        } else {
            None
        },
{
    table.get(&id).copied()
}

/// `HashMap::insert`: the table then holds `number` for the sample, in place
/// of what it held for it, and what it held for every other.
#[verifier::external_body]
pub(crate) fn table_insert(table: &mut HashMap<SampleKey, u128>, id: SampleKey, number: u128)
    ensures
        contents(*final(table)) == contents(*old(table)).insert(id, number),
{
    table.insert(id, number);
}

/// Whether less than `horizon` has passed from `last` to `now`.
pub open spec fn spec_is_recent(now: u128, last: u128, horizon: u128) -> bool {
    (if now >= last {
        now - last
    } else {
        0
    }) < horizon
}

/// Whether less than `horizon` has passed from `last` to `now`.
#[verifier::when_used_as_spec(spec_is_recent)]
pub fn is_recent(now: u128, last: u128, horizon: u128) -> (r: bool)
    ensures
        r == is_recent(now, last, horizon),
{
    if now >= last {
        now - last < horizon
    } else {
        0 < horizon
    }
}

/// The entries of `held` whose number is less than `horizon` before `now`.
pub open spec fn recent_entries(held: Map<SampleKey, u128>, now: u128, horizon: u128) -> Map<
    SampleKey,
    u128,
> {
    held.restrict(
        Set::new(|id: SampleKey| held.contains_key(id) && is_recent(now, held[id], horizon)),
    )
}

/// `HashMap::retain`: the table keeps the entries for which the closure holds,
/// here those whose number is less than `horizon` before `now`, and no other.
#[verifier::external_body]
pub(crate) fn table_retain_recent(table: &mut HashMap<SampleKey, u128>, now: u128, horizon: u128)
    ensures
        contents(*final(table)) == recent_entries(contents(*old(table)), now, horizon),
{
    table.retain(|_, last| is_recent(now, *last, horizon));
}

} // verus!
