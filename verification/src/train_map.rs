//! The fixed-capacity map from train number to train state.
//!
//! The map is `heapless::FnvIndexMap`, which keeps its entries in a compact
//! array: a new entry goes to the end, and removing one moves the last entry
//! into its place. [`train_entries`] names that array; each function below
//! says what one operation of the map does to it.
use heapless::FnvIndexMap;
use vstd::prelude::*;
use crate::train::TrainState;

verus! {

/// How many trains the map holds. Must be a power of two.
pub const MAX_TRAINS: usize = 512;

/// The map of all trains on the network, by train number. It holds a
/// `heapless::FnvIndexMap`.
#[verifier::external_body]
pub struct TrainMap {
    inner: FnvIndexMap<u32, TrainState, MAX_TRAINS>,
}

/// The entries of the map, in the order in which it is walked.
pub uninterp spec fn train_entries(map: TrainMap) -> Seq<(u32, TrainState)>;

/// Whether an entry for `number` is among `entries`.
pub open spec fn has_number(entries: Seq<(u32, TrainState)>, number: u32) -> bool {
    exists|i: int| 0 <= i < entries.len() && (#[trigger] entries[i]).0 == number
}

/// `entries` after the last one has moved into the place of entry `i`.
pub open spec fn swap_removed(entries: Seq<(u32, TrainState)>, i: int) -> Seq<(u32, TrainState)> {
    entries.update(i, entries.last()).drop_last()
}

/// `heapless::FnvIndexMap::new`: a map without entries.
#[verifier::external_body]
pub(crate) fn map_new() -> (r: TrainMap)
    ensures
        train_entries(r) == Seq::<(u32, TrainState)>::empty(),
{
    TrainMap { inner: FnvIndexMap::new() }
}

/// `heapless::IndexMap::len`: the number of entries.
#[verifier::external_body]
pub(crate) fn map_len(map: &TrainMap) -> (r: usize)
    ensures
        r == train_entries(*map).len(),
{
    map.inner.len()
}

/// `heapless::IndexMap::get_mut`: the state stored for `number`, open for
/// change in place, or `None` when there is no entry for it.
#[verifier::external_body]
pub(crate) fn map_get_mut(map: &mut TrainMap, number: u32) -> (r: Option<&mut TrainState>)
    ensures
        match r {
            Some(state) => exists|i: int|
                #![trigger train_entries(*old(map))[i]]
                0 <= i < train_entries(*old(map)).len() && train_entries(*old(map))[i] == (
                number, *state) && train_entries(*final(map)) == train_entries(*old(map)).update(
                    i,
                    (number, *final(state)),
                ),
            None => !has_number(train_entries(*old(map)), number) && train_entries(*final(map))
                == train_entries(*old(map)),
        },
{
    map.inner.get_mut(&number)
}

/// `heapless::IndexMap::insert`: the entry of a number that is present gets the
/// new state in its place; a new number goes to the end; when the map is full a
/// new number is handed back and nothing changes.
#[verifier::external_body]
pub(crate) fn map_insert(map: &mut TrainMap, number: u32, state: TrainState) -> (r: Result<
    Option<TrainState>,
    (u32, TrainState),
>)
    ensures
        match r {
            Ok(Some(before)) => exists|i: int|
                #![trigger train_entries(*old(map))[i]]
                0 <= i < train_entries(*old(map)).len() && train_entries(*old(map))[i] == (
                number, before) && train_entries(*final(map)) == train_entries(*old(map)).update(
                    i,
                    (number, state),
                ),
            Ok(None) => !has_number(train_entries(*old(map)), number) && train_entries(
                *old(map),
            ).len() < MAX_TRAINS && train_entries(*final(map)) == train_entries(*old(map)).push(
                (number, state),
            ),
            Err(back) => back == (number, state) && !has_number(train_entries(*old(map)), number)
                && train_entries(*old(map)).len() >= MAX_TRAINS && train_entries(*final(map))
                == train_entries(*old(map)),
        },
{
    map.inner.insert(number, state)
}

/// `heapless::IndexMap::remove`: takes the entry of `number` out; the last
/// entry moves into its place.
#[verifier::external_body]
pub(crate) fn map_remove(map: &mut TrainMap, number: u32) -> (r: Option<TrainState>)
    ensures
        match r {
            Some(state) => exists|i: int|
                #![trigger train_entries(*old(map))[i]]
                0 <= i < train_entries(*old(map)).len() && train_entries(*old(map))[i] == (
                number, state) && train_entries(*final(map)) == swap_removed(
                    train_entries(*old(map)),
                    i,
                ),
            None => !has_number(train_entries(*old(map)), number) && train_entries(*final(map))
                == train_entries(*old(map)),
        },
{
    map.inner.remove(&number)
}

/// `heapless::IndexMap::iter`: every entry, in order, copied out.
#[verifier::external_body]
pub(crate) fn map_entries(map: &TrainMap) -> (r: Vec<(u32, TrainState)>)
    ensures
        r@ == train_entries(*map),
{
    map.inner.iter().map(|(number, state)| (*number, *state)).collect()
}

} // verus!
