//! Live registry of the trains seen on the feed.
//!
//! Backed by a map of fixed capacity, see [`crate::train_map`]. The order in
//! which the map is walked is part of what the registry is: it decides which
//! trains are reported or evicted first.
use vstd::prelude::*;
use crate::clusters::{
    cells_clear, cells_push, cluster_cells, collapse, has_cell, is_clusters_of,
    law_mask_bits_come_from_cells, ClusterVec,
};
use crate::map_mode::{canvas_to_display, projected, MapMode};
use crate::number_buf::{at_most, NumberBuf};
use crate::projection::PixelCoord;
use crate::time::{Duration, Instant, TICK_HZ};
use crate::train::{
    law_service_bits_are_disjoint, law_type_bits_are_disjoint, PixelData, ServiceType, TrainState,
    TrainType,
};
use crate::train_map::{
    has_number, map_entries, map_get_mut, map_insert, map_len, map_new, map_remove, swap_removed,
    train_entries, TrainMap, MAX_TRAINS,
};

verus! {

/// Upper bound on trains evicted in a single pass.
pub const EVICT_BATCH: usize = 64;

/// Selects which "unknown" axis a query of the registry is about.
#[derive(Debug, Clone, Copy, PartialEq, Eq, Structural)]
pub enum UnknownAxis {
    Type,
    Service,
}

pub struct Registry {
    map: TrainMap,
}

/// No number occurs twice.
pub open spec fn unique_numbers(entries: Seq<(u32, TrainState)>) -> bool {
    forall|i: int, j: int|
        0 <= i < j < entries.len() ==> (#[trigger] entries[i]).0 != (#[trigger] entries[j]).0
}

/// `entries` with `change` made to the state of `number`, where there is one.
pub open spec fn with_state(
    entries: Seq<(u32, TrainState)>,
    number: u32,
    change: spec_fn(TrainState) -> TrainState,
) -> Seq<(u32, TrainState)> {
    entries.map_values(
        |e: (u32, TrainState)|
            if e.0 == number {
                (e.0, change(e.1))
            } else {
                e
            },
    )
}

/// The numbers of the entries whose state is chosen by `pick`, in order.
pub open spec fn numbers_where(
    entries: Seq<(u32, TrainState)>,
    pick: spec_fn(TrainState) -> bool,
) -> Seq<u32>
    decreases entries.len(),
{
    if entries.len() == 0 {
        Seq::empty()
    } else if pick(entries.last().1) {
        numbers_where(entries.drop_last(), pick).push(entries.last().0)
    } else {
        numbers_where(entries.drop_last(), pick)
    }
}

/// An attempt offset after `last_seen` has moved by `delta` ticks. Keeps the
/// "never" sentinel, and saturates just below it.
pub open spec fn bumped(ago: i128, delta: int) -> i128 {
    if ago == TrainState::ATTEMPT_NEVER {
        TrainState::ATTEMPT_NEVER
    } else if ago + delta >= TrainState::ATTEMPT_NEVER {
        (TrainState::ATTEMPT_NEVER - 1) as i128
    } else if ago + delta < i128::MIN {
        i128::MIN
    } else {
        (ago + delta) as i128
    }
}

/// Whole seconds from `earlier` to `later`; none when they are in the other
/// order.
pub open spec fn seconds_between(earlier: Instant, later: Instant) -> nat {
    match later.since(earlier) {
        Some(span) => span.secs(),
        None => 0,
    }
}

/// The state of a known train that is seen again at `pixel`.
pub open spec fn seen_again(state: TrainState, pixel: PixelCoord, now: Instant) -> TrainState {
    let delta = now.ticks - state.last_seen.ticks;
    TrainState {
        pixel,
        last_seen: now,
        last_type_attempt_ago: bumped(state.last_type_attempt_ago, delta),
        last_service_attempt_ago: bumped(state.last_service_attempt_ago, delta),
        ..state
    }
}

/// `entries` after train `number` was seen at `pixel`. A new train is left out
/// when there is no room.
pub open spec fn upserted(
    entries: Seq<(u32, TrainState)>,
    number: u32,
    pixel: PixelCoord,
    now: Instant,
) -> Seq<(u32, TrainState)> {
    if has_number(entries, number) {
        with_state(entries, number, |s: TrainState| seen_again(s, pixel, now))
    } else if entries.len() < MAX_TRAINS {
        entries.push((number, TrainState::fresh(pixel, now)))
    } else {
        entries
    }
}

/// The offset to stamp for an attempt made at `now`: `last_seen` minus the time
/// of the attempt.
pub open spec fn attempt_offset(last_seen: Instant, now: Instant) -> i128 {
    (last_seen.ticks - now.ticks) as i128
}

/// The state after a type fetch at `now` gave `typ`.
pub open spec fn typed(state: TrainState, typ: TrainType, now: Instant) -> TrainState {
    TrainState { typ, last_type_attempt_ago: attempt_offset(state.last_seen, now), ..state }
}

/// The state after a service fetch at `now` gave `service`.
pub open spec fn serviced(state: TrainState, service: ServiceType, now: Instant) -> TrainState {
    TrainState {
        service,
        last_service_attempt_ago: attempt_offset(state.last_seen, now),
        ..state
    }
}

/// Whether the train is unknown on `axis`.
pub open spec fn unknown_on(state: TrainState, axis: UnknownAxis) -> bool {
    match axis {
        UnknownAxis::Type => state.typ == TrainType::Unknown,
        UnknownAxis::Service => state.service == ServiceType::Unknown,
    }
}

/// Whether `axis` of the train is worth fetching: it is unknown, and a service
/// is only asked for when the type is known already.
pub open spec fn wanted(state: TrainState, axis: UnknownAxis) -> bool {
    &&& unknown_on(state, axis)
    &&& axis == UnknownAxis::Service ==> !unknown_on(state, UnknownAxis::Type)
}

/// The stored offset of the last attempt on `axis`.
pub open spec fn attempt_ago(state: TrainState, axis: UnknownAxis) -> i128 {
    match axis {
        UnknownAxis::Type => state.last_type_attempt_ago,
        UnknownAxis::Service => state.last_service_attempt_ago,
    }
}

/// Whole seconds from the last attempt on `axis` to `now`: the time since the
/// train was last seen plus the stored offset.
pub open spec fn seconds_since_attempt(state: TrainState, axis: UnknownAxis, now: Instant) -> int {
    (now.ticks - state.last_seen.ticks + attempt_ago(state, axis)) / (TICK_HZ as int)
}

/// Whether the last attempt lies at least `cooldown` back at `now`, or there
/// was none.
pub open spec fn rested(
    state: TrainState,
    axis: UnknownAxis,
    cooldown: Duration,
    now: Instant,
) -> bool {
    attempt_ago(state, axis) == TrainState::ATTEMPT_NEVER || seconds_since_attempt(state, axis, now)
        >= cooldown.secs()
}

/// Whether the train is due for a fetch on `axis` at `now`.
pub open spec fn pending(
    state: TrainState,
    axis: UnknownAxis,
    cooldown: Duration,
    now: Instant,
) -> bool {
    wanted(state, axis) && rested(state, axis, cooldown, now)
}

/// Whether no train that would be asked about on `axis` again was last seen
/// after `now`.
pub open spec fn retries_seen_by(
    entries: Seq<(u32, TrainState)>,
    axis: UnknownAxis,
    now: Instant,
) -> bool {
    forall|i: int|
        0 <= i < entries.len() && wanted((#[trigger] entries[i]).1, axis) && attempt_ago(
            entries[i].1,
            axis,
        ) != TrainState::ATTEMPT_NEVER ==> entries[i].1.last_seen.ticks <= now.ticks
}

/// Whether the train was last seen before `cutoff`.
pub open spec fn stale(state: TrainState, cutoff: Instant) -> bool {
    state.last_seen.ticks < cutoff.ticks
}

/// `entries` without the entry of `number`: the last one takes its place.
pub open spec fn without(entries: Seq<(u32, TrainState)>, number: u32) -> Seq<(u32, TrainState)> {
    if has_number(entries, number) {
        swap_removed(
            entries,
            choose|i: int| 0 <= i < entries.len() && (#[trigger] entries[i]).0 == number,
        )
    } else {
        entries
    }
}

/// `entries` without those of `numbers`, taken out one after another.
pub open spec fn without_all(
    entries: Seq<(u32, TrainState)>,
    numbers: Seq<u32>,
) -> Seq<(u32, TrainState)>
    decreases numbers.len(),
{
    if numbers.len() == 0 {
        entries
    } else {
        without(without_all(entries, numbers.drop_last()), numbers.last())
    }
}

/// The cell that a train makes on the display, if the mode shows its pixel.
pub open spec fn cell_of(state: TrainState, mode: MapMode) -> Option<PixelData> {
    match projected(state.pixel, mode) {
        Some(shown) => Some(
            PixelData {
                coord_key: shown.key(),
                types: state.typ.bit(),
                services: state.service.bit(),
            },
        ),
        None => None,
    }
}

/// The cells of all visible trains, in registry order.
pub open spec fn visible_cells(entries: Seq<(u32, TrainState)>, mode: MapMode) -> Seq<PixelData>
    decreases entries.len(),
{
    if entries.len() == 0 {
        Seq::empty()
    } else {
        match cell_of(entries.last().1, mode) {
            Some(cell) => visible_cells(entries.drop_last(), mode).push(cell),
            None => visible_cells(entries.drop_last(), mode),
        }
    }
}

/// Grow an attempt-ago offset by the amount `last_seen` advanced. Preserves
/// the [`TrainState::ATTEMPT_NEVER`] sentinel; saturates other values just
/// below it.
pub fn bump_attempt_ago(ago: i128, delta: i128) -> (r: i128)
    ensures
        r == bumped(ago, delta as int),
{
    if ago == TrainState::ATTEMPT_NEVER {
        return TrainState::ATTEMPT_NEVER;
    }
    match ago.checked_add(delta) {
        Some(sum) => {
            if sum < TrainState::ATTEMPT_NEVER {
                sum
            } else {
                TrainState::ATTEMPT_NEVER - 1
            }
        },
        None => {
            if delta < 0 {
                i128::MIN
            } else {
                TrainState::ATTEMPT_NEVER - 1
            }
        },
    }
}

/// Offset (in ticks) relative to `last_seen` for stamping an attempt made at
/// `now`: `last_seen` minus the time of the attempt, so how far before
/// `last_seen` the attempt happened. Negative in the typical case, where the
/// attempt comes after the train was last seen.
pub fn attempt_offset_ticks(last_seen: Instant, now: Instant) -> (r: i128)
    ensures
        r == attempt_offset(last_seen, now),
{
    last_seen.ticks as i128 - now.ticks as i128
}

/// Changing the one entry of `number` in place is what `with_state` says.
proof fn lemma_update_is_with_state(
    entries: Seq<(u32, TrainState)>,
    i: int,
    change: spec_fn(TrainState) -> TrainState,
)
    requires
        unique_numbers(entries),
        0 <= i < entries.len(),
    ensures
        entries.update(i, (entries[i].0, change(entries[i].1))) == with_state(
            entries,
            entries[i].0,
            change,
        ),
{
    let number = entries[i].0;
    let a = entries.update(i, (number, change(entries[i].1)));
    let b = with_state(entries, number, change);
    assert forall|k: int| 0 <= k < entries.len() implies #[trigger] a[k] == b[k] by {
        if k < i {
            assert(entries[k].0 != entries[i].0);
        } else if k > i {
            assert(entries[i].0 != entries[k].0);
        }
    }
    assert(a =~= b);
}

/// Changing the state of a number that has no entry changes nothing.
proof fn lemma_with_state_absent(
    entries: Seq<(u32, TrainState)>,
    number: u32,
    change: spec_fn(TrainState) -> TrainState,
)
    requires
        !has_number(entries, number),
    ensures
        with_state(entries, number, change) == entries,
{
    assert(with_state(entries, number, change) =~= entries);
}

/// One more entry adds at most its own number.
proof fn lemma_numbers_take(
    entries: Seq<(u32, TrainState)>,
    n: int,
    pick: spec_fn(TrainState) -> bool,
)
    requires
        0 <= n < entries.len(),
    ensures
        numbers_where(entries.take(n + 1), pick) == if pick(entries[n].1) {
            numbers_where(entries.take(n), pick).push(entries[n].0)
        } else {
            numbers_where(entries.take(n), pick)
        },
{
    assert(entries.take(n + 1).drop_last() =~= entries.take(n));
    assert(entries.take(n + 1).last() == entries[n]);
}

/// Later entries only add numbers at the end.
proof fn lemma_numbers_prefix(
    entries: Seq<(u32, TrainState)>,
    n: int,
    pick: spec_fn(TrainState) -> bool,
)
    requires
        0 <= n <= entries.len(),
    ensures
        numbers_where(entries.take(n), pick).len() <= numbers_where(entries, pick).len(),
        numbers_where(entries, pick).take(numbers_where(entries.take(n), pick).len() as int)
            == numbers_where(entries.take(n), pick),
    decreases entries.len() - n,
{
    if n == entries.len() {
        assert(entries.take(n) =~= entries);
        let all = numbers_where(entries, pick);
        assert(all.take(all.len() as int) =~= all);
    } else {
        lemma_numbers_prefix(entries, n + 1, pick);
        lemma_numbers_take(entries, n, pick);
        let all = numbers_where(entries, pick);
        let a = numbers_where(entries.take(n), pick);
        let b = numbers_where(entries.take(n + 1), pick);
        assert(all.take(b.len() as int) == b);
        assert(all.take(a.len() as int) =~= b.take(a.len() as int));
        assert(b.take(a.len() as int) =~= a);
    }
}

/// A chosen number belongs to an entry that `pick` chose.
proof fn lemma_numbers_witness(
    entries: Seq<(u32, TrainState)>,
    pick: spec_fn(TrainState) -> bool,
    k: int,
) -> (i: int)
    requires
        0 <= k < numbers_where(entries, pick).len(),
    ensures
        0 <= i < entries.len(),
        entries[i].0 == numbers_where(entries, pick)[k],
        pick(entries[i].1),
    decreases entries.len(),
{
    let front = entries.drop_last();
    if pick(entries.last().1) && k == numbers_where(front, pick).len() {
        entries.len() - 1
    } else {
        lemma_numbers_witness(front, pick, k)
    }
}

/// Every entry that `pick` chooses has its number in the list.
proof fn lemma_numbers_complete(
    entries: Seq<(u32, TrainState)>,
    pick: spec_fn(TrainState) -> bool,
    i: int,
)
    requires
        0 <= i < entries.len(),
        pick(entries[i].1),
    ensures
        numbers_where(entries, pick).contains(entries[i].0),
    decreases entries.len(),
{
    let front = entries.drop_last();
    let all = numbers_where(entries, pick);
    if i == entries.len() - 1 {
        assert(all[all.len() - 1] == entries[i].0);
    } else {
        lemma_numbers_complete(front, pick, i);
        let part = numbers_where(front, pick);
        let k = choose|k: int| 0 <= k < part.len() && part[k] == entries[i].0;
        assert(all[k] == entries[i].0);
    }
}

/// Taking one entry out of a list of unique numbers.
proof fn lemma_without(entries: Seq<(u32, TrainState)>, number: u32)
    requires
        unique_numbers(entries),
    ensures
        unique_numbers(without(entries, number)),
        without(entries, number).len() <= entries.len(),
        has_number(entries, number) ==> without(entries, number).len() == entries.len() - 1,
        forall|e: (u32, TrainState)| #[trigger]
            without(entries, number).contains(e) <==> entries.contains(e) && e.0 != number,
{
    let after = without(entries, number);
    if has_number(entries, number) {
        let i = choose|i: int| 0 <= i < entries.len() && (#[trigger] entries[i]).0 == number;
        let last = entries.len() - 1;
        assert forall|k: int| 0 <= k < after.len() implies #[trigger] after[k] == if k == i {
            entries[last]
        } else {
            entries[k]
        } by {}
        assert forall|e: (u32, TrainState)|
            after.contains(e) == (entries.contains(e) && e.0 != number) by {
            if after.contains(e) {
                let k = choose|k: int| 0 <= k < after.len() && after[k] == e;
                let from = if k == i {
                    last
                } else {
                    k
                };
                assert(entries[from] == e);
                if from < i {
                    assert(entries[from].0 != entries[i].0);
                } else {
                    assert(entries[i].0 != entries[from].0);
                }
            }
            if entries.contains(e) && e.0 != number {
                let k = choose|k: int| 0 <= k < entries.len() && entries[k] == e;
                if k == last {
                    assert(after[i] == e);
                } else {
                    assert(after[k] == e);
                }
            }
        }
    } else {
        assert forall|e: (u32, TrainState)| entries.contains(e) implies e.0 != number by {
            let k = choose|k: int| 0 <= k < entries.len() && entries[k] == e;
            assert(entries[k].0 == e.0);
        }
    }
}

/// Taking several entries out leaves exactly the others.
pub proof fn law_without_all_keeps_the_rest(entries: Seq<(u32, TrainState)>, numbers: Seq<u32>)
    requires
        unique_numbers(entries),
    ensures
        unique_numbers(without_all(entries, numbers)),
        without_all(entries, numbers).len() <= entries.len(),
        forall|e: (u32, TrainState)| #[trigger]
            without_all(entries, numbers).contains(e) <==> entries.contains(e) && !numbers.contains(
                e.0,
            ),
    decreases numbers.len(),
{
    if numbers.len() > 0 {
        let front = numbers.drop_last();
        law_without_all_keeps_the_rest(entries, front);
        lemma_without(without_all(entries, front), numbers.last());
        assert forall|n: u32| numbers.contains(n) == (front.contains(n) || n == numbers.last()) by {
            if numbers.contains(n) {
                let k = choose|k: int| 0 <= k < numbers.len() && numbers[k] == n;
                if k < front.len() {
                    assert(front[k] == n);
                }
            }
            if front.contains(n) {
                let k = choose|k: int| 0 <= k < front.len() && front[k] == n;
                assert(numbers[k] == n);
            }
            assert(numbers[numbers.len() - 1] == numbers.last());
        }
    }
}

/// One more entry adds at most its own cell.
proof fn lemma_visible_take(entries: Seq<(u32, TrainState)>, n: int, mode: MapMode)
    requires
        0 <= n < entries.len(),
    ensures
        visible_cells(entries.take(n + 1), mode) == match cell_of(entries[n].1, mode) {
            Some(cell) => visible_cells(entries.take(n), mode).push(cell),
            None => visible_cells(entries.take(n), mode),
        },
        visible_cells(entries.take(n), mode).len() <= n,
    decreases n,
{
    assert(entries.take(n + 1).drop_last() =~= entries.take(n));
    assert(entries.take(n + 1).last() == entries[n]);
    if n > 0 {
        lemma_visible_take(entries, n - 1, mode);
    }
}

impl View for Registry {
    type V = Seq<(u32, TrainState)>;

    closed spec fn view(&self) -> Seq<(u32, TrainState)> {
        train_entries(self.map)
    }
}

impl Default for Registry {
    fn default() -> (r: Registry)
        ensures
            r.wf(),
            r@ == Seq::<(u32, TrainState)>::empty(),
    {
        Registry::new()
    }
}

impl Registry {
    /// Each number occurs once, and the map is within its capacity.
    pub open spec fn wf(&self) -> bool {
        unique_numbers(self@) && self@.len() <= MAX_TRAINS
    }

    pub fn new() -> (r: Registry)
        ensures
            r.wf(),
            r@ == Seq::<(u32, TrainState)>::empty(),
    {
        Registry { map: map_new() }
    }

    pub fn len(&self) -> (r: usize)
        ensures
            r == self@.len(),
    {
        map_len(&self.map)
    }

    pub fn is_empty(&self) -> (r: bool)
        ensures
            r == (self@.len() == 0),
    {
        map_len(&self.map) == 0
    }

    /// Every train and its state, in the order in which the registry is walked.
    pub fn entries(&self) -> (r: Vec<(u32, TrainState)>)
        ensures
            r@ == self@,
    {
        map_entries(&self.map)
    }

    /// Insert or refresh `number`. Returns `true` if the train was not in the
    /// registry (the caller should enqueue an enrichment fetch). When the
    /// registry is full a new train is left out until capacity frees up.
    pub fn upsert(&mut self, number: u32, pixel: PixelCoord, now: Instant) -> (r: bool)
        requires
            old(self).wf(),
        ensures
            final(self).wf(),
            r == !has_number(old(self)@, number),
            final(self)@ == upserted(old(self)@, number, pixel, now),
    {
        let ghost before = self@;
        let ghost change = |s: TrainState| seen_again(s, pixel, now);
        match map_get_mut(&mut self.map, number) {
            Some(state) => {
                let ghost was = *state;
                // The stored attempt offsets are relative to `last_seen`. When
                // `last_seen` advances, every offset grows by as much, so that
                // the attempts stay anchored in time.
                let delta: i128 = now.ticks as i128 - state.last_seen.ticks as i128;
                state.last_type_attempt_ago = bump_attempt_ago(state.last_type_attempt_ago, delta);
                state.last_service_attempt_ago = bump_attempt_ago(
                    state.last_service_attempt_ago,
                    delta,
                );
                state.pixel = pixel;
                state.last_seen = now;
                proof {
                    assert(*state == change(was));
                    let i = choose|i: int|
                        0 <= i < before.len() && #[trigger] before[i] == (number, was);
                    lemma_update_is_with_state(before, i, change);
                }
                false
            },
            None => {
                let _ = map_insert(&mut self.map, number, TrainState::new(pixel, now));
                true
            },
        }
    }

    /// Record an enrichment result for `number`. Always stamps the type
    /// attempt, so that unresolved trains (passed as [`TrainType::Unknown`])
    /// sit on the type-fetch cooldown. A number that is not in the registry is
    /// ignored.
    pub fn set_type(&mut self, number: u32, typ: TrainType, now: Instant)
        requires
            old(self).wf(),
        ensures
            final(self).wf(),
            final(self)@ == with_state(old(self)@, number, |s: TrainState| typed(s, typ, now)),
    {
        let ghost before = self@;
        let ghost change = |s: TrainState| typed(s, typ, now);
        match map_get_mut(&mut self.map, number) {
            Some(state) => {
                let ghost was = *state;
                state.typ = typ;
                state.last_type_attempt_ago = attempt_offset_ticks(state.last_seen, now);
                proof {
                    assert(*state == change(was));
                    let i = choose|i: int|
                        0 <= i < before.len() && #[trigger] before[i] == (number, was);
                    lemma_update_is_with_state(before, i, change);
                }
            },
            None => {
                proof {
                    lemma_with_state_absent(before, number, change);
                }
            },
        }
    }

    /// Record a service-category enrichment result for `number`. Stamps the
    /// service attempt regardless of outcome, separate from the type cooldown
    /// so the two phases don't gate each other.
    pub fn set_service(&mut self, number: u32, service: ServiceType, now: Instant)
        requires
            old(self).wf(),
        ensures
            final(self).wf(),
            final(self)@ == with_state(
                old(self)@,
                number,
                |s: TrainState| serviced(s, service, now),
            ),
    {
        let ghost before = self@;
        let ghost change = |s: TrainState| serviced(s, service, now);
        match map_get_mut(&mut self.map, number) {
            Some(state) => {
                let ghost was = *state;
                state.service = service;
                state.last_service_attempt_ago = attempt_offset_ticks(state.last_seen, now);
                proof {
                    assert(*state == change(was));
                    let i = choose|i: int|
                        0 <= i < before.len() && #[trigger] before[i] == (number, was);
                    lemma_update_is_with_state(before, i, change);
                }
            },
            None => {
                proof {
                    lemma_with_state_absent(before, number, change);
                }
            },
        }
    }

    /// Drop entries last seen before `cutoff`. Returns the eviction count. At
    /// most [`EVICT_BATCH`] per call to bound the time spent under lock.
    pub fn evict_older_than(&mut self, cutoff: Instant) -> (r: usize)
        requires
            old(self).wf(),
        ensures
            final(self).wf(),
            r == victims(old(self)@, cutoff).len(),
            final(self)@ == without_all(old(self)@, victims(old(self)@, cutoff)),
    {
        let ghost pick = |s: TrainState| stale(s, cutoff);
        let ghost before = self@;
        let entries = map_entries(&self.map);
        let mut to_remove: NumberBuf<EVICT_BATCH> = NumberBuf::new();
        proof {
            assert(before.take(before.len() as int) =~= before);
        }
        let mut i: usize = 0;
        while i < entries.len()
            invariant_except_break
                to_remove@ == numbers_where(before.take(i as int), pick),
            invariant
                before.take(before.len() as int) == before,
                i <= entries.len(),
                entries@ == before,
                pick == (|s: TrainState| stale(s, cutoff)),
                to_remove.wf(),
            ensures
                to_remove@ == at_most(numbers_where(before, pick), EVICT_BATCH as nat),
            decreases entries.len() - i,
        {
            proof {
                lemma_numbers_take(before, i as int, pick);
                lemma_numbers_prefix(before, i as int, pick);
                lemma_numbers_prefix(before, i + 1, pick);
            }
            if entries[i].1.last_seen.is_before(cutoff) {
                if to_remove.push(entries[i].0).is_err() {
                    break;
                }
            }
            i = i + 1;
        }
        let leaving = to_remove.as_slice();
        let mut k: usize = 0;
        while k < leaving.len()
            invariant
                k <= leaving@.len(),
                unique_numbers(before),
                before.len() <= MAX_TRAINS,
                self@ == without_all(before, leaving@.take(k as int)),
            decreases leaving.len() - k,
        {
            proof {
                let front = leaving@.take(k as int);
                law_without_all_keeps_the_rest(before, front);
                assert(leaving@.take(k + 1).drop_last() =~= front);
                assert(leaving@.take(k + 1).last() == leaving@[k as int]);
            }
            let ghost was = self@;
            let gone = map_remove(&mut self.map, leaving[k]);
            proof {
                let number = leaving@[k as int];
                if gone is Some {
                    let i = choose|i: int|
                        #![trigger was[i]]
                        0 <= i < was.len() && was[i] == (number, gone->0) && self@ == swap_removed(
                            was,
                            i,
                        );
                    assert(was[i].0 == number);
                    let j = choose|j: int| 0 <= j < was.len() && (#[trigger] was[j]).0 == number;
                    assert(i == j);
                }
            }
            k = k + 1;
        }
        proof {
            assert(leaving@.take(k as int) =~= leaving@);
            law_without_all_keeps_the_rest(before, leaving@);
        }
        to_remove.len()
    }

    /// Number of entries whose type is unknown, and number of those whose
    /// service is.
    pub fn unknown_count(&self) -> (r: (usize, usize))
        ensures
            r.0 == numbers_where(self@, |s: TrainState| unknown_on(s, UnknownAxis::Type)).len(),
            r.1 == numbers_where(self@, |s: TrainState| unknown_on(s, UnknownAxis::Service)).len(),
    {
        let ghost pick_t = |s: TrainState| unknown_on(s, UnknownAxis::Type);
        let ghost pick_s = |s: TrainState| unknown_on(s, UnknownAxis::Service);
        let entries = map_entries(&self.map);
        let mut t: usize = 0;
        let mut s: usize = 0;
        let mut i: usize = 0;
        while i < entries.len()
            invariant
                t <= i <= entries@.len(),
                s <= i,
                entries@ == self@,
                pick_t == (|s: TrainState| unknown_on(s, UnknownAxis::Type)),
                pick_s == (|s: TrainState| unknown_on(s, UnknownAxis::Service)),
                t == numbers_where(self@.take(i as int), pick_t).len(),
                s == numbers_where(self@.take(i as int), pick_s).len(),
            decreases entries.len() - i,
        {
            proof {
                lemma_numbers_take(self@, i as int, pick_t);
                lemma_numbers_take(self@, i as int, pick_s);
            }
            if entries[i].1.typ == TrainType::Unknown {
                t = t + 1;
            }
            if entries[i].1.service == ServiceType::Unknown {
                s = s + 1;
            }
            i = i + 1;
        }
        proof {
            assert(self@.take(i as int) =~= self@);
        }
        (t, s)
    }

    /// Fill `buf` with up to `N` train numbers currently marked unknown for
    /// the given axis. Replaces any previous contents of `buf`.
    pub fn unknown_numbers<const N: usize>(&self, buf: &mut NumberBuf<N>, axis: UnknownAxis)
        ensures
            final(buf).wf(),
            final(buf)@ == at_most(
                numbers_where(self@, |s: TrainState| unknown_on(s, axis)),
                N as nat,
            ),
    {
        let ghost pick = |s: TrainState| unknown_on(s, axis);
        let entries = map_entries(&self.map);
        buf.clear();
        proof {
            assert(self@.take(self@.len() as int) =~= self@);
        }
        let mut i: usize = 0;
        while i < entries.len()
            invariant_except_break
                buf@ == numbers_where(self@.take(i as int), pick),
            invariant
                self@.take(self@.len() as int) == self@,
                i <= entries.len(),
                entries@ == self@,
                pick == (|s: TrainState| unknown_on(s, axis)),
                buf.wf(),
            ensures
                buf@ == at_most(numbers_where(self@, pick), N as nat),
            decreases entries.len() - i,
        {
            proof {
                lemma_numbers_take(self@, i as int, pick);
                lemma_numbers_prefix(self@, i as int, pick);
                lemma_numbers_prefix(self@, i + 1, pick);
            }
            let is_unknown = match axis {
                UnknownAxis::Type => entries[i].1.typ == TrainType::Unknown,
                UnknownAxis::Service => entries[i].1.service == ServiceType::Unknown,
            };
            if is_unknown {
                if buf.push(entries[i].0).is_err() {
                    break;
                }
            }
            i = i + 1;
        }
    }

    /// Whether no train that would be asked about on `axis` again was last seen
    /// after `now`. The queries for pending trains need it.
    pub fn seen_by(&self, axis: UnknownAxis, now: Instant) -> (r: bool)
        ensures
            r == retries_seen_by(self@, axis, now),
    {
        let entries = map_entries(&self.map);
        let mut i: usize = 0;
        while i < entries.len()
            invariant
                i <= entries.len(),
                entries@ == self@,
                retries_seen_by(self@.take(i as int), axis, now),
            decreases entries.len() - i,
        {
            let state: TrainState = entries[i].1;
            let (accepted, ago) = Self::on_axis(&state, axis);
            if accepted && ago != TrainState::ATTEMPT_NEVER && now.is_before(state.last_seen) {
                assert(self@[i as int].1 == state);
                return false;
            }
            proof {
                let more = self@.take(i + 1);
                assert forall|k: int|
                    0 <= k < more.len() && wanted((#[trigger] more[k]).1, axis) && attempt_ago(
                        more[k].1,
                        axis,
                    ) != TrainState::ATTEMPT_NEVER implies more[k].1.last_seen.ticks
                    <= now.ticks by {
                    if k < i {
                        assert(self@.take(i as int)[k] == more[k]);
                    }
                }
            }
            i = i + 1;
        }
        assert(self@.take(i as int) =~= self@);
        true
    }

    /// Fill `buf` with up to `N` train numbers whose type is unknown and whose
    /// last type-fetch attempt is at least `cooldown` old at `now`. Replaces
    /// any previous contents of `buf`.
    pub fn pending_enrichment<const N: usize>(
        &self,
        buf: &mut NumberBuf<N>,
        cooldown: Duration,
        now: Instant,
    )
        requires
            retries_seen_by(self@, UnknownAxis::Type, now),
        ensures
            final(buf).wf(),
            final(buf)@ == at_most(
                numbers_where(
                    self@,
                    |s: TrainState| pending(s, UnknownAxis::Type, cooldown, now),
                ),
                N as nat,
            ),
    {
        self.collect_pending(buf, cooldown, now, UnknownAxis::Type)
    }

    /// Like [`Registry::pending_enrichment`], but for the service category:
    /// only trains whose type is already resolved (skipping likely-invalid
    /// numbers), whose service is unknown, and whose last service-fetch
    /// attempt is at least `cooldown` old at `now`.
    pub fn pending_service_enrichment<const N: usize>(
        &self,
        buf: &mut NumberBuf<N>,
        cooldown: Duration,
        now: Instant,
    )
        requires
            retries_seen_by(self@, UnknownAxis::Service, now),
        ensures
            final(buf).wf(),
            final(buf)@ == at_most(
                numbers_where(
                    self@,
                    |s: TrainState| pending(s, UnknownAxis::Service, cooldown, now),
                ),
                N as nat,
            ),
    {
        self.collect_pending(buf, cooldown, now, UnknownAxis::Service)
    }

    fn collect_pending<const N: usize>(
        &self,
        buf: &mut NumberBuf<N>,
        cooldown: Duration,
        now: Instant,
        axis: UnknownAxis,
    )
        requires
            retries_seen_by(self@, axis, now),
        ensures
            final(buf).wf(),
            final(buf)@ == at_most(
                numbers_where(self@, |s: TrainState| pending(s, axis, cooldown, now)),
                N as nat,
            ),
    {
        let ghost pick = |s: TrainState| pending(s, axis, cooldown, now);
        let entries = map_entries(&self.map);
        let cooldown_s: u64 = cooldown.as_secs();
        buf.clear();
        proof {
            assert(self@.take(self@.len() as int) =~= self@);
        }
        let mut i: usize = 0;
        while i < entries.len()
            invariant_except_break
                buf@ == numbers_where(self@.take(i as int), pick),
            invariant
                self@.take(self@.len() as int) == self@,
                i <= entries.len(),
                entries@ == self@,
                retries_seen_by(self@, axis, now),
                cooldown_s == cooldown.secs(),
                cooldown_s <= u64::MAX / TICK_HZ,
                pick == (|s: TrainState| pending(s, axis, cooldown, now)),
                buf.wf(),
            ensures
                buf@ == at_most(numbers_where(self@, pick), N as nat),
            decreases entries.len() - i,
        {
            proof {
                lemma_numbers_take(self@, i as int, pick);
                lemma_numbers_prefix(self@, i as int, pick);
                lemma_numbers_prefix(self@, i + 1, pick);
                assert(entries@[i as int] == self@[i as int]);
            }
            let (number, state) = entries[i];
            if Self::is_due(&state, axis, cooldown_s, now) {
                if buf.push(number).is_err() {
                    break;
                }
            }
            i = i + 1;
        }
    }

    /// Whether `axis` of one train is worth fetching, and the stored offset of
    /// the last attempt on it.
    fn on_axis(state: &TrainState, axis: UnknownAxis) -> (r: (bool, i128))
        ensures
            r == (wanted(*state, axis), attempt_ago(*state, axis)),
    {
        match axis {
            UnknownAxis::Type => (state.typ == TrainType::Unknown, state.last_type_attempt_ago),
            UnknownAxis::Service => (
                state.typ != TrainType::Unknown && state.service == ServiceType::Unknown,
                state.last_service_attempt_ago,
            ),
        }
    }

    /// Whether one train is due for a fetch on `axis`.
    fn is_due(state: &TrainState, axis: UnknownAxis, cooldown_s: u64, now: Instant) -> (r: bool)
        requires
            wanted(*state, axis) && attempt_ago(*state, axis) != TrainState::ATTEMPT_NEVER
                ==> state.last_seen.ticks <= now.ticks,
            cooldown_s <= u64::MAX / TICK_HZ,
        ensures
            r == (wanted(*state, axis) && (attempt_ago(*state, axis) == TrainState::ATTEMPT_NEVER
                || seconds_since_attempt(*state, axis, now) >= cooldown_s)),
    {
        let (accepted, ago) = Self::on_axis(state, axis);
        if !accepted {
            return false;
        }
        if ago == TrainState::ATTEMPT_NEVER {
            return true;
        }
        // Time since the attempt = (now - last_seen) + offset.
        let since_seen: u64 = now.duration_since(state.last_seen).ticks;
        let since_attempt: i128 = bump_attempt_ago(ago, since_seen as i128);
        since_attempt >= (cooldown_s * TICK_HZ) as i128
    }

    /// Rebuild the on-screen cluster snapshot for `mode` into `out`, replacing
    /// its contents. Walks every train that the mode shows, sorts by display
    /// pixel, then collapses same-pixel entries by OR-ing their masks. The
    /// caller owns the buffer so the display can read it without holding the
    /// registry lock.
    pub fn rebuild_clusters_into(&self, out: &mut ClusterVec, mode: MapMode)
        requires
            self.wf(),
        ensures
            is_clusters_of(cluster_cells(*final(out)), visible_cells(self@, mode)),
    {
        let entries = map_entries(&self.map);
        cells_clear(out);
        let mut i: usize = 0;
        while i < entries.len()
            invariant
                i <= entries.len(),
                entries@ == self@,
                self@.len() <= MAX_TRAINS,
                cluster_cells(*out) == visible_cells(self@.take(i as int), mode),
            decreases entries.len() - i,
        {
            proof {
                lemma_visible_take(self@, i as int, mode);
            }
            let state: TrainState = entries[i].1;
            if let Some(shown) = canvas_to_display(state.pixel, mode) {
                let mut cell = PixelData::from(&state);
                cell.coord_key = shown.as_u16();
                let _ = cells_push(out, cell);
            }
            i = i + 1;
        }
        proof {
            assert(self@.take(i as int) =~= self@);
        }
        collapse(out);
    }
}

/// The state that `entries` hold for `number`.
pub open spec fn state_of(entries: Seq<(u32, TrainState)>, number: u32) -> Option<TrainState> {
    if has_number(entries, number) {
        Some(
            entries[choose|i: int| 0 <= i < entries.len() && (#[trigger] entries[i]).0
                == number].1,
        )
    } else {
        None
    }
}

/// In a list of unique numbers, an entry is what `state_of` finds.
proof fn lemma_state_of(entries: Seq<(u32, TrainState)>, i: int)
    requires
        unique_numbers(entries),
        0 <= i < entries.len(),
    ensures
        state_of(entries, entries[i].0) == Some(entries[i].1),
{
    let number = entries[i].0;
    assert(has_number(entries, number));
    let j = choose|j: int| 0 <= j < entries.len() && (#[trigger] entries[j]).0 == number;
    if i < j {
        assert(entries[i].0 != entries[j].0);
    } else if j < i {
        assert(entries[j].0 != entries[i].0);
    }
}

/// A change to one train changes that train and no other.
pub proof fn law_change_touches_one_train(
    entries: Seq<(u32, TrainState)>,
    number: u32,
    change: spec_fn(TrainState) -> TrainState,
    other: u32,
)
    requires
        unique_numbers(entries),
    ensures
        unique_numbers(with_state(entries, number, change)),
        state_of(with_state(entries, number, change), other) == match state_of(entries, other) {
            Some(state) => Some(
                if other == number {
                    change(state)
                } else {
                    state
                },
            ),
            None => None,
        },
{
    let after = with_state(entries, number, change);
    assert forall|i: int, j: int| 0 <= i < j < after.len() implies (#[trigger] after[i]).0 != (
    #[trigger] after[j]).0 by {
        assert(entries[i].0 != entries[j].0);
    }
    if has_number(entries, other) {
        let i = choose|i: int| 0 <= i < entries.len() && (#[trigger] entries[i]).0 == other;
        assert(after[i].0 == other);
        lemma_state_of(entries, i);
        lemma_state_of(after, i);
    } else if has_number(after, other) {
        let i = choose|i: int| 0 <= i < after.len() && (#[trigger] after[i]).0 == other;
        assert(entries[i].0 == other);
    }
}

/// A new train is in the registry with what is known of it, and the trains
/// that were there are unchanged.
pub proof fn law_new_train_is_stored(
    entries: Seq<(u32, TrainState)>,
    number: u32,
    state: TrainState,
    other: u32,
)
    requires
        unique_numbers(entries),
        !has_number(entries, number),
    ensures
        unique_numbers(entries.push((number, state))),
        state_of(entries.push((number, state)), other) == if other == number {
            Some(state)
        } else {
            state_of(entries, other)
        },
{
    let after = entries.push((number, state));
    assert forall|i: int, j: int| 0 <= i < j < after.len() implies (#[trigger] after[i]).0 != (
    #[trigger] after[j]).0 by {
        assert(entries[i].0 == after[i].0);
        if j < entries.len() {
            assert(entries[i].0 != entries[j].0);
        }
    }
    if other == number {
        assert(after[entries.len() as int].0 == number);
        lemma_state_of(after, entries.len() as int);
    } else if has_number(entries, other) {
        let i = choose|i: int| 0 <= i < entries.len() && (#[trigger] entries[i]).0 == other;
        assert(after[i].0 == other);
        lemma_state_of(entries, i);
        lemma_state_of(after, i);
    } else if has_number(after, other) {
        let i = choose|i: int| 0 <= i < after.len() && (#[trigger] after[i]).0 == other;
        assert(i < entries.len());
        assert(entries[i].0 == other);
    }
}

/// The trains that one eviction pass takes out.
pub open spec fn victims(entries: Seq<(u32, TrainState)>, cutoff: Instant) -> Seq<u32> {
    at_most(numbers_where(entries, |s: TrainState| stale(s, cutoff)), EVICT_BATCH as nat)
}

/// A pass evicts stale trains only.
pub proof fn law_eviction_spares_fresh_trains(
    entries: Seq<(u32, TrainState)>,
    cutoff: Instant,
    i: int,
)
    requires
        unique_numbers(entries),
        0 <= i < entries.len(),
        !stale(entries[i].1, cutoff),
    ensures
        without_all(entries, victims(entries, cutoff)).contains(entries[i]),
{
    let pick = |s: TrainState| stale(s, cutoff);
    let gone = victims(entries, cutoff);
    law_without_all_keeps_the_rest(entries, gone);
    assert(!gone.contains(entries[i].0)) by {
        if gone.contains(entries[i].0) {
            let k = choose|k: int| 0 <= k < gone.len() && gone[k] == entries[i].0;
            assert(numbers_where(entries, pick)[k] == gone[k]);
            let j = lemma_numbers_witness(entries, pick, k);
            if i < j {
                assert(entries[i].0 != entries[j].0);
            } else if j < i {
                assert(entries[j].0 != entries[i].0);
            }
        }
    }
    assert(entries.contains(entries[i]));
}

/// A pass that does not hit its limit leaves no stale train behind.
pub proof fn law_eviction_is_complete_below_the_limit(
    entries: Seq<(u32, TrainState)>,
    cutoff: Instant,
    i: int,
)
    requires
        unique_numbers(entries),
        victims(entries, cutoff).len() < EVICT_BATCH,
        0 <= i < without_all(entries, victims(entries, cutoff)).len(),
    ensures
        !stale(without_all(entries, victims(entries, cutoff))[i].1, cutoff),
{
    let pick = |s: TrainState| stale(s, cutoff);
    let gone = victims(entries, cutoff);
    let after = without_all(entries, gone);
    law_without_all_keeps_the_rest(entries, gone);
    assert(after.contains(after[i]));
    if stale(after[i].1, cutoff) {
        let k = choose|k: int| 0 <= k < entries.len() && entries[k] == after[i];
        lemma_numbers_complete(entries, pick, k);
    }
}

/// Whether the last attempt on `axis` was made at `at`.
pub open spec fn asked_at(state: TrainState, axis: UnknownAxis, at: Instant) -> bool {
    attempt_ago(state, axis) == state.last_seen.ticks - at.ticks
}

/// A result records when it was asked for, whether that was before or after the
/// train was last seen.
pub proof fn law_results_record_the_attempt(
    state: TrainState,
    typ: TrainType,
    service: ServiceType,
    now: Instant,
)
    ensures
        asked_at(typed(state, typ, now), UnknownAxis::Type, now),
        asked_at(serviced(state, service, now), UnknownAxis::Service, now),
{
}

/// When a train is seen again, the time of its last attempt stays where it was.
pub proof fn law_attempts_stay_anchored(
    state: TrainState,
    axis: UnknownAxis,
    at: Instant,
    pixel: PixelCoord,
    now: Instant,
)
    requires
        asked_at(state, axis, at),
    ensures
        asked_at(seen_again(state, pixel, now), axis, at),
{
}

/// A train that was never asked about stays so, and one that was never counts
/// as "never" again, however long ago it was.
pub proof fn law_seeing_again_keeps_never(state: TrainState, pixel: PixelCoord, now: Instant)
    ensures
        state.last_type_attempt_ago == TrainState::ATTEMPT_NEVER <==> seen_again(
            state,
            pixel,
            now,
        ).last_type_attempt_ago == TrainState::ATTEMPT_NEVER,
        state.last_service_attempt_ago == TrainState::ATTEMPT_NEVER <==> seen_again(
            state,
            pixel,
            now,
        ).last_service_attempt_ago == TrainState::ATTEMPT_NEVER,
{
}

/// The state of a train after it was seen again several times.
pub open spec fn seen_often(
    state: TrainState,
    sightings: Seq<(PixelCoord, Instant)>,
) -> TrainState
    decreases sightings.len(),
{
    if sightings.len() == 0 {
        state
    } else {
        seen_again(
            seen_often(state, sightings.drop_last()),
            sightings.last().0,
            sightings.last().1,
        )
    }
}

/// Seeing a train again changes neither when it was asked about nor whether that
/// is wanted.
proof fn lemma_seen_often(
    state: TrainState,
    axis: UnknownAxis,
    at: Instant,
    sightings: Seq<(PixelCoord, Instant)>,
)
    requires
        asked_at(state, axis, at),
    ensures
        asked_at(seen_often(state, sightings), axis, at),
        wanted(seen_often(state, sightings), axis) == wanted(state, axis),
    decreases sightings.len(),
{
    if sightings.len() > 0 {
        lemma_seen_often(state, axis, at, sightings.drop_last());
    }
}

/// A fetch that gave nothing puts the train on the cooldown of its axis: it is
/// not due again until `cooldown` has passed since the fetch, and is due from
/// then on, however often it is seen in between.
pub proof fn law_failed_fetch_starts_cooldown(
    state: TrainState,
    fetched: Instant,
    sightings: Seq<(PixelCoord, Instant)>,
    cooldown: Duration,
    now: Instant,
)
    requires
        fetched.ticks <= now.ticks,
    ensures
        pending(
            seen_often(typed(state, TrainType::Unknown, fetched), sightings),
            UnknownAxis::Type,
            cooldown,
            now,
        ) <==> seconds_between(fetched, now) >= cooldown.secs(),
        state.typ != TrainType::Unknown ==> (pending(
            seen_often(serviced(state, ServiceType::Unknown, fetched), sightings),
            UnknownAxis::Service,
            cooldown,
            now,
        ) <==> seconds_between(fetched, now) >= cooldown.secs()),
{
    let no_type = typed(state, TrainType::Unknown, fetched);
    let no_service = serviced(state, ServiceType::Unknown, fetched);
    lemma_seen_often(no_type, UnknownAxis::Type, fetched, sightings);
    lemma_seen_often(no_service, UnknownAxis::Service, fetched, sightings);
}

/// A train that was asked about less than `cooldown` ago is not listed for
/// another fetch.
pub proof fn law_resting_trains_are_not_listed(
    entries: Seq<(u32, TrainState)>,
    i: int,
    axis: UnknownAxis,
    at: Instant,
    cooldown: Duration,
    now: Instant,
    cap: nat,
)
    requires
        unique_numbers(entries),
        0 <= i < entries.len(),
        asked_at(entries[i].1, axis, at),
        at.ticks <= now.ticks,
        seconds_between(at, now) < cooldown.secs(),
    ensures
        !at_most(
            numbers_where(entries, |s: TrainState| pending(s, axis, cooldown, now)),
            cap,
        ).contains(entries[i].0),
{
    let pick = |s: TrainState| pending(s, axis, cooldown, now);
    let listed = at_most(numbers_where(entries, pick), cap);
    if listed.contains(entries[i].0) {
        let k = choose|k: int| 0 <= k < listed.len() && listed[k] == entries[i].0;
        assert(numbers_where(entries, pick)[k] == listed[k]);
        let j = lemma_numbers_witness(entries, pick, k);
        if i < j {
            assert(entries[i].0 != entries[j].0);
        } else if j < i {
            assert(entries[j].0 != entries[i].0);
        }
    }
}

/// The two axes do not gate each other: recording a result on one leaves the
/// cooldown of the other alone.
pub proof fn law_axes_are_independent(
    state: TrainState,
    typ: TrainType,
    service: ServiceType,
    fetched: Instant,
    cooldown: Duration,
    now: Instant,
)
    ensures
        rested(typed(state, typ, fetched), UnknownAxis::Service, cooldown, now) == rested(
            state,
            UnknownAxis::Service,
            cooldown,
            now,
        ),
        rested(serviced(state, service, fetched), UnknownAxis::Type, cooldown, now) == rested(
            state,
            UnknownAxis::Type,
            cooldown,
            now,
        ),
{
}

/// A resolved train is never asked about again on that axis.
pub proof fn law_resolved_trains_are_left_alone(
    state: TrainState,
    axis: UnknownAxis,
    cooldown: Duration,
    now: Instant,
)
    requires
        !unknown_on(state, axis),
    ensures
        !pending(state, axis, cooldown, now),
{
}

/// Every train that the mode shows adds its own cell.
proof fn lemma_visible_contains(entries: Seq<(u32, TrainState)>, mode: MapMode, i: int)
    requires
        0 <= i < entries.len(),
        cell_of(entries[i].1, mode) is Some,
    ensures
        visible_cells(entries, mode).contains(cell_of(entries[i].1, mode)->0),
    decreases entries.len(),
{
    let all = visible_cells(entries, mode);
    if i == entries.len() - 1 {
        assert(all[all.len() - 1] == cell_of(entries[i].1, mode)->0);
    } else {
        let part = visible_cells(entries.drop_last(), mode);
        lemma_visible_contains(entries.drop_last(), mode, i);
        let k = choose|k: int| 0 <= k < part.len() && part[k] == cell_of(entries[i].1, mode)->0;
        assert(all[k] == part[k]);
    }
}

/// The snapshot shows every visible train: there is a cell on its display
/// pixel, and the bits of its type and service are in that cell.
pub proof fn law_snapshot_shows_every_visible_train(
    entries: Seq<(u32, TrainState)>,
    mode: MapMode,
    snapshot: Seq<PixelData>,
    i: int,
)
    requires
        is_clusters_of(snapshot, visible_cells(entries, mode)),
        0 <= i < entries.len(),
        cell_of(entries[i].1, mode) is Some,
    ensures
        exists|j: int|
            0 <= j < snapshot.len() && (#[trigger] snapshot[j]).coord_key == (cell_of(
                entries[i].1,
                mode,
            )->0).coord_key && snapshot[j].types & entries[i].1.typ.bit() != 0
                && snapshot[j].services & entries[i].1.service.bit() != 0,
{
    let cells = visible_cells(entries, mode);
    let cell = cell_of(entries[i].1, mode)->0;
    lemma_visible_contains(entries, mode, i);
    let k = choose|k: int| 0 <= k < cells.len() && cells[k] == cell;
    assert(has_cell(snapshot, cells[k].coord_key));
    let j = choose|j: int| 0 <= j < snapshot.len() && (#[trigger] snapshot[j]).coord_key
        == cell.coord_key;
    law_type_bits_are_disjoint(entries[i].1.typ, entries[i].1.typ);
    law_service_bits_are_disjoint(entries[i].1.service, entries[i].1.service);
    law_mask_bits_come_from_cells(cells, cell.coord_key, entries[i].1.typ.bit());
    law_mask_bits_come_from_cells(cells, cell.coord_key, entries[i].1.service.bit());
    assert(cells[k].types & entries[i].1.typ.bit() != 0);
    assert(cells[k].services & entries[i].1.service.bit() != 0);
}

/// There are no more visible trains than trains.
proof fn lemma_visible_len(entries: Seq<(u32, TrainState)>, mode: MapMode)
    ensures
        visible_cells(entries, mode).len() <= entries.len(),
    decreases entries.len(),
{
    if entries.len() > 0 {
        lemma_visible_len(entries.drop_last(), mode);
    }
}

/// The snapshot never holds more cells than there are trains.
pub proof fn law_snapshot_fits(
    entries: Seq<(u32, TrainState)>,
    mode: MapMode,
    snapshot: Seq<PixelData>,
)
    requires
        is_clusters_of(snapshot, visible_cells(entries, mode)),
    ensures
        snapshot.len() <= entries.len(),
{
    let cells = visible_cells(entries, mode);
    let key = |c: PixelData| c.coord_key;
    let lit = snapshot.map_values(key);
    let touched = cells.map_values(key);
    lemma_visible_len(entries, mode);
    lit.unique_seq_to_set();
    touched.lemma_cardinality_of_set();
    assert forall|k: u16| lit.to_set().contains(k) implies touched.to_set().contains(k) by {
        let j = choose|j: int| 0 <= j < lit.len() && lit[j] == k;
        assert(has_cell(cells, snapshot[j].coord_key));
        let i = choose|i: int| 0 <= i < cells.len() && (#[trigger] cells[i]).coord_key == k;
        assert(touched[i] == k);
    }
    vstd::set_lib::lemma_len_subset(lit.to_set(), touched.to_set());
}

/// A visible cell belongs to a train.
proof fn lemma_visible_witness(entries: Seq<(u32, TrainState)>, mode: MapMode, k: int) -> (i: int)
    requires
        0 <= k < visible_cells(entries, mode).len(),
    ensures
        0 <= i < entries.len(),
        cell_of(entries[i].1, mode) == Some(visible_cells(entries, mode)[k]),
    decreases entries.len(),
{
    let front = entries.drop_last();
    if cell_of(entries.last().1, mode) is Some && k == visible_cells(front, mode).len() {
        entries.len() - 1
    } else {
        lemma_visible_witness(front, mode, k)
    }
}

/// The snapshot shows nothing but trains: each type that a pixel carries is
/// that of a train on this pixel, and so is each service.
pub proof fn law_snapshot_shows_only_trains(
    entries: Seq<(u32, TrainState)>,
    mode: MapMode,
    snapshot: Seq<PixelData>,
    j: int,
    b: u8,
)
    requires
        is_clusters_of(snapshot, visible_cells(entries, mode)),
        0 <= j < snapshot.len(),
    ensures
        snapshot[j].types & b != 0 ==> exists|i: int|
            0 <= i < entries.len() && (cell_of((#[trigger] entries[i]).1, mode) matches Some(cell)
                && cell.coord_key == snapshot[j].coord_key && cell.types & b != 0),
        snapshot[j].services & b != 0 ==> exists|i: int|
            0 <= i < entries.len() && (cell_of((#[trigger] entries[i]).1, mode) matches Some(cell)
                && cell.coord_key == snapshot[j].coord_key && cell.services & b != 0),
{
    let cells = visible_cells(entries, mode);
    let key = snapshot[j].coord_key;
    law_mask_bits_come_from_cells(cells, key, b);
    if snapshot[j].types & b != 0 {
        let k = choose|k: int|
            0 <= k < cells.len() && (#[trigger] cells[k]).coord_key == key && cells[k].types & b
                != 0;
        let i = lemma_visible_witness(entries, mode, k);
        assert(cell_of(entries[i].1, mode) == Some(cells[k]));
    }
    if snapshot[j].services & b != 0 {
        let k = choose|k: int|
            0 <= k < cells.len() && (#[trigger] cells[k]).coord_key == key && cells[k].services & b
                != 0;
        let i = lemma_visible_witness(entries, mode, k);
        assert(cell_of(entries[i].1, mode) == Some(cells[k]));
    }
}

/// A listing holds the numbers of exactly the trains that are chosen, each at its
/// turn.
pub proof fn law_listing_is_a_filter(
    entries: Seq<(u32, TrainState)>,
    pick: spec_fn(TrainState) -> bool,
)
    ensures
        numbers_where(entries, pick) == entries.filter(
            |e: (u32, TrainState)| pick(e.1),
        ).map_values(|e: (u32, TrainState)| e.0),
    decreases entries.len(),
{
    reveal(Seq::filter);
    let chosen = |e: (u32, TrainState)| pick(e.1);
    let number = |e: (u32, TrainState)| e.0;
    if entries.len() > 0 {
        law_listing_is_a_filter(entries.drop_last(), pick);
        assert(numbers_where(entries, pick) =~= entries.filter(chosen).map_values(number));
    } else {
        assert(numbers_where(entries, pick) =~= entries.filter(chosen).map_values(number));
    }
}

/// No train is listed twice.
proof fn lemma_listed_once(
    entries: Seq<(u32, TrainState)>,
    pick: spec_fn(TrainState) -> bool,
)
    requires
        unique_numbers(entries),
    ensures
        numbers_where(entries, pick).no_duplicates(),
    decreases entries.len(),
{
    if entries.len() > 0 {
        let front = entries.drop_last();
        assert(unique_numbers(front)) by {
            assert forall|i: int, j: int| 0 <= i < j < front.len() implies (
            #[trigger] front[i]).0 != (#[trigger] front[j]).0 by {
                assert(entries[i].0 != entries[j].0);
            }
        }
        lemma_listed_once(front, pick);
        let part = numbers_where(front, pick);
        if pick(entries.last().1) {
            assert forall|k: int| 0 <= k < part.len() implies #[trigger] part[k]
                != entries.last().0 by {
                let i = lemma_numbers_witness(front, pick, k);
                assert(entries[i].0 != entries[entries.len() - 1].0);
            }
        }
    }
}

/// Taking out trains that are there leaves as many fewer.
proof fn lemma_without_all_len(entries: Seq<(u32, TrainState)>, numbers: Seq<u32>)
    requires
        unique_numbers(entries),
        numbers.no_duplicates(),
        forall|k: int| 0 <= k < numbers.len() ==> has_number(entries, #[trigger] numbers[k]),
    ensures
        without_all(entries, numbers).len() == entries.len() - numbers.len(),
    decreases numbers.len(),
{
    if numbers.len() > 0 {
        let front = numbers.drop_last();
        let last = numbers.last();
        assert forall|k: int| 0 <= k < front.len() implies has_number(
            entries,
            #[trigger] front[k],
        ) by {
            assert(front[k] == numbers[k]);
        }
        lemma_without_all_len(entries, front);
        law_without_all_keeps_the_rest(entries, front);
        let left = without_all(entries, front);
        lemma_without(left, last);
        assert(has_number(entries, numbers[numbers.len() - 1]));
        let i = choose|i: int| 0 <= i < entries.len() && (#[trigger] entries[i]).0 == last;
        assert(!front.contains(last)) by {
            if front.contains(last) {
                let k = choose|k: int| 0 <= k < front.len() && front[k] == last;
                assert(numbers[k] == numbers[numbers.len() - 1]);
            }
        }
        assert(entries.contains(entries[i]));
        assert(left.contains(entries[i]));
        let j = choose|j: int| 0 <= j < left.len() && left[j] == entries[i];
        assert(left[j].0 == last);
    }
}

/// Only the time when a train was last seen decides whether it is evicted, not
/// what is known of it or where it is. A pass takes out those last seen before
/// the cutoff, in their order and 64 at most, and no other; when it takes out
/// fewer, none of them is left.
pub proof fn law_eviction_goes_by_time(entries: Seq<(u32, TrainState)>, cutoff: Instant)
    requires
        unique_numbers(entries),
    ensures
        ({
            let old = entries.filter(
                |e: (u32, TrainState)| e.1.last_seen.ticks < cutoff.ticks,
            );
            let gone = victims(entries, cutoff);
            let after = without_all(entries, gone);
            &&& gone.len() == if old.len() <= 64 {
                old.len()
            } else {
                64
            }
            &&& forall|k: int| 0 <= k < gone.len() ==> #[trigger] gone[k] == old[k].0
            &&& after.len() == entries.len() - gone.len()
            &&& gone.len() < 64 ==> forall|i: int|
                0 <= i < after.len() ==> (#[trigger] after[i]).1.last_seen.ticks >= cutoff.ticks
            &&& forall|i: int|
                0 <= i < entries.len() && (#[trigger] entries[i]).1.last_seen.ticks >= cutoff.ticks
                    ==> after.contains(entries[i])
        }),
{
    let pick = |s: TrainState| stale(s, cutoff);
    let before = |e: (u32, TrainState)| e.1.last_seen.ticks < cutoff.ticks;
    let gone = victims(entries, cutoff);
    let after = without_all(entries, gone);
    let all = numbers_where(entries, pick);
    law_listing_is_a_filter(entries, pick);
    assert((|e: (u32, TrainState)| pick(e.1)) =~= before);
    assert forall|k: int| 0 <= k < gone.len() implies #[trigger] gone[k] == entries.filter(
        before,
    )[k].0 by {
        assert(gone[k] == all[k]);
    }
    lemma_listed_once(entries, pick);
    assert(gone.no_duplicates()) by {
        assert forall|i: int, j: int| 0 <= i < gone.len() && 0 <= j < gone.len() && i
            != j implies gone[i] != gone[j] by {
            assert(gone[i] == all[i] && gone[j] == all[j]);
        }
    }
    assert forall|k: int| 0 <= k < gone.len() implies has_number(entries, #[trigger] gone[k]) by {
        assert(gone[k] == all[k]);
        let i = lemma_numbers_witness(entries, pick, k);
        assert(entries[i].0 == gone[k]);
    }
    lemma_without_all_len(entries, gone);
    if gone.len() < 64 {
        assert forall|i: int| 0 <= i < after.len() implies (
        #[trigger] after[i]).1.last_seen.ticks >= cutoff.ticks by {
            law_eviction_is_complete_below_the_limit(entries, cutoff, i);
        }
    }
    assert forall|i: int|
        0 <= i < entries.len() && (
        #[trigger] entries[i]).1.last_seen.ticks >= cutoff.ticks implies after.contains(
        entries[i],
    ) by {
        law_eviction_spares_fresh_trains(entries, cutoff, i);
    }
}

/// A train that is seen is in the registry at the pixel and time of this
/// sighting, unless it is new and there is no room for one more than 512. What
/// was known of its type and service stays; of a new train neither is known, and
/// neither was asked for. No other train changes, comes or goes.
pub proof fn law_upsert_moves_one_train(
    entries: Seq<(u32, TrainState)>,
    number: u32,
    pixel: PixelCoord,
    now: Instant,
    other: u32,
)
    requires
        unique_numbers(entries),
    ensures
        ({
            let after = upserted(entries, number, pixel, now);
            &&& unique_numbers(after)
            &&& other != number ==> state_of(after, other) == state_of(entries, other)
            &&& match (state_of(entries, number), state_of(after, number)) {
                (Some(was), Some(is)) => is.pixel == pixel && is.last_seen == now && is.typ
                    == was.typ && is.service == was.service,
                (None, Some(is)) => entries.len() < 512 && is.pixel == pixel && is.last_seen == now
                    && is.typ == TrainType::Unknown && is.service == ServiceType::Unknown
                    && is.last_type_attempt_ago == TrainState::ATTEMPT_NEVER
                    && is.last_service_attempt_ago == TrainState::ATTEMPT_NEVER,
                (None, None) => entries.len() >= 512,
                (Some(_), None) => false,
            }
            &&& after.len() == entries.len() + if state_of(entries, number) is None
                && entries.len() < 512 {
                1int
            } else {
                0int
            }
        }),
{
    if has_number(entries, number) {
        let change = |s: TrainState| seen_again(s, pixel, now);
        law_change_touches_one_train(entries, number, change, other);
        law_change_touches_one_train(entries, number, change, number);
    } else if entries.len() < 512 {
        let fresh = TrainState::fresh(pixel, now);
        law_new_train_is_stored(entries, number, fresh, other);
        law_new_train_is_stored(entries, number, fresh, number);
    }
}

/// A result on one axis sets that axis and leaves alone the other, the position
/// and the time when the train was last seen.
pub proof fn law_results_set_one_axis(
    state: TrainState,
    typ: TrainType,
    service: ServiceType,
    now: Instant,
)
    ensures
        ({
            let s = typed(state, typ, now);
            &&& s.typ == typ
            &&& s.service == state.service
            &&& s.last_service_attempt_ago == state.last_service_attempt_ago
            &&& s.pixel == state.pixel
            &&& s.last_seen == state.last_seen
            &&& s.last_seen.ticks - s.last_type_attempt_ago == now.ticks
        }),
        ({
            let s = serviced(state, service, now);
            &&& s.service == service
            &&& s.typ == state.typ
            &&& s.last_type_attempt_ago == state.last_type_attempt_ago
            &&& s.pixel == state.pixel
            &&& s.last_seen == state.last_seen
            &&& s.last_seen.ticks - s.last_service_attempt_ago == now.ticks
        }),
{
}

/// When a fetch is due: for the type, when it is unknown; for the service, when
/// it is unknown and the type is not; and in either case when none was made yet,
/// or the last one lies at least the whole seconds of `cooldown` back.
pub proof fn law_when_a_fetch_is_due(state: TrainState, cooldown: Duration, now: Instant)
    ensures
        pending(state, UnknownAxis::Type, cooldown, now) <==> state.typ == TrainType::Unknown && (
        state.last_type_attempt_ago == TrainState::ATTEMPT_NEVER || now.ticks - (
        state.last_seen.ticks - state.last_type_attempt_ago) >= (cooldown.ticks as int / 1_000_000)
            * 1_000_000),
        pending(state, UnknownAxis::Service, cooldown, now) <==> state.typ != TrainType::Unknown
            && state.service == ServiceType::Unknown && (state.last_service_attempt_ago
            == TrainState::ATTEMPT_NEVER || now.ticks - (state.last_seen.ticks
            - state.last_service_attempt_ago) >= (cooldown.ticks as int / 1_000_000) * 1_000_000),
{
}

/// How many trains have an unknown type, and how many an unknown service, and
/// which.
pub proof fn law_unknown_trains_are_listed(entries: Seq<(u32, TrainState)>)
    ensures
        numbers_where(
            entries,
            |s: TrainState| unknown_on(s, UnknownAxis::Type),
        ) == entries.filter(|e: (u32, TrainState)| e.1.typ == TrainType::Unknown).map_values(
            |e: (u32, TrainState)| e.0,
        ),
        numbers_where(
            entries,
            |s: TrainState| unknown_on(s, UnknownAxis::Service),
        ) == entries.filter(
            |e: (u32, TrainState)| e.1.service == ServiceType::Unknown,
        ).map_values(|e: (u32, TrainState)| e.0),
{
    let by_type = |s: TrainState| unknown_on(s, UnknownAxis::Type);
    let by_service = |s: TrainState| unknown_on(s, UnknownAxis::Service);
    law_listing_is_a_filter(entries, by_type);
    law_listing_is_a_filter(entries, by_service);
    assert((|e: (u32, TrainState)| by_type(e.1)) =~= (|e: (u32, TrainState)|
        e.1.typ == TrainType::Unknown));
    assert((|e: (u32, TrainState)| by_service(e.1)) =~= (|e: (u32, TrainState)|
        e.1.service == ServiceType::Unknown));
}

/// Where a train is lit: in the country view on every pixel of the canvas, at two
/// sevenths of its coordinates; in the Randstad view within a window of 64 by 64
/// pixels from (62, 73) on. It carries the bits of its own type and service,
/// whatever these are.
pub proof fn law_where_a_train_is_lit(state: TrainState, mode: MapMode)
    ensures
        cell_of(state, mode) is Some <==> match mode {
            MapMode::Netherlands => state.pixel.x < 224 && state.pixel.y < 224,
            MapMode::Randstad => 62 <= state.pixel.x < 126 && 73 <= state.pixel.y < 137,
        },
        cell_of(state, mode) matches Some(cell) ==> cell.types == state.typ.bit() && cell.services
            == state.service.bit() && cell.coord_key == match mode {
            MapMode::Netherlands => (2 * state.pixel.x / 7) * 256 + 2 * state.pixel.y / 7,
            MapMode::Randstad => (state.pixel.x - 62) * 256 + (state.pixel.y - 73),
        },
{
}

/// A listing is no longer than the registry.
pub proof fn law_listing_is_short(
    entries: Seq<(u32, TrainState)>,
    pick: spec_fn(TrainState) -> bool,
)
    ensures
        numbers_where(entries, pick).len() <= entries.len(),
    decreases entries.len(),
{
    if entries.len() > 0 {
        law_listing_is_short(entries.drop_last(), pick);
    }
}

/// A train that is chosen is listed.
pub proof fn law_listed_when_chosen(
    entries: Seq<(u32, TrainState)>,
    pick: spec_fn(TrainState) -> bool,
    i: int,
)
    requires
        0 <= i < entries.len(),
        pick(entries[i].1),
    ensures
        numbers_where(entries, pick).contains(entries[i].0),
{
    lemma_numbers_complete(entries, pick, i);
}

} // verus!
