//! From a message of the train-position feed to the registry.
//!
//! Each incoming message is decompressed, parsed, and applied to the registry.
//! Newly-seen train numbers are reported, so that they can be enriched.
use vstd::prelude::*;
use vstd::utf8::{decode_utf8, valid_utf8};
use crate::clusters::is_clusters_of;
use crate::decompress::{inflated, Decompressor, Error};
use crate::display::{publish_snapshot, ClusterExchange};
use crate::gzip::header_len;
use crate::map_mode::MapMode;
use crate::projection::PixelCoord;
use crate::registry::{
    law_eviction_goes_by_time, law_eviction_spares_fresh_trains, law_upsert_moves_one_train,
    numbers_where, state_of, unique_numbers, unknown_on, upserted, victims, visible_cells,
    without_all, Registry, UnknownAxis,
};
use crate::schema::{sightings, Sighting, Train};
use crate::text::is_valid_prefix_len;
use crate::time::{Duration, Instant, TICK_HZ};
use crate::train::TrainState;
use crate::train_map::{has_number, MAX_TRAINS};
use crate::xml_parser::{parse, trains_in, walk_start, xml_tokens};

verus! {

/// Seconds after which a train that was not seen is dropped from the registry.
pub const STALE_AFTER_S: u64 = 300;

/// Largest frame that is accepted from the feed.
pub const ZMQ_FRAME_CAP: usize = 65536;

/// Largest document that a message is decompressed into.
pub const XML_BUF_LEN: usize = 409600;

/// Why a message was skipped.
#[derive(Debug, Clone, Copy, PartialEq, Eq, Structural)]
pub enum FeedError {
    /// It has this many frames; the payload is the second one.
    FrameCount(usize),
    /// Its payload could not be decompressed.
    Decompress(Error),
}

/// The frame of a message that holds the payload.
pub fn payload(frames: &Vec<Vec<u8>>) -> (r: Result<&Vec<u8>, FeedError>)
    ensures
        match r {
            Ok(frame) => frames@.len() >= 2 && frame@ == frames@[1]@,
            Err(e) => frames@.len() < 2 && e == FeedError::FrameCount(frames@.len() as usize),
        },
{
    if frames.len() < 2 {
        return Err(FeedError::FrameCount(frames.len()));
    }
    Ok(&frames[1])
}

/// `r` is what a payload holds: the trains in the document that it is inflated
/// to in a buffer of `cap` bytes, or the reason why it cannot be.
pub open spec fn is_decoded(
    r: Result<Seq<Sighting>, FeedError>,
    payload: Seq<u8>,
    cap: nat,
) -> bool {
    match header_len(payload) {
        None => r == Err::<Seq<Sighting>, FeedError>(FeedError::Decompress(Error::BadGzipHeader)),
        Some(n) => match inflated(Seq::empty(), payload.skip(n), Seq::empty(), cap) {
            Err(e) => r == Err::<Seq<Sighting>, FeedError>(FeedError::Decompress(e)),
            Ok(bytes) => match r {
                Ok(trains) => valid_utf8(bytes) && trains == trains_in(
                    walk_start(),
                    xml_tokens(decode_utf8(bytes)),
                ),
                Err(FeedError::Decompress(Error::NotUtf8(k))) => !valid_utf8(bytes)
                    && is_valid_prefix_len(bytes, k as int),
                Err(_) => false,
            },
        },
    }
}

/// The trains of a list, or the error.
pub open spec fn decoded_view(r: Result<Vec<Train>, FeedError>) -> Result<
    Seq<Sighting>,
    FeedError,
> {
    match r {
        Ok(trains) => Ok(sightings(trains@)),
        Err(e) => Err(e),
    }
}

/// Decompress the payload of a message and parse it.
pub fn decode_message(decompressor: &mut Decompressor, frames: &Vec<Vec<u8>>) -> (r: Result<
    Vec<Train>,
    FeedError,
>)
    ensures
        final(decompressor).cap() == old(decompressor).cap(),
        if frames@.len() < 2 {
            r == Err::<Vec<Train>, FeedError>(FeedError::FrameCount(frames@.len() as usize))
        } else {
            is_decoded(decoded_view(r), frames@[1]@, old(decompressor).cap())
        },
{
    let body: &Vec<u8> = match payload(frames) {
        Ok(body) => body,
        Err(e) => {
            return Err(e);
        },
    };
    match decompressor.inflate_gzip(body.as_slice()) {
        Ok(xml) => Ok(parse(xml)),
        Err(e) => Err(FeedError::Decompress(e)),
    }
}

/// Where a train was seen.
#[derive(Debug, Clone, Copy, PartialEq, Eq, Structural)]
pub struct Position {
    pub number: u32,
    pub pixel: PixelCoord,
}

/// The registry after a train was seen. A new train is dropped when the
/// registry is full.
pub open spec fn seen(
    entries: Seq<(u32, TrainState)>,
    position: Position,
    now: Instant,
) -> Seq<(u32, TrainState)> {
    upserted(entries, position.number, position.pixel, now)
}

/// The registry after all of `positions` were seen.
pub open spec fn all_seen(
    entries: Seq<(u32, TrainState)>,
    positions: Seq<Position>,
    now: Instant,
) -> Seq<(u32, TrainState)>
    decreases positions.len(),
{
    if positions.len() == 0 {
        entries
    } else {
        seen(all_seen(entries, positions.drop_last(), now), positions.last(), now)
    }
}

/// The trains among `positions` that were not in the registry when they were
/// seen, in order.
pub open spec fn newly_seen(
    entries: Seq<(u32, TrainState)>,
    positions: Seq<Position>,
    now: Instant,
) -> Seq<u32>
    decreases positions.len(),
{
    if positions.len() == 0 {
        Seq::empty()
    } else {
        let before = newly_seen(entries, positions.drop_last(), now);
        if has_number(all_seen(entries, positions.drop_last(), now), positions.last().number) {
            before
        } else {
            before.push(positions.last().number)
        }
    }
}

/// The trains that are dropped as stale at `now`; none in the first
/// [`STALE_AFTER_S`] seconds after boot.
pub open spec fn dropped(entries: Seq<(u32, TrainState)>, now: Instant) -> Seq<u32> {
    if now.ticks < STALE_AFTER_S * TICK_HZ {
        Seq::empty()
    } else {
        victims(entries, Instant { ticks: (now.ticks - STALE_AFTER_S * TICK_HZ) as u64 })
    }
}

/// The registry after a message: stale trains are dropped, then the trains of
/// the message are seen.
pub open spec fn updated(
    entries: Seq<(u32, TrainState)>,
    positions: Seq<Position>,
    now: Instant,
) -> Seq<(u32, TrainState)> {
    all_seen(without_all(entries, dropped(entries, now)), positions, now)
}

/// What a message did.
pub struct Update {
    /// The trains that are new, for the enrichment queue.
    pub new_numbers: Vec<u32>,
    /// How many stale trains were dropped.
    pub evicted: usize,
    /// How many trains the registry holds.
    pub registry_len: usize,
    /// Of how many trains the type, and of how many the service, is unknown.
    pub unknowns: (usize, usize),
    /// Whether a snapshot was handed to the display.
    pub published: bool,
}

/// Apply the trains of a message to the registry, and publish a snapshot.
pub fn apply_message(
    registry: &mut Registry,
    exchange: &mut ClusterExchange,
    positions: &[Position],
    now: Instant,
    mode: MapMode,
) -> (r: Update)
    requires
        old(registry).wf(),
    ensures
        final(registry).wf(),
        final(registry)@ == updated(old(registry)@, positions@, now),
        r.evicted == dropped(old(registry)@, now).len(),
        r.new_numbers@ == newly_seen(
            without_all(old(registry)@, dropped(old(registry)@, now)),
            positions@,
            now,
        ),
        r.registry_len == final(registry)@.len(),
        r.unknowns.0 == numbers_where(
            final(registry)@,
            |s: TrainState| unknown_on(s, UnknownAxis::Type),
        ).len(),
        r.unknowns.1 == numbers_where(
            final(registry)@,
            |s: TrainState| unknown_on(s, UnknownAxis::Service),
        ).len(),
        r.published == old(exchange)@.free is Some,
        !r.published ==> final(exchange)@ == old(exchange)@,
        r.published ==> final(exchange)@.free is None && (final(exchange)@.fresh matches Some(cells)
            && is_clusters_of(cells, visible_cells(final(registry)@, mode))),
{
    let evicted: usize = match now.checked_sub(Duration::from_secs(STALE_AFTER_S)) {
        Some(cutoff) => registry.evict_older_than(cutoff),
        None => 0,
    };
    let ghost start = without_all(old(registry)@, dropped(old(registry)@, now));
    assert(registry@ == start);
    let mut new_numbers: Vec<u32> = Vec::new();
    let mut i: usize = 0;
    assert(positions@.take(0) =~= Seq::empty());
    while i < positions.len()
        invariant
            i <= positions@.len(),
            registry.wf(),
            registry@ == all_seen(start, positions@.take(i as int), now),
            new_numbers@ == newly_seen(start, positions@.take(i as int), now),
        decreases positions@.len() - i,
    {
        let position: Position = positions[i];
        proof {
            assert(positions@.take(i + 1).drop_last() =~= positions@.take(i as int));
            assert(positions@.take(i + 1).last() == position);
        }
        if registry.upsert(position.number, position.pixel, now) {
            new_numbers.push(position.number);
        }
        i = i + 1;
    }
    assert(positions@.take(positions@.len() as int) =~= positions@);
    let published: bool = publish_snapshot(exchange, registry, mode);
    Update {
        new_numbers,
        evicted,
        registry_len: registry.len(),
        unknowns: registry.unknown_count(),
        published,
    }
}

/// Whether train `number` is in the registry with its latest position.
pub open spec fn is_current(
    entries: Seq<(u32, TrainState)>,
    position: Position,
    now: Instant,
) -> bool {
    forall|i: int|
        0 <= i < entries.len() && (#[trigger] entries[i]).0 == position.number
            ==> entries[i].1.pixel == position.pixel && entries[i].1.last_seen == now
}

/// Seeing a train brings its entry up to date and leaves every other entry
/// alone.
pub proof fn law_seeing_updates_one_train(
    entries: Seq<(u32, TrainState)>,
    position: Position,
    now: Instant,
)
    ensures
        is_current(seen(entries, position, now), position, now) || (!has_number(
            entries,
            position.number,
        ) && entries.len() >= MAX_TRAINS),
        entries.len() <= seen(entries, position, now).len(),
        forall|i: int|
            0 <= i < entries.len() && (#[trigger] entries[i]).0 != position.number ==> seen(
                entries,
                position,
                now,
            )[i] == entries[i],
        forall|i: int|
            0 <= i < entries.len() ==> seen(entries, position, now)[i].0 == (
            #[trigger] entries[i]).0,
        has_number(entries, position.number) || entries.len() < MAX_TRAINS ==> has_number(
            seen(entries, position, now),
            position.number,
        ),
{
    let after = seen(entries, position, now);
    if has_number(entries, position.number) {
        let i = choose|i: int|
            0 <= i < entries.len() && (#[trigger] entries[i]).0 == position.number;
        assert(after[i].0 == position.number);
        assert(is_current(after, position, now));
    } else if entries.len() < MAX_TRAINS {
        assert(after[entries.len() as int].0 == position.number);
        assert forall|i: int|
            0 <= i < after.len() && (
            #[trigger] after[i]).0 == position.number implies after[i].1.pixel == position.pixel
            && after[i].1.last_seen == now by {
            if i < entries.len() {
                assert(entries[i].0 == position.number);
            }
        }
        assert(is_current(after, position, now));
    }
}

/// After a message, every train of it that found room in the registry is there
/// with its last position in the message, seen just now.
pub proof fn law_message_brings_trains_up_to_date(
    entries: Seq<(u32, TrainState)>,
    positions: Seq<Position>,
    now: Instant,
    k: int,
)
    requires
        0 <= k < positions.len(),
        forall|j: int| k < j < positions.len() ==> (#[trigger] positions[j]).number
            != positions[k].number,
    ensures
        is_current(all_seen(entries, positions, now), positions[k], now),
    decreases positions.len(),
{
    let front = positions.drop_last();
    let before = all_seen(entries, front, now);
    let after = all_seen(entries, positions, now);
    let last = positions.last();
    law_seeing_updates_one_train(before, last, now);
    if k == positions.len() - 1 {
        if !is_current(after, last, now) {
            assert(after == before);
        }
    } else {
        law_message_brings_trains_up_to_date(entries, front, now, k);
        assert(last.number != positions[k].number);
        assert forall|i: int|
            0 <= i < after.len() && (
            #[trigger] after[i]).0 == positions[k].number implies after[i].1.pixel
            == positions[k].pixel && after[i].1.last_seen == now by {
            if i < before.len() {
                assert(before[i].0 == positions[k].number);
            }
        }
    }
}

/// A train that is reported as new was not in the registry before the message.
pub proof fn law_new_trains_were_absent(
    entries: Seq<(u32, TrainState)>,
    positions: Seq<Position>,
    now: Instant,
    k: int,
)
    requires
        0 <= k < newly_seen(entries, positions, now).len(),
    ensures
        !has_number(entries, newly_seen(entries, positions, now)[k]),
    decreases positions.len(),
{
    let front = positions.drop_last();
    let before = newly_seen(entries, front, now);
    if k < before.len() {
        law_new_trains_were_absent(entries, front, now, k);
    } else {
        lemma_numbers_stay(entries, front, now, positions.last().number);
    }
}

/// Seeing trains takes none out.
proof fn lemma_numbers_stay(
    entries: Seq<(u32, TrainState)>,
    positions: Seq<Position>,
    now: Instant,
    number: u32,
)
    ensures
        has_number(entries, number) ==> has_number(all_seen(entries, positions, now), number),
    decreases positions.len(),
{
    if positions.len() > 0 {
        let front = positions.drop_last();
        let before = all_seen(entries, front, now);
        lemma_numbers_stay(entries, front, now, number);
        law_seeing_updates_one_train(before, positions.last(), now);
        if has_number(before, number) {
            let i = choose|i: int| 0 <= i < before.len() && (#[trigger] before[i]).0 == number;
            assert(all_seen(entries, positions, now)[i].0 == number);
        }
    }
}

/// A train that was seen within the last [`STALE_AFTER_S`] seconds stays in the
/// registry, whatever the message holds.
pub proof fn law_fresh_trains_stay(
    entries: Seq<(u32, TrainState)>,
    positions: Seq<Position>,
    now: Instant,
    i: int,
)
    requires
        unique_numbers(entries),
        0 <= i < entries.len(),
        entries[i].1.last_seen.ticks + STALE_AFTER_S * TICK_HZ >= now.ticks,
    ensures
        has_number(updated(entries, positions, now), entries[i].0),
{
    let kept = without_all(entries, dropped(entries, now));
    let number = entries[i].0;
    if now.ticks < STALE_AFTER_S * TICK_HZ {
        assert(kept[i].0 == number);
    } else {
        let cutoff = Instant { ticks: (now.ticks - STALE_AFTER_S * TICK_HZ) as u64 };
        law_eviction_spares_fresh_trains(entries, cutoff, i);
        let k = choose|k: int| 0 <= k < kept.len() && kept[k] == entries[i];
        assert(kept[k].0 == number);
    }
    assert(has_number(kept, number));
    lemma_numbers_stay(kept, positions, now, number);
}

/// A message drops the trains that were last seen more than five minutes ago, in
/// their order and 64 at most, whatever is known of them; when it drops fewer, no
/// such train is left. A train seen within five minutes is not dropped.
pub proof fn law_stale_trains_are_dropped(entries: Seq<(u32, TrainState)>, now: Instant)
    requires
        unique_numbers(entries),
    ensures
        ({
            let old = entries.filter(
                |e: (u32, TrainState)| e.1.last_seen.ticks + 300_000_000 < now.ticks,
            );
            let gone = dropped(entries, now);
            let kept = without_all(entries, gone);
            &&& gone.len() == if old.len() <= 64 {
                old.len()
            } else {
                64
            }
            &&& forall|k: int| 0 <= k < gone.len() ==> #[trigger] gone[k] == old[k].0
            &&& kept.len() == entries.len() - gone.len()
            &&& gone.len() < 64 ==> forall|i: int|
                0 <= i < kept.len() ==> (#[trigger] kept[i]).1.last_seen.ticks + 300_000_000
                    >= now.ticks
            &&& forall|i: int|
                0 <= i < entries.len() && (#[trigger] entries[i]).1.last_seen.ticks + 300_000_000
                    >= now.ticks ==> kept.contains(entries[i])
        }),
{
    let stale_now = |e: (u32, TrainState)| e.1.last_seen.ticks + 300_000_000 < now.ticks;
    if now.ticks < 300_000_000 {
        lemma_none_chosen(entries, stale_now);
        assert forall|i: int| 0 <= i < entries.len() implies entries.contains(
            #[trigger] entries[i],
        ) by {}
    } else {
        let cutoff = Instant { ticks: (now.ticks - 300_000_000) as u64 };
        law_eviction_goes_by_time(entries, cutoff);
        assert((|e: (u32, TrainState)| e.1.last_seen.ticks < cutoff.ticks) =~= stale_now);
    }
}

/// Where no entry is chosen, none is left of them.
proof fn lemma_none_chosen(
    entries: Seq<(u32, TrainState)>,
    chosen: spec_fn((u32, TrainState)) -> bool,
)
    requires
        forall|i: int| 0 <= i < entries.len() ==> !chosen(#[trigger] entries[i]),
    ensures
        entries.filter(chosen).len() == 0,
    decreases entries.len(),
{
    reveal(Seq::filter);
    if entries.len() > 0 {
        let front = entries.drop_last();
        assert forall|i: int| 0 <= i < front.len() implies !chosen(#[trigger] front[i]) by {
            assert(!chosen(entries[i]));
        }
        lemma_none_chosen(front, chosen);
        assert(!chosen(entries[entries.len() - 1]));
    }
}

/// While there is room, every train of a message is in the registry after it, at
/// its last position in the message and seen just now.
pub proof fn law_message_trains_are_stored(
    entries: Seq<(u32, TrainState)>,
    positions: Seq<Position>,
    now: Instant,
    k: int,
)
    requires
        unique_numbers(entries),
        0 <= k < positions.len(),
        entries.len() + positions.len() <= 512,
        forall|j: int| k < j < positions.len() ==> (#[trigger] positions[j]).number
            != positions[k].number,
    ensures
        state_of(all_seen(entries, positions, now), positions[k].number) matches Some(s) && s.pixel
            == positions[k].pixel && s.last_seen == now,
    decreases positions.len(),
{
    let front = positions.drop_last();
    let before = all_seen(entries, front, now);
    let last = positions.last();
    lemma_all_seen_wf(entries, front, now);
    law_upsert_moves_one_train(before, last.number, last.pixel, now, positions[k].number);
    if k < front.len() {
        assert forall|j: int| k < j < front.len() implies (#[trigger] front[j]).number
            != front[k].number by {
            assert(positions[j].number != positions[k].number);
        }
        law_message_trains_are_stored(entries, front, now, k);
        assert(positions[positions.len() - 1].number != positions[k].number);
    }
}

/// Seeing trains keeps the numbers apart, and adds at most one entry for each.
proof fn lemma_all_seen_wf(
    entries: Seq<(u32, TrainState)>,
    positions: Seq<Position>,
    now: Instant,
)
    requires
        unique_numbers(entries),
    ensures
        unique_numbers(all_seen(entries, positions, now)),
        all_seen(entries, positions, now).len() <= entries.len() + positions.len(),
    decreases positions.len(),
{
    if positions.len() > 0 {
        let front = positions.drop_last();
        let last = positions.last();
        lemma_all_seen_wf(entries, front, now);
        law_upsert_moves_one_train(
            all_seen(entries, front, now),
            last.number,
            last.pixel,
            now,
            last.number,
        );
    }
}

/// A train that is not in a message is as it was before its trains were seen, and
/// what was known of the type and service of one that is stays.
pub proof fn law_message_leaves_the_rest_alone(
    entries: Seq<(u32, TrainState)>,
    positions: Seq<Position>,
    now: Instant,
    number: u32,
)
    requires
        unique_numbers(entries),
    ensures
        (forall|k: int| 0 <= k < positions.len() ==> (#[trigger] positions[k]).number != number)
            ==> state_of(all_seen(entries, positions, now), number) == state_of(entries, number),
        state_of(entries, number) matches Some(was) ==> (state_of(
            all_seen(entries, positions, now),
            number,
        ) matches Some(is) && is.typ == was.typ && is.service == was.service),
    decreases positions.len(),
{
    if positions.len() > 0 {
        let front = positions.drop_last();
        let last = positions.last();
        let before = all_seen(entries, front, now);
        law_message_leaves_the_rest_alone(entries, front, now, number);
        lemma_all_seen_wf(entries, front, now);
        law_upsert_moves_one_train(before, last.number, last.pixel, now, number);
        assert(positions[positions.len() - 1] == last);
        if forall|k: int| 0 <= k < positions.len() ==> (#[trigger] positions[k]).number != number {
            assert forall|k: int| 0 <= k < front.len() implies (#[trigger] front[k]).number
                != number by {
                assert(positions[k].number != number);
            }
        }
    }
}

/// A train of a message that was not in the registry before it is reported as
/// new.
pub proof fn law_absent_trains_are_reported(
    entries: Seq<(u32, TrainState)>,
    positions: Seq<Position>,
    now: Instant,
    k: int,
)
    requires
        0 <= k < positions.len(),
        !has_number(entries, positions[k].number),
    ensures
        newly_seen(entries, positions, now).contains(positions[k].number),
    decreases positions.len(),
{
    let front = positions.drop_last();
    let all = newly_seen(entries, positions, now);
    let part = newly_seen(entries, front, now);
    let number = positions[k].number;
    if k < front.len() {
        law_absent_trains_are_reported(entries, front, now, k);
        let i = choose|i: int| 0 <= i < part.len() && part[i] == number;
        assert(all[i] == number);
    } else if has_number(all_seen(entries, front, now), number) {
        // It came in with an earlier position of the same message.
        let j = lemma_came_with(entries, front, now, number);
        law_absent_trains_are_reported(entries, front, now, j);
        let i = choose|i: int| 0 <= i < part.len() && part[i] == number;
        assert(all[i] == number);
    } else {
        assert(all[all.len() - 1] == number);
    }
}

/// A train that was not there before came with one of the positions.
proof fn lemma_came_with(
    entries: Seq<(u32, TrainState)>,
    positions: Seq<Position>,
    now: Instant,
    number: u32,
) -> (j: int)
    requires
        !has_number(entries, number),
        has_number(all_seen(entries, positions, now), number),
    ensures
        0 <= j < positions.len(),
        positions[j].number == number,
    decreases positions.len(),
{
    let front = positions.drop_last();
    let last = positions.last();
    let before = all_seen(entries, front, now);
    if positions.len() == 0 {
        0
    } else if last.number == number {
        positions.len() - 1
    } else {
        let after = all_seen(entries, positions, now);
        let i = choose|i: int| 0 <= i < after.len() && (#[trigger] after[i]).0 == number;
        law_seeing_updates_one_train(before, last, now);
        assert(i < before.len() ==> before[i].0 == number);
        lemma_came_with(entries, front, now, number)
    }
}

/// What is decoded from a payload: the trains of the document that it is inflated
/// to, if that is a text.
pub proof fn law_payload_is_decoded(
    r: Result<Seq<Sighting>, FeedError>,
    payload: Seq<u8>,
    cap: nat,
    n: int,
    bytes: Seq<u8>,
)
    requires
        is_decoded(r, payload, cap),
        header_len(payload) == Some(n),
        inflated(Seq::empty(), payload.skip(n), Seq::empty(), cap) == Ok::<Seq<u8>, Error>(bytes),
    ensures
        valid_utf8(bytes) ==> r == Ok::<Seq<Sighting>, FeedError>(
            trains_in(walk_start(), xml_tokens(decode_utf8(bytes))),
        ),
        !valid_utf8(bytes) ==> r is Err,
{
}

/// A payload without a gzip header, or one that cannot be inflated, is refused
/// with the reason.
pub proof fn law_bad_payload_is_refused(
    r: Result<Seq<Sighting>, FeedError>,
    payload: Seq<u8>,
    cap: nat,
)
    requires
        is_decoded(r, payload, cap),
    ensures
        header_len(payload) is None ==> r == Err::<Seq<Sighting>, FeedError>(
            FeedError::Decompress(Error::BadGzipHeader),
        ),
        header_len(payload) matches Some(n) ==> (inflated(
            Seq::empty(),
            payload.skip(n),
            Seq::empty(),
            cap,
        ) matches Err(e) ==> r == Err::<Seq<Sighting>, FeedError>(FeedError::Decompress(e))),
{
}

/// While there is room, a new train is reported once, however often it is in the
/// message.
pub proof fn law_new_trains_are_reported_once(
    entries: Seq<(u32, TrainState)>,
    positions: Seq<Position>,
    now: Instant,
)
    requires
        unique_numbers(entries),
        entries.len() + positions.len() <= 512,
    ensures
        newly_seen(entries, positions, now).no_duplicates(),
        forall|k: int|
            0 <= k < newly_seen(entries, positions, now).len() ==> has_number(
                all_seen(entries, positions, now),
                #[trigger] newly_seen(entries, positions, now)[k],
            ),
    decreases positions.len(),
{
    if positions.len() > 0 {
        let front = positions.drop_last();
        let last = positions.last();
        let before = all_seen(entries, front, now);
        let after = all_seen(entries, positions, now);
        let part = newly_seen(entries, front, now);
        let all = newly_seen(entries, positions, now);
        law_new_trains_are_reported_once(entries, front, now);
        lemma_all_seen_wf(entries, front, now);
        law_seeing_updates_one_train(before, last, now);
        assert forall|k: int| 0 <= k < all.len() implies has_number(after, #[trigger] all[k]) by {
            if k < part.len() {
                assert(all[k] == part[k]);
                assert(has_number(before, part[k]));
                let i = choose|i: int| 0 <= i < before.len() && (#[trigger] before[i]).0 == part[k];
                assert(after[i].0 == part[k]);
            }
        }
        if !has_number(before, last.number) {
            assert forall|k: int| 0 <= k < part.len() implies #[trigger] part[k] != last.number by {
                assert(has_number(before, part[k]));
            }
        }
    }
}

} // verus!
