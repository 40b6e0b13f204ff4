//! Enrichment of the registry from the NS API.
//!
//! Each round drains the new-train queue into a pair of pending-work buffers,
//! one per request kind, or else fills them with retry candidates from the
//! registry. The two axes (train type and service category) are tracked
//! independently, and the buffers are sized to each endpoint's actual cost.
//!
//! A round opens one connection and reuses it for every request: first the
//! type batch, in chunks of [`BATCH_MAX`] numbers per request, then the service
//! batch, one request per train.
//!
//! - **Type**: `GET /virtual-train-api/v1/trein?ids=N1,N2,...`
//! - **Service**: `GET /reisinformatie-api/api/v2/journey?train=N`
//!
//! Both kinds apply their result to the registry; a cluster snapshot is
//! published once the whole batch is processed.
use vstd::prelude::*;
use crate::number_buf::{at_most, NumberBuf};
use crate::registry::{
    asked_at, law_listed_when_chosen, law_listing_is_short, law_resting_trains_are_not_listed,
    numbers_where, pending, retries_seen_by, serviced, typed, unique_numbers, with_state, Registry,
    UnknownAxis,
};
use crate::text::{
    chars_of, decimal, is_word, law_trimming_keeps_the_middle, push_decimal, same_text, spells,
    text_in, trim, trimmed, utf8_text, white_space,
};
use crate::time::{Duration, Instant, TICK_HZ};
use crate::train::{ServiceType, TrainState, TrainType};
use vstd::utf8::{decode_utf8, valid_utf8};

verus! {

/// How many new-train notifications can wait.
pub const QUEUE_CAPACITY: usize = 64;

/// Type requests coalesce up to [`BATCH_MAX`] numbers per call, so a larger
/// buffer is cheap.
pub const TYPE_BUFFER_CAP: usize = 32;

/// Service requests are one per call against a large endpoint, so the buffer is
/// kept small to bound the latency of a round.
pub const SERVICE_BUFFER_CAP: usize = 4;

/// Most train numbers per type request.
pub const BATCH_MAX: usize = 8;

/// Milliseconds after a wake-up to let the registry settle before sweeping.
pub const COALESCE_MS: u64 = 100;

/// Seconds to the next round even if no new-train notification arrives: picks
/// up trains dropped from the queue under load and retries failed or missing
/// entries.
pub const SWEEP_INTERVAL_S: u64 = 2;

/// Seconds to pause after a failure; avoids hammering the gateway when
/// something is broken.
pub const FAILURE_BACKOFF_S: u64 = 10;

/// Minimum seconds between two attempts for the same train number. Trains whose
/// info the API never returns, or returns in a form that cannot be read, sit on
/// this cooldown instead of being asked for again in every round.
pub const RETRY_COOLDOWN_S: u64 = 120;

/// Most stops of a journey that are read.
pub const MAX_STOPS: usize = 64;

/// Most departures, and most arrivals, per stop that are read.
pub const MAX_EVENTS: usize = 4;

/// Most type records that are read from one response.
pub const MAX_INFOS: usize = 40;

/// One record of a type response.
#[derive(Debug)]
pub struct TrainInfo {
    pub number: u32,
    pub train_type: Option<String>,
}

/// One stop of a journey.
#[derive(Debug)]
pub struct JourneyStop {
    pub departures: Vec<JourneyEvent>,
    pub arrivals: Vec<JourneyEvent>,
}

/// One departure or arrival.
#[derive(Debug)]
pub struct JourneyEvent {
    pub product: Option<JourneyProduct>,
}

/// What runs on a journey.
#[derive(Debug)]
pub struct JourneyProduct {
    pub category_code: Option<String>,
}

/// Why a request gave no result.
#[derive(Debug, PartialEq, Eq)]
pub enum FetchError<E> {
    /// The client failed.
    Http(E),
    /// The server refused with this status.
    HttpStatus(u16),
    /// The response is not text.
    InvalidUtf8,
    /// The response cannot be parsed.
    Json,
}

/// The service category that a code stands for.
pub open spec fn category(code: Seq<char>) -> ServiceType {
    if code == "SPR"@ {
        ServiceType::Sprinter
    } else if code == "IC"@ {
        ServiceType::Intercity
    } else if code == "ICD"@ || code == "ECD"@ {
        ServiceType::IntercityDirect
    } else {
        ServiceType::Unknown
    }
}

pub fn map_category_code(code: &str) -> (r: ServiceType)
    ensures
        r == category(code@),
{
    if same_text(code, "SPR") {
        ServiceType::Sprinter
    } else if same_text(code, "IC") {
        ServiceType::Intercity
    } else if same_text(code, "ICD") || same_text(code, "ECD") {
        ServiceType::IntercityDirect
    } else {
        ServiceType::Unknown
    }
}

/// Where the subtype suffix starts: at the first dash or space at or after `i`,
/// or at the end.
pub open spec fn suffix_from(s: Seq<char>, i: int) -> int
    decreases s.len() - i,
{
    if i < 0 || i >= s.len() || s[i] == '-' || s[i] == ' ' {
        i
    } else {
        suffix_from(s, i + 1)
    }
}

/// The name without its subtype suffix, such as "VIRM" in "VIRM-VI".
pub open spec fn head_of(s: Seq<char>) -> Seq<char> {
    s.take(suffix_from(s, 0))
}

/// The type that a name stands for, in any case.
pub open spec fn type_named(name: Seq<char>) -> TrainType {
    if spells(name, 0, seq!['s', 'n', 'g']) {
        TrainType::SNG
    } else if spells(name, 0, seq!['s', 'l', 't']) {
        TrainType::SLT
    } else if spells(name, 0, seq!['f', 'l', 'i', 'r', 't']) {
        TrainType::Flirt
    } else if spells(name, 0, seq!['i', 'c', 'm']) {
        TrainType::ICM
    } else if spells(name, 0, seq!['d', 'd', 'z']) || spells(name, 0, seq!['d', 'd', 'a', 'r']) {
        TrainType::DDZ
    } else if spells(name, 0, seq!['v', 'i', 'r', 'm']) {
        TrainType::VIRM
    } else if spells(name, 0, seq!['i', 'c', 'n', 'g']) {
        TrainType::ICNG
    } else {
        TrainType::Unknown
    }
}

/// The type that a record gives: its text is trimmed, and the subtype suffix is
/// ignored.
pub open spec fn type_of(s: Option<Seq<char>>) -> TrainType {
    match s {
        Some(text) => type_named(head_of(trimmed(text))),
        None => TrainType::Unknown,
    }
}

/// The text in an optional slice.
pub open spec fn str_in(s: Option<&str>) -> Option<Seq<char>> {
    match s {
        Some(t) => Some(t@),
        None => None,
    }
}

/// The API returns mixed-case strings like "Flirt", "VIRM-VI", "ICM-III".
pub fn map_train_type(s: Option<&str>) -> (r: TrainType)
    ensures
        r == type_of(str_in(s)),
{
    match s {
        None => TrainType::Unknown,
        Some(text) => {
            let chars = chars_of(trim(text));
            let mut end: usize = 0;
            while end < chars.len() && chars[end] != '-' && chars[end] != ' '
                invariant
                    end <= chars@.len(),
                    suffix_from(chars@, 0) == suffix_from(chars@, end as int),
                decreases chars@.len() - end,
            {
                end = end + 1;
            }
            let head: &[char] = &chars.as_slice()[0..end];
            assert(head@ =~= head_of(trimmed(text@)));
            if is_word(head, 0, &['s', 'n', 'g']) {
                TrainType::SNG
            } else if is_word(head, 0, &['s', 'l', 't']) {
                TrainType::SLT
            } else if is_word(head, 0, &['f', 'l', 'i', 'r', 't']) {
                TrainType::Flirt
            } else if is_word(head, 0, &['i', 'c', 'm']) {
                TrainType::ICM
            } else if is_word(head, 0, &['d', 'd', 'z']) || is_word(
                head,
                0,
                &['d', 'd', 'a', 'r'],
            ) {
                TrainType::DDZ
            } else if is_word(head, 0, &['v', 'i', 'r', 'm']) {
                TrainType::VIRM
            } else if is_word(head, 0, &['i', 'c', 'n', 'g']) {
                TrainType::ICNG
            } else {
                TrainType::Unknown
            }
        },
    }
}

/// The category code of an event, if it has one.
pub open spec fn event_code(event: JourneyEvent) -> Option<Seq<char>> {
    match event.product {
        Some(product) => match product.category_code {
            Some(code) => Some(code@),
            None => None,
        },
        None => None,
    }
}

/// The events of a journey: for each stop its departures, then its arrivals.
pub open spec fn events_of(stops: Seq<JourneyStop>) -> Seq<JourneyEvent>
    decreases stops.len(),
{
    if stops.len() == 0 {
        Seq::empty()
    } else {
        events_of(stops.drop_last()) + stops.last().departures@ + stops.last().arrivals@
    }
}

/// The first category code among some events.
pub open spec fn first_code(events: Seq<JourneyEvent>) -> Option<Seq<char>>
    decreases events.len(),
{
    if events.len() == 0 {
        None
    } else {
        match first_code(events.drop_last()) {
            Some(code) => Some(code),
            None => event_code(events.last()),
        }
    }
}

/// The service category of a journey: that of the first code, or unknown.
pub open spec fn journey_service(stops: Seq<JourneyStop>) -> ServiceType {
    match first_code(events_of(stops)) {
        Some(code) => category(code),
        None => ServiceType::Unknown,
    }
}

/// The first code of two rows of events.
proof fn lemma_first_code_joins(a: Seq<JourneyEvent>, b: Seq<JourneyEvent>)
    ensures
        first_code(a + b) == match first_code(a) {
            Some(code) => Some(code),
            None => first_code(b),
        },
    decreases b.len(),
{
    if b.len() == 0 {
        assert(a + b =~= a);
    } else {
        lemma_first_code_joins(a, b.drop_last());
        assert((a + b).drop_last() =~= a + b.drop_last());
        assert((a + b).last() == b.last());
    }
}

/// The first category code among some events.
fn find_code(events: &Vec<JourneyEvent>) -> (r: Option<&String>)
    ensures
        match r {
            Some(code) => first_code(events@) == Some(code@),
            None => first_code(events@) is None,
        },
{
    let mut i: usize = 0;
    assert(events@.take(0) =~= Seq::empty());
    while i < events.len()
        invariant
            i <= events@.len(),
            first_code(events@.take(i as int)) is None,
        decreases events@.len() - i,
    {
        proof {
            assert(events@.take(i + 1).drop_last() =~= events@.take(i as int));
            assert(events@.take(i + 1).last() == events@[i as int]);
            lemma_first_code_joins(events@.take(i + 1), events@.skip(i + 1));
            assert(events@.take(i + 1) + events@.skip(i + 1) =~= events@);
        }
        if let Some(product) = &events[i].product {
            if let Some(code) = &product.category_code {
                return Some(code);
            }
        }
        i = i + 1;
    }
    assert(events@.take(events@.len() as int) =~= events@);
    None
}

/// The service category of a journey. The first category code found while
/// walking the stops (departures first, then arrivals) wins.
pub fn service_of(stops: &[JourneyStop]) -> (r: ServiceType)
    ensures
        r == journey_service(stops@),
{
    let mut i: usize = 0;
    assert(stops@.take(0) =~= Seq::empty());
    while i < stops.len()
        invariant
            i <= stops@.len(),
            first_code(events_of(stops@.take(i as int))) is None,
        decreases stops@.len() - i,
    {
        let ghost before = events_of(stops@.take(i as int));
        let ghost stop = stops@[i as int];
        proof {
            assert(stops@.take(i + 1).drop_last() =~= stops@.take(i as int));
            assert(stops@.take(i + 1).last() == stop);
            lemma_first_code_joins(before, stop.departures@);
            lemma_first_code_joins(before + stop.departures@, stop.arrivals@);
        }
        if let Some(code) = find_code(&stops[i].departures) {
            proof {
                lemma_first_code_is_kept(stops@, i + 1);
            }
            return map_category_code(code.as_str());
        }
        if let Some(code) = find_code(&stops[i].arrivals) {
            proof {
                lemma_first_code_is_kept(stops@, i + 1);
            }
            return map_category_code(code.as_str());
        }
        i = i + 1;
    }
    assert(stops@.take(stops@.len() as int) =~= stops@);
    ServiceType::Unknown
}

/// A code that was found stays the first one, whatever stops follow.
proof fn lemma_first_code_is_kept(stops: Seq<JourneyStop>, n: int)
    requires
        0 <= n <= stops.len(),
        first_code(events_of(stops.take(n))) is Some,
    ensures
        first_code(events_of(stops)) == first_code(events_of(stops.take(n))),
    decreases stops.len() - n,
{
    if n == stops.len() {
        assert(stops.take(n) =~= stops);
    } else {
        let front = stops.take(n);
        let longer = stops.take(n + 1);
        assert(longer.drop_last() =~= front);
        lemma_first_code_joins(events_of(front), longer.last().departures@);
        lemma_first_code_joins(
            events_of(front) + longer.last().departures@,
            longer.last().arrivals@,
        );
        lemma_first_code_is_kept(stops, n + 1);
    }
}

/// Train numbers with commas in between.
pub open spec fn joined(numbers: Seq<u32>) -> Seq<char>
    decreases numbers.len(),
{
    if numbers.len() == 0 {
        Seq::empty()
    } else if numbers.len() == 1 {
        decimal(numbers[0] as nat)
    } else {
        joined(numbers.drop_last()).push(',') + decimal(numbers.last() as nat)
    }
}

/// The path of a type request for up to [`BATCH_MAX`] trains.
pub fn types_path(batch: &[u32]) -> (r: String)
    requires
        0 < batch@.len() <= BATCH_MAX,
    ensures
        r@ == "/virtual-train-api/v1/trein?ids="@ + joined(batch@),
{
    let mut path: String = String::from_str("/virtual-train-api/v1/trein?ids=");
    let ghost base = path@;
    let mut i: usize = 0;
    assert(batch@.take(0) =~= Seq::empty());
    while i < batch.len()
        invariant
            i <= batch@.len(),
            path@ == base + joined(batch@.take(i as int)),
        decreases batch@.len() - i,
    {
        let ghost so_far = batch@.take(i as int);
        let ghost more = batch@.take(i + 1);
        proof {
            assert(more.drop_last() =~= so_far);
            assert(more.last() == batch@[i as int]);
            reveal_strlit(",");
        }
        if i > 0 {
            path.append(",");
        }
        push_decimal(&mut path, batch[i]);
        proof {
            if i == 0 {
                assert(joined(so_far) =~= Seq::empty());
            }
            assert(path@ =~= base + joined(more));
        }
        i = i + 1;
    }
    assert(batch@.take(batch@.len() as int) =~= batch@);
    path
}

/// The path of a service request.
pub fn journey_path(number: u32) -> (r: String)
    ensures
        r@ == "/reisinformatie-api/api/v2/journey?train="@ + decimal(number as nat),
{
    let mut path: String = String::from_str("/reisinformatie-api/api/v2/journey?train=");
    push_decimal(&mut path, number);
    path
}

/// Whether a status is one of success.
pub open spec fn successful(status: u16) -> bool {
    200 <= status <= 299
}

pub fn is_successful(status: u16) -> (r: bool)
    ensures
        r == successful(status),
{
    200 <= status && status <= 299
}

/// The text of a response body.
pub fn body_text<E>(body: &[u8]) -> (r: Result<&str, FetchError<E>>)
    ensures
        match r {
            Ok(s) => valid_utf8(body@) && s@ == decode_utf8(body@),
            Err(e) => e == FetchError::<E>::InvalidUtf8 && !valid_utf8(body@),
        },
{
    match utf8_text(body) {
        Ok(s) => Ok(s),
        Err(_) => Err(FetchError::InvalidUtf8),
    }
}

/// The registry after each of `infos` gave the type of its train.
pub open spec fn types_applied(
    entries: Seq<(u32, TrainState)>,
    infos: Seq<TrainInfo>,
    now: Instant,
) -> Seq<(u32, TrainState)>
    decreases infos.len(),
{
    if infos.len() == 0 {
        entries
    } else {
        with_state(
            types_applied(entries, infos.drop_last(), now),
            infos.last().number,
            |s: TrainState| typed(s, type_of(text_in(infos.last().train_type)), now),
        )
    }
}

/// How many of `infos` give a concrete type.
pub open spec fn resolved(infos: Seq<TrainInfo>) -> nat
    decreases infos.len(),
{
    if infos.len() == 0 {
        0
    } else if type_of(text_in(infos.last().train_type)) != TrainType::Unknown {
        resolved(infos.drop_last()) + 1
    } else {
        resolved(infos.drop_last())
    }
}

/// The registry after a fetch for each of `batch` gave nothing.
pub open spec fn types_stamped(
    entries: Seq<(u32, TrainState)>,
    batch: Seq<u32>,
    now: Instant,
) -> Seq<(u32, TrainState)>
    decreases batch.len(),
{
    if batch.len() == 0 {
        entries
    } else {
        with_state(
            types_stamped(entries, batch.drop_last(), now),
            batch.last(),
            |s: TrainState| typed(s, TrainType::Unknown, now),
        )
    }
}

/// Stamp every train of a batch whose fetch gave nothing.
fn stamp_types(registry: &mut Registry, batch: &[u32], now: Instant)
    requires
        old(registry).wf(),
    ensures
        final(registry).wf(),
        final(registry)@ == types_stamped(old(registry)@, batch@, now),
{
    let mut i: usize = 0;
    assert(batch@.take(0) =~= Seq::empty());
    while i < batch.len()
        invariant
            i <= batch@.len(),
            registry.wf(),
            registry@ == types_stamped(old(registry)@, batch@.take(i as int), now),
        decreases batch@.len() - i,
    {
        proof {
            assert(batch@.take(i + 1).drop_last() =~= batch@.take(i as int));
            assert(batch@.take(i + 1).last() == batch@[i as int]);
        }
        registry.set_type(batch[i], TrainType::Unknown, now);
        i = i + 1;
    }
    assert(batch@.take(batch@.len() as int) =~= batch@);
}

/// The status of a type response. If the server refused, every train of the
/// batch is still stamped, so that the cooldown is honored and it is not
/// retried right away.
pub fn types_status<E>(
    registry: &mut Registry,
    batch: &[u32],
    status: u16,
    now: Instant,
) -> (r: Result<(), FetchError<E>>)
    requires
        old(registry).wf(),
    ensures
        final(registry).wf(),
        if successful(status) {
            r is Ok && final(registry)@ == old(registry)@
        } else {
            r == Err::<(), FetchError<E>>(FetchError::HttpStatus(status)) && final(registry)@
                == types_stamped(old(registry)@, batch@, now)
        },
{
    if is_successful(status) {
        return Ok(());
    }
    stamp_types(registry, batch, now);
    Err(FetchError::HttpStatus(status))
}

/// The text of a type response. If it is none, every train of the batch is
/// stamped all the same.
pub fn types_text<'a, E>(
    registry: &mut Registry,
    batch: &[u32],
    body: &'a [u8],
    now: Instant,
) -> (r: Result<&'a str, FetchError<E>>)
    requires
        old(registry).wf(),
    ensures
        final(registry).wf(),
        match r {
            Ok(s) => valid_utf8(body@) && s@ == decode_utf8(body@) && final(registry)@ == old(
                registry,
            )@,
            Err(e) => e == FetchError::<E>::InvalidUtf8 && !valid_utf8(body@) && final(registry)@
                == types_stamped(old(registry)@, batch@, now),
        },
{
    match body_text(body) {
        Ok(s) => Ok(s),
        Err(e) => {
            stamp_types(registry, batch, now);
            Err(e)
        },
    }
}

/// A type response could not be parsed: every train of the batch is stamped all
/// the same.
pub fn types_unparsed<E>(registry: &mut Registry, batch: &[u32], now: Instant) -> (r: FetchError<E>)
    requires
        old(registry).wf(),
    ensures
        final(registry).wf(),
        r == FetchError::<E>::Json,
        final(registry)@ == types_stamped(old(registry)@, batch@, now),
{
    stamp_types(registry, batch, now);
    FetchError::Json
}

/// Apply the records of the response to a type request for `batch`. A train of
/// the batch without a record that names its type has an unknown type, and every
/// train of the batch is stamped. Returns the count of trains that resolved to a
/// concrete type.
pub fn types_parsed(
    registry: &mut Registry,
    batch: &[u32],
    infos: &[TrainInfo],
    now: Instant,
) -> (r: usize)
    requires
        old(registry).wf(),
    ensures
        final(registry).wf(),
        final(registry)@ == types_applied(
            types_stamped(old(registry)@, batch@, now),
            infos@,
            now,
        ),
        r == resolved(infos@),
{
    stamp_types(registry, batch, now);
    let ghost stamped = registry@;
    let mut applied: usize = 0;
    let mut i: usize = 0;
    assert(infos@.take(0) =~= Seq::empty());
    while i < infos.len()
        invariant
            i <= infos@.len(),
            applied <= i,
            registry.wf(),
            registry@ == types_applied(stamped, infos@.take(i as int), now),
            applied == resolved(infos@.take(i as int)),
        decreases infos@.len() - i,
    {
        let ghost more = infos@.take(i + 1);
        proof {
            assert(more.drop_last() =~= infos@.take(i as int));
            assert(more.last() == infos@[i as int]);
        }
        let typ: TrainType = match &infos[i].train_type {
            Some(text) => map_train_type(Some(text.as_str())),
            None => map_train_type(None),
        };
        if typ != TrainType::Unknown {
            applied = applied + 1;
        }
        registry.set_type(infos[i].number, typ, now);
        i = i + 1;
    }
    assert(infos@.take(infos@.len() as int) =~= infos@);
    applied
}

/// The status of a service response. If the server refused (for one because it
/// does not know the train), the train is stamped as attempted, so that the
/// cooldown is honored.
pub fn service_status<E>(
    registry: &mut Registry,
    number: u32,
    status: u16,
    now: Instant,
) -> (r: Result<(), FetchError<E>>)
    requires
        old(registry).wf(),
    ensures
        final(registry).wf(),
        if successful(status) {
            r is Ok && final(registry)@ == old(registry)@
        } else {
            r == Err::<(), FetchError<E>>(FetchError::HttpStatus(status)) && final(registry)@
                == with_state(
                old(registry)@,
                number,
                |s: TrainState| serviced(s, ServiceType::Unknown, now),
            )
        },
{
    if is_successful(status) {
        return Ok(());
    }
    registry.set_service(number, ServiceType::Unknown, now);
    Err(FetchError::HttpStatus(status))
}

/// The text of a journey response. If it is none, the train is stamped all the
/// same.
pub fn service_text<'a, E>(
    registry: &mut Registry,
    number: u32,
    body: &'a [u8],
    now: Instant,
) -> (r: Result<&'a str, FetchError<E>>)
    requires
        old(registry).wf(),
    ensures
        final(registry).wf(),
        match r {
            Ok(s) => valid_utf8(body@) && s@ == decode_utf8(body@) && final(registry)@ == old(
                registry,
            )@,
            Err(e) => e == FetchError::<E>::InvalidUtf8 && !valid_utf8(body@) && final(registry)@
                == with_state(
                old(registry)@,
                number,
                |s: TrainState| serviced(s, ServiceType::Unknown, now),
            ),
        },
{
    match body_text(body) {
        Ok(s) => Ok(s),
        Err(e) => {
            registry.set_service(number, ServiceType::Unknown, now);
            Err(e)
        },
    }
}

/// A journey response could not be parsed: the train is stamped all the same.
pub fn service_unparsed<E>(registry: &mut Registry, number: u32, now: Instant) -> (r: FetchError<E>)
    requires
        old(registry).wf(),
    ensures
        final(registry).wf(),
        r == FetchError::<E>::Json,
        final(registry)@ == with_state(
            old(registry)@,
            number,
            |s: TrainState| serviced(s, ServiceType::Unknown, now),
        ),
{
    registry.set_service(number, ServiceType::Unknown, now);
    FetchError::Json
}

/// Apply a journey response.
pub fn service_parsed(
    registry: &mut Registry,
    number: u32,
    stops: &[JourneyStop],
    now: Instant,
) -> (r: ServiceType)
    requires
        old(registry).wf(),
    ensures
        final(registry).wf(),
        r == journey_service(stops@),
        final(registry)@ == with_state(
            old(registry)@,
            number,
            |s: TrainState| serviced(s, r, now),
        ),
{
    let service: ServiceType = service_of(stops);
    registry.set_service(number, service, now);
    service
}

/// The seed of the next connection.
pub fn next_seed(seed: u64) -> (r: u64)
    ensures
        r == (seed * 6364136223846793005 + 1) % 0x1_0000_0000_0000_0000,
{
    let product: u64 = seed.wrapping_mul(6364136223846793005);
    proof {
        lemma_next(seed as nat * 6364136223846793005);
    }
    product.wrapping_add(1)
}

/// One more than a number, up to multiples of 2 to the power of 64.
proof fn lemma_next(n: nat)
    ensures
        (n % 0x1_0000_0000_0000_0000 + 1) % 0x1_0000_0000_0000_0000 == (n + 1)
            % 0x1_0000_0000_0000_0000,
{
}

/// The work of one round.
pub struct Batches {
    pub types: NumberBuf<TYPE_BUFFER_CAP>,
    pub services: NumberBuf<SERVICE_BUFFER_CAP>,
}

impl Batches {
    pub open spec fn wf(&self) -> bool {
        self.types.wf() && self.services.wf()
    }

    pub fn new() -> (r: Batches)
        ensures
            r.wf(),
            r.types@ == Seq::<u32>::empty(),
            r.services@ == Seq::<u32>::empty(),
    {
        Batches { types: NumberBuf::new(), services: NumberBuf::new() }
    }

    pub fn clear(&mut self)
        ensures
            final(self).wf(),
            final(self).types@ == Seq::<u32>::empty(),
            final(self).services@ == Seq::<u32>::empty(),
    {
        self.types.clear();
        self.services.clear();
    }

    /// Whether another new train can be taken from the queue.
    pub fn wants_new(&self) -> (r: bool)
        ensures
            r == (self.types@.len() < TYPE_BUFFER_CAP),
    {
        self.types.len() < self.types.capacity()
    }

    /// Take a new train from the queue. Both kinds of request are made for it,
    /// as far as there is room.
    pub fn add_new(&mut self, number: u32)
        requires
            old(self).wf(),
        ensures
            final(self).wf(),
            final(self).types@ == at_most(old(self).types@.push(number), TYPE_BUFFER_CAP as nat),
            final(self).services@ == at_most(
                old(self).services@.push(number),
                SERVICE_BUFFER_CAP as nat,
            ),
    {
        let _ = self.types.push(number);
        let _ = self.services.push(number);
        proof {
            if old(self).types@.len() >= TYPE_BUFFER_CAP {
                assert(old(self).types@.push(number).take(TYPE_BUFFER_CAP as int)
                    =~= old(self).types@);
            }
            if old(self).services@.len() >= SERVICE_BUFFER_CAP {
                assert(old(self).services@.push(number).take(SERVICE_BUFFER_CAP as int)
                    =~= old(self).services@);
            }
        }
    }

    /// Look for retry candidates in the registry, but only if there were no new
    /// trains. Otherwise some trains might be requested twice.
    pub fn top_up(&mut self, registry: &Registry, now: Instant)
        requires
            old(self).wf(),
            old(self).types@.len() == 0 ==> retries_seen_by(registry@, UnknownAxis::Type, now)
                && retries_seen_by(registry@, UnknownAxis::Service, now),
        ensures
            final(self).wf(),
            if old(self).types@.len() > 0 {
                final(self).types@ == old(self).types@ && final(self).services@
                    == old(self).services@
            } else {
                final(self).types@ == retry_candidates(
                    registry@,
                    UnknownAxis::Type,
                    now,
                    TYPE_BUFFER_CAP as nat,
                ) && final(self).services@ == retry_candidates(
                    registry@,
                    UnknownAxis::Service,
                    now,
                    SERVICE_BUFFER_CAP as nat,
                )
            },
    {
        if self.types.is_empty() {
            let cooldown = Duration::from_secs(RETRY_COOLDOWN_S);
            registry.pending_enrichment(&mut self.types, cooldown, now);
            registry.pending_service_enrichment(&mut self.services, cooldown, now);
        }
    }
}

/// The first `cap` trains that are due for another fetch on `axis`.
pub open spec fn retry_candidates(
    entries: Seq<(u32, TrainState)>,
    axis: UnknownAxis,
    now: Instant,
    cap: nat,
) -> Seq<u32> {
    let cooldown = Duration { ticks: (RETRY_COOLDOWN_S * TICK_HZ) as u64 };
    at_most(numbers_where(entries, |s: TrainState| pending(s, axis, cooldown, now)), cap)
}

/// Where in a round the work stands.
#[derive(Debug, Clone, Copy, PartialEq, Eq, Structural)]
pub enum Stage {
    /// A connection is to be opened.
    Open,
    /// Types are to be fetched for the chunk that starts at this index.
    Types(usize),
    /// The service is to be fetched for the train at this index.
    Services(usize),
    /// The snapshot is to be published; whether a request failed.
    Publish(bool),
    /// A pause is due.
    Backoff,
    /// The round is over.
    Done,
}

/// The stage for the types from index `i` on, out of `types`, with `services`
/// trains to follow.
pub open spec fn types_from(i: nat, types: nat, services: nat) -> Stage {
    if i < types {
        Stage::Types(i as usize)
    } else {
        services_from(0, services)
    }
}

/// The stage for the services from index `i` on, out of `services`.
pub open spec fn services_from(i: nat, services: nat) -> Stage {
    if i < services {
        Stage::Services(i as usize)
    } else {
        Stage::Publish(false)
    }
}

/// The first stage of a round: without work there is none.
pub open spec fn first_stage(types: nat, services: nat) -> Stage {
    if types == 0 && services == 0 {
        Stage::Done
    } else {
        Stage::Open
    }
}

/// The stage after `stage` went well or not. Without a connection there is only
/// a pause. A failed request ends the requests; the snapshot is published all
/// the same, and then there is a pause.
pub open spec fn stage_after(stage: Stage, ok: bool, types: nat, services: nat) -> Stage {
    match stage {
        Stage::Open => if ok {
            types_from(0, types, services)
        } else {
            Stage::Backoff
        },
        Stage::Types(i) => if ok {
            types_from(i as nat + BATCH_MAX as nat, types, services)
        } else {
            Stage::Publish(true)
        },
        Stage::Services(i) => if ok {
            services_from(i as nat + 1, services)
        } else {
            Stage::Publish(true)
        },
        Stage::Publish(failed) => if failed {
            Stage::Backoff
        } else {
            Stage::Done
        },
        Stage::Backoff => Stage::Done,
        Stage::Done => Stage::Done,
    }
}

/// Whether the indices of a stage lie within the batches.
pub open spec fn stage_wf(stage: Stage, types: nat, services: nat) -> bool {
    match stage {
        Stage::Types(i) => i < types,
        Stage::Services(i) => i < services,
        _ => true,
    }
}

/// The numbers to ask for in one type request: up to [`BATCH_MAX`] from index
/// `i` on.
pub open spec fn chunk_at(types: Seq<u32>, i: int) -> Seq<u32> {
    if types.len() - i <= BATCH_MAX {
        types.skip(i)
    } else {
        types.subrange(i, i + BATCH_MAX)
    }
}

impl Batches {
    /// The first stage of a round with this work.
    pub fn start(&self) -> (r: Stage)
        ensures
            r == first_stage(self.types@.len(), self.services@.len()),
            stage_wf(r, self.types@.len(), self.services@.len()),
    {
        if self.types.is_empty() && self.services.is_empty() {
            Stage::Done
        } else {
            Stage::Open
        }
    }

    /// The stage after `stage` went well or not.
    pub fn advance(&self, stage: Stage, ok: bool) -> (r: Stage)
        requires
            self.wf(),
            stage_wf(stage, self.types@.len(), self.services@.len()),
        ensures
            r == stage_after(stage, ok, self.types@.len(), self.services@.len()),
            stage_wf(r, self.types@.len(), self.services@.len()),
    {
        match stage {
            Stage::Open => {
                if ok {
                    self.types_at(0)
                } else {
                    Stage::Backoff
                }
            },
            Stage::Types(i) => {
                if ok {
                    self.types_at(i + BATCH_MAX)
                } else {
                    Stage::Publish(true)
                }
            },
            Stage::Services(i) => {
                if ok {
                    self.services_at(i + 1)
                } else {
                    Stage::Publish(true)
                }
            },
            Stage::Publish(failed) => {
                if failed {
                    Stage::Backoff
                } else {
                    Stage::Done
                }
            },
            Stage::Backoff => Stage::Done,
            Stage::Done => Stage::Done,
        }
    }

    fn types_at(&self, i: usize) -> (r: Stage)
        ensures
            r == types_from(i as nat, self.types@.len(), self.services@.len()),
            stage_wf(r, self.types@.len(), self.services@.len()),
    {
        if i < self.types.len() {
            Stage::Types(i)
        } else {
            self.services_at(0)
        }
    }

    fn services_at(&self, i: usize) -> (r: Stage)
        ensures
            r == services_from(i as nat, self.services@.len()),
            stage_wf(r, self.types@.len(), self.services@.len()),
    {
        if i < self.services.len() {
            Stage::Services(i)
        } else {
            Stage::Publish(false)
        }
    }

    /// The numbers to ask for in one type request.
    pub fn type_chunk(&self, i: usize) -> (r: &[u32])
        requires
            i < self.types@.len(),
        ensures
            r@ == chunk_at(self.types@, i as int),
            0 < r@.len() <= BATCH_MAX,
    {
        let types: &[u32] = self.types.as_slice();
        let end: usize = if types.len() - i <= BATCH_MAX {
            types.len()
        } else {
            i + BATCH_MAX
        };
        assert(types@.subrange(i as int, types@.len() as int) =~= types@.skip(i as int));
        &types[i..end]
    }

    /// The train to ask for in one service request.
    pub fn service_number(&self, i: usize) -> (r: u32)
        requires
            i < self.services@.len(),
        ensures
            r == self.services@[i as int],
    {
        self.services.as_slice()[i]
    }
}

/// How many stages can still follow.
pub open spec fn stages_left(stage: Stage, types: nat, services: nat) -> int {
    match stage {
        Stage::Open => types as int + services + 4,
        Stage::Types(i) => types - i + services + 3,
        Stage::Services(i) => services - i + 2,
        Stage::Publish(_) => 2,
        Stage::Backoff => 1,
        Stage::Done => 0,
    }
}

/// Every round comes to an end, whatever fails.
pub proof fn law_rounds_end(stage: Stage, ok: bool, types: nat, services: nat)
    requires
        stage_wf(stage, types, services),
        types <= TYPE_BUFFER_CAP,
        services <= SERVICE_BUFFER_CAP,
        stage != Stage::Done,
    ensures
        0 <= stages_left(stage_after(stage, ok, types, services), types, services) < stages_left(
            stage,
            types,
            services,
        ),
{
}

/// The snapshot is published after the requests of every round that got a
/// connection: no request stage is followed by the end or by a pause.
pub proof fn law_every_connection_publishes(stage: Stage, ok: bool, types: nat, services: nat)
    requires
        stage is Types || stage is Services || (stage is Open && ok),
    ensures
        ({
            let next = stage_after(stage, ok, types, services);
            next is Types || next is Services || next is Publish
        }),
        !ok ==> stage_after(stage, ok, types, services) == Stage::Publish(true),
{
}

/// A pause follows exactly when something failed.
pub proof fn law_pause_follows_failure(types: nat, services: nat)
    ensures
        stage_after(Stage::Open, false, types, services) == Stage::Backoff,
        stage_after(Stage::Publish(true), true, types, services) == Stage::Backoff,
        stage_after(Stage::Publish(false), true, types, services) == Stage::Done,
{
}

/// The chunks cover the batch without a gap or an overlap: one chunk and the
/// rest from the next index on are the batch from this index on.
pub proof fn law_chunks_cover_batch(types: Seq<u32>, i: int)
    requires
        0 <= i < types.len(),
    ensures
        0 < chunk_at(types, i).len() <= BATCH_MAX,
        chunk_at(types, i) + (if i + BATCH_MAX <= types.len() {
            types.skip(i + BATCH_MAX)
        } else {
            Seq::empty()
        }) == types.skip(i),
{
    if i + BATCH_MAX <= types.len() {
        assert(chunk_at(types, i) + types.skip(i + BATCH_MAX) =~= types.skip(i));
    } else {
        assert(chunk_at(types, i) + Seq::<u32>::empty() =~= types.skip(i));
    }
}

/// A 32-bit number has at most ten digits.
proof fn lemma_decimal_len(n: nat)
    ensures
        n < 10 ==> decimal(n).len() == 1,
        n < 100 ==> decimal(n).len() <= 2,
        n < 1000 ==> decimal(n).len() <= 3,
        n < 10000 ==> decimal(n).len() <= 4,
        n < 100000 ==> decimal(n).len() <= 5,
        n < 1000000 ==> decimal(n).len() <= 6,
        n < 10000000 ==> decimal(n).len() <= 7,
        n < 100000000 ==> decimal(n).len() <= 8,
        n < 1000000000 ==> decimal(n).len() <= 9,
        n < 10000000000 ==> decimal(n).len() <= 10,
    decreases n,
{
    if n >= 10 {
        lemma_decimal_len(n / 10);
    }
}

proof fn lemma_joined_len(numbers: Seq<u32>)
    ensures
        joined(numbers).len() <= 11 * numbers.len(),
    decreases numbers.len(),
{
    if numbers.len() > 0 {
        lemma_decimal_len(numbers.last() as nat);
        lemma_decimal_len(numbers[0] as nat);
        lemma_joined_len(numbers.drop_last());
    }
}

/// Both paths fit in a line buffer: 160 characters for a type request, 128 for
/// a service request.
pub proof fn law_paths_are_short(batch: Seq<u32>, number: u32)
    requires
        batch.len() <= BATCH_MAX,
    ensures
        ("/virtual-train-api/v1/trein?ids="@ + joined(batch)).len() <= 160,
        ("/reisinformatie-api/api/v2/journey?train="@ + decimal(number as nat)).len() <= 128,
{
    reveal_strlit("/virtual-train-api/v1/trein?ids=");
    reveal_strlit("/reisinformatie-api/api/v2/journey?train=");
    lemma_joined_len(batch);
    lemma_decimal_len(number as nat);
}

/// When the server refuses a batch or its answer cannot be read, each train of it
/// has its type unknown and its attempt stamped, and no other train is touched.
pub proof fn law_refused_batch_is_stamped(
    entries: Seq<(u32, TrainState)>,
    batch: Seq<u32>,
    now: Instant,
    i: int,
)
    requires
        0 <= i < entries.len(),
    ensures
        types_stamped(entries, batch, now).len() == entries.len(),
        types_stamped(entries, batch, now)[i] == if batch.contains(entries[i].0) {
            (entries[i].0, typed(entries[i].1, TrainType::Unknown, now))
        } else {
            entries[i]
        },
    decreases batch.len(),
{
    if batch.len() > 0 {
        let front = batch.drop_last();
        law_refused_batch_is_stamped(entries, front, now, i);
        let number = entries[i].0;
        assert(batch.contains(number) <==> front.contains(number) || batch.last() == number) by {
            if front.contains(number) {
                let k = choose|k: int| 0 <= k < front.len() && front[k] == number;
                assert(batch[k] == number);
            }
            if batch.contains(number) && batch.last() != number {
                let k = choose|k: int| 0 <= k < batch.len() && batch[k] == number;
                assert(front[k] == number);
            }
            if batch.last() == number {
                assert(batch[batch.len() - 1] == number);
            }
        }
    }
}

/// A record with a number stamps the train with that number and touches no
/// other.
proof fn lemma_applied(
    entries: Seq<(u32, TrainState)>,
    infos: Seq<TrainInfo>,
    now: Instant,
    i: int,
)
    requires
        0 <= i < entries.len(),
    ensures
        types_applied(entries, infos, now).len() == entries.len(),
        types_applied(entries, infos, now)[i].0 == entries[i].0,
        asked_at(entries[i].1, UnknownAxis::Type, now) ==> asked_at(
            types_applied(entries, infos, now)[i].1,
            UnknownAxis::Type,
            now,
        ),
        (forall|k: int| 0 <= k < infos.len() ==> (#[trigger] infos[k]).number != entries[i].0)
            ==> types_applied(entries, infos, now)[i] == entries[i],
    decreases infos.len(),
{
    if infos.len() > 0 {
        let front = infos.drop_last();
        lemma_applied(entries, front, now, i);
        if forall|k: int| 0 <= k < infos.len() ==> (#[trigger] infos[k]).number != entries[i].0 {
            assert forall|k: int| 0 <= k < front.len() implies (#[trigger] front[k]).number
                != entries[i].0 by {
                assert(front[k] == infos[k]);
            }
            assert(infos[infos.len() - 1].number != entries[i].0);
        }
    }
}

/// When the server answers, each train of the batch has its attempt stamped,
/// whatever the records are. One without a record has its type unknown.
pub proof fn law_answered_batch_is_stamped(
    entries: Seq<(u32, TrainState)>,
    batch: Seq<u32>,
    infos: Seq<TrainInfo>,
    now: Instant,
    i: int,
)
    requires
        0 <= i < entries.len(),
        batch.contains(entries[i].0),
    ensures
        ({
            let after = types_applied(types_stamped(entries, batch, now), infos, now);
            &&& after.len() == entries.len()
            &&& after[i].0 == entries[i].0
            &&& asked_at(after[i].1, UnknownAxis::Type, now)
            &&& after[i].1.last_type_attempt_ago != TrainState::ATTEMPT_NEVER
            &&& (forall|k: int|
                0 <= k < infos.len() ==> (#[trigger] infos[k]).number != entries[i].0)
                ==> after[i].1 == typed(entries[i].1, TrainType::Unknown, now)
        }),
{
    law_refused_batch_is_stamped(entries, batch, now, i);
    lemma_applied(types_stamped(entries, batch, now), infos, now, i);
}

/// The name of a type is read in any case and with any subtype suffix.
pub proof fn law_suffix_is_ignored(name: Seq<char>, suffix: Seq<char>)
    requires
        forall|i: int| 0 <= i < name.len() ==> (#[trigger] name[i]) != '-' && name[i] != ' ',
        suffix.len() > 0,
        suffix[0] == '-' || suffix[0] == ' ',
    ensures
        type_named(head_of(name + suffix)) == type_named(name),
        type_named(head_of(name)) == type_named(name),
{
    lemma_suffix(name + suffix, name.len() as int, 0);
    assert((name + suffix).take(name.len() as int) =~= name);
    lemma_suffix(name, name.len() as int, 0);
    assert(name.take(name.len() as int) =~= name);
}

proof fn lemma_suffix(s: Seq<char>, at: int, i: int)
    requires
        0 <= i <= at <= s.len(),
        at < s.len() ==> s[at] == '-' || s[at] == ' ',
        forall|k: int| 0 <= k < at ==> (#[trigger] s[k]) != '-' && s[k] != ' ',
    ensures
        suffix_from(s, i) == at,
    decreases at - i,
{
    if i < at {
        lemma_suffix(s, at, i + 1);
    }
}

/// After a response, a train that has a record has the type that its last record
/// names, at whatever position in the response that record stands. Nothing else
/// of the train changes, but for the time of the attempt.
pub proof fn law_records_decide_the_type(
    entries: Seq<(u32, TrainState)>,
    batch: Seq<u32>,
    infos: Seq<TrainInfo>,
    now: Instant,
    i: int,
    k: int,
)
    requires
        0 <= i < entries.len(),
        0 <= k < infos.len(),
        infos[k].number == entries[i].0,
        forall|j: int| k < j < infos.len() ==> (#[trigger] infos[j]).number != entries[i].0,
    ensures
        ({
            let after = types_applied(types_stamped(entries, batch, now), infos, now);
            let (was, is) = (entries[i].1, after[i].1);
            &&& after.len() == entries.len()
            &&& after[i].0 == entries[i].0
            &&& is.typ == type_of(text_in(infos[k].train_type))
            &&& is.last_seen.ticks - is.last_type_attempt_ago == now.ticks
            &&& is.service == was.service
            &&& is.last_service_attempt_ago == was.last_service_attempt_ago
            &&& is.pixel == was.pixel
            &&& is.last_seen == was.last_seen
        }),
{
    law_refused_batch_is_stamped(entries, batch, now, i);
    lemma_last_record(types_stamped(entries, batch, now), infos, now, i, k);
}

/// The last record of a train settles its state.
proof fn lemma_last_record(
    entries: Seq<(u32, TrainState)>,
    infos: Seq<TrainInfo>,
    now: Instant,
    i: int,
    k: int,
)
    requires
        0 <= i < entries.len(),
        0 <= k < infos.len(),
        infos[k].number == entries[i].0,
        forall|j: int| k < j < infos.len() ==> (#[trigger] infos[j]).number != entries[i].0,
    ensures
        types_applied(entries, infos, now).len() == entries.len(),
        types_applied(entries, infos, now)[i] == (
            entries[i].0,
            typed(entries[i].1, type_of(text_in(infos[k].train_type)), now),
        ),
    decreases infos.len(),
{
    let front = infos.drop_last();
    if k < front.len() {
        assert forall|j: int| k < j < front.len() implies (#[trigger] front[j]).number
            != entries[i].0 by {
            assert(front[j] == infos[j]);
        }
        lemma_last_record(entries, front, now, i, k);
        assert(infos[infos.len() - 1].number != entries[i].0);
    } else {
        lemma_applied_to(entries, front, now, i);
    }
}

/// Records change the type of a train and the time of its attempt, if anything.
proof fn lemma_applied_to(
    entries: Seq<(u32, TrainState)>,
    infos: Seq<TrainInfo>,
    now: Instant,
    i: int,
)
    requires
        0 <= i < entries.len(),
    ensures
        types_applied(entries, infos, now).len() == entries.len(),
        types_applied(entries, infos, now)[i] == entries[i] || exists|typ: TrainType|
            types_applied(entries, infos, now)[i] == (
                entries[i].0,
                #[trigger] typed(entries[i].1, typ, now),
            ),
    decreases infos.len(),
{
    if infos.len() > 0 {
        let front = infos.drop_last();
        lemma_applied_to(entries, front, now, i);
        let before = types_applied(entries, front, now)[i];
        let typ = type_of(text_in(infos.last().train_type));
        if infos.last().number == entries[i].0 {
            assert(typed(before.1, typ, now) == typed(entries[i].1, typ, now));
        }
    }
}

/// Where no two records are about the same train, every record's train ends up
/// with the type of its own record.
pub proof fn law_each_record_counts(
    entries: Seq<(u32, TrainState)>,
    batch: Seq<u32>,
    infos: Seq<TrainInfo>,
    now: Instant,
    i: int,
    k: int,
)
    requires
        0 <= i < entries.len(),
        0 <= k < infos.len(),
        infos[k].number == entries[i].0,
        forall|a: int, b: int|
            0 <= a < b < infos.len() ==> (#[trigger] infos[a]).number != (
            #[trigger] infos[b]).number,
    ensures
        types_applied(types_stamped(entries, batch, now), infos, now)[i].1.typ == type_of(
            text_in(infos[k].train_type),
        ),
{
    assert forall|j: int| k < j < infos.len() implies (#[trigger] infos[j]).number
        != entries[i].0 by {
        assert(infos[k].number != infos[j].number);
    }
    law_records_decide_the_type(entries, batch, infos, now, i, k);
}

/// A train that was neither asked for nor has a record is left alone.
pub proof fn law_other_trains_are_left_alone(
    entries: Seq<(u32, TrainState)>,
    batch: Seq<u32>,
    infos: Seq<TrainInfo>,
    now: Instant,
    i: int,
)
    requires
        0 <= i < entries.len(),
        !batch.contains(entries[i].0),
        forall|k: int| 0 <= k < infos.len() ==> (#[trigger] infos[k]).number != entries[i].0,
    ensures
        types_applied(types_stamped(entries, batch, now), infos, now)[i] == entries[i],
{
    law_refused_batch_is_stamped(entries, batch, now, i);
    lemma_applied(types_stamped(entries, batch, now), infos, now, i);
}

/// The count of resolved trains is that of the records that name a type.
pub proof fn law_resolved_counts_records(infos: Seq<TrainInfo>)
    ensures
        resolved(infos) == infos.filter(
            |x: TrainInfo| type_of(text_in(x.train_type)) != TrainType::Unknown,
        ).len(),
    decreases infos.len(),
{
    reveal(Seq::filter);
    if infos.len() > 0 {
        law_resolved_counts_records(infos.drop_last());
    }
}

/// Whether `name` has the letters of a word, each in lower or in upper case.
pub open spec fn has_letters(name: Seq<char>, lower: Seq<char>, upper: Seq<char>) -> bool {
    name.len() == lower.len() && forall|k: int|
        0 <= k < name.len() ==> #[trigger] name[k] == lower[k] || name[k] == upper[k]
}

/// A name spells a word exactly when it has its letters.
proof fn lemma_spelled(name: Seq<char>, word: Seq<char>, upper: Seq<char>)
    requires
        word.len() == upper.len(),
        forall|k: int|
            0 <= k < word.len() ==> 'a' <= (#[trigger] word[k]) <= 'z' && upper[k] as int
                == word[k] as int - 32,
    ensures
        spells(name, 0, word) == has_letters(name, word, upper),
{
    if name.len() == word.len() {
        assert forall|k: int| 0 <= k < name.len() implies (crate::text::lower(name[0 + k])
            == #[trigger] word[k]) == (name[k] == word[k] || name[k] == upper[k]) by {
            let c = name[k];
            assert('a' <= word[k] <= 'z');
            if 'A' <= c <= 'Z' {
                assert(crate::text::lower(c) as int == c as int + 32);
            }
        }
        if spells(name, 0, word) {
            assert forall|k: int| 0 <= k < name.len() implies #[trigger] name[k] == word[k]
                || name[k] == upper[k] by {
                assert(crate::text::lower(name[0 + k]) == word[k]);
            }
        }
        if has_letters(name, word, upper) {
            assert forall|k: int| 0 <= k < word.len() implies crate::text::lower(name[0 + k])
                == #[trigger] word[k] by {
                assert(name[k] == word[k] || name[k] == upper[k]);
            }
        }
    }
}

/// The names of the types, in any case; every other name is unknown.
pub proof fn law_type_names(name: Seq<char>)
    ensures
        type_named(name) == TrainType::SNG <==> has_letters(
            name,
            seq!['s', 'n', 'g'],
            seq!['S', 'N', 'G'],
        ),
        type_named(name) == TrainType::SLT <==> has_letters(
            name,
            seq!['s', 'l', 't'],
            seq!['S', 'L', 'T'],
        ),
        type_named(name) == TrainType::Flirt <==> has_letters(
            name,
            seq!['f', 'l', 'i', 'r', 't'],
            seq!['F', 'L', 'I', 'R', 'T'],
        ),
        type_named(name) == TrainType::ICM <==> has_letters(
            name,
            seq!['i', 'c', 'm'],
            seq!['I', 'C', 'M'],
        ),
        type_named(name) == TrainType::DDZ <==> has_letters(
            name,
            seq!['d', 'd', 'z'],
            seq!['D', 'D', 'Z'],
        ) || has_letters(name, seq!['d', 'd', 'a', 'r'], seq!['D', 'D', 'A', 'R']),
        type_named(name) == TrainType::VIRM <==> has_letters(
            name,
            seq!['v', 'i', 'r', 'm'],
            seq!['V', 'I', 'R', 'M'],
        ),
        type_named(name) == TrainType::ICNG <==> has_letters(
            name,
            seq!['i', 'c', 'n', 'g'],
            seq!['I', 'C', 'N', 'G'],
        ),
{
    let sng = seq!['s', 'n', 'g'];
    let slt = seq!['s', 'l', 't'];
    let flirt = seq!['f', 'l', 'i', 'r', 't'];
    let icm = seq!['i', 'c', 'm'];
    let ddz = seq!['d', 'd', 'z'];
    let ddar = seq!['d', 'd', 'a', 'r'];
    let virm = seq!['v', 'i', 'r', 'm'];
    let icng = seq!['i', 'c', 'n', 'g'];
    lemma_spelled(name, sng, seq!['S', 'N', 'G']);
    lemma_spelled(name, slt, seq!['S', 'L', 'T']);
    lemma_spelled(name, flirt, seq!['F', 'L', 'I', 'R', 'T']);
    lemma_spelled(name, icm, seq!['I', 'C', 'M']);
    lemma_spelled(name, ddz, seq!['D', 'D', 'Z']);
    lemma_spelled(name, ddar, seq!['D', 'D', 'A', 'R']);
    lemma_spelled(name, virm, seq!['V', 'I', 'R', 'M']);
    lemma_spelled(name, icng, seq!['I', 'C', 'N', 'G']);
    lemma_spelled_apart(name, sng, slt, 1);
    lemma_spelled_apart(name, sng, icm, 0);
    lemma_spelled_apart(name, sng, ddz, 0);
    lemma_spelled_apart(name, slt, icm, 0);
    lemma_spelled_apart(name, slt, ddz, 0);
    lemma_spelled_apart(name, icm, ddz, 0);
    lemma_spelled_apart(name, ddar, virm, 0);
    lemma_spelled_apart(name, ddar, icng, 0);
    lemma_spelled_apart(name, virm, icng, 0);
}

/// Two words that differ are not spelled by one name.
proof fn lemma_spelled_apart(name: Seq<char>, a: Seq<char>, b: Seq<char>, k: int)
    requires
        0 <= k < a.len(),
        k < b.len(),
        a[k] != b[k],
    ensures
        !(spells(name, 0, a) && spells(name, 0, b)),
{
    if spells(name, 0, a) && spells(name, 0, b) {
        assert(crate::text::lower(name[0 + k]) == a[k]);
        assert(crate::text::lower(name[0 + k]) == b[k]);
    }
}

/// The type in a record is that of the name in front of the first dash or space,
/// whatever white space is around the text. A record without a text has none.
pub proof fn law_type_is_read_from_the_name(
    before: Seq<char>,
    name: Seq<char>,
    suffix: Seq<char>,
    after: Seq<char>,
)
    requires
        forall|i: int| 0 <= i < before.len() ==> white_space(#[trigger] before[i]),
        forall|i: int| 0 <= i < after.len() ==> white_space(#[trigger] after[i]),
        name.len() > 0,
        forall|i: int| 0 <= i < name.len() ==> (#[trigger] name[i]) != '-' && name[i] != ' ',
        !white_space(name[0]),
        !white_space((name + suffix).last()),
        suffix.len() > 0 ==> suffix[0] == '-' || suffix[0] == ' ',
    ensures
        type_of(Some(before + name + suffix + after)) == type_named(name),
        type_of(None) == TrainType::Unknown,
{
    let core = name + suffix;
    assert(before + name + suffix + after =~= before + core + after);
    law_trimming_keeps_the_middle(before, core, after);
    lemma_suffix(core, name.len() as int, 0);
    assert(core.take(name.len() as int) =~= name);
}

/// The category codes, exactly as they are written; every other code is unknown.
pub proof fn law_category_codes(code: Seq<char>)
    ensures
        category(code) == ServiceType::Sprinter <==> code == seq!['S', 'P', 'R'],
        category(code) == ServiceType::Intercity <==> code == seq!['I', 'C'],
        category(code) == ServiceType::IntercityDirect <==> code == seq!['I', 'C', 'D'] || code
            == seq!['E', 'C', 'D'],
{
    reveal_strlit("SPR");
    reveal_strlit("IC");
    reveal_strlit("ICD");
    reveal_strlit("ECD");
    assert("SPR"@ =~= seq!['S', 'P', 'R']);
    assert("IC"@ =~= seq!['I', 'C']);
    assert("ICD"@ =~= seq!['I', 'C', 'D']);
    assert("ECD"@ =~= seq!['E', 'C', 'D']);
    assert("SPR"@[0] != "ICD"@[0]);
    assert("SPR"@[0] != "ECD"@[0]);
    assert("IC"@.len() == 2);
}

/// Whether an event has a category code.
pub open spec fn coded(event: JourneyEvent) -> bool {
    event.product is Some && (event.product->0).category_code is Some
}

/// Whether none of some events has a category code.
pub open spec fn none_coded(events: Seq<JourneyEvent>) -> bool {
    forall|i: int| 0 <= i < events.len() ==> !coded(#[trigger] events[i])
}

/// Events without a code have no first one.
proof fn lemma_none_coded(events: Seq<JourneyEvent>)
    requires
        none_coded(events),
    ensures
        first_code(events) is None,
    decreases events.len(),
{
    if events.len() > 0 {
        assert(!coded(events[events.len() - 1]));
        assert forall|i: int| 0 <= i < events.drop_last().len() implies !coded(
            #[trigger] events.drop_last()[i],
        ) by {
            assert(!coded(events[i]));
        }
        lemma_none_coded(events.drop_last());
    }
}

/// The first event with a code gives the first code.
proof fn lemma_first_coded(events: Seq<JourneyEvent>, n: int)
    requires
        0 <= n < events.len(),
        coded(events[n]),
        none_coded(events.take(n)),
    ensures
        first_code(events) == Some(((events[n].product->0).category_code->0)@),
{
    lemma_none_coded(events.take(n));
    let part = events.take(n + 1);
    assert(part.drop_last() =~= events.take(n));
    assert(part.last() == events[n]);
    lemma_first_code_joins(part, events.skip(n + 1));
    assert(part + events.skip(n + 1) =~= events);
}

/// Stops without a code have no first one.
proof fn lemma_stops_without_code(stops: Seq<JourneyStop>)
    requires
        forall|i: int|
            0 <= i < stops.len() ==> none_coded((#[trigger] stops[i]).departures@) && none_coded(
                stops[i].arrivals@,
            ),
    ensures
        first_code(events_of(stops)) is None,
    decreases stops.len(),
{
    if stops.len() > 0 {
        let front = stops.drop_last();
        let last = stops.last();
        assert(stops[stops.len() - 1] == last);
        assert forall|i: int| 0 <= i < front.len() implies none_coded(
            (#[trigger] front[i]).departures@,
        ) && none_coded(front[i].arrivals@) by {
            assert(front[i] == stops[i]);
        }
        lemma_stops_without_code(front);
        lemma_none_coded(last.departures@);
        lemma_none_coded(last.arrivals@);
        lemma_first_code_joins(events_of(front), last.departures@);
        lemma_first_code_joins(events_of(front) + last.departures@, last.arrivals@);
    }
}

/// The service of a journey is that of the first event with a category code,
/// where the stops are walked in order and each one's departures before its
/// arrivals; whatever follows does not matter.
pub proof fn law_first_code_wins(stops: Seq<JourneyStop>, i: int, arrival: bool, j: int)
    requires
        0 <= i < stops.len(),
        forall|k: int|
            0 <= k < i ==> none_coded((#[trigger] stops[k]).departures@) && none_coded(
                stops[k].arrivals@,
            ),
        arrival ==> none_coded(stops[i].departures@) && 0 <= j < stops[i].arrivals@.len() && coded(
            stops[i].arrivals@[j],
        ) && none_coded(stops[i].arrivals@.take(j)),
        !arrival ==> 0 <= j < stops[i].departures@.len() && coded(stops[i].departures@[j])
            && none_coded(stops[i].departures@.take(j)),
    ensures
        ({
            let event = if arrival {
                stops[i].arrivals@[j]
            } else {
                stops[i].departures@[j]
            };
            journey_service(stops) == category(((event.product->0).category_code->0)@)
        }),
{
    let front = stops.take(i);
    let part = stops.take(i + 1);
    let stop = stops[i];
    assert forall|k: int| 0 <= k < front.len() implies none_coded(
        (#[trigger] front[k]).departures@,
    ) && none_coded(front[k].arrivals@) by {
        assert(front[k] == stops[k]);
    }
    lemma_stops_without_code(front);
    assert(part.drop_last() =~= front);
    assert(part.last() == stop);
    lemma_first_code_joins(events_of(front), stop.departures@);
    lemma_first_code_joins(events_of(front) + stop.departures@, stop.arrivals@);
    if arrival {
        lemma_none_coded(stop.departures@);
        lemma_first_coded(stop.arrivals@, j);
    } else {
        lemma_first_coded(stop.departures@, j);
    }
    lemma_first_code_is_kept(stops, i + 1);
}

/// A journey without any category code has an unknown service.
pub proof fn law_no_code_no_service(stops: Seq<JourneyStop>)
    requires
        forall|k: int|
            0 <= k < stops.len() ==> none_coded((#[trigger] stops[k]).departures@) && none_coded(
                stops[k].arrivals@,
            ),
    ensures
        journey_service(stops) == ServiceType::Unknown,
{
    lemma_stops_without_code(stops);
}

/// A type request names every train of its batch, in order, with single commas in
/// between.
pub proof fn law_batch_is_joined_by_commas(a: Seq<u32>, b: Seq<u32>, n: u32)
    requires
        a.len() > 0,
        b.len() > 0,
    ensures
        joined(seq![n]) == decimal(n as nat),
        joined(a + b) == joined(a) + seq![','] + joined(b),
    decreases b.len(),
{
    let both = a + b;
    assert(both.last() == b.last());
    assert(both.drop_last() =~= a + b.drop_last());
    if b.len() == 1 {
        assert(b.drop_last() =~= Seq::empty());
        assert(both.drop_last() =~= a);
        assert(b[0] == b.last());
        assert(joined(both) =~= joined(a) + seq![','] + joined(b));
    } else {
        law_batch_is_joined_by_commas(a, b.drop_last(), n);
        assert(joined(both) =~= joined(a) + seq![','] + joined(b));
    }
}

/// The statuses of success are those from 200 to 299.
pub proof fn law_success_is_two_hundred(status: u16)
    ensures
        successful(status) <==> status / 100 == 2,
{
}

/// A train is retried when two minutes have passed since it was last asked for,
/// and not before.
pub proof fn law_retries_wait_two_minutes(
    entries: Seq<(u32, TrainState)>,
    i: int,
    axis: UnknownAxis,
    at: Instant,
    now: Instant,
    cap: nat,
)
    requires
        unique_numbers(entries),
        0 <= i < entries.len(),
        asked_at(entries[i].1, axis, at),
        at.ticks <= now.ticks,
    ensures
        now.ticks - at.ticks < 120_000_000 ==> !retry_candidates(entries, axis, now, cap).contains(
            entries[i].0,
        ),
        now.ticks - at.ticks >= 120_000_000 && entries.len() <= cap && (match axis {
            UnknownAxis::Type => entries[i].1.typ == TrainType::Unknown,
            UnknownAxis::Service => entries[i].1.typ != TrainType::Unknown && entries[i].1.service
                == ServiceType::Unknown,
        }) ==> retry_candidates(entries, axis, now, cap).contains(entries[i].0),
{
    let cooldown = Duration { ticks: 120_000_000 };
    let pick = |s: TrainState| pending(s, axis, cooldown, now);
    if now.ticks - at.ticks < 120_000_000 {
        law_resting_trains_are_not_listed(entries, i, axis, at, cooldown, now, cap);
    } else if entries.len() <= cap {
        law_listing_is_short(entries, pick);
        if pick(entries[i].1) {
            law_listed_when_chosen(entries, pick, i);
        }
    }
}

/// A train of which something is unknown, and that was never asked for, is a
/// candidate at once: for its type if that is unknown, else for its service.
pub proof fn law_new_trains_are_candidates(
    entries: Seq<(u32, TrainState)>,
    i: int,
    now: Instant,
    cap: nat,
)
    requires
        0 <= i < entries.len() <= cap,
    ensures
        entries[i].1.typ == TrainType::Unknown && entries[i].1.last_type_attempt_ago
            == TrainState::ATTEMPT_NEVER ==> retry_candidates(
            entries,
            UnknownAxis::Type,
            now,
            cap,
        ).contains(entries[i].0),
        entries[i].1.typ != TrainType::Unknown && entries[i].1.service == ServiceType::Unknown
            && entries[i].1.last_service_attempt_ago == TrainState::ATTEMPT_NEVER
            ==> retry_candidates(entries, UnknownAxis::Service, now, cap).contains(entries[i].0),
{
    let cooldown = Duration { ticks: 120_000_000 };
    let for_type = |s: TrainState| pending(s, UnknownAxis::Type, cooldown, now);
    let for_service = |s: TrainState| pending(s, UnknownAxis::Service, cooldown, now);
    law_listing_is_short(entries, for_type);
    law_listing_is_short(entries, for_service);
    if for_type(entries[i].1) {
        law_listed_when_chosen(entries, for_type, i);
    }
    if for_service(entries[i].1) {
        law_listed_when_chosen(entries, for_service, i);
    }
}

/// The order of a round: a connection; the types in chunks of eight; the services
/// one by one; the snapshot. A failed request skips the remaining requests but
/// not the snapshot, and a pause follows; without a connection there is only the
/// pause; without work there is no round.
pub proof fn law_order_of_a_round(i: usize, ok: bool, types: nat, services: nat)
    requires
        types <= 32,
        services <= 4,
        i < 32,
    ensures
        first_stage(types, services) == Stage::Open <==> types + services > 0,
        first_stage(types, services) == Stage::Done <==> types + services == 0,
        stage_after(Stage::Open, true, types, services) == if types > 0 {
            Stage::Types(0)
        } else if services > 0 {
            Stage::Services(0)
        } else {
            Stage::Publish(false)
        },
        stage_after(Stage::Types(i), true, types, services) == if i + 8 < types {
            Stage::Types((i + 8) as usize)
        } else if services > 0 {
            Stage::Services(0)
        } else {
            Stage::Publish(false)
        },
        stage_after(Stage::Services(i), true, types, services) == if i + 1 < services {
            Stage::Services((i + 1) as usize)
        } else {
            Stage::Publish(false)
        },
        stage_after(Stage::Open, false, types, services) == Stage::Backoff,
        stage_after(Stage::Types(i), false, types, services) == Stage::Publish(true),
        stage_after(Stage::Services(i), false, types, services) == Stage::Publish(true),
        stage_after(Stage::Publish(true), ok, types, services) == Stage::Backoff,
        stage_after(Stage::Publish(false), ok, types, services) == Stage::Done,
        stage_after(Stage::Backoff, ok, types, services) == Stage::Done,
{
}

} // verus!
