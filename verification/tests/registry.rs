use ns_pixels::clusters::{collapse, ClusterVec};
use ns_pixels::map_mode::MapMode;
use ns_pixels::number_buf::NumberBuf;
use ns_pixels::projection::PixelCoord;
use ns_pixels::registry::{
    attempt_offset_ticks, bump_attempt_ago, Registry, UnknownAxis, EVICT_BATCH,
};
use ns_pixels::time::{Duration, Instant, TICK_HZ};
use ns_pixels::train::{PixelData, ServiceType, TrainState, TrainType};
use ns_pixels::train_map::MAX_TRAINS;

fn at(seconds: u64) -> Instant {
    Instant { ticks: seconds * TICK_HZ }
}

fn ticks(seconds: i128) -> i128 {
    seconds * TICK_HZ as i128
}

const HERE: PixelCoord = PixelCoord { x: 10, y: 20 };
const THERE: PixelCoord = PixelCoord { x: 11, y: 21 };

fn state(reg: &Registry, number: u32) -> TrainState {
    reg.entries().into_iter().find(|e| e.0 == number).unwrap().1
}

fn numbers(reg: &Registry) -> Vec<u32> {
    reg.entries().into_iter().map(|e| e.0).collect()
}

#[test]
fn empty_registry() {
    let reg = Registry::default();
    assert!(reg.is_empty());
    assert_eq!(reg.len(), 0);
    assert_eq!(reg.unknown_count(), (0, 0));
    assert!(reg.seen_by(UnknownAxis::Type, at(0)));
}

#[test]
fn clock_ticks_as_in_the_firmware() {
    assert_eq!(TICK_HZ, embassy_time::TICK_HZ);
    assert_eq!(Duration::from_secs(3).ticks, embassy_time::Duration::from_secs(3).as_ticks());
    assert_eq!(Duration { ticks: 2_999_999 }.as_secs(), 2);
}

#[test]
fn trains_are_inserted_and_refreshed() {
    let mut reg = Registry::new();
    assert!(reg.upsert(5, HERE, at(1)));
    assert!(!reg.upsert(5, THERE, at(4)));
    assert_eq!(reg.len(), 1);
    assert!(!reg.is_empty());
    let s = state(&reg, 5);
    assert_eq!(s.pixel, THERE);
    assert_eq!(s.last_seen, at(4));
    assert_eq!(s.last_type_attempt_ago, TrainState::ATTEMPT_NEVER);
    assert_eq!(s.last_service_attempt_ago, TrainState::ATTEMPT_NEVER);
}

#[test]
fn only_retries_need_the_clock() {
    let mut reg = Registry::new();
    reg.upsert(5, HERE, at(4));
    // Never asked about: nothing to count from.
    assert!(reg.seen_by(UnknownAxis::Type, at(3)));
    reg.set_type(5, TrainType::Unknown, at(4));
    assert!(reg.seen_by(UnknownAxis::Type, at(4)));
    assert!(!reg.seen_by(UnknownAxis::Type, at(3)));
    // A service is not wanted while the type is unknown.
    reg.set_service(5, ServiceType::Unknown, at(4));
    assert!(reg.seen_by(UnknownAxis::Service, at(3)));
    reg.set_type(5, TrainType::SNG, at(4));
    assert!(reg.seen_by(UnknownAxis::Type, at(3)));
    assert!(!reg.seen_by(UnknownAxis::Service, at(3)));
    let mut buf: NumberBuf<4> = NumberBuf::new();
    reg.pending_enrichment(&mut buf, Duration::from_secs(1), at(3));
    assert!(buf.is_empty());
}

#[test]
fn attempts_stay_anchored() {
    let mut reg = Registry::new();
    reg.upsert(5, HERE, at(100));
    reg.set_type(5, TrainType::Unknown, at(100));
    reg.set_service(5, ServiceType::Sprinter, at(100));
    reg.upsert(5, HERE, at(130));
    assert_eq!(state(&reg, 5).last_type_attempt_ago, ticks(30));
    assert_eq!(state(&reg, 5).last_service_attempt_ago, ticks(30));
    // A clock that steps back does not move the attempt.
    reg.upsert(5, HERE, at(120));
    assert_eq!(state(&reg, 5).last_type_attempt_ago, ticks(20));
    // Fractions of a second do not add up.
    for n in 1..=30 {
        reg.upsert(5, HERE, Instant { ticks: at(120).ticks + n * 999_999 });
    }
    assert_eq!(state(&reg, 5).last_type_attempt_ago, ticks(20) + 30 * 999_999);
}

#[test]
fn full_registry_drops_new_trains() {
    let mut reg = Registry::new();
    for n in 0..MAX_TRAINS as u32 {
        assert!(reg.upsert(n, HERE, at(1)));
    }
    assert!(reg.upsert(9999, HERE, at(1)));
    assert_eq!(reg.len(), MAX_TRAINS);
    assert!(!reg.upsert(3, THERE, at(2)));
    assert_eq!(state(&reg, 3).pixel, THERE);
}

#[test]
fn results_touch_one_train() {
    let mut reg = Registry::new();
    reg.upsert(1, HERE, at(5));
    reg.upsert(2, HERE, at(5));
    reg.set_type(1, TrainType::ICM, at(6));
    reg.set_service(2, ServiceType::Intercity, at(6));
    reg.set_type(3, TrainType::SNG, at(6));
    reg.set_service(3, ServiceType::Sprinter, at(6));
    assert_eq!(reg.len(), 2);
    assert_eq!(state(&reg, 1).typ, TrainType::ICM);
    assert_eq!(state(&reg, 1).service, ServiceType::Unknown);
    assert_eq!(state(&reg, 2).typ, TrainType::Unknown);
    assert_eq!(state(&reg, 2).service, ServiceType::Intercity);
    assert_eq!(reg.unknown_count(), (1, 1));
}

#[test]
fn stale_trains_are_evicted() {
    let mut reg = Registry::new();
    for n in 0..5 {
        reg.upsert(n, HERE, at(if n % 2 == 0 { 10 } else { 50 }));
    }
    assert_eq!(reg.evict_older_than(at(50)), 3);
    let mut left = numbers(&reg);
    left.sort();
    assert_eq!(left, vec![1, 3]);
    assert_eq!(reg.evict_older_than(at(50)), 0);
}

#[test]
fn eviction_is_bounded_per_pass() {
    let mut reg = Registry::new();
    for n in 0..100 {
        reg.upsert(n, HERE, at(1));
    }
    assert_eq!(reg.evict_older_than(at(2)), EVICT_BATCH);
    assert_eq!(reg.evict_older_than(at(2)), 100 - EVICT_BATCH);
    assert!(reg.is_empty());
}

#[test]
fn removal_moves_the_last_train_up() {
    let mut reg = Registry::new();
    reg.upsert(1, HERE, at(1));
    reg.upsert(2, HERE, at(9));
    reg.upsert(3, HERE, at(9));
    reg.evict_older_than(at(5));
    assert_eq!(numbers(&reg), vec![3, 2]);
}

#[test]
fn unknown_trains_are_listed() {
    let mut reg = Registry::new();
    for n in 1..=4 {
        reg.upsert(n, HERE, at(1));
    }
    reg.set_type(2, TrainType::SLT, at(1));
    reg.set_service(1, ServiceType::Sprinter, at(1));
    let mut buf: NumberBuf<2> = NumberBuf::new();
    reg.unknown_numbers(&mut buf, UnknownAxis::Type);
    assert_eq!(buf.as_slice(), &[1, 3]);
    reg.unknown_numbers(&mut buf, UnknownAxis::Service);
    assert_eq!(buf.as_slice(), &[2, 3]);
    assert_eq!(buf.capacity(), 2);
    assert_eq!(buf.push(9), Err(9));
}

#[test]
fn pending_trains_rest_between_attempts() {
    let mut reg = Registry::new();
    for n in 1..=4 {
        reg.upsert(n, HERE, at(100));
    }
    reg.set_type(1, TrainType::SNG, at(100));
    reg.set_type(2, TrainType::Unknown, at(100));
    reg.set_type(3, TrainType::SNG, at(100));
    reg.set_service(3, ServiceType::Unknown, at(100));
    let cooldown = Duration::from_secs(60);
    let mut buf: NumberBuf<8> = NumberBuf::new();
    reg.pending_enrichment(&mut buf, cooldown, at(159));
    assert_eq!(buf.as_slice(), &[4]);
    reg.pending_enrichment(&mut buf, cooldown, at(160));
    assert_eq!(buf.as_slice(), &[2, 4]);
    reg.pending_service_enrichment(&mut buf, cooldown, at(159));
    assert_eq!(buf.as_slice(), &[1]);
    reg.pending_service_enrichment(&mut buf, cooldown, at(160));
    assert_eq!(buf.as_slice(), &[1, 3]);
}

#[test]
fn cooldown_counts_from_the_attempt() {
    let cooldown = Duration::from_secs(60);
    let mut reg = Registry::new();
    reg.upsert(1, HERE, at(100));
    reg.upsert(2, HERE, at(100));
    reg.set_type(1, TrainType::Unknown, at(150));
    reg.set_type(2, TrainType::ICM, at(150));
    reg.set_service(2, ServiceType::Unknown, at(150));
    let mut buf: NumberBuf<8> = NumberBuf::new();
    // Last seen long enough ago, but asked about only a moment ago.
    reg.pending_enrichment(&mut buf, cooldown, at(170));
    assert!(buf.is_empty());
    reg.pending_service_enrichment(&mut buf, cooldown, at(170));
    assert!(buf.is_empty());
    // Seen again in between.
    reg.upsert(1, THERE, at(180));
    reg.upsert(2, THERE, at(180));
    for (now, due) in [(at(209), false), (at(210), true)] {
        reg.pending_enrichment(&mut buf, cooldown, now);
        assert_eq!(buf.as_slice() == &[1], due);
        reg.pending_service_enrichment(&mut buf, cooldown, now);
        assert_eq!(buf.as_slice() == &[2], due);
    }
}

#[test]
fn attempt_offsets_saturate() {
    let most = TrainState::ATTEMPT_NEVER - 1;
    assert_eq!(bump_attempt_ago(TrainState::ATTEMPT_NEVER, 5), TrainState::ATTEMPT_NEVER);
    assert_eq!(bump_attempt_ago(TrainState::ATTEMPT_NEVER, -5), TrainState::ATTEMPT_NEVER);
    assert_eq!(bump_attempt_ago(10, 5), 15);
    assert_eq!(bump_attempt_ago(-10, 5), -5);
    assert_eq!(bump_attempt_ago(10, -15), -5);
    assert_eq!(bump_attempt_ago(most - 4, 4), most);
    assert_eq!(bump_attempt_ago(most - 4, 5), most);
    assert_eq!(bump_attempt_ago(most - 4, 50), most);
    assert_eq!(bump_attempt_ago(i128::MIN, -1), i128::MIN);
    assert_eq!(attempt_offset_ticks(at(5), at(9)), ticks(-4));
    assert_eq!(attempt_offset_ticks(at(9), at(5)), ticks(4));
    assert_eq!(attempt_offset_ticks(at(9), at(9)), 0);
}

#[test]
fn snapshot_collapses_shared_pixels() {
    let mut reg = Registry::new();
    reg.upsert(1, PixelCoord { x: 70, y: 80 }, at(1));
    reg.upsert(2, PixelCoord { x: 70, y: 79 }, at(1));
    reg.upsert(3, PixelCoord { x: 70, y: 80 }, at(1));
    reg.upsert(4, PixelCoord { x: 255, y: 80 }, at(1));
    reg.set_type(1, TrainType::SNG, at(1));
    reg.set_type(3, TrainType::ICM, at(1));
    reg.set_service(3, ServiceType::Intercity, at(1));
    let mut out = ClusterVec::new();
    reg.rebuild_clusters_into(&mut out, MapMode::Randstad);
    assert_eq!(out.len(), 2);
    assert_eq!(out[0].coord_key, 8 * 256 + 6);
    assert_eq!(out[0].types, TrainType::UNKNOWN_BIT);
    assert_eq!(out[1].coord_key, 8 * 256 + 7);
    assert_eq!(out[1].types, TrainType::SNG_BIT | TrainType::ICM_BIT);
    assert_eq!(out[1].services, ServiceType::UNKNOWN_BIT | ServiceType::INTERCITY_BIT);
    // In the country view 70 * 2 / 7 is 20, and 79 and 80 fall together.
    reg.rebuild_clusters_into(&mut out, MapMode::Netherlands);
    assert_eq!(out.len(), 1);
    assert_eq!(out[0].coord_key, 20 * 256 + 22);
}

#[test]
fn collapsing_ignores_order() {
    let cells = [(9u16, 1u8, 1u8), (3, 2, 2), (9, 4, 1), (3, 2, 4), (5, 8, 8)];
    let run = |order: &[usize]| {
        let mut v = ClusterVec::new();
        for i in order {
            let (coord_key, types, services) = cells[*i];
            v.push(PixelData { coord_key, types, services }).unwrap();
        }
        collapse(&mut v);
        v.iter().map(|c| (c.coord_key, c.types, c.services)).collect::<Vec<_>>()
    };
    assert_eq!(run(&[0, 1, 2, 3, 4]), vec![(3, 2, 6), (5, 8, 8), (9, 5, 1)]);
    assert_eq!(run(&[4, 2, 0, 3, 1]), run(&[0, 1, 2, 3, 4]));
    assert_eq!(run(&[]), vec![]);
}

#[test]
fn bits_of_types_and_services() {
    let types = [
        TrainType::Unknown,
        TrainType::SNG,
        TrainType::SLT,
        TrainType::Flirt,
        TrainType::ICM,
        TrainType::DDZ,
        TrainType::VIRM,
        TrainType::ICNG,
    ];
    for (i, t) in types.iter().enumerate() {
        assert_eq!(t.as_bit(), 1 << i);
    }
    let services = [
        ServiceType::Unknown,
        ServiceType::Sprinter,
        ServiceType::Intercity,
        ServiceType::IntercityDirect,
    ];
    for (i, s) in services.iter().enumerate() {
        assert_eq!(s.as_bit(), 1 << i);
    }
    let mut train = TrainState::new(HERE, at(1));
    train.typ = TrainType::DDZ;
    let cell = PixelData::from(&train);
    assert_eq!((cell.coord_key, cell.types, cell.services), (10 * 256 + 20, 32, 1));
}
