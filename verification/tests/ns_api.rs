use ns_pixels::ns_api::{
    body_text, is_successful, journey_path, map_category_code, map_train_type, next_seed,
    service_of, service_parsed, service_status, service_text, service_unparsed, types_parsed,
    types_path, types_status, types_text, types_unparsed, Batches, FetchError, JourneyEvent,
    JourneyProduct, JourneyStop, Stage, TrainInfo, BATCH_MAX, MAX_INFOS, RETRY_COOLDOWN_S,
};
use ns_pixels::projection::PixelCoord;
use ns_pixels::registry::Registry;
use ns_pixels::time::{Instant, TICK_HZ};
use ns_pixels::train::{ServiceType, TrainState, TrainType};

fn at(seconds: u64) -> Instant {
    Instant { ticks: seconds * TICK_HZ }
}

fn registry(numbers: &[u32]) -> Registry {
    let mut reg = Registry::new();
    for n in numbers {
        assert!(reg.upsert(*n, PixelCoord { x: 1, y: 2 }, at(10)));
    }
    reg
}

fn state(reg: &Registry, number: u32) -> TrainState {
    reg.entries().into_iter().find(|e| e.0 == number).unwrap().1
}

#[test]
fn category_codes() {
    assert_eq!(map_category_code("SPR"), ServiceType::Sprinter);
    assert_eq!(map_category_code("IC"), ServiceType::Intercity);
    assert_eq!(map_category_code("ICD"), ServiceType::IntercityDirect);
    assert_eq!(map_category_code("ECD"), ServiceType::IntercityDirect);
    for other in ["", "ic", "ICE", "SPR "] {
        assert_eq!(map_category_code(other), ServiceType::Unknown);
    }
}

#[test]
fn train_types() {
    let names = [
        ("SNG", TrainType::SNG),
        ("slt", TrainType::SLT),
        ("Flirt", TrainType::Flirt),
        ("ICM-III", TrainType::ICM),
        ("DDZ", TrainType::DDZ),
        ("DDAR 4", TrainType::DDZ),
        (" VIRM-VI ", TrainType::VIRM),
        ("ICNG", TrainType::ICNG),
        ("", TrainType::Unknown),
        ("-SNG", TrainType::Unknown),
        ("SNGX", TrainType::Unknown),
        ("VIRMVIRMVIRMVIRMVIRM", TrainType::Unknown),
        ("\u{17f}lt", TrainType::Unknown),
    ];
    for (name, typ) in names {
        assert_eq!(map_train_type(Some(name)), typ, "{name}");
    }
    assert_eq!(map_train_type(None), TrainType::Unknown);
}

fn event(code: Option<&str>) -> JourneyEvent {
    JourneyEvent {
        product: Some(JourneyProduct { category_code: code.map(|c| c.to_string()) }),
    }
}

#[test]
fn first_category_code_wins() {
    let stops = vec![
        JourneyStop { departures: vec![], arrivals: vec![JourneyEvent { product: None }] },
        JourneyStop { departures: vec![event(None)], arrivals: vec![event(Some("SPR"))] },
        JourneyStop { departures: vec![event(Some("IC"))], arrivals: vec![] },
    ];
    assert_eq!(service_of(&stops), ServiceType::Sprinter);
    let stops = vec![JourneyStop {
        departures: vec![event(Some("ICD"))],
        arrivals: vec![event(Some("SPR"))],
    }];
    assert_eq!(service_of(&stops), ServiceType::IntercityDirect);
    // An unknown first code is not passed over.
    let stops = vec![JourneyStop {
        departures: vec![event(Some("BUS")), event(Some("SPR"))],
        arrivals: vec![],
    }];
    assert_eq!(service_of(&stops), ServiceType::Unknown);
    assert_eq!(service_of(&[]), ServiceType::Unknown);
}

#[test]
fn paths_name_the_trains() {
    assert_eq!(types_path(&[7]), "/virtual-train-api/v1/trein?ids=7");
    assert_eq!(types_path(&[7, 0, 6441]), "/virtual-train-api/v1/trein?ids=7,0,6441");
    assert!(types_path(&[u32::MAX; BATCH_MAX]).len() <= 160);
    assert_eq!(journey_path(6441), "/reisinformatie-api/api/v2/journey?train=6441");
    assert!(journey_path(u32::MAX).len() <= 128);
    assert_eq!(MAX_INFOS, BATCH_MAX * 5);
}

#[test]
fn success_is_any_status_in_the_two_hundreds() {
    for status in [200, 204, 299] {
        assert!(is_successful(status));
    }
    for status in [0, 100, 199, 300, 404, 503] {
        assert!(!is_successful(status));
    }
}

#[test]
fn bodies_must_be_text() {
    assert_eq!(body_text::<()>(b"[]"), Ok("[]"));
    assert_eq!(body_text::<()>(b"\xff"), Err(FetchError::InvalidUtf8));
}

/// Seconds by which the last type attempt came after the train was last seen.
fn asked_after(reg: &Registry, number: u32) -> Option<i128> {
    let ago = state(reg, number).last_type_attempt_ago;
    if ago == TrainState::ATTEMPT_NEVER {
        None
    } else {
        Some(-ago / TICK_HZ as i128)
    }
}

#[test]
fn type_records_are_applied() {
    let mut reg = registry(&[1, 2, 3, 4]);
    reg.set_type(3, TrainType::ICM, at(10));
    let infos = [
        TrainInfo { number: 1, train_type: Some("VIRM-IV".to_string()) },
        TrainInfo { number: 2, train_type: None },
        TrainInfo { number: 9, train_type: Some("SNG".to_string()) },
    ];
    assert_eq!(types_parsed(&mut reg, &[1, 2, 3], &infos, at(20)), 2);
    assert_eq!(reg.len(), 4);
    assert_eq!(state(&reg, 1).typ, TrainType::VIRM);
    assert_eq!(state(&reg, 2).typ, TrainType::Unknown);
    assert_eq!(state(&reg, 3).typ, TrainType::Unknown);
    // Every train that was asked for is stamped, with a record or without.
    for n in [1, 2, 3] {
        assert_eq!(asked_after(&reg, n), Some(10));
    }
    assert_eq!(asked_after(&reg, 4), None);
}

#[test]
fn missing_trains_sit_on_the_cooldown() {
    let mut reg = registry(&[1]);
    assert_eq!(types_parsed(&mut reg, &[1], &[], at(100)), 0);
    let mut work = Batches::new();
    work.top_up(&reg, at(99 + RETRY_COOLDOWN_S));
    assert_eq!(work.start(), Stage::Done);
    work.top_up(&reg, at(100 + RETRY_COOLDOWN_S));
    assert_eq!(work.types.as_slice(), &[1]);
}

#[test]
fn refused_batches_are_stamped() {
    let mut reg = registry(&[1, 2, 3]);
    assert_eq!(types_status::<()>(&mut reg, &[1, 3], 200, at(20)), Ok(()));
    assert_eq!(asked_after(&reg, 1), None);
    assert_eq!(
        types_status::<()>(&mut reg, &[1, 3], 503, at(20)),
        Err(FetchError::HttpStatus(503))
    );
    assert_eq!(asked_after(&reg, 1), Some(10));
    assert_eq!(asked_after(&reg, 2), None);
    assert_eq!(asked_after(&reg, 3), Some(10));
}

/// A type request from the status on, with `parse` in the place of the parser.
fn types_of(
    reg: &mut Registry,
    status: u16,
    body: &[u8],
    parse: fn(&str) -> Option<Vec<TrainInfo>>,
) -> Result<usize, FetchError<String>> {
    let batch = [1, 2];
    types_status(reg, &batch, status, at(20))?;
    let text = types_text(reg, &batch, body, at(20))?;
    match parse(text) {
        Some(infos) => Ok(types_parsed(reg, &batch, &infos, at(20))),
        None => Err(types_unparsed(reg, &batch, at(20))),
    }
}

#[test]
fn unreadable_answers_are_stamped() {
    let answers: [(u16, &[u8], FetchError<String>); 3] = [
        (404, b"[]", FetchError::HttpStatus(404)),
        (200, b"\xff", FetchError::InvalidUtf8),
        (200, b"nonsense", FetchError::Json),
    ];
    for (status, body, error) in answers {
        let mut reg = registry(&[1, 2, 3]);
        assert_eq!(types_of(&mut reg, status, body, |_| None), Err(error));
        assert_eq!(asked_after(&reg, 1), Some(10));
        assert_eq!(asked_after(&reg, 2), Some(10));
        assert_eq!(asked_after(&reg, 3), None);
    }
    let mut reg = registry(&[1, 2, 3]);
    let slt = |text: &str| {
        assert_eq!(text, "[]");
        Some(vec![TrainInfo { number: 2, train_type: Some("SLT".to_string()) }])
    };
    assert_eq!(types_of(&mut reg, 200, b"[]", slt), Ok(1));
    assert_eq!(state(&reg, 2).typ, TrainType::SLT);
}

#[test]
fn services_are_applied_or_stamped() {
    let mut reg = registry(&[1, 2, 3, 4]);
    let stops = [JourneyStop { departures: vec![event(Some("IC"))], arrivals: vec![] }];
    assert_eq!(service_status::<()>(&mut reg, 1, 204, at(20)), Ok(()));
    assert_eq!(service_text::<()>(&mut reg, 1, b"{}", at(20)), Ok("{}"));
    assert_eq!(state(&reg, 1).last_service_attempt_ago, TrainState::ATTEMPT_NEVER);
    assert_eq!(service_parsed(&mut reg, 1, &stops, at(20)), ServiceType::Intercity);
    assert_eq!(state(&reg, 1).service, ServiceType::Intercity);
    assert_eq!(
        service_status::<()>(&mut reg, 2, 404, at(20)),
        Err(FetchError::HttpStatus(404))
    );
    assert_eq!(
        service_text::<()>(&mut reg, 3, b"\xff", at(20)),
        Err(FetchError::InvalidUtf8)
    );
    assert_eq!(service_unparsed::<()>(&mut reg, 4, at(20)), FetchError::Json);
    for n in [2, 3, 4] {
        assert_eq!(state(&reg, n).service, ServiceType::Unknown);
        assert_eq!(state(&reg, n).last_service_attempt_ago, -10 * TICK_HZ as i128);
        assert_eq!(asked_after(&reg, n), None);
    }
}

#[test]
fn other_errors_carry_their_cause() {
    let http: FetchError<&str> = FetchError::Http("dns");
    assert_ne!(http, FetchError::Json);
}

#[test]
fn seeds_follow_the_generator() {
    assert_eq!(next_seed(0), 1);
    assert_eq!(next_seed(1), 6364136223846793006);
    assert_eq!(next_seed(u64::MAX), 0u64.wrapping_sub(6364136223846793005).wrapping_add(1));
}

#[test]
fn new_trains_fill_both_batches() {
    let mut work = Batches::new();
    assert_eq!(work.start(), Stage::Done);
    for n in 0..40 {
        if work.wants_new() {
            work.add_new(n);
        }
    }
    assert_eq!(work.types.as_slice(), (0..32).collect::<Vec<u32>>().as_slice());
    assert_eq!(work.services.as_slice(), &[0, 1, 2, 3]);
    // New trains come first: nothing is topped up.
    work.top_up(&registry(&[77]), at(10));
    assert_eq!(work.types.len(), 32);
    work.clear();
    assert!(work.types.is_empty() && work.services.is_empty());
}

#[test]
fn retries_wait_for_the_cooldown() {
    let mut reg = registry(&[1, 2, 3]);
    reg.set_type(2, TrainType::SNG, at(10));
    reg.set_type(3, TrainType::Unknown, at(10));
    let mut work = Batches::new();
    work.top_up(&reg, at(10));
    assert_eq!(work.types.as_slice(), &[1]);
    assert_eq!(work.services.as_slice(), &[2]);
    work.clear();
    work.top_up(&reg, at(10 + RETRY_COOLDOWN_S));
    assert_eq!(work.types.as_slice(), &[1, 3]);
}

#[test]
fn rounds_run_through_all_requests() {
    let mut work = Batches::new();
    for n in 0..10 {
        work.add_new(100 + n);
    }
    let mut stage = work.start();
    let mut seen = vec![];
    while stage != Stage::Done {
        seen.push(stage);
        stage = work.advance(stage, true);
    }
    assert_eq!(
        seen,
        vec![
            Stage::Open,
            Stage::Types(0),
            Stage::Types(8),
            Stage::Services(0),
            Stage::Services(1),
            Stage::Services(2),
            Stage::Services(3),
            Stage::Publish(false),
        ]
    );
    assert_eq!(work.type_chunk(0), &[100, 101, 102, 103, 104, 105, 106, 107]);
    assert_eq!(work.type_chunk(8), &[108, 109]);
    assert_eq!(work.service_number(3), 103);
}

#[test]
fn failures_end_a_round_with_a_pause() {
    let mut work = Batches::new();
    work.add_new(1);
    assert_eq!(work.advance(Stage::Open, false), Stage::Backoff);
    assert_eq!(work.advance(Stage::Types(0), false), Stage::Publish(true));
    assert_eq!(work.advance(Stage::Services(0), false), Stage::Publish(true));
    assert_eq!(work.advance(Stage::Publish(true), true), Stage::Backoff);
    assert_eq!(work.advance(Stage::Backoff, true), Stage::Done);
    assert_eq!(work.advance(Stage::Publish(false), true), Stage::Done);
}
