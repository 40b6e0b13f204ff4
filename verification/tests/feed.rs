use miniz_oxide::deflate::compress_to_vec;
use ns_pixels::decompress::{Decompressor, Error};
use ns_pixels::display::{refresh_clusters, ClusterExchange};
use ns_pixels::feed::{apply_message, decode_message, payload, FeedError, Position};
use ns_pixels::map_mode::MapMode;
use ns_pixels::projection::PixelCoord;
use ns_pixels::registry::Registry;
use ns_pixels::time::{Instant, TICK_HZ};

fn at(seconds: u64) -> Instant {
    Instant { ticks: seconds * TICK_HZ }
}

fn pos(number: u32, x: u8) -> Position {
    Position { number, pixel: PixelCoord { x, y: 100 } }
}

fn gzip(data: &[u8]) -> Vec<u8> {
    let mut out = vec![0x1f, 0x8b, 8, 0, 0, 0, 0, 0, 0, 3];
    out.extend(compress_to_vec(data, 6));
    out
}

#[test]
fn payload_is_the_second_frame() {
    assert_eq!(payload(&vec![vec![1]]), Err(FeedError::FrameCount(1)));
    assert_eq!(payload(&vec![]), Err(FeedError::FrameCount(0)));
    assert_eq!(payload(&vec![vec![1], vec![2], vec![3]]), Ok(&vec![2]));
}

#[test]
fn messages_are_decoded() {
    let xml = b"<r><TreinLocation><TreinNummer>9</TreinNummer><TreinMaterieelDelen>\
<Longitude>5.1</Longitude><Latitude>52.1</Latitude></TreinMaterieelDelen></TreinLocation></r>";
    let mut d = Decompressor::new(1000);
    let trains = decode_message(&mut d, &vec![b"/topic".to_vec(), gzip(xml)]).unwrap();
    assert_eq!(trains.len(), 1);
    assert_eq!(
        (trains[0].number, trains[0].lon.as_str(), trains[0].lat.as_str()),
        (9, "5.1", "52.1")
    );
}

#[test]
fn bad_messages_are_skipped() {
    let mut d = Decompressor::new(10);
    assert_eq!(decode_message(&mut d, &vec![vec![]]).unwrap_err(), FeedError::FrameCount(1));
    assert_eq!(
        decode_message(&mut d, &vec![vec![], b"no gzip".to_vec()]).unwrap_err(),
        FeedError::Decompress(Error::BadGzipHeader)
    );
    assert_eq!(
        decode_message(&mut d, &vec![vec![], gzip(&[b'a'; 11])]).unwrap_err(),
        FeedError::Decompress(Error::Overflow)
    );
}

#[test]
fn messages_update_the_registry() {
    let mut reg = Registry::new();
    let (mut exchange, mut shown) = ClusterExchange::new();
    let positions = [pos(1, 70), pos(2, 70), pos(1, 90)];
    let r = apply_message(&mut reg, &mut exchange, &positions, at(10), MapMode::Randstad);
    assert_eq!(r.new_numbers, vec![1, 2]);
    assert_eq!((r.evicted, r.registry_len, r.unknowns, r.published), (0, 2, (2, 2), true));
    assert_eq!(reg.entries()[0].1.pixel, PixelCoord { x: 90, y: 100 });
    refresh_clusters(&mut exchange, &mut shown);
    assert_eq!(shown.len(), 2);

    let r = apply_message(&mut reg, &mut exchange, &[pos(2, 71)], at(400), MapMode::Randstad);
    assert_eq!(r.evicted, 2);
    assert_eq!(r.new_numbers, vec![2]);
    assert_eq!(r.registry_len, 1);
}

#[test]
fn fresh_trains_stay() {
    let mut reg = Registry::new();
    let (mut exchange, _shown) = ClusterExchange::new();
    apply_message(&mut reg, &mut exchange, &[pos(1, 70)], at(100), MapMode::Netherlands);
    let r = apply_message(&mut reg, &mut exchange, &[pos(2, 70)], at(400), MapMode::Netherlands);
    assert_eq!((r.evicted, r.registry_len), (0, 2));
    // The display has not recycled the last snapshot yet.
    assert!(!r.published);
    let r = apply_message(&mut reg, &mut exchange, &[], at(401), MapMode::Netherlands);
    assert_eq!((r.evicted, r.registry_len), (1, 1));
}
