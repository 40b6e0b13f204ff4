use miniz_oxide::deflate::compress_to_vec;
use ns_pixels::decompress::{next_step, text_of, Decompressor, Error, Next, STREAM_END};
use ns_pixels::gzip::skip_header;

const PLAIN: [u8; 10] = [0x1f, 0x8b, 8, 0, 0, 0, 0, 0, 0, 3];

fn with_flags(flags: u8, rest: &[u8]) -> Vec<u8> {
    let mut header = PLAIN.to_vec();
    header[3] = flags;
    header.extend_from_slice(rest);
    header
}

fn gzip(data: &[u8]) -> Vec<u8> {
    let mut out = PLAIN.to_vec();
    out.extend(compress_to_vec(data, 6));
    out.extend([0; 8]);
    out
}

#[test]
fn plain_header_is_ten_bytes() {
    assert_eq!(skip_header(&PLAIN), Some(10));
    assert_eq!(skip_header(&PLAIN[..9]), None);
    for (i, wrong) in [(0usize, 0x1eu8), (1, 0x8a), (2, 9)] {
        let mut header = PLAIN;
        header[i] = wrong;
        assert_eq!(skip_header(&header), None);
    }
}

#[test]
fn optional_fields_are_skipped() {
    assert_eq!(skip_header(&with_flags(0x04, &[3, 0, 1, 2, 3, 9])), Some(15));
    assert_eq!(skip_header(&with_flags(0x04, &[3, 0, 1, 2])), None);
    assert_eq!(skip_header(&with_flags(0x04, &[3])), None);
    assert_eq!(skip_header(&with_flags(0x08, b"abc\0x")), Some(14));
    assert_eq!(skip_header(&with_flags(0x08, b"abc")), None);
    assert_eq!(skip_header(&with_flags(0x10, b"c\0")), Some(12));
    assert_eq!(skip_header(&with_flags(0x10, b"c")), None);
    assert_eq!(skip_header(&with_flags(0x02, &[7, 7])), Some(12));
    assert_eq!(skip_header(&with_flags(0x02, &[7])), None);
    assert_eq!(skip_header(&with_flags(0x1e, b"\x01\0zn\0c\0hh")), Some(19));
    let mut long = vec![0x00, 0x01];
    long.extend([0; 256]);
    assert_eq!(skip_header(&with_flags(0x04, &long)), Some(268));
}

#[test]
fn header_ends_before_the_body() {
    let header = with_flags(0x08, b"name\0");
    let mut whole = header.clone();
    whole.extend(b"body\0body");
    assert_eq!(skip_header(&whole), skip_header(&header));
}

#[test]
fn payload_is_inflated() {
    let mut d = Decompressor::new(4096);
    let text = "de trein naar Utrecht ".repeat(50);
    assert_eq!(d.inflate_gzip(&gzip(text.as_bytes())), Ok(text.as_str()));
    // Each payload stands alone.
    assert_eq!(d.inflate_gzip(&gzip(b"kort")), Ok("kort"));
    assert_eq!(d.inflate_gzip(&gzip("\u{e9}".as_bytes())), Ok("\u{e9}"));
}

#[test]
fn buffer_may_be_filled_to_the_last_byte() {
    let data = [b'a'; 100];
    assert!(Decompressor::new(100).inflate_gzip(&gzip(&data)).is_ok());
    assert_eq!(Decompressor::new(99).inflate_gzip(&gzip(&data)), Err(Error::Overflow));
    assert_eq!(Decompressor::new(0).inflate_gzip(&gzip(&data)), Err(Error::Overflow));
}

#[test]
fn bad_payloads_are_refused() {
    let mut d = Decompressor::new(1000);
    assert_eq!(d.inflate_gzip(b"<xml/>"), Err(Error::BadGzipHeader));
    assert_eq!(d.inflate_gzip(&gzip(&[b'a', 0xff, b'b'])), Err(Error::NotUtf8(1)));
    // Block type 3 is reserved.
    let mut corrupt = PLAIN.to_vec();
    corrupt.extend([0xff; 20]);
    assert_eq!(
        d.inflate_gzip(&corrupt),
        Err(Error::Inflate(miniz_oxide::MZError::Data as i32))
    );
    // A stream that is cut short.
    let text: Vec<u8> = (0..200u32).map(|i| b'a' + (i * i % 26) as u8).collect();
    let whole = gzip(&text);
    assert_eq!(
        d.inflate_gzip(&whole[..40]),
        Err(Error::Inflate(miniz_oxide::MZError::Buf as i32))
    );
    // The inflater works again after a failure.
    assert_eq!(d.inflate_gzip(&gzip(b"goed")), Ok("goed"));
}

#[test]
fn replies_decide_what_follows() {
    assert_eq!(miniz_oxide::MZStatus::StreamEnd as i32, STREAM_END);
    assert_eq!(next_step(Ok(STREAM_END), 3, 4), Next::Done);
    assert_eq!(next_step(Ok(0), 0, 0), Next::Done);
    assert_eq!(next_step(Ok(0), 0, 1), Next::Again);
    assert_eq!(next_step(Ok(0), 1, 0), Next::Again);
    assert_eq!(next_step(Err(-3), 1, 0), Next::Failed(-3));
}

#[test]
fn text_says_how_far_it_is_valid() {
    assert_eq!(text_of(b"abc"), Ok("abc"));
    assert_eq!(text_of(b"ab\xc3\xa9\xc3"), Err(Error::NotUtf8(4)));
}
