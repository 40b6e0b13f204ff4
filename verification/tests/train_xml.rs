use ns_pixels::train_xml::{is_space, local_name, parse_text, Buf, Parser, Train, TEXT_CAP};

fn parse_all(xml: &[u8]) -> Vec<Train> {
    let mut p = Parser::new();
    p.feed(xml)
}

fn number(text: &str) -> f32 {
    text.parse().unwrap()
}

#[test]
fn train_xml_picks_first_part_only() {
    let xml = br#"<?xml version="1.0"?>
        <a:ArrayOfTreinLocation xmlns:a="x">
          <a:TreinLocation>
            <a:TreinNummer>6441</a:TreinNummer>
            <b:TreinMaterieelDelen xmlns:b="y">
              <b:Longitude>5.486703</b:Longitude>
              <b:Latitude>51.443425</b:Latitude>
            </b:TreinMaterieelDelen>
            <b:TreinMaterieelDelen xmlns:b="y">
              <b:Longitude>9.999</b:Longitude>
              <b:Latitude>9.999</b:Latitude>
            </b:TreinMaterieelDelen>
          </a:TreinLocation>
        </a:ArrayOfTreinLocation>"#;
    let trains = parse_all(xml);
    assert_eq!(trains.len(), 1);
    assert_eq!(trains[0].number, 6441);
    assert!((number(&trains[0].lon) - 5.486703).abs() < 1e-4);
    assert!((number(&trains[0].lat) - 51.443425).abs() < 1e-4);
}

#[test]
fn survives_chunked_feed() {
    let xml: &[u8] = br#"<root><a:TreinLocation xmlns:a="x">
            <a:TreinNummer>42</a:TreinNummer>
            <a:TreinMaterieelDelen>
              <a:Longitude>1.5</a:Longitude>
              <a:Latitude>2.5</a:Latitude>
            </a:TreinMaterieelDelen>
          </a:TreinLocation></root>"#;
    let mut p = Parser::new();
    let mut out = Vec::new();
    for chunk in xml.chunks(7) {
        out.extend(p.feed(chunk));
    }
    assert_eq!(out.len(), 1);
    assert_eq!(out[0].number, 42);
    assert!((number(&out[0].lon) - 1.5).abs() < 1e-6);
    assert!((number(&out[0].lat) - 2.5).abs() < 1e-6);
}

#[test]
fn train_xml_skips_self_closing_and_unrelated() {
    let xml = br#"<a:TreinLocation xmlns:a="x">
            <a:TreinNummer>7</a:TreinNummer>
            <a:TreinMaterieelDelen>
              <a:GeneratieTijd/>
              <a:Bron>GNSS</a:Bron>
              <a:Longitude>3.0</a:Longitude>
              <a:Latitude>4.0</a:Latitude>
              <a:Elevation>1.2</a:Elevation>
            </a:TreinMaterieelDelen>
          </a:TreinLocation>"#;
    let trains = parse_all(xml);
    assert_eq!(trains.len(), 1);
    assert_eq!(trains[0].number, 7);
}

const ONE: &[u8] = b"<TreinLocation><TreinNummer> 12 </TreinNummer><TreinMaterieelDelen>\
<Longitude>1.5</Longitude><Latitude>-2e1</Latitude></TreinMaterieelDelen></TreinLocation>";

#[test]
fn every_cut_gives_the_same_trains() {
    for cut in 0..=ONE.len() {
        let mut p = Parser::default();
        let mut out = p.feed(&ONE[..cut]);
        out.extend(p.feed(&ONE[cut..]));
        assert_eq!(out.len(), 1);
        assert_eq!((out[0].number, out[0].lon.as_str(), out[0].lat.as_str()), (12, "1.5", "-2e1"));
    }
}

#[test]
fn train_comes_with_the_last_byte() {
    let mut p = Parser::new();
    assert!(p.feed(&ONE[..ONE.len() - 1]).is_empty());
    let train = p.step(b'>').unwrap();
    assert_eq!(train.clone().number, 12);
}

#[test]
fn incomplete_locations_give_no_train() {
    let no_number = b"<TreinLocation><TreinMaterieelDelen><Longitude>1</Longitude>\
<Latitude>2</Latitude></TreinMaterieelDelen></TreinLocation>";
    assert!(parse_all(no_number).is_empty());
    let no_latitude = b"<TreinLocation><TreinNummer>1</TreinNummer><TreinMaterieelDelen>\
<Longitude>1</Longitude></TreinMaterieelDelen></TreinLocation>";
    assert!(parse_all(no_latitude).is_empty());
    let bad_number = b"<TreinLocation><TreinNummer>-1</TreinNummer><TreinMaterieelDelen>\
<Longitude>1</Longitude><Latitude>2</Latitude></TreinMaterieelDelen></TreinLocation>";
    assert!(parse_all(bad_number).is_empty());
    let bad_coordinate = b"<TreinLocation><TreinNummer>1</TreinNummer><TreinMaterieelDelen>\
<Longitude>east</Longitude><Latitude>2</Latitude></TreinMaterieelDelen></TreinLocation>";
    assert!(parse_all(bad_coordinate).is_empty());
    let self_closing = b"<TreinLocation/>";
    assert!(parse_all(self_closing).is_empty());
}

#[test]
fn long_texts_and_bad_utf8_are_dropped() {
    let long = b"<TreinLocation><TreinNummer>1</TreinNummer><TreinMaterieelDelen>\
<Longitude>1.00000000000000000000000</Longitude><Latitude>2</Latitude>\
</TreinMaterieelDelen></TreinLocation>";
    assert!(parse_all(long).is_empty());
    let invalid = b"<TreinLocation><TreinNummer>\xff1</TreinNummer><TreinMaterieelDelen>\
<Longitude>1</Longitude><Latitude>2</Latitude></TreinMaterieelDelen></TreinLocation>";
    assert!(parse_all(invalid).is_empty());
}

#[test]
fn comments_and_instructions_are_skipped() {
    let xml = b"<?pi a?b??><!-- <TreinLocation> --><TreinLocation><TreinNummer>3</TreinNummer>\
<TreinMaterieelDelen a='1'/ ><Longitude>1</Longitude><Latitude>2</Latitude>\
</TreinMaterieelDelen></TreinLocation>";
    let trains = parse_all(xml);
    assert_eq!(trains.len(), 1);
    assert_eq!(trains[0].number, 3);
}

#[test]
fn captured_texts_go_on_after_markup() {
    let xml = b"<TreinLocation><TreinNummer>4<?pi a?>2<!-- b --><x y='1'>1</x><z/>\
</TreinNummer><TreinMaterieelDelen><Longitude>1</Longitude><Latitude>2</Latitude>\
</TreinMaterieelDelen></TreinLocation>";
    let trains = parse_all(xml);
    assert_eq!(trains.len(), 1);
    assert_eq!(trains[0].number, 421);
}

#[test]
fn buffer_keeps_what_fits() {
    let mut buf: Buf<3> = Buf::new();
    for b in b"abcd" {
        buf.push(*b);
    }
    assert_eq!(buf.as_slice(), b"abc");
    assert!(buf.has_overflow());
    buf.clear();
    assert!(buf.as_slice().is_empty() && !buf.has_overflow());

    let mut text: Buf<TEXT_CAP> = Buf::new();
    for b in "5.5\u{e9}".bytes() {
        text.push(b);
    }
    assert_eq!(parse_text(&text), Some("5.5\u{e9}"));
    text.push(0xff);
    assert_eq!(parse_text(&text), None);
}

#[test]
fn names_and_blanks() {
    assert_eq!(local_name(b"tns3:TreinNummer"), b"TreinNummer");
    assert_eq!(local_name(b"TreinNummer"), b"TreinNummer");
    assert_eq!(local_name(b"a:b:c"), b"b:c");
    for b in 0..=255u8 {
        assert_eq!(is_space(b), b == b' ' || b == b'\t' || b == b'\r' || b == b'\n');
    }
}

const DRESSED: &str = "<doc><?a b?c?><!-- x -->\
<n:TreinLocation xmlns:n=\"http://a/b\"> <n:Vervoerder kind='ns/r'>NS</n:Vervoerder>\
<p:TreinMaterieelDelen xmlns:p='y' ><p:Latitude>1</p:Latitude><p:Leeg/>\
<p:Longitude a=''>2</p:Longitude ><p:Latitude>3</p:Latitude></p:TreinMaterieelDelen>\
<n:TreinNummer>8</n:TreinNummer></n:TreinLocation>\n\
<TreinLocation><TreinNummer>9</TreinNummer><TreinMaterieelDelen><Longitude>5</Longitude>\
<Latitude>6</Latitude></TreinMaterieelDelen></TreinLocation></doc>";

fn texts(trains: &[Train]) -> Vec<(u32, &str, &str)> {
    trains.iter().map(|t| (t.number, t.lon.as_str(), t.lat.as_str())).collect()
}

#[test]
fn documents_read_back() {
    let expected = vec![(8, "2", "3"), (9, "5", "6")];
    assert_eq!(texts(&parse_all(DRESSED.as_bytes())), expected);
    // Both parsers agree.
    assert_eq!(texts(&ns_pixels::xml_parser::parse(DRESSED)), expected);
}

#[test]
fn long_prefixes_hide_an_element() {
    let with = |prefix: &str| {
        let xml = "<TreinLocation><TreinNummer>1</TreinNummer><PTreinMaterieelDelen><Longitude>1\
                   </Longitude><Latitude>2</Latitude></PTreinMaterieelDelen></TreinLocation>";
        parse_all(xml.replace('P', prefix).as_bytes()).len()
    };
    assert_eq!(with("abcdefghijkl:"), 1);
    assert_eq!(with("abcdefghijklm:"), 0);
}
