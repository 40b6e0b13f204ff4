use ns_pixels::schema::{element, element_of, Element};
use ns_pixels::xml_parser::{parse, parse_tokens, XmlToken};

fn number(text: &str) -> f32 {
    text.parse().unwrap()
}

#[test]
fn xml_parser_picks_first_part_only() {
    let xml = r#"<?xml version="1.0"?>
        <a:ArrayOfTreinLocation xmlns:a="x">
          <a:TreinLocation>
            <a:TreinNummer>6441</a:TreinNummer>
            <b:TreinMaterieelDelen xmlns:b="y">
              <b:Longitude>5.486703</b:Longitude>
              <b:Latitude>51.443425</b:Latitude>
            </b:TreinMaterieelDelen>
            <b:TreinMaterieelDelen xmlns:b="y">
              <b:Longitude>9.999</b:Longitude>
              <b:Latitude>9.999</b:Latitude>
            </b:TreinMaterieelDelen>
          </a:TreinLocation>
        </a:ArrayOfTreinLocation>"#;
    let trains = parse(xml);
    assert_eq!(trains.len(), 1);
    assert_eq!(trains[0].number, 6441);
    assert!((number(&trains[0].lon) - 5.486703).abs() < 1e-4);
    assert!((number(&trains[0].lat) - 51.443425).abs() < 1e-4);
}

#[test]
fn xml_parser_skips_self_closing_and_unrelated() {
    let xml = r#"<a:TreinLocation xmlns:a="x">
            <a:TreinNummer>7</a:TreinNummer>
            <a:TreinMaterieelDelen>
              <a:GeneratieTijd/>
              <a:Bron>GNSS</a:Bron>
              <a:Longitude>3.0</a:Longitude>
              <a:Latitude>4.0</a:Latitude>
              <a:Elevation>1.2</a:Elevation>
            </a:TreinMaterieelDelen>
          </a:TreinLocation>"#;
    let trains = parse(xml);
    assert_eq!(trains.len(), 1);
    assert_eq!(trains[0].number, 7);
}

#[test]
fn two_trains_come_in_order() {
    let one = |n: u32| {
        format!(
            "<TreinLocation><TreinNummer>{n}</TreinNummer><TreinMaterieelDelen>\
             <Longitude>{n}.5</Longitude><Latitude>1</Latitude></TreinMaterieelDelen></TreinLocation>"
        )
    };
    let trains = parse(&format!("<r>{}{}</r>", one(5), one(4)));
    assert_eq!(trains.len(), 2);
    assert_eq!((trains[0].number, trains[0].lon.as_str()), (5, "5.5"));
    assert_eq!((trains[1].number, trains[1].lon.as_str()), (4, "4.5"));
}

#[test]
fn error_ends_the_document() {
    let xml = "<r><TreinLocation><TreinNummer>1</TreinNummer><TreinMaterieelDelen>\
               <Longitude>1</Longitude><Latitude>1</Latitude></TreinMaterieelDelen></TreinLocation>\
               <<TreinLocation><TreinNummer>2</TreinNummer><TreinMaterieelDelen>\
               <Longitude>1</Longitude><Latitude>1</Latitude></TreinMaterieelDelen></TreinLocation></r>";
    let trains = parse(xml);
    assert_eq!(trains.len(), 1);
    assert_eq!(trains[0].number, 1);
    assert!(parse("").is_empty());
}

fn start(name: &str) -> XmlToken<String> {
    XmlToken::Start(name.to_string())
}

fn close(name: &str) -> XmlToken<String> {
    XmlToken::Close(name.to_string())
}

fn text(t: &str) -> XmlToken<String> {
    XmlToken::Text(t.to_string())
}

#[test]
fn last_text_of_an_element_wins() {
    let tokens = vec![
        start("TreinLocation"),
        XmlToken::OpenEnd,
        start("TreinNummer"),
        XmlToken::OpenEnd,
        text("1"),
        XmlToken::Other,
        text(" 2 "),
        close("TreinNummer"),
        start("TreinMaterieelDelen"),
        XmlToken::OpenEnd,
        start("Longitude"),
        XmlToken::OpenEnd,
        text("3"),
        close("Longitude"),
        start("Latitude"),
        XmlToken::OpenEnd,
        text("4"),
        close("Latitude"),
        close("TreinMaterieelDelen"),
        start("TreinMaterieelDelen"),
        XmlToken::OpenEnd,
        start("Longitude"),
        XmlToken::OpenEnd,
        text("9"),
        close("Longitude"),
        close("TreinMaterieelDelen"),
        close("TreinLocation"),
        XmlToken::Failed,
    ];
    let trains = parse_tokens(&tokens);
    assert_eq!(trains.len(), 1);
    assert_eq!(
        (trains[0].number, trains[0].lon.as_str(), trains[0].lat.as_str()),
        (2, "3", "4")
    );
}

#[test]
fn self_closing_location_gives_nothing() {
    assert!(parse_tokens(&[start("TreinLocation"), XmlToken::EmptyEnd]).is_empty());
    assert!(parse_tokens(&[close("TreinLocation")]).is_empty());
}

#[test]
fn element_names_are_told_apart() {
    let names = [
        ("TreinLocation", Element::Location),
        ("TreinNummer", Element::Number),
        ("TreinMaterieelDelen", Element::Part),
        ("Longitude", Element::Longitude),
        ("Latitude", Element::Latitude),
        ("treinlocation", Element::Other),
        ("", Element::Other),
        ("Latitud\u{e9}", Element::Other),
    ];
    for (name, expected) in names {
        assert_eq!(element(name.as_bytes()), expected);
        assert_eq!(element_of(name), expected);
    }
}
