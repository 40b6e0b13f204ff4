//! What both feed parsers share: the element names of the
//! `NStreinpositiesInterface5` feed, and what is picked from each
//! `<TreinLocation>` element.
//!
//! Three values are picked: the text of `<TreinNummer>`, and the text of
//! `<Longitude>` and `<Latitude>` in the first `<TreinMaterieelDelen>` child.
//! Further `TreinMaterieelDelen` siblings are skipped: all parts of one train
//! are roughly co-located.
use vstd::prelude::*;
use vstd::utf8::{
    encode_utf8, encode_utf8_decode_utf8, is_ascii_chars, is_ascii_chars_encode_utf8,
};
use crate::text::{float_text, text_in};

verus! {

broadcast use vstd::string::group_string_axioms;

/// One train on the feed. The coordinates are kept as they were written, each
/// the text of a floating-point number.
#[derive(Debug)]
pub struct Train {
    pub number: u32,
    pub lon: String,
    pub lat: String,
}

impl Clone for Train {
    fn clone(&self) -> (r: Train)
        ensures
            r == *self,
    {
        Train { number: self.number, lon: self.lon.clone(), lat: self.lat.clone() }
    }
}

/// A train as plain values.
#[verifier::ext_equal]
pub struct Sighting {
    pub number: u32,
    pub lon: Seq<char>,
    pub lat: Seq<char>,
}

impl View for Train {
    type V = Sighting;

    open spec fn view(&self) -> Sighting {
        Sighting { number: self.number, lon: self.lon@, lat: self.lat@ }
    }
}

/// The trains of a list as plain values.
pub open spec fn sightings(trains: Seq<Train>) -> Seq<Sighting> {
    trains.map_values(|t: Train| t@)
}

/// The elements that matter; every other one is `Other`.
#[derive(Debug, Clone, Copy, PartialEq, Eq, Structural)]
pub enum Element {
    Location,
    Number,
    Part,
    Longitude,
    Latitude,
    Other,
}

/// Which value the text that is being read belongs to.
#[derive(Debug, Clone, Copy, PartialEq, Eq, Structural)]
pub enum Capture {
    Nothing,
    Number,
    Lon,
    Lat,
}

/// The element that has the local name `name`.
pub open spec fn element_named(name: Seq<char>) -> Element {
    if name == "TreinLocation"@ {
        Element::Location
    } else if name == "TreinNummer"@ {
        Element::Number
    } else if name == "TreinMaterieelDelen"@ {
        Element::Part
    } else if name == "Longitude"@ {
        Element::Longitude
    } else if name == "Latitude"@ {
        Element::Latitude
    } else {
        Element::Other
    }
}

/// Bytes read as characters one by one.
pub open spec fn latin(bytes: Seq<u8>) -> Seq<char> {
    bytes.map_values(|b: u8| b as char)
}

/// What has been picked so far.
#[verifier::ext_equal]
pub struct Pick {
    pub in_location: bool,
    pub seen_first_part: bool,
    pub in_first_part: bool,
    pub capture: Capture,
    pub number: Option<u32>,
    pub lon: Option<Seq<char>>,
    pub lat: Option<Seq<char>>,
}

/// Nothing picked, outside of any location.
pub open spec fn nothing_picked() -> Pick {
    Pick {
        in_location: false,
        seen_first_part: false,
        in_first_part: false,
        capture: Capture::Nothing,
        number: None,
        lon: None,
        lat: None,
    }
}

/// After the opening tag of `element`: a location starts afresh, and the
/// elements inside it start a capture or the first part.
pub open spec fn opened(pick: Pick, element: Element) -> Pick {
    match element {
        Element::Location => Pick { in_location: true, ..nothing_picked() },
        Element::Number if pick.in_location => Pick { capture: Capture::Number, ..pick },
        Element::Part if pick.in_location && !pick.seen_first_part => Pick {
            in_first_part: true,
            seen_first_part: true,
            ..pick
        },
        Element::Longitude if pick.in_first_part => Pick { capture: Capture::Lon, ..pick },
        Element::Latitude if pick.in_first_part => Pick { capture: Capture::Lat, ..pick },
        _ => pick,
    }
}

/// After the end of a location: what was picked stays until the next one
/// starts.
pub open spec fn location_closed(pick: Pick) -> Pick {
    Pick {
        in_location: false,
        in_first_part: false,
        seen_first_part: false,
        capture: Capture::Nothing,
        ..pick
    }
}

/// The train that was picked, if all three values were there.
pub open spec fn picked_train(pick: Pick) -> Option<Sighting> {
    match (pick.number, pick.lon, pick.lat) {
        (Some(number), Some(lon), Some(lat)) => Some(Sighting { number, lon, lat }),
        _ => None,
    }
}

/// The text of a coordinate, if it is a number.
pub open spec fn coordinate(text: Seq<char>) -> Option<Seq<char>> {
    if float_text(text) {
        Some(text)
    } else {
        None
    }
}

/// Whether the coordinates that were picked are numbers.
pub open spec fn coordinates_are_numbers(pick: Pick) -> bool {
    &&& pick.lon is Some ==> float_text(pick.lon->0)
    &&& pick.lat is Some ==> float_text(pick.lat->0)
}

/// `Some(train)` as a list of one, `None` as an empty list.
pub open spec fn as_list(train: Option<Sighting>) -> Seq<Sighting> {
    match train {
        Some(t) => seq![t],
        None => Seq::empty(),
    }
}

/// What has been picked so far.
pub struct Picker {
    pub in_location: bool,
    pub seen_first_part: bool,
    pub in_first_part: bool,
    pub capture: Capture,
    pub number: Option<u32>,
    pub lon: Option<String>,
    pub lat: Option<String>,
}

impl View for Picker {
    type V = Pick;

    open spec fn view(&self) -> Pick {
        Pick {
            in_location: self.in_location,
            seen_first_part: self.seen_first_part,
            in_first_part: self.in_first_part,
            capture: self.capture,
            number: self.number,
            lon: text_in(self.lon),
            lat: text_in(self.lat),
        }
    }
}

impl Picker {
    pub fn new() -> (r: Picker)
        ensures
            r@ == nothing_picked(),
    {
        Picker {
            in_location: false,
            seen_first_part: false,
            in_first_part: false,
            capture: Capture::Nothing,
            number: None,
            lon: None,
            lat: None,
        }
    }

    /// Handle the opening tag of `element`.
    pub fn open(&mut self, element: Element)
        ensures
            final(self)@ == opened(old(self)@, element),
    {
        match element {
            Element::Location => {
                self.in_location = true;
                self.seen_first_part = false;
                self.in_first_part = false;
                self.number = None;
                self.lon = None;
                self.lat = None;
                self.capture = Capture::Nothing;
            },
            Element::Number => {
                if self.in_location {
                    self.capture = Capture::Number;
                }
            },
            Element::Part => {
                if self.in_location && !self.seen_first_part {
                    self.in_first_part = true;
                    self.seen_first_part = true;
                }
            },
            Element::Longitude => {
                if self.in_first_part {
                    self.capture = Capture::Lon;
                }
            },
            Element::Latitude => {
                if self.in_first_part {
                    self.capture = Capture::Lat;
                }
            },
            Element::Other => {},
        }
    }

    /// Handle the end of a location: hand out the train, if all three values
    /// were there.
    pub fn close_location(&mut self) -> (r: Option<Train>)
        ensures
            final(self)@ == location_closed(old(self)@),
            match r {
                Some(train) => picked_train(old(self)@) == Some(train@),
                None => picked_train(old(self)@) is None,
            },
    {
        let train = match (self.number, &self.lon, &self.lat) {
            (Some(number), Some(lon), Some(lat)) => Some(
                Train { number, lon: lon.clone(), lat: lat.clone() },
            ),
            _ => None,
        };
        self.in_location = false;
        self.in_first_part = false;
        self.seen_first_part = false;
        self.capture = Capture::Nothing;
        train
    }
}

/// Whether `bytes` are the characters of `word`.
fn is_ascii_word(bytes: &[u8], word: &str) -> (r: bool)
    requires
        word.is_ascii(),
    ensures
        r == (latin(bytes@) == word@),
{
    let name: &[u8] = word.as_bytes();
    assert(name@ == Seq::new(word@.len(), |i: int| word@[i] as u8));
    if bytes.len() != name.len() {
        assert(latin(bytes@).len() != word@.len());
        return false;
    }
    let mut i: usize = 0;
    while i < bytes.len()
        invariant
            word.is_ascii(),
            i <= bytes@.len(),
            bytes@.len() == name@.len(),
            name@ == Seq::new(word@.len(), |i: int| word@[i] as u8),
            forall|k: int| 0 <= k < i ==> #[trigger] latin(bytes@)[k] == word@[k],
        decreases bytes@.len() - i,
    {
        if bytes[i] != name[i] {
            assert(latin(bytes@)[i as int] != word@[i as int]);
            return false;
        }
        assert(latin(bytes@)[i as int] == word@[i as int]);
        i = i + 1;
    }
    assert(latin(bytes@) =~= word@);
    true
}

/// The element that has the local name `name`.
pub fn element(name: &[u8]) -> (r: Element)
    ensures
        r == element_named(latin(name@)),
{
    proof {
        reveal_strlit("TreinLocation");
        reveal_strlit("TreinNummer");
        reveal_strlit("TreinMaterieelDelen");
        reveal_strlit("Longitude");
        reveal_strlit("Latitude");
    }
    if is_ascii_word(name, "TreinLocation") {
        Element::Location
    } else if is_ascii_word(name, "TreinNummer") {
        Element::Number
    } else if is_ascii_word(name, "TreinMaterieelDelen") {
        Element::Part
    } else if is_ascii_word(name, "Longitude") {
        Element::Longitude
    } else if is_ascii_word(name, "Latitude") {
        Element::Latitude
    } else {
        Element::Other
    }
}

/// A name whose encoding reads as an ASCII word is that word.
proof fn lemma_encoded_word(name: Seq<char>, word: Seq<char>)
    requires
        is_ascii_chars(word),
    ensures
        (latin(encode_utf8(name)) == word) == (name == word),
{
    is_ascii_chars_encode_utf8(word);
    encode_utf8_decode_utf8(word);
    encode_utf8_decode_utf8(name);
    assert(latin(encode_utf8(word)) =~= word);
    if latin(encode_utf8(name)) == word {
        let e = encode_utf8(name);
        assert forall|i: int| 0 <= i < e.len() implies e[i] == #[trigger] encode_utf8(word)[i] by {
            assert(latin(e)[i] == word[i]);
        }
        assert(e =~= encode_utf8(word));
    }
}

/// The element that has the local name `name`.
pub fn element_of(name: &str) -> (r: Element)
    ensures
        r == element_named(name@),
{
    proof {
        reveal_strlit("TreinLocation");
        reveal_strlit("TreinNummer");
        reveal_strlit("TreinMaterieelDelen");
        reveal_strlit("Longitude");
        reveal_strlit("Latitude");
        lemma_encoded_word(name@, "TreinLocation"@);
        lemma_encoded_word(name@, "TreinNummer"@);
        lemma_encoded_word(name@, "TreinMaterieelDelen"@);
        lemma_encoded_word(name@, "Longitude"@);
        lemma_encoded_word(name@, "Latitude"@);
    }
    element(name.as_bytes())
}

/// The five names are told apart.
pub proof fn lemma_names_are_distinct()
    ensures
        element_named("TreinLocation"@) == Element::Location,
        element_named("TreinNummer"@) == Element::Number,
        element_named("TreinMaterieelDelen"@) == Element::Part,
        element_named("Longitude"@) == Element::Longitude,
        element_named("Latitude"@) == Element::Latitude,
{
    reveal_strlit("TreinLocation");
    reveal_strlit("TreinNummer");
    reveal_strlit("TreinMaterieelDelen");
    reveal_strlit("Longitude");
    reveal_strlit("Latitude");
    assert("TreinLocation"@.len() == 13);
    assert("TreinNummer"@.len() == 11);
    assert("TreinMaterieelDelen"@.len() == 19);
    assert("Longitude"@.len() == 9);
    assert("Latitude"@.len() == 8);
}

/// Only the five names matter, exactly as they are written.
pub proof fn law_only_five_names_matter(name: Seq<char>)
    ensures
        element_named(name) == Element::Location <==> name == "TreinLocation"@,
        element_named(name) == Element::Number <==> name == "TreinNummer"@,
        element_named(name) == Element::Part <==> name == "TreinMaterieelDelen"@,
        element_named(name) == Element::Longitude <==> name == "Longitude"@,
        element_named(name) == Element::Latitude <==> name == "Latitude"@,
{
    lemma_names_are_distinct();
}

/// A coordinate is kept as it is written where it is the text of a number, and
/// dropped where it is not.
pub proof fn law_coordinates_are_kept(text: Seq<char>)
    ensures
        float_text(text) ==> coordinate(text) == Some(text),
        !float_text(text) ==> coordinate(text) is None,
{
}

} // verus!
