//! Schema-specific extractor for the `NStreinpositiesInterface5` feed.
//!
//! Walks the token stream of [`xmlparser`] over a whole document and pulls
//! three values out of each `<TreinLocation>` element, see [`crate::schema`].
use vstd::prelude::*;
use xmlparser::{ElementEnd, Token, Tokenizer};
use crate::schema::{
    as_list, coordinate, coordinates_are_numbers, element_named, element_of, location_closed,
    nothing_picked, opened, picked_train, sightings, Capture, Element, Pick, Picker, Sighting,
};
use crate::text::{float_text, is_float_text, parse_u32, read_u32, trim, trimmed};

pub use crate::schema::Train;

verus! {

/// One token of a document, with names and texts in `S`.
#[derive(Debug, PartialEq, Eq)]
pub enum XmlToken<S> {
    /// `<name`, with the local name.
    Start(S),
    /// The `>` of an opening tag.
    OpenEnd,
    /// The `/>` of a self-closing tag.
    EmptyEnd,
    /// `</name>`, with the local name.
    Close(S),
    /// Text between two tags.
    Text(S),
    /// Any other token.
    Other,
    /// A syntax error.
    Failed,
}

/// A token as a plain value.
pub open spec fn token_view(token: XmlToken<String>) -> XmlToken<Seq<char>> {
    match token {
        XmlToken::Start(s) => XmlToken::Start(s@),
        XmlToken::OpenEnd => XmlToken::OpenEnd,
        XmlToken::EmptyEnd => XmlToken::EmptyEnd,
        XmlToken::Close(s) => XmlToken::Close(s@),
        XmlToken::Text(s) => XmlToken::Text(s@),
        XmlToken::Other => XmlToken::Other,
        XmlToken::Failed => XmlToken::Failed,
    }
}

/// The tokens of a list as plain values.
pub open spec fn token_views(tokens: Seq<XmlToken<String>>) -> Seq<XmlToken<Seq<char>>> {
    tokens.map_values(|t: XmlToken<String>| token_view(t))
}

/// The tokens that `xmlparser` splits a document into.
pub uninterp spec fn xml_tokens(xml: Seq<char>) -> Seq<XmlToken<Seq<char>>>;

/// `xmlparser::Tokenizer`, from `Tokenizer::from` to its end: the tokens of the
/// document, in order, one for one. Tokens that are neither tags nor text come
/// out as `Other`, and an error as `Failed`. Which tokens a document has is left
/// to [`xml_tokens`].
#[verifier::external_body]
pub(crate) fn tokenize(xml: &str) -> (r: Vec<XmlToken<String>>)
    ensures
        token_views(r@) == xml_tokens(xml@),
{
    let to_token = |token| match token {
        Ok(Token::ElementStart { local, .. }) => XmlToken::Start(local.as_str().to_owned()),
        Ok(Token::ElementEnd { end: ElementEnd::Open, .. }) => XmlToken::OpenEnd,
        Ok(Token::ElementEnd { end: ElementEnd::Empty, .. }) => XmlToken::EmptyEnd,
        Ok(Token::ElementEnd { end: ElementEnd::Close(_, local), .. }) => {
            XmlToken::Close(local.as_str().to_owned())
        },
        Ok(Token::Text { text }) => XmlToken::Text(text.as_str().to_owned()),
        Ok(_) => XmlToken::Other,
        Err(_) => XmlToken::Failed,
    };
    Tokenizer::from(xml).map(to_token).collect()
}

/// What has been picked, and the name in the last opening tag.
#[verifier::ext_equal]
pub struct Walk {
    pub pick: Pick,
    pub current: Seq<char>,
}

/// Before the first token.
pub open spec fn walk_start() -> Walk {
    Walk { pick: nothing_picked(), current: Seq::empty() }
}

/// After some text: the text of the element that is captured, trimmed, is its
/// value. The last text wins.
pub open spec fn text_read(pick: Pick, text: Seq<char>) -> Pick {
    match pick.capture {
        Capture::Number => Pick { number: read_u32(trimmed(text)), ..pick },
        Capture::Lon => Pick { lon: coordinate(trimmed(text)), ..pick },
        Capture::Lat => Pick { lat: coordinate(trimmed(text)), ..pick },
        Capture::Nothing => pick,
    }
}

/// After the end of element `e`.
pub open spec fn element_closed(pick: Pick, e: Element) -> Pick {
    match e {
        Element::Number | Element::Longitude | Element::Latitude => Pick {
            capture: Capture::Nothing,
            ..pick
        },
        Element::Part if pick.in_first_part => Pick { in_first_part: false, ..pick },
        Element::Location if pick.in_location => location_closed(pick),
        _ => pick,
    }
}

/// The train that the end of element `e` completes.
pub open spec fn close_emits(pick: Pick, e: Element) -> Option<Sighting> {
    if e == Element::Location && pick.in_location {
        picked_train(pick)
    } else {
        None
    }
}

/// After one token. A self-closing tag ends the element that it started.
pub open spec fn stepped(w: Walk, token: XmlToken<Seq<char>>) -> Walk {
    match token {
        XmlToken::Start(name) => Walk {
            pick: opened(w.pick, element_named(name)),
            current: name,
        },
        XmlToken::Text(text) => Walk { pick: text_read(w.pick, text), ..w },
        XmlToken::Close(name) => Walk {
            pick: element_closed(w.pick, element_named(name)),
            ..w
        },
        XmlToken::EmptyEnd => Walk {
            pick: element_closed(w.pick, element_named(w.current)),
            ..w
        },
        _ => w,
    }
}

/// The train that one token completes.
pub open spec fn emitted(w: Walk, token: XmlToken<Seq<char>>) -> Option<Sighting> {
    match token {
        XmlToken::Close(name) => close_emits(w.pick, element_named(name)),
        XmlToken::EmptyEnd => close_emits(w.pick, element_named(w.current)),
        _ => None,
    }
}

/// The state after all of `tokens`.
pub open spec fn walked(w: Walk, tokens: Seq<XmlToken<Seq<char>>>) -> Walk
    decreases tokens.len(),
{
    if tokens.len() == 0 {
        w
    } else {
        stepped(walked(w, tokens.drop_last()), tokens.last())
    }
}

/// The trains that `tokens` complete, in order.
pub open spec fn trains_in(w: Walk, tokens: Seq<XmlToken<Seq<char>>>) -> Seq<Sighting>
    decreases tokens.len(),
{
    if tokens.len() == 0 {
        Seq::empty()
    } else {
        trains_in(w, tokens.drop_last()) + as_list(
            emitted(walked(w, tokens.drop_last()), tokens.last()),
        )
    }
}

/// Keep the text of the element that is captured.
fn read_text(picker: &mut Picker, text: &str)
    ensures
        final(picker)@ == text_read(old(picker)@, text@),
{
    let s: &str = trim(text);
    match picker.capture {
        Capture::Number => {
            picker.number = parse_u32(s);
        },
        Capture::Lon => {
            picker.lon = if is_float_text(s) {
                Some(s.to_owned())
            } else {
                None
            };
        },
        Capture::Lat => {
            picker.lat = if is_float_text(s) {
                Some(s.to_owned())
            } else {
                None
            };
        },
        Capture::Nothing => {},
    }
}

/// Handle the end of element `e`.
fn close_element(picker: &mut Picker, e: Element) -> (r: Option<Train>)
    ensures
        final(picker)@ == element_closed(old(picker)@, e),
        match r {
            Some(train) => close_emits(old(picker)@, e) == Some(train@),
            None => close_emits(old(picker)@, e) is None,
        },
{
    match e {
        Element::Number | Element::Longitude | Element::Latitude => {
            picker.capture = Capture::Nothing;
            None
        },
        Element::Part => {
            if picker.in_first_part {
                picker.in_first_part = false;
            }
            None
        },
        Element::Location => {
            if picker.in_location {
                picker.close_location()
            } else {
                None
            }
        },
        Element::Other => None,
    }
}

/// The trains in a row of tokens, in order.
pub fn parse_tokens(tokens: &[XmlToken<String>]) -> (r: Vec<Train>)
    ensures
        sightings(r@) == trains_in(walk_start(), token_views(tokens@)),
{
    let ghost views = token_views(tokens@);
    let mut picker = Picker::new();
    let mut current: &str = "";
    let mut trains: Vec<Train> = Vec::new();
    let mut i: usize = 0;
    proof {
        reveal_strlit("");
        assert(current@ =~= Seq::empty());
        assert(views.take(0) =~= Seq::empty());
        assert(sightings(trains@) =~= Seq::empty());
    }
    while i < tokens.len()
        invariant
            i <= tokens@.len(),
            views == token_views(tokens@),
            (Walk { pick: picker@, current: current@ }) == walked(
                walk_start(),
                views.take(i as int),
            ),
            sightings(trains@) == trains_in(walk_start(), views.take(i as int)),
        decreases tokens@.len() - i,
    {
        let ghost before = trains@;
        proof {
            assert(views.take(i + 1).drop_last() =~= views.take(i as int));
            assert(views.take(i + 1).last() == token_view(tokens@[i as int]));
        }
        let train: Option<Train> = match &tokens[i] {
            XmlToken::Start(name) => {
                current = name.as_str();
                picker.open(element_of(current));
                None
            },
            XmlToken::Text(text) => {
                read_text(&mut picker, text.as_str());
                None
            },
            XmlToken::Close(name) => close_element(&mut picker, element_of(name.as_str())),
            XmlToken::EmptyEnd => close_element(&mut picker, element_of(current)),
            XmlToken::OpenEnd | XmlToken::Other | XmlToken::Failed => None,
        };
        match train {
            Some(t) => {
                trains.push(t);
                assert(sightings(trains@) =~= sightings(before) + seq![t@]);
            },
            None => {
                assert(sightings(trains@) =~= sightings(before) + Seq::empty());
            },
        }
        i = i + 1;
    }
    assert(views.take(views.len() as int) =~= views);
    trains
}

/// The trains in a document, in order.
pub fn parse(xml: &str) -> (r: Vec<Train>)
    ensures
        sightings(r@) == trains_in(walk_start(), xml_tokens(xml@)),
{
    let tokens = tokenize(xml);
    parse_tokens(tokens.as_slice())
}

/// Whether the coordinates of the location at hand are settled: its first part
/// has ended, and no coordinate is being read.
pub open spec fn settled(pick: Pick) -> bool {
    &&& pick.in_location
    &&& pick.seen_first_part
    &&& !pick.in_first_part
    &&& pick.capture != Capture::Lon
    &&& pick.capture != Capture::Lat
}

/// Once the first part of a train has ended, nothing that follows in its
/// location changes the coordinates: further parts are skipped.
pub proof fn law_later_parts_are_skipped(w: Walk, token: XmlToken<Seq<char>>)
    requires
        settled(w.pick),
        token matches XmlToken::Start(name) ==> element_named(name) != Element::Location,
    ensures
        stepped(w, token).pick.lon == w.pick.lon,
        stepped(w, token).pick.lat == w.pick.lat,
        stepped(w, token).pick.in_location ==> settled(stepped(w, token).pick),
{
}

/// Whatever the tokens are, the coordinates of every train are numbers.
pub proof fn law_coordinates_are_numbers(tokens: Seq<XmlToken<Seq<char>>>)
    ensures
        coordinates_are_numbers(walked(walk_start(), tokens).pick),
        forall|i: int|
            #![trigger trains_in(walk_start(), tokens)[i]]
            0 <= i < trains_in(walk_start(), tokens).len() ==> float_text(
                trains_in(walk_start(), tokens)[i].lon,
            ) && float_text(trains_in(walk_start(), tokens)[i].lat),
    decreases tokens.len(),
{
    if tokens.len() > 0 {
        law_coordinates_are_numbers(tokens.drop_last());
        let front = trains_in(walk_start(), tokens.drop_last());
        let all = trains_in(walk_start(), tokens);
        let before = walked(walk_start(), tokens.drop_last());
        assert forall|i: int| #![trigger all[i]] 0 <= i < all.len() implies float_text(all[i].lon)
            && float_text(all[i].lat) by {
            if i < front.len() {
                assert(all[i] == front[i]);
            } else {
                assert(all[i] == picked_train(before.pick)->0);
            }
        }
    }
}

/// The trains of two rows of tokens, one after the other.
pub proof fn law_rows_join(w: Walk, a: Seq<XmlToken<Seq<char>>>, b: Seq<XmlToken<Seq<char>>>)
    ensures
        walked(w, a + b) == walked(walked(w, a), b),
        trains_in(w, a + b) == trains_in(w, a) + trains_in(walked(w, a), b),
    decreases b.len(),
{
    if b.len() == 0 {
        assert(a + b =~= a);
        assert(trains_in(w, a) + Seq::empty() =~= trains_in(w, a));
    } else {
        law_rows_join(w, a, b.drop_last());
        assert((a + b).drop_last() =~= a + b.drop_last());
        assert((a + b).last() == b.last());
        assert(trains_in(w, a + b) =~= trains_in(w, a) + trains_in(walked(w, a), b));
    }
}

} // verus!
