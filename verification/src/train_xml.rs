//! Streaming, schema-specific XML scanner for the
//! `NStreinpositiesInterface5` feed.
//!
//! It is not a generic XML parser. It exists to pull three values out of each
//! `<TreinLocation>` element (see [`crate::schema`]) with O(1) state and no
//! buffering of the whole document.
//!
//! The parser is byte-driven: feed arbitrary chunks via [`Parser::feed`], and
//! it hands out one train per fully-parsed `TreinLocation`.
use vstd::prelude::*;
use vstd::array::array_fill_for_copy_types;
use vstd::utf8::{decode_utf8, valid_utf8};
use crate::schema::{
    as_list, coordinate, coordinates_are_numbers, element, element_named, latin, location_closed,
    nothing_picked, opened, picked_train, sightings, Capture, Element, Pick, Picker, Sighting,
};
use crate::text::{
    float_text, is_float_text, parse_u32, read_u32, text_in, trim, trimmed, utf8_text,
};

pub use crate::schema::Train;

verus! {

/// `<`
pub const LT: u8 = 0x3c;

/// `>`
pub const GT: u8 = 0x3e;

/// `/`
pub const SLASH: u8 = 0x2f;

/// `?`
pub const QUESTION: u8 = 0x3f;

/// `!`
pub const BANG: u8 = 0x21;

/// `:`
pub const COLON: u8 = 0x3a;

pub const SPACE: u8 = 0x20;

pub const TAB: u8 = 0x09;

pub const CR: u8 = 0x0d;

pub const LF: u8 = 0x0a;

/// Longest element name that is told apart.
pub const NAME_CAP: usize = 32;

/// Longest text that is captured.
pub const TEXT_CAP: usize = 24;

/// Where in the markup the scanner stands.
#[derive(Debug, Clone, Copy, PartialEq, Eq, Structural)]
pub enum Tok {
    /// Outside of any tag.
    Text,
    /// Just after `<`.
    TagOpen,
    /// Accumulating an element name.
    TagName,
    /// Past the name, scanning attributes.
    InTag,
    /// Saw `/` inside an open tag, expect `>`.
    SelfSlash,
    /// Inside `<? ... ?>`.
    Pi,
    /// Saw `?` inside `<? ... ?>`.
    PiQ,
    /// Inside `<! ... >`.
    Bang,
}

/// What a bounded buffer holds, and whether it had to drop bytes.
#[verifier::ext_equal]
pub struct Held {
    pub bytes: Seq<u8>,
    pub overflow: bool,
}

/// An empty buffer.
pub open spec fn nothing_held() -> Held {
    Held { bytes: Seq::empty(), overflow: false }
}

/// A buffer for `cap` bytes after one more.
pub open spec fn held_more(held: Held, cap: nat, b: u8) -> Held {
    if held.bytes.len() < cap {
        Held { bytes: held.bytes.push(b), ..held }
    } else {
        Held { overflow: true, ..held }
    }
}

/// The first `N` bytes pushed since the last clear.
pub struct Buf<const N: usize> {
    data: [u8; N],
    len: usize,
    overflow: bool,
}

impl<const N: usize> View for Buf<N> {
    type V = Held;

    closed spec fn view(&self) -> Held {
        Held { bytes: self.data@.take(self.len as int), overflow: self.overflow }
    }
}

impl<const N: usize> Buf<N> {
    pub closed spec fn wf(&self) -> bool {
        self.len <= N
    }

    pub fn new() -> (r: Self)
        ensures
            r.wf(),
            r@ == nothing_held(),
    {
        Buf { data: array_fill_for_copy_types(0u8), len: 0, overflow: false }
    }

    pub fn clear(&mut self)
        ensures
            final(self).wf(),
            final(self)@ == nothing_held(),
    {
        self.len = 0;
        self.overflow = false;
        assert(self@.bytes =~= Seq::empty());
    }

    /// Keep `b` if there is room, else remember that something was dropped.
    pub fn push(&mut self, b: u8)
        requires
            old(self).wf(),
        ensures
            final(self).wf(),
            final(self)@ == held_more(old(self)@, N as nat, b),
    {
        if self.len < N {
            self.data[self.len] = b;
            self.len = self.len + 1;
            assert(self@.bytes =~= old(self)@.bytes.push(b));
        } else {
            self.overflow = true;
        }
    }

    pub fn has_overflow(&self) -> (r: bool)
        ensures
            r == self@.overflow,
    {
        self.overflow
    }

    pub fn as_slice(&self) -> (r: &[u8])
        requires
            self.wf(),
        ensures
            r@ == self@.bytes,
    {
        &self.data[0..self.len]
    }
}

/// Where the first colon at or after `i` stands.
pub open spec fn colon_from(name: Seq<u8>, i: int) -> Option<int>
    decreases name.len() - i,
{
    if i < 0 || i >= name.len() {
        None
    } else if name[i] == COLON {
        Some(i)
    } else {
        colon_from(name, i + 1)
    }
}

/// The name without its namespace prefix.
pub open spec fn local_part(name: Seq<u8>) -> Seq<u8> {
    match colon_from(name, 0) {
        Some(i) => name.skip(i + 1),
        None => name,
    }
}

/// The blanks that end an element name.
pub open spec fn blank(b: u8) -> bool {
    b == SPACE || b == TAB || b == CR || b == LF
}

/// The trimmed text of a capture, if all of it was kept and is valid UTF-8.
pub open spec fn captured(text: Held) -> Option<Seq<char>> {
    if text.overflow || !valid_utf8(text.bytes) {
        None
    } else {
        Some(trimmed(decode_utf8(text.bytes)))
    }
}

/// The train number in a capture.
pub open spec fn captured_number(text: Held) -> Option<u32> {
    match captured(text) {
        Some(s) => read_u32(s),
        None => None,
    }
}

/// The coordinate in a capture.
pub open spec fn captured_coordinate(text: Held) -> Option<Seq<char>> {
    match captured(text) {
        Some(s) => coordinate(s),
        None => None,
    }
}

/// The state of the scanner.
#[verifier::ext_equal]
pub struct Scan {
    pub tok: Tok,
    pub is_close: bool,
    pub name: Held,
    pub text: Held,
    pub pick: Pick,
}

/// The state before the first byte.
pub open spec fn scan_start() -> Scan {
    Scan {
        tok: Tok::Text,
        is_close: false,
        name: nothing_held(),
        text: nothing_held(),
        pick: nothing_picked(),
    }
}

/// Whether the opening tag of `e` starts a capture.
pub open spec fn starts_capture(pick: Pick, e: Element) -> bool {
    match e {
        Element::Number => pick.in_location,
        Element::Longitude => pick.in_first_part,
        Element::Latitude => pick.in_first_part,
        _ => false,
    }
}

/// After the opening tag of `e`.
pub open spec fn tag_opened(s: Scan, e: Element) -> Scan {
    Scan {
        pick: opened(s.pick, e),
        text: if starts_capture(s.pick, e) {
            nothing_held()
        } else {
            s.text
        },
        ..s
    }
}

/// After the closing tag of `e`: the end of the captured element settles its
/// value; the ends of a part and of a location are noted inside one only.
pub open spec fn tag_closed(s: Scan, e: Element) -> Scan {
    match e {
        Element::Number if s.pick.capture == Capture::Number => Scan {
            pick: Pick {
                number: captured_number(s.text),
                capture: Capture::Nothing,
                ..s.pick
            },
            text: nothing_held(),
            ..s
        },
        Element::Longitude if s.pick.capture == Capture::Lon => Scan {
            pick: Pick { lon: captured_coordinate(s.text), capture: Capture::Nothing, ..s.pick },
            text: nothing_held(),
            ..s
        },
        Element::Latitude if s.pick.capture == Capture::Lat => Scan {
            pick: Pick { lat: captured_coordinate(s.text), capture: Capture::Nothing, ..s.pick },
            text: nothing_held(),
            ..s
        },
        Element::Part if s.pick.in_first_part => Scan {
            pick: Pick { in_first_part: false, ..s.pick },
            ..s
        },
        Element::Location if s.pick.in_location => Scan { pick: location_closed(s.pick), ..s },
        _ => s,
    }
}

/// The train that the closing tag of `e` completes.
pub open spec fn close_emits(s: Scan, e: Element) -> Option<Sighting> {
    if e == Element::Location && s.pick.in_location {
        picked_train(s.pick)
    } else {
        None
    }
}

/// The element that the tag at hand names.
pub open spec fn tag_element(s: Scan) -> Element {
    element_named(latin(local_part(s.name.bytes)))
}

/// After the `>` of a tag. A name that did not fit is none of those that
/// matter. A self-closing tag opens and closes its element.
pub open spec fn tag_done(s: Scan, self_closing: bool) -> Scan {
    if s.name.overflow {
        s
    } else if s.is_close {
        tag_closed(s, tag_element(s))
    } else if self_closing {
        tag_closed(tag_opened(s, tag_element(s)), tag_element(s))
    } else {
        tag_opened(s, tag_element(s))
    }
}

/// The train that the `>` of a tag completes.
pub open spec fn tag_emits(s: Scan, self_closing: bool) -> Option<Sighting> {
    if s.name.overflow {
        None
    } else if s.is_close {
        close_emits(s, tag_element(s))
    } else if self_closing {
        close_emits(tag_opened(s, tag_element(s)), tag_element(s))
    } else {
        None
    }
}

/// After one byte.
pub open spec fn stepped(s: Scan, b: u8) -> Scan {
    match s.tok {
        Tok::Text => if b == LT {
            Scan { tok: Tok::TagOpen, is_close: false, name: nothing_held(), ..s }
        } else if s.pick.capture != Capture::Nothing {
            Scan { text: held_more(s.text, TEXT_CAP as nat, b), ..s }
        } else {
            s
        },
        Tok::TagOpen => if b == SLASH {
            Scan { tok: Tok::TagName, is_close: true, ..s }
        } else if b == QUESTION {
            Scan { tok: Tok::Pi, ..s }
        } else if b == BANG {
            Scan { tok: Tok::Bang, ..s }
        } else {
            Scan { tok: Tok::TagName, name: held_more(s.name, NAME_CAP as nat, b), ..s }
        },
        Tok::TagName => if b == GT {
            Scan { tok: Tok::Text, ..tag_done(s, false) }
        } else if b == SLASH {
            Scan { tok: Tok::SelfSlash, ..s }
        } else if blank(b) {
            Scan { tok: Tok::InTag, ..s }
        } else {
            Scan { name: held_more(s.name, NAME_CAP as nat, b), ..s }
        },
        Tok::InTag => if b == GT {
            Scan { tok: Tok::Text, ..tag_done(s, false) }
        } else if b == SLASH {
            Scan { tok: Tok::SelfSlash, ..s }
        } else {
            s
        },
        Tok::SelfSlash => if b == GT {
            Scan { tok: Tok::Text, ..tag_done(s, true) }
        } else {
            Scan { tok: Tok::InTag, ..s }
        },
        Tok::Pi => if b == QUESTION {
            Scan { tok: Tok::PiQ, ..s }
        } else {
            s
        },
        Tok::PiQ => if b == GT {
            Scan { tok: Tok::Text, ..s }
        } else if b == QUESTION {
            s
        } else {
            Scan { tok: Tok::Pi, ..s }
        },
        Tok::Bang => if b == GT {
            Scan { tok: Tok::Text, ..s }
        } else {
            s
        },
    }
}

/// The train that one byte completes.
pub open spec fn emitted(s: Scan, b: u8) -> Option<Sighting> {
    if b == GT && (s.tok == Tok::TagName || s.tok == Tok::InTag) {
        tag_emits(s, false)
    } else if b == GT && s.tok == Tok::SelfSlash {
        tag_emits(s, true)
    } else {
        None
    }
}

/// The state after all of `bytes`.
pub open spec fn scanned(s: Scan, bytes: Seq<u8>) -> Scan
    decreases bytes.len(),
{
    if bytes.len() == 0 {
        s
    } else {
        stepped(scanned(s, bytes.drop_last()), bytes.last())
    }
}

/// The trains that `bytes` complete, in order.
pub open spec fn trains_in(s: Scan, bytes: Seq<u8>) -> Seq<Sighting>
    decreases bytes.len(),
{
    if bytes.len() == 0 {
        Seq::empty()
    } else {
        trains_in(s, bytes.drop_last()) + as_list(
            emitted(scanned(s, bytes.drop_last()), bytes.last()),
        )
    }
}

/// The blanks that end an element name.
pub fn is_space(b: u8) -> (r: bool)
    ensures
        r == blank(b),
{
    b == SPACE || b == TAB || b == CR || b == LF
}

/// The name without its namespace prefix.
pub fn local_name(full: &[u8]) -> (r: &[u8])
    ensures
        r@ == local_part(full@),
{
    let mut i: usize = 0;
    while i < full.len()
        invariant
            i <= full@.len(),
            colon_from(full@, 0) == colon_from(full@, i as int),
        decreases full@.len() - i,
    {
        if full[i] == COLON {
            assert(full@.subrange(i + 1, full@.len() as int) =~= full@.skip(i + 1));
            return &full[i + 1..full.len()];
        }
        i = i + 1;
    }
    full
}

/// The text of a capture, if all of it was kept and is valid UTF-8.
pub fn parse_text(buf: &Buf<TEXT_CAP>) -> (r: Option<&str>)
    requires
        buf.wf(),
    ensures
        match r {
            Some(s) => !buf@.overflow && valid_utf8(buf@.bytes) && s@ == decode_utf8(buf@.bytes),
            None => buf@.overflow || !valid_utf8(buf@.bytes),
        },
{
    if buf.has_overflow() {
        return None;
    }
    match utf8_text(buf.as_slice()) {
        Ok(s) => Some(s),
        Err(_) => None,
    }
}

/// The scanner.
pub struct Parser {
    tok: Tok,
    is_close: bool,
    name: Buf<NAME_CAP>,
    text: Buf<TEXT_CAP>,
    picker: Picker,
}

impl View for Parser {
    type V = Scan;

    closed spec fn view(&self) -> Scan {
        Scan {
            tok: self.tok,
            is_close: self.is_close,
            name: self.name@,
            text: self.text@,
            pick: self.picker@,
        }
    }
}

impl Default for Parser {
    fn default() -> (r: Parser)
        ensures
            r.wf(),
            r@ == scan_start(),
    {
        Parser::new()
    }
}

impl Parser {
    pub closed spec fn wf(&self) -> bool {
        self.name.wf() && self.text.wf()
    }

    pub fn new() -> (r: Parser)
        ensures
            r.wf(),
            r@ == scan_start(),
    {
        Parser {
            tok: Tok::Text,
            is_close: false,
            name: Buf::new(),
            text: Buf::new(),
            picker: Picker::new(),
        }
    }

    /// Scan one chunk of the document. Returns the trains that were completed
    /// in it, in order.
    pub fn feed(&mut self, chunk: &[u8]) -> (r: Vec<Train>)
        requires
            old(self).wf(),
        ensures
            final(self).wf(),
            final(self)@ == scanned(old(self)@, chunk@),
            sightings(r@) == trains_in(old(self)@, chunk@),
    {
        let mut trains: Vec<Train> = Vec::new();
        let mut i: usize = 0;
        assert(chunk@.take(0) =~= Seq::empty());
        assert(sightings(trains@) =~= Seq::empty());
        while i < chunk.len()
            invariant
                i <= chunk@.len(),
                self.wf(),
                self@ == scanned(old(self)@, chunk@.take(i as int)),
                sightings(trains@) == trains_in(old(self)@, chunk@.take(i as int)),
            decreases chunk@.len() - i,
        {
            let ghost before = trains@;
            assert(chunk@.take(i + 1).drop_last() =~= chunk@.take(i as int));
            assert(chunk@.take(i + 1).last() == chunk@[i as int]);
            match self.step(chunk[i]) {
                Some(train) => {
                    trains.push(train);
                    assert(sightings(trains@) =~= sightings(before) + seq![train@]);
                },
                None => {
                    assert(sightings(trains@) =~= sightings(before) + Seq::empty());
                },
            }
            i = i + 1;
        }
        assert(chunk@.take(chunk@.len() as int) =~= chunk@);
        trains
    }

    /// Scan one byte. Returns the train that it completes, if any.
    pub fn step(&mut self, b: u8) -> (r: Option<Train>)
        requires
            old(self).wf(),
        ensures
            final(self).wf(),
            final(self)@ == stepped(old(self)@, b),
            match r {
                Some(train) => emitted(old(self)@, b) == Some(train@),
                None => emitted(old(self)@, b) is None,
            },
    {
        match self.tok {
            Tok::Text => {
                if b == LT {
                    self.tok = Tok::TagOpen;
                    self.is_close = false;
                    self.name.clear();
                } else if self.picker.capture != Capture::Nothing {
                    self.text.push(b);
                }
                None
            },
            Tok::TagOpen => {
                if b == SLASH {
                    self.is_close = true;
                    self.tok = Tok::TagName;
                } else if b == QUESTION {
                    self.tok = Tok::Pi;
                } else if b == BANG {
                    self.tok = Tok::Bang;
                } else {
                    self.name.push(b);
                    self.tok = Tok::TagName;
                }
                None
            },
            Tok::TagName => {
                if b == GT {
                    let train = self.finish_tag(false);
                    self.tok = Tok::Text;
                    return train;
                } else if b == SLASH {
                    self.tok = Tok::SelfSlash;
                } else if is_space(b) {
                    self.tok = Tok::InTag;
                } else {
                    self.name.push(b);
                }
                None
            },
            Tok::InTag => {
                // Attribute bytes are ignored; a quoted '>' inside an attribute
                // does not occur in this feed.
                if b == GT {
                    let train = self.finish_tag(false);
                    self.tok = Tok::Text;
                    return train;
                } else if b == SLASH {
                    self.tok = Tok::SelfSlash;
                }
                None
            },
            Tok::SelfSlash => {
                if b == GT {
                    let train = self.finish_tag(true);
                    self.tok = Tok::Text;
                    return train;
                }
                self.tok = Tok::InTag;
                None
            },
            Tok::Pi => {
                if b == QUESTION {
                    self.tok = Tok::PiQ;
                }
                None
            },
            Tok::PiQ => {
                if b == GT {
                    self.tok = Tok::Text;
                } else if b != QUESTION {
                    self.tok = Tok::Pi;
                }
                None
            },
            Tok::Bang => {
                // Coarse: the feed has no comments, CDATA or DOCTYPE inside the
                // body; if one ever appears, skip to the next '>'.
                if b == GT {
                    self.tok = Tok::Text;
                }
                None
            },
        }
    }

    /// Handle the `>` of a tag.
    fn finish_tag(&mut self, self_closing: bool) -> (r: Option<Train>)
        requires
            old(self).wf(),
        ensures
            final(self).wf(),
            final(self)@ == tag_done(old(self)@, self_closing),
            match r {
                Some(train) => tag_emits(old(self)@, self_closing) == Some(train@),
                None => tag_emits(old(self)@, self_closing) is None,
            },
    {
        if self.name.has_overflow() {
            return None;
        }
        let e: Element = element(local_name(self.name.as_slice()));
        if self.is_close {
            self.handle_close(e)
        } else if self_closing {
            self.handle_open(e);
            self.handle_close(e)
        } else {
            self.handle_open(e);
            None
        }
    }

    fn handle_open(&mut self, e: Element)
        requires
            old(self).wf(),
        ensures
            final(self).wf(),
            final(self)@ == tag_opened(old(self)@, e),
    {
        let starts: bool = match e {
            Element::Number => self.picker.in_location,
            Element::Longitude => self.picker.in_first_part,
            Element::Latitude => self.picker.in_first_part,
            _ => false,
        };
        self.picker.open(e);
        if starts {
            self.text.clear();
        }
    }

    fn handle_close(&mut self, e: Element) -> (r: Option<Train>)
        requires
            old(self).wf(),
        ensures
            final(self).wf(),
            final(self)@ == tag_closed(old(self)@, e),
            match r {
                Some(train) => close_emits(old(self)@, e) == Some(train@),
                None => close_emits(old(self)@, e) is None,
            },
    {
        match e {
            Element::Number => {
                if self.picker.capture == Capture::Number {
                    self.picker.number = match parse_text(&self.text) {
                        Some(s) => parse_u32(trim(s)),
                        None => None,
                    };
                    self.end_capture();
                }
                None
            },
            Element::Longitude => {
                if self.picker.capture == Capture::Lon {
                    self.picker.lon = read_coordinate(&self.text);
                    self.end_capture();
                }
                None
            },
            Element::Latitude => {
                if self.picker.capture == Capture::Lat {
                    self.picker.lat = read_coordinate(&self.text);
                    self.end_capture();
                }
                None
            },
            Element::Part => {
                if self.picker.in_first_part {
                    self.picker.in_first_part = false;
                }
                None
            },
            Element::Location => {
                if self.picker.in_location {
                    self.picker.close_location()
                } else {
                    None
                }
            },
            Element::Other => None,
        }
    }

    fn end_capture(&mut self)
        requires
            old(self).wf(),
        ensures
            final(self).wf(),
            final(self)@ == (Scan {
                pick: Pick { capture: Capture::Nothing, ..old(self)@.pick },
                text: nothing_held(),
                ..old(self)@
            }),
    {
        self.picker.capture = Capture::Nothing;
        self.text.clear();
    }
}

/// The coordinate in a capture.
fn read_coordinate(text: &Buf<TEXT_CAP>) -> (r: Option<String>)
    requires
        text.wf(),
    ensures
        text_in(r) == captured_coordinate(text@),
{
    match parse_text(text) {
        Some(s) => {
            let t: &str = trim(s);
            if is_float_text(t) {
                Some(t.to_owned())
            } else {
                None
            }
        },
        None => None,
    }
}

/// Scanning a document in two chunks is scanning it in one: it does not matter
/// where the feed is cut.
pub proof fn law_chunks_do_not_matter(s: Scan, a: Seq<u8>, b: Seq<u8>)
    ensures
        scanned(s, a + b) == scanned(scanned(s, a), b),
        trains_in(s, a + b) == trains_in(s, a) + trains_in(scanned(s, a), b),
    decreases b.len(),
{
    if b.len() == 0 {
        assert(a + b =~= a);
        assert(trains_in(s, a) + Seq::empty() =~= trains_in(s, a));
    } else {
        law_chunks_do_not_matter(s, a, b.drop_last());
        assert((a + b).drop_last() =~= a + b.drop_last());
        assert((a + b).last() == b.last());
        assert(trains_in(s, a + b) =~= trains_in(s, a) + trains_in(scanned(s, a), b));
    }
}

/// Whether the coordinates of the location at hand are settled: its first part
/// has ended, and no coordinate is being read.
pub open spec fn settled(pick: Pick) -> bool {
    &&& pick.in_location
    &&& pick.seen_first_part
    &&& !pick.in_first_part
    &&& pick.capture != Capture::Lon
    &&& pick.capture != Capture::Lat
}

/// Whether byte `b` completes an opening tag of a location.
pub open spec fn opens_location(s: Scan, b: u8) -> bool {
    &&& b == GT
    &&& s.tok == Tok::TagName || s.tok == Tok::InTag || s.tok == Tok::SelfSlash
    &&& !s.is_close
    &&& !s.name.overflow
    &&& tag_element(s) == Element::Location
}

/// Once the first part of a train has ended, nothing that follows in its
/// location changes the coordinates: further parts are skipped.
pub proof fn law_later_parts_are_skipped(s: Scan, b: u8)
    requires
        settled(s.pick),
        !opens_location(s, b),
    ensures
        stepped(s, b).pick.lon == s.pick.lon,
        stepped(s, b).pick.lat == s.pick.lat,
        stepped(s, b).pick.in_location ==> settled(stepped(s, b).pick),
{
}

/// Whether byte `b` completes the closing tag of the location at hand.
pub open spec fn closes_location(s: Scan, b: u8) -> bool {
    &&& b == GT
    &&& s.tok == Tok::TagName || s.tok == Tok::InTag || s.tok == Tok::SelfSlash
    &&& s.is_close
    &&& !s.name.overflow
    &&& tag_element(s) == Element::Location
    &&& s.pick.in_location
}

/// A train is handed out exactly when the closing tag of its location is
/// reached with all three values picked, and it carries those values.
pub proof fn law_trains_come_at_location_end(s: Scan, b: u8)
    ensures
        emitted(s, b) == if closes_location(s, b) {
            picked_train(s.pick)
        } else {
            None
        },
{
}

/// Whatever is fed, the coordinates of every train are numbers.
pub proof fn law_coordinates_are_numbers(bytes: Seq<u8>)
    ensures
        coordinates_are_numbers(scanned(scan_start(), bytes).pick),
        forall|i: int|
            #![trigger trains_in(scan_start(), bytes)[i]]
            0 <= i < trains_in(scan_start(), bytes).len() ==> float_text(
                trains_in(scan_start(), bytes)[i].lon,
            ) && float_text(trains_in(scan_start(), bytes)[i].lat),
    decreases bytes.len(),
{
    if bytes.len() > 0 {
        law_coordinates_are_numbers(bytes.drop_last());
        let front = trains_in(scan_start(), bytes.drop_last());
        let all = trains_in(scan_start(), bytes);
        let before = scanned(scan_start(), bytes.drop_last());
        law_trains_come_at_location_end(before, bytes.last());
        assert forall|i: int| #![trigger all[i]] 0 <= i < all.len() implies float_text(all[i].lon)
            && float_text(all[i].lat) by {
            if i < front.len() {
                assert(all[i] == front[i]);
            } else {
                assert(all[i] == picked_train(before.pick)->0);
            }
        }
    }
}

} // verus!
