//! Documents as the feed writes them, and the law that the scanner reads back
//! from them what was written.
//!
//! A document is a row of location elements with filler around them; filler is
//! whatever the scanner passes over: text, unrelated elements, comments and
//! processing instructions. The elements may come with any namespace prefix that
//! leaves room for their name, and with attributes.
use vstd::prelude::*;
use vstd::utf8::{encode_utf8, encode_utf8_decode_utf8, encode_utf8_valid_utf8};
use crate::schema::{
    as_list, element_named, latin, lemma_names_are_distinct, picked_train, Capture, Element, Pick,
    Sighting,
};
use crate::text::{
    decimal, float_text, law_decimal_has_no_blanks, law_decimal_reads_back,
    law_floats_have_number_characters, law_trimming_keeps_the_middle, trimmed, white_space,
};
use crate::train_xml::{
    blank, captured, captured_coordinate, captured_number, close_emits, colon_from, emitted,
    held_more, law_chunks_do_not_matter, local_part, nothing_held, scan_start, scanned,
    starts_capture, stepped, tag_closed, tag_done, tag_emits, tag_opened, trains_in, Held, Scan,
    Tok, BANG, COLON, GT, LT, NAME_CAP, QUESTION, SLASH, TEXT_CAP,
};

verus! {

/// The characters of an ASCII word as bytes.
pub open spec fn ascii(word: Seq<char>) -> Seq<u8> {
    word.map_values(|c: char| c as u8)
}

/// How the tags of an element are written: with a namespace prefix, and with
/// attributes in the opening and blanks in the closing tag.
pub struct Dress {
    pub prefix: Seq<u8>,
    pub open: Seq<u8>,
    pub close: Seq<u8>,
}

/// A local name with a namespace prefix; no prefix when that is empty.
pub open spec fn qualified(prefix: Seq<u8>, local: Seq<u8>) -> Seq<u8> {
    if prefix.len() == 0 {
        local
    } else {
        prefix + seq![COLON] + local
    }
}

/// The tag with the given name, and with `attrs` after it.
pub open spec fn tag(closing: bool, name: Seq<u8>, attrs: Seq<u8>) -> Seq<u8> {
    if closing {
        seq![LT, SLASH] + name + attrs + seq![GT]
    } else {
        seq![LT] + name + attrs + seq![GT]
    }
}

/// A byte that can stand in a name and ends neither it nor its prefix.
pub open spec fn name_byte(b: u8) -> bool {
    b != GT && b != SLASH && b != QUESTION && b != BANG && b != COLON && !blank(b)
}

/// A name: it starts with a letter of its own.
pub open spec fn is_tag_name(name: Seq<u8>) -> bool {
    &&& name.len() > 0
    &&& name_byte(name[0])
    &&& forall|i: int| 0 <= i < name.len() ==> name_byte(#[trigger] name[i]) || name[i] == COLON
}

/// Attributes: nothing, or what follows a blank. They hold no `>`, and no `/` at
/// their end.
pub open spec fn are_attributes(attrs: Seq<u8>) -> bool {
    attrs.len() == 0 || {
        &&& blank(attrs[0])
        &&& attrs.last() != SLASH
        &&& forall|i: int| 0 <= i < attrs.len() ==> #[trigger] attrs[i] != GT
    }
}

/// A prefix that leaves room for the longest of the names.
pub open spec fn short_prefix(prefix: Seq<u8>) -> bool {
    prefix.len() <= 12 && forall|i: int| 0 <= i < prefix.len() ==> name_byte(#[trigger] prefix[i])
}

/// Tags that the scanner can read.
pub open spec fn fits(dress: Dress) -> bool {
    short_prefix(dress.prefix) && are_attributes(dress.open) && are_attributes(dress.close)
}

/// Text without markup.
pub open spec fn plain(text: Seq<u8>) -> bool {
    forall|i: int| 0 <= i < text.len() ==> #[trigger] text[i] != LT
}

/// What a buffer for `cap` bytes holds after all of `bytes`.
pub open spec fn held_all(held: Held, cap: nat, bytes: Seq<u8>) -> Held
    decreases bytes.len(),
{
    if bytes.len() == 0 {
        held
    } else {
        held_more(held_all(held, cap, bytes.drop_last()), cap, bytes.last())
    }
}

/// What is captured of `text`: all of it, unless it is too long.
pub open spec fn capture_of(text: Seq<u8>) -> Held {
    held_all(nothing_held(), TEXT_CAP as nat, text)
}

/// Whether the scanner passes over `bytes` between two elements: it is between
/// elements again after them, and nothing was picked or handed out.
pub open spec fn is_filler(bytes: Seq<u8>) -> bool {
    forall|s: Scan|
        #![trigger scanned(s, bytes)]
        s.tok == Tok::Text && s.pick.capture == Capture::Nothing ==> scanned(s, bytes).tok
            == Tok::Text && scanned(s, bytes).pick == s.pick && trains_in(s, bytes) == Seq::<
            Sighting,
        >::empty()
}

/// Whether the scanner does not see `bytes` at all, be it between elements or in
/// the middle of a captured text: nothing is picked or handed out, a capture that
/// runs goes on, and the text held so far stays.
pub open spec fn is_unseen(bytes: Seq<u8>) -> bool {
    forall|s: Scan|
        #![trigger scanned(s, bytes)]
        s.tok == Tok::Text ==> scanned(s, bytes).tok == Tok::Text && scanned(s, bytes).pick
            == s.pick && scanned(s, bytes).text == s.text && trains_in(s, bytes) == Seq::<
            Sighting,
        >::empty()
}

/// What stands in a part of a train, in any order.
pub enum PartItem {
    Lon(Dress, Seq<u8>),
    Lat(Dress, Seq<u8>),
    Filler(Seq<u8>),
}

/// What stands in a location, in any order.
pub enum Child {
    Number(Dress, Seq<u8>),
    Part(Dress, Seq<PartItem>),
    Filler(Seq<u8>),
}

/// An element that holds `text`.
pub open spec fn value_xml(dress: Dress, word: Seq<char>, text: Seq<u8>) -> Seq<u8> {
    let name = qualified(dress.prefix, ascii(word));
    tag(false, name, dress.open) + text + tag(true, name, dress.close)
}

/// An item of a part as it is written.
pub open spec fn item_xml(item: PartItem) -> Seq<u8> {
    match item {
        PartItem::Lon(dress, text) => value_xml(dress, "Longitude"@, text),
        PartItem::Lat(dress, text) => value_xml(dress, "Latitude"@, text),
        PartItem::Filler(bytes) => bytes,
    }
}

/// The items of a part, one after the other.
pub open spec fn items_xml(items: Seq<PartItem>) -> Seq<u8>
    decreases items.len(),
{
    if items.len() == 0 {
        Seq::empty()
    } else {
        items_xml(items.drop_last()) + item_xml(items.last())
    }
}

/// A child of a location as it is written.
pub open spec fn child_xml(child: Child) -> Seq<u8> {
    match child {
        Child::Number(dress, text) => value_xml(dress, "TreinNummer"@, text),
        Child::Part(dress, items) => value_xml(dress, "TreinMaterieelDelen"@, items_xml(items)),
        Child::Filler(bytes) => bytes,
    }
}

/// The children of a location, one after the other.
pub open spec fn children_xml(children: Seq<Child>) -> Seq<u8>
    decreases children.len(),
{
    if children.len() == 0 {
        Seq::empty()
    } else {
        children_xml(children.drop_last()) + child_xml(children.last())
    }
}

/// A whole location element.
pub open spec fn location_xml(dress: Dress, children: Seq<Child>) -> Seq<u8> {
    value_xml(dress, "TreinLocation"@, children_xml(children))
}

/// Whether an item is of a form that the scanner can read.
pub open spec fn item_wf(item: PartItem) -> bool {
    match item {
        PartItem::Lon(dress, text) => fits(dress) && plain(text),
        PartItem::Lat(dress, text) => fits(dress) && plain(text),
        PartItem::Filler(bytes) => is_filler(bytes),
    }
}

/// Whether a child is of a form that the scanner can read.
pub open spec fn child_wf(child: Child) -> bool {
    match child {
        Child::Number(dress, text) => fits(dress) && plain(text),
        Child::Part(dress, items) => fits(dress) && forall|i: int|
            0 <= i < items.len() ==> item_wf(#[trigger] items[i]),
        Child::Filler(bytes) => is_filler(bytes),
    }
}

/// The longitude that a part gives: that of its last such element.
pub open spec fn part_lon(items: Seq<PartItem>) -> Option<Seq<char>>
    decreases items.len(),
{
    if items.len() == 0 {
        None
    } else {
        match items.last() {
            PartItem::Lon(_, text) => captured_coordinate(capture_of(text)),
            _ => part_lon(items.drop_last()),
        }
    }
}

/// The latitude that a part gives: that of its last such element.
pub open spec fn part_lat(items: Seq<PartItem>) -> Option<Seq<char>>
    decreases items.len(),
{
    if items.len() == 0 {
        None
    } else {
        match items.last() {
            PartItem::Lat(_, text) => captured_coordinate(capture_of(text)),
            _ => part_lat(items.drop_last()),
        }
    }
}

/// The number that a location gives: that of its last such element.
pub open spec fn location_number(children: Seq<Child>) -> Option<u32>
    decreases children.len(),
{
    if children.len() == 0 {
        None
    } else {
        match children.last() {
            Child::Number(_, text) => captured_number(capture_of(text)),
            _ => location_number(children.drop_last()),
        }
    }
}

/// The items of the first part of a location.
pub open spec fn first_part(children: Seq<Child>) -> Option<Seq<PartItem>>
    decreases children.len(),
{
    if children.len() == 0 {
        None
    } else {
        match first_part(children.drop_last()) {
            Some(items) => Some(items),
            None => match children.last() {
                Child::Part(_, items) => Some(items),
                _ => None,
            },
        }
    }
}

/// The train that a location stands for: its number and the coordinates of its
/// first part, if all three are there and can be read.
pub open spec fn written_train(children: Seq<Child>) -> Option<Sighting> {
    match first_part(children) {
        Some(items) => match (location_number(children), part_lon(items), part_lat(items)) {
            (Some(number), Some(lon), Some(lat)) => Some(Sighting { number, lon, lat }),
            _ => None,
        },
        None => None,
    }
}

/// One byte.
proof fn lemma_one(s: Scan, b: u8)
    ensures
        scanned(s, seq![b]) == stepped(s, b),
        trains_in(s, seq![b]) == as_list(emitted(s, b)),
{
    assert(seq![b].drop_last() =~= Seq::empty());
    assert(scanned(s, Seq::empty()) == s);
    assert(trains_in(s, Seq::empty()) =~= Seq::empty());
    assert(trains_in(s, seq![b]) =~= as_list(emitted(s, b)));
}

/// Two pieces that hand out nothing: the second goes on where the first ends.
proof fn lemma_join(s: Scan, a: Seq<u8>, b: Seq<u8>)
    requires
        trains_in(s, a) == Seq::<Sighting>::empty(),
    ensures
        scanned(s, a + b) == scanned(scanned(s, a), b),
        trains_in(s, a + b) == trains_in(scanned(s, a), b),
{
    law_chunks_do_not_matter(s, a, b);
    let rest = trains_in(scanned(s, a), b);
    assert(Seq::<Sighting>::empty() + rest =~= rest);
}

/// A name is gathered byte by byte.
proof fn lemma_name(s: Scan, name: Seq<u8>)
    requires
        s.tok == Tok::TagName,
        forall|i: int| 0 <= i < name.len() ==> name_byte(#[trigger] name[i]) || name[i] == COLON,
    ensures
        scanned(s, name) == (Scan { name: held_all(s.name, NAME_CAP as nat, name), ..s }),
        trains_in(s, name) == Seq::<Sighting>::empty(),
    decreases name.len(),
{
    if name.len() > 0 {
        lemma_name(s, name.drop_last());
        assert(name_byte(name[name.len() - 1]) || name[name.len() - 1] == COLON);
        assert(trains_in(s, name) =~= Seq::<Sighting>::empty());
    }
}

/// Attributes are passed over.
proof fn lemma_attribute_run(s: Scan, attrs: Seq<u8>)
    requires
        s.tok == Tok::InTag || s.tok == Tok::SelfSlash,
        forall|i: int| 0 <= i < attrs.len() ==> #[trigger] attrs[i] != GT,
    ensures
        ({
            let r = scanned(s, attrs);
            &&& r.tok == Tok::InTag || r.tok == Tok::SelfSlash
            &&& r == (Scan { tok: r.tok, ..s })
            &&& attrs.len() > 0 && attrs.last() != SLASH ==> r.tok == Tok::InTag
            &&& attrs.len() == 0 ==> r.tok == s.tok
        }),
        trains_in(s, attrs) == Seq::<Sighting>::empty(),
    decreases attrs.len(),
{
    if attrs.len() > 0 {
        lemma_attribute_run(s, attrs.drop_last());
        assert(attrs[attrs.len() - 1] != GT);
        assert(trains_in(s, attrs) =~= Seq::<Sighting>::empty());
    }
}

/// Attributes after a name are passed over.
proof fn lemma_attributes(s: Scan, attrs: Seq<u8>)
    requires
        s.tok == Tok::TagName,
        are_attributes(attrs),
    ensures
        ({
            let r = scanned(s, attrs);
            &&& r.tok == Tok::TagName || r.tok == Tok::InTag
            &&& r == (Scan { tok: r.tok, ..s })
        }),
        trains_in(s, attrs) == Seq::<Sighting>::empty(),
{
    if attrs.len() > 0 {
        let rest = attrs.skip(1);
        let s1 = stepped(s, attrs[0]);
        lemma_one(s, attrs[0]);
        assert forall|i: int| 0 <= i < rest.len() implies #[trigger] rest[i] != GT by {
            assert(rest[i] == attrs[i + 1]);
        }
        lemma_attribute_run(s1, rest);
        lemma_join(s, seq![attrs[0]], rest);
        assert(seq![attrs[0]] + rest =~= attrs);
        if rest.len() > 0 {
            assert(rest.last() == attrs.last());
        }
    }
}

/// What the start of a tag does: the name is there, and its end is awaited.
proof fn lemma_tag_start(s: Scan, closing: bool, name: Seq<u8>, attrs: Seq<u8>)
    requires
        s.tok == Tok::Text,
        is_tag_name(name),
        are_attributes(attrs),
    ensures
        ({
            let start = if closing {
                seq![LT, SLASH] + name + attrs
            } else {
                seq![LT] + name + attrs
            };
            let r = scanned(s, start);
            &&& r.tok == Tok::TagName || r.tok == Tok::InTag
            &&& r == (Scan {
                tok: r.tok,
                is_close: closing,
                name: held_all(nothing_held(), NAME_CAP as nat, name),
                ..s
            })
            &&& trains_in(s, start) == Seq::<Sighting>::empty()
        }),
{
    let s1 = stepped(s, LT);
    lemma_one(s, LT);
    // The byte that starts the name, or the slash.
    let (lead, rest) = if closing {
        (SLASH, name)
    } else {
        (name[0], name.skip(1))
    };
    let s2 = stepped(s1, lead);
    lemma_one(s1, lead);
    lemma_join(s, seq![LT], seq![lead]);
    lemma_name(s2, rest);
    lemma_join(s, seq![LT] + seq![lead], rest);
    let s3 = scanned(s2, rest);
    assert(s3.name == held_all(nothing_held(), NAME_CAP as nat, name)) by {
        if !closing {
            lemma_held_lead(nothing_held(), NAME_CAP as nat, name);
        }
    }
    lemma_attributes(s3, attrs);
    lemma_join(s, seq![LT] + seq![lead] + rest, attrs);
    if closing {
        assert(seq![LT] + seq![lead] + rest + attrs =~= seq![LT, SLASH] + name + attrs);
    } else {
        assert(seq![LT] + seq![lead] + rest + attrs =~= seq![LT] + name + attrs);
    }
}

/// The first byte, then the rest.
proof fn lemma_held_lead(held: Held, cap: nat, bytes: Seq<u8>)
    requires
        bytes.len() > 0,
    ensures
        held_all(held_more(held, cap, bytes[0]), cap, bytes.skip(1)) == held_all(held, cap, bytes),
    decreases bytes.len(),
{
    if bytes.len() == 1 {
        assert(bytes.drop_last() =~= Seq::empty());
        assert(held_all(held, cap, bytes.drop_last()) == held);
        assert(bytes.skip(1) =~= Seq::empty());
    } else {
        lemma_held_lead(held, cap, bytes.drop_last());
        assert(bytes.skip(1).drop_last() =~= bytes.drop_last().skip(1));
    }
}

/// A buffer keeps what fits.
proof fn lemma_held_fits(cap: nat, bytes: Seq<u8>)
    requires
        bytes.len() <= cap,
    ensures
        held_all(nothing_held(), cap, bytes) == (Held { bytes, overflow: false }),
    decreases bytes.len(),
{
    if bytes.len() > 0 {
        lemma_held_fits(cap, bytes.drop_last());
        assert(bytes.drop_last().push(bytes.last()) =~= bytes);
    } else {
        assert(bytes =~= Seq::empty());
    }
}

/// A whole tag.
proof fn lemma_tag(s: Scan, closing: bool, name: Seq<u8>, attrs: Seq<u8>)
    requires
        s.tok == Tok::Text,
        is_tag_name(name),
        are_attributes(attrs),
    ensures
        ({
            let t = Scan {
                is_close: closing,
                name: held_all(nothing_held(), NAME_CAP as nat, name),
                ..s
            };
            let r = scanned(s, tag(closing, name, attrs));
            &&& r.tok == Tok::Text
            &&& r.pick == tag_done(t, false).pick
            &&& r.text == tag_done(t, false).text
            &&& trains_in(s, tag(closing, name, attrs)) == as_list(tag_emits(t, false))
        }),
{
    let start = if closing {
        seq![LT, SLASH] + name + attrs
    } else {
        seq![LT] + name + attrs
    };
    lemma_tag_start(s, closing, name, attrs);
    let s1 = scanned(s, start);
    lemma_one(s1, GT);
    lemma_join(s, start, seq![GT]);
    assert(start + seq![GT] =~= tag(closing, name, attrs));
}

/// Text without markup is passed over.
pub proof fn law_text_is_filler(text: Seq<u8>)
    requires
        plain(text),
    ensures
        is_filler(text),
{
    assert forall|s: Scan| #![trigger scanned(s, text)]
        s.tok == Tok::Text && s.pick.capture == Capture::Nothing implies scanned(s, text).tok
        == Tok::Text && scanned(s, text).pick == s.pick && trains_in(s, text) == Seq::<
        Sighting,
    >::empty() by {
        lemma_idle_text(s, text);
    }
}

proof fn lemma_idle_text(s: Scan, text: Seq<u8>)
    requires
        s.tok == Tok::Text,
        s.pick.capture == Capture::Nothing,
        plain(text),
    ensures
        scanned(s, text) == s,
        trains_in(s, text) == Seq::<Sighting>::empty(),
    decreases text.len(),
{
    if text.len() > 0 {
        assert(plain(text.drop_last()));
        assert(text[text.len() - 1] != LT);
        lemma_idle_text(s, text.drop_last());
        assert(trains_in(s, text) =~= Seq::<Sighting>::empty());
    }
}

/// Filler after filler is filler.
pub proof fn law_fillers_join(a: Seq<u8>, b: Seq<u8>)
    requires
        is_filler(a),
        is_filler(b),
    ensures
        is_filler(a + b),
{
    assert forall|s: Scan| #![trigger scanned(s, a + b)]
        s.tok == Tok::Text && s.pick.capture == Capture::Nothing implies scanned(s, a + b).tok
        == Tok::Text && scanned(s, a + b).pick == s.pick && trains_in(s, a + b) == Seq::<
        Sighting,
    >::empty() by {
        assert(scanned(s, a).tok == Tok::Text);
        lemma_join(s, a, b);
        assert(scanned(scanned(s, a), b).tok == Tok::Text);
    }
}

/// A name that matters to the scanner: one of the five, where it fits.
pub open spec fn matters(name: Seq<u8>) -> bool {
    name.len() <= NAME_CAP && element_named(latin(local_part(name))) != Element::Other
}

/// The tags of unrelated elements are passed over, with their attributes, also
/// inside a captured text.
pub proof fn law_unrelated_tag_is_filler(closing: bool, name: Seq<u8>, attrs: Seq<u8>)
    requires
        is_tag_name(name),
        are_attributes(attrs),
        !matters(name),
    ensures
        is_unseen(tag(closing, name, attrs)),
        is_filler(tag(closing, name, attrs)),
{
    let bytes = tag(closing, name, attrs);
    lemma_unrelated_name(name);
    assert forall|s: Scan| #![trigger scanned(s, bytes)]
        s.tok == Tok::Text implies scanned(s, bytes).tok == Tok::Text && scanned(s, bytes).pick
        == s.pick && scanned(s, bytes).text == s.text && trains_in(s, bytes) == Seq::<
        Sighting,
    >::empty() by {
        lemma_tag(s, closing, name, attrs);
    }
}

/// An unrelated name is either too long or none of the five.
proof fn lemma_unrelated_name(name: Seq<u8>)
    requires
        !matters(name),
    ensures
        ({
            let held = held_all(nothing_held(), NAME_CAP as nat, name);
            held.overflow || element_named(latin(local_part(held.bytes))) == Element::Other
        }),
{
    if name.len() <= NAME_CAP {
        lemma_held_fits(NAME_CAP as nat, name);
    } else {
        lemma_held_overflows(NAME_CAP as nat, name);
    }
}

proof fn lemma_held_overflows(cap: nat, bytes: Seq<u8>)
    requires
        bytes.len() > cap,
    ensures
        held_all(nothing_held(), cap, bytes).overflow,
        held_all(nothing_held(), cap, bytes).bytes.len() == cap,
    decreases bytes.len(),
{
    if bytes.len() == cap + 1 {
        lemma_held_fits(cap, bytes.drop_last());
    } else {
        lemma_held_overflows(cap, bytes.drop_last());
    }
}

/// Unrelated self-closing tags are passed over, also inside a captured text.
pub proof fn law_unrelated_empty_tag_is_filler(name: Seq<u8>, attrs: Seq<u8>)
    requires
        is_tag_name(name),
        are_attributes(attrs),
        !matters(name),
    ensures
        is_unseen(seq![LT] + name + attrs + seq![SLASH, GT]),
        is_filler(seq![LT] + name + attrs + seq![SLASH, GT]),
{
    let start = seq![LT] + name + attrs;
    let bytes = start + seq![SLASH, GT];
    lemma_unrelated_name(name);
    assert forall|s: Scan| #![trigger scanned(s, bytes)]
        s.tok == Tok::Text implies scanned(s, bytes).tok == Tok::Text && scanned(s, bytes).pick
        == s.pick && scanned(s, bytes).text == s.text && trains_in(s, bytes) == Seq::<
        Sighting,
    >::empty() by {
        lemma_tag_start(s, false, name, attrs);
        let s1 = scanned(s, start);
        lemma_one(s1, SLASH);
        lemma_join(s, start, seq![SLASH]);
        let s2 = stepped(s1, SLASH);
        lemma_one(s2, GT);
        lemma_join(s, start + seq![SLASH], seq![GT]);
        assert(start + seq![SLASH] + seq![GT] =~= bytes);
    }
}

/// Comments and declarations are passed over, up to the first `>`, also inside a
/// captured text.
pub proof fn law_comment_is_filler(body: Seq<u8>)
    requires
        forall|i: int| 0 <= i < body.len() ==> #[trigger] body[i] != GT,
    ensures
        is_unseen(seq![LT, BANG] + body + seq![GT]),
        is_filler(seq![LT, BANG] + body + seq![GT]),
{
    let bytes = seq![LT, BANG] + body + seq![GT];
    assert forall|s: Scan| #![trigger scanned(s, bytes)]
        s.tok == Tok::Text implies scanned(s, bytes).tok == Tok::Text && scanned(s, bytes).pick
        == s.pick && scanned(s, bytes).text == s.text && trains_in(s, bytes) == Seq::<
        Sighting,
    >::empty() by {
        let s1 = stepped(s, LT);
        let s2 = stepped(s1, BANG);
        lemma_one(s, LT);
        lemma_one(s1, BANG);
        lemma_join(s, seq![LT], seq![BANG]);
        lemma_comment_body(s2, body);
        lemma_join(s, seq![LT] + seq![BANG], body);
        lemma_one(s2, GT);
        lemma_join(s, seq![LT] + seq![BANG] + body, seq![GT]);
        assert(seq![LT] + seq![BANG] + body + seq![GT] =~= bytes);
    }
}

proof fn lemma_comment_body(s: Scan, body: Seq<u8>)
    requires
        s.tok == Tok::Bang,
        forall|i: int| 0 <= i < body.len() ==> #[trigger] body[i] != GT,
    ensures
        scanned(s, body) == s,
        trains_in(s, body) == Seq::<Sighting>::empty(),
    decreases body.len(),
{
    if body.len() > 0 {
        lemma_comment_body(s, body.drop_last());
        assert(body[body.len() - 1] != GT);
        assert(trains_in(s, body) =~= Seq::<Sighting>::empty());
    }
}

/// Processing instructions are passed over, also inside a captured text.
pub proof fn law_instruction_is_filler(body: Seq<u8>)
    requires
        forall|i: int|
            0 <= i < body.len() - 1 && #[trigger] body[i] == QUESTION ==> body[i + 1] != GT,
    ensures
        is_unseen(seq![LT, QUESTION] + body + seq![QUESTION, GT]),
        is_filler(seq![LT, QUESTION] + body + seq![QUESTION, GT]),
{
    let bytes = seq![LT, QUESTION] + body + seq![QUESTION, GT];
    assert forall|s: Scan| #![trigger scanned(s, bytes)]
        s.tok == Tok::Text implies scanned(s, bytes).tok == Tok::Text && scanned(s, bytes).pick
        == s.pick && scanned(s, bytes).text == s.text && trains_in(s, bytes) == Seq::<
        Sighting,
    >::empty() by {
        let s1 = stepped(s, LT);
        let s2 = stepped(s1, QUESTION);
        lemma_one(s, LT);
        lemma_one(s1, QUESTION);
        lemma_join(s, seq![LT], seq![QUESTION]);
        lemma_instruction_body(s2, body);
        let s3 = scanned(s2, body);
        lemma_join(s, seq![LT] + seq![QUESTION], body);
        lemma_one(s3, QUESTION);
        lemma_join(s, seq![LT] + seq![QUESTION] + body, seq![QUESTION]);
        let s4 = stepped(s3, QUESTION);
        lemma_one(s4, GT);
        lemma_join(s, seq![LT] + seq![QUESTION] + body + seq![QUESTION], seq![GT]);
        assert(seq![LT] + seq![QUESTION] + body + seq![QUESTION] + seq![GT] =~= bytes);
    }
}

proof fn lemma_instruction_body(s: Scan, body: Seq<u8>)
    requires
        s.tok == Tok::Pi,
        forall|i: int|
            0 <= i < body.len() - 1 && #[trigger] body[i] == QUESTION ==> body[i + 1] != GT,
    ensures
        scanned(s, body) == (Scan {
            tok: if body.len() > 0 && body.last() == QUESTION {
                Tok::PiQ
            } else {
                Tok::Pi
            },
            ..s
        }),
        trains_in(s, body) == Seq::<Sighting>::empty(),
    decreases body.len(),
{
    if body.len() > 0 {
        let front = body.drop_last();
        lemma_instruction_body(s, front);
        if front.len() > 0 && front.last() == QUESTION {
            assert(body[body.len() - 2] == QUESTION);
        }
        assert(trains_in(s, body) =~= Seq::<Sighting>::empty());
    }
}

/// Text that is captured is kept, as far as it fits.
proof fn lemma_text(s: Scan, text: Seq<u8>)
    requires
        s.tok == Tok::Text,
        s.pick.capture != Capture::Nothing,
        plain(text),
    ensures
        scanned(s, text) == (Scan { text: held_all(s.text, TEXT_CAP as nat, text), ..s }),
        trains_in(s, text) == Seq::<Sighting>::empty(),
    decreases text.len(),
{
    if text.len() > 0 {
        assert(plain(text.drop_last()));
        assert(text[text.len() - 1] != LT);
        lemma_text(s, text.drop_last());
        assert(trains_in(s, text) =~= Seq::<Sighting>::empty());
    }
}

/// The local part of a qualified name is the local name.
proof fn lemma_qualified(prefix: Seq<u8>, local: Seq<u8>)
    requires
        short_prefix(prefix),
        forall|i: int| 0 <= i < local.len() ==> name_byte(#[trigger] local[i]),
    ensures
        local_part(qualified(prefix, local)) == local,
{
    let name = qualified(prefix, local);
    if prefix.len() == 0 {
        lemma_no_colon(local, 0);
    } else {
        assert forall|i: int| 0 <= i < prefix.len() implies #[trigger] name[i] != COLON by {
            assert(name[i] == prefix[i]);
        }
        lemma_first_colon(name, 0, prefix.len() as int);
        assert(name.skip(prefix.len() as int + 1) =~= local);
    }
}

proof fn lemma_no_colon(name: Seq<u8>, i: int)
    requires
        0 <= i <= name.len(),
        forall|k: int| 0 <= k < name.len() ==> name_byte(#[trigger] name[k]),
    ensures
        colon_from(name, i) is None,
    decreases name.len() - i,
{
    if i < name.len() {
        assert(name_byte(name[i]));
        lemma_no_colon(name, i + 1);
    }
}

proof fn lemma_first_colon(name: Seq<u8>, i: int, at: int)
    requires
        0 <= i <= at < name.len(),
        name[at] == COLON,
        forall|k: int| 0 <= k < at ==> #[trigger] name[k] != COLON,
    ensures
        colon_from(name, i) == Some(at),
    decreases at - i,
{
    if i < at {
        lemma_first_colon(name, i + 1, at);
    }
}

/// The names of the elements that matter.
pub open spec fn is_name(word: Seq<char>) -> bool {
    ||| word == "TreinLocation"@
    ||| word == "TreinNummer"@
    ||| word == "TreinMaterieelDelen"@
    ||| word == "Longitude"@
    ||| word == "Latitude"@
}

/// The element names, as bytes, are fit for a tag and stand for themselves.
proof fn lemma_word(prefix: Seq<u8>, word: Seq<char>)
    requires
        short_prefix(prefix),
        is_name(word),
    ensures
        ({
            let name = qualified(prefix, ascii(word));
            &&& name.len() <= NAME_CAP
            &&& is_tag_name(name)
            &&& element_named(latin(local_part(name))) == element_named(word)
        }),
{
    let local = ascii(word);
    let name = qualified(prefix, local);
    reveal_strlit("TreinLocation");
    reveal_strlit("TreinNummer");
    reveal_strlit("TreinMaterieelDelen");
    reveal_strlit("Longitude");
    reveal_strlit("Latitude");
    assert forall|i: int| 0 <= i < local.len() implies name_byte(#[trigger] local[i]) by {
        assert('A' <= word[i] <= 'z');
    }
    lemma_qualified(prefix, local);
    assert(latin(local) =~= word);
    assert forall|i: int| 0 <= i < name.len() implies name_byte(#[trigger] name[i]) || name[i]
        == COLON by {
        if prefix.len() == 0 {
            assert(name[i] == local[i]);
        } else if i < prefix.len() {
            assert(name[i] == prefix[i]);
        } else if i > prefix.len() {
            assert(name[i] == local[i - prefix.len() - 1]);
        }
    }
    assert(name_byte(name[0])) by {
        if prefix.len() == 0 {
            assert(name_byte(local[0]));
        } else {
            assert(name_byte(prefix[0]));
        }
    }
}

/// The tag of an element that matters does what it is meant to do.
proof fn lemma_element_tag(s: Scan, closing: bool, dress: Dress, word: Seq<char>)
    requires
        s.tok == Tok::Text,
        fits(dress),
        is_name(word),
    ensures
        ({
            let name = qualified(dress.prefix, ascii(word));
            let bytes = tag(closing, name, if closing {
                dress.close
            } else {
                dress.open
            });
            let r = scanned(s, bytes);
            let e = element_named(word);
            let t = if closing {
                tag_closed(s, e)
            } else {
                tag_opened(s, e)
            };
            &&& r.tok == Tok::Text
            &&& r.pick == t.pick
            &&& r.text == t.text
            &&& trains_in(s, bytes) == if closing {
                as_list(close_emits(s, e))
            } else {
                Seq::empty()
            }
        }),
{
    let name = qualified(dress.prefix, ascii(word));
    lemma_word(dress.prefix, word);
    lemma_held_fits(NAME_CAP as nat, name);
    lemma_tag(s, closing, name, if closing {
        dress.close
    } else {
        dress.open
    });
}

/// An element that holds a value, where its value is picked.
proof fn lemma_picked_value(s: Scan, dress: Dress, word: Seq<char>, text: Seq<u8>)
    requires
        s.tok == Tok::Text,
        fits(dress),
        is_name(word),
        starts_capture(s.pick, element_named(word)),
        plain(text),
    ensures
        ({
            let r = scanned(s, value_xml(dress, word, text));
            &&& r.tok == Tok::Text
            &&& r.pick == match element_named(word) {
                Element::Number => Pick {
                    number: captured_number(capture_of(text)),
                    capture: Capture::Nothing,
                    ..s.pick
                },
                Element::Longitude => Pick {
                    lon: captured_coordinate(capture_of(text)),
                    capture: Capture::Nothing,
                    ..s.pick
                },
                _ => Pick {
                    lat: captured_coordinate(capture_of(text)),
                    capture: Capture::Nothing,
                    ..s.pick
                },
            }
        }),
        trains_in(s, value_xml(dress, word, text)) == Seq::<Sighting>::empty(),
{
    let name = qualified(dress.prefix, ascii(word));
    let open = tag(false, name, dress.open);
    let close = tag(true, name, dress.close);
    lemma_element_tag(s, false, dress, word);
    let s1 = scanned(s, open);
    lemma_text(s1, text);
    lemma_join(s, open, text);
    let s2 = scanned(s1, text);
    lemma_element_tag(s2, true, dress, word);
    lemma_join(s, open + text, close);
}

/// An element that holds a coordinate, after the first part.
proof fn lemma_skipped_value(s: Scan, dress: Dress, word: Seq<char>, text: Seq<u8>)
    requires
        s.tok == Tok::Text,
        fits(dress),
        word == "Longitude"@ || word == "Latitude"@,
        !s.pick.in_first_part,
        s.pick.capture == Capture::Nothing,
        plain(text),
    ensures
        ({
            let r = scanned(s, value_xml(dress, word, text));
            r.tok == Tok::Text && r.pick == s.pick
        }),
        trains_in(s, value_xml(dress, word, text)) == Seq::<Sighting>::empty(),
{
    lemma_names_are_distinct();
    let name = qualified(dress.prefix, ascii(word));
    let open = tag(false, name, dress.open);
    let close = tag(true, name, dress.close);
    lemma_element_tag(s, false, dress, word);
    let s1 = scanned(s, open);
    lemma_idle_text(s1, text);
    lemma_join(s, open, text);
    lemma_element_tag(s1, true, dress, word);
    lemma_join(s, open + text, close);
}

/// What is picked after some items of a part.
spec fn picked_items(pick: Pick, items: Seq<PartItem>) -> Pick
    decreases items.len(),
{
    if items.len() == 0 {
        pick
    } else {
        let before = picked_items(pick, items.drop_last());
        match items.last() {
            PartItem::Lon(_, text) if pick.in_first_part => Pick {
                lon: captured_coordinate(capture_of(text)),
                ..before
            },
            PartItem::Lat(_, text) if pick.in_first_part => Pick {
                lat: captured_coordinate(capture_of(text)),
                ..before
            },
            _ => before,
        }
    }
}

/// The items of a part.
proof fn lemma_items(s: Scan, items: Seq<PartItem>)
    requires
        s.tok == Tok::Text,
        s.pick.capture == Capture::Nothing,
        forall|i: int| 0 <= i < items.len() ==> item_wf(#[trigger] items[i]),
    ensures
        ({
            let r = scanned(s, items_xml(items));
            &&& r.tok == Tok::Text
            &&& r.pick == picked_items(s.pick, items)
            &&& r.pick.capture == Capture::Nothing
            &&& r.pick.in_first_part == s.pick.in_first_part
        }),
        trains_in(s, items_xml(items)) == Seq::<Sighting>::empty(),
    decreases items.len(),
{
    if items.len() > 0 {
        let front = items.drop_last();
        let last = items.last();
        assert(item_wf(items[items.len() - 1]));
        assert forall|i: int| 0 <= i < front.len() implies item_wf(#[trigger] front[i]) by {
            assert(item_wf(items[i]));
        }
        lemma_items(s, front);
        let s1 = scanned(s, items_xml(front));
        lemma_names_are_distinct();
        match last {
            PartItem::Lon(dress, text) => {
                if s.pick.in_first_part {
                    lemma_picked_value(s1, dress, "Longitude"@, text);
                } else {
                    lemma_skipped_value(s1, dress, "Longitude"@, text);
                }
            },
            PartItem::Lat(dress, text) => {
                if s.pick.in_first_part {
                    lemma_picked_value(s1, dress, "Latitude"@, text);
                } else {
                    lemma_skipped_value(s1, dress, "Latitude"@, text);
                }
            },
            PartItem::Filler(bytes) => {
                assert(scanned(s1, bytes).tok == Tok::Text);
            },
        }
        lemma_join(s, items_xml(front), item_xml(last));
    }
}

/// What is picked from the items of the first part is what that part gives.
proof fn lemma_picked_items(pick: Pick, items: Seq<PartItem>)
    requires
        pick.in_first_part,
        pick.lon is None,
        pick.lat is None,
    ensures
        picked_items(pick, items) == (Pick { lon: part_lon(items), lat: part_lat(items), ..pick }),
    decreases items.len(),
{
    if items.len() > 0 {
        lemma_picked_items(pick, items.drop_last());
    }
}

/// Items that are not in the first part change nothing.
proof fn lemma_skipped_items(pick: Pick, items: Seq<PartItem>)
    requires
        !pick.in_first_part,
    ensures
        picked_items(pick, items) == pick,
    decreases items.len(),
{
    if items.len() > 0 {
        lemma_skipped_items(pick, items.drop_last());
    }
}

/// What is picked after some children of a location.
spec fn picked_children(children: Seq<Child>) -> Pick {
    Pick {
        in_location: true,
        seen_first_part: first_part(children) is Some,
        in_first_part: false,
        capture: Capture::Nothing,
        number: location_number(children),
        lon: match first_part(children) {
            Some(items) => part_lon(items),
            None => None,
        },
        lat: match first_part(children) {
            Some(items) => part_lat(items),
            None => None,
        },
    }
}

/// A part of a train.
proof fn lemma_part(s: Scan, dress: Dress, items: Seq<PartItem>)
    requires
        s.tok == Tok::Text,
        s.pick.in_location,
        !s.pick.in_first_part,
        s.pick.capture == Capture::Nothing,
        !s.pick.seen_first_part ==> s.pick.lon is None && s.pick.lat is None,
        fits(dress),
        forall|i: int| 0 <= i < items.len() ==> item_wf(#[trigger] items[i]),
    ensures
        ({
            let r = scanned(s, child_xml(Child::Part(dress, items)));
            &&& r.tok == Tok::Text
            &&& r.pick == if s.pick.seen_first_part {
                s.pick
            } else {
                Pick {
                    seen_first_part: true,
                    lon: part_lon(items),
                    lat: part_lat(items),
                    ..s.pick
                }
            }
        }),
        trains_in(s, child_xml(Child::Part(dress, items))) == Seq::<Sighting>::empty(),
{
    lemma_names_are_distinct();
    let word = "TreinMaterieelDelen"@;
    let name = qualified(dress.prefix, ascii(word));
    let open = tag(false, name, dress.open);
    let close = tag(true, name, dress.close);
    lemma_element_tag(s, false, dress, word);
    let s1 = scanned(s, open);
    lemma_items(s1, items);
    lemma_join(s, open, items_xml(items));
    if s.pick.seen_first_part {
        lemma_skipped_items(s1.pick, items);
    } else {
        lemma_picked_items(s1.pick, items);
    }
    let s2 = scanned(s1, items_xml(items));
    lemma_element_tag(s2, true, dress, word);
    lemma_join(s, open + items_xml(items), close);
}

/// The children of a location, right after its opening tag.
proof fn lemma_children(s: Scan, children: Seq<Child>)
    requires
        s.tok == Tok::Text,
        s.pick == picked_children(Seq::empty()),
        forall|i: int| 0 <= i < children.len() ==> child_wf(#[trigger] children[i]),
    ensures
        ({
            let r = scanned(s, children_xml(children));
            &&& r.tok == Tok::Text
            &&& r.pick == picked_children(children)
        }),
        trains_in(s, children_xml(children)) == Seq::<Sighting>::empty(),
    decreases children.len(),
{
    if children.len() == 0 {
        assert(children =~= Seq::empty());
    } else {
        let front = children.drop_last();
        let last = children.last();
        assert(child_wf(children[children.len() - 1]));
        assert forall|i: int| 0 <= i < front.len() implies child_wf(#[trigger] front[i]) by {
            assert(child_wf(children[i]));
        }
        lemma_children(s, front);
        let s1 = scanned(s, children_xml(front));
        lemma_names_are_distinct();
        match last {
            Child::Number(dress, text) => {
                lemma_picked_value(s1, dress, "TreinNummer"@, text);
            },
            Child::Part(dress, items) => {
                lemma_part(s1, dress, items);
            },
            Child::Filler(bytes) => {
                assert(scanned(s1, bytes).tok == Tok::Text);
            },
        }
        lemma_join(s, children_xml(front), child_xml(last));
        assert(scanned(s, children_xml(children)).pick =~= picked_children(children));
    }
}

/// What is read from a location element is the train that was written: its
/// number and the coordinates of its first part, whatever else stands in it, in
/// whatever order, and whatever came before it. Nothing else is handed out.
pub proof fn law_location_reads_back(s: Scan, dress: Dress, children: Seq<Child>)
    requires
        s.tok == Tok::Text,
        fits(dress),
        forall|i: int| 0 <= i < children.len() ==> child_wf(#[trigger] children[i]),
    ensures
        trains_in(s, location_xml(dress, children)) == as_list(written_train(children)),
        scanned(s, location_xml(dress, children)).tok == Tok::Text,
        scanned(s, location_xml(dress, children)).pick.capture == Capture::Nothing,
{
    lemma_names_are_distinct();
    let word = "TreinLocation"@;
    let name = qualified(dress.prefix, ascii(word));
    let open = tag(false, name, dress.open);
    let close = tag(true, name, dress.close);
    lemma_element_tag(s, false, dress, word);
    let s1 = scanned(s, open);
    assert(s1.pick =~= picked_children(Seq::empty()));
    lemma_children(s1, children);
    lemma_join(s, open, children_xml(children));
    let s2 = scanned(s1, children_xml(children));
    assert(picked_train(s2.pick) == written_train(children));
    lemma_element_tag(s2, true, dress, word);
    lemma_join(s, open + children_xml(children), close);
}

/// A location with what stands before it.
pub struct Entry {
    pub before: Seq<u8>,
    pub dress: Dress,
    pub children: Seq<Child>,
}

/// Whether an entry is of a form that the scanner can read.
pub open spec fn entry_wf(entry: Entry) -> bool {
    &&& is_filler(entry.before)
    &&& fits(entry.dress)
    &&& forall|i: int| 0 <= i < entry.children.len() ==> child_wf(#[trigger] entry.children[i])
}

/// A whole document, without what stands after its last location.
pub open spec fn document_xml(entries: Seq<Entry>) -> Seq<u8>
    decreases entries.len(),
{
    if entries.len() == 0 {
        Seq::empty()
    } else {
        let last = entries.last();
        document_xml(entries.drop_last()) + last.before + location_xml(last.dress, last.children)
    }
}

/// The trains of a document, in order.
pub open spec fn written_trains(entries: Seq<Entry>) -> Seq<Sighting>
    decreases entries.len(),
{
    if entries.len() == 0 {
        Seq::empty()
    } else {
        written_trains(entries.drop_last()) + as_list(written_train(entries.last().children))
    }
}

/// What is read from a document is the trains that were written, in order.
pub proof fn law_document_reads_back(entries: Seq<Entry>, after: Seq<u8>)
    requires
        forall|i: int| 0 <= i < entries.len() ==> entry_wf(#[trigger] entries[i]),
        is_filler(after),
    ensures
        trains_in(scan_start(), document_xml(entries) + after) == written_trains(entries),
{
    lemma_entries(entries);
    let doc = document_xml(entries);
    let s = scanned(scan_start(), doc);
    law_chunks_do_not_matter(scan_start(), doc, after);
    assert(scanned(s, after).tok == Tok::Text);
    let trains = written_trains(entries);
    assert(trains + Seq::empty() =~= trains);
}

proof fn lemma_entries(entries: Seq<Entry>)
    requires
        forall|i: int| 0 <= i < entries.len() ==> entry_wf(#[trigger] entries[i]),
    ensures
        trains_in(scan_start(), document_xml(entries)) == written_trains(entries),
        scanned(scan_start(), document_xml(entries)).tok == Tok::Text,
        scanned(scan_start(), document_xml(entries)).pick.capture == Capture::Nothing,
    decreases entries.len(),
{
    if entries.len() > 0 {
        let front = entries.drop_last();
        let last = entries.last();
        assert(entry_wf(entries[entries.len() - 1]));
        assert forall|i: int| 0 <= i < front.len() implies entry_wf(#[trigger] front[i]) by {
            assert(entry_wf(entries[i]));
        }
        lemma_entries(front);
        let doc = document_xml(front);
        let location = location_xml(last.dress, last.children);
        let s1 = scanned(scan_start(), doc);
        law_chunks_do_not_matter(scan_start(), doc, last.before);
        let s2 = scanned(s1, last.before);
        assert(s2.tok == Tok::Text);
        law_chunks_do_not_matter(scan_start(), doc + last.before, location);
        law_location_reads_back(s2, last.dress, last.children);
        let trains = written_trains(front);
        assert(trains + Seq::empty() =~= trains);
    }
}

/// The last number of a location counts.
proof fn lemma_last_number(children: Seq<Child>, j: int)
    requires
        0 <= j < children.len(),
        children[j] is Number,
        forall|i: int| j < i < children.len() ==> !(#[trigger] children[i] is Number),
    ensures
        children[j] matches Child::Number(_, text) && location_number(children) == captured_number(
            capture_of(text),
        ),
    decreases children.len(),
{
    let front = children.drop_last();
    if j < front.len() {
        assert(!(children[children.len() - 1] is Number));
        assert forall|i: int| j < i < front.len() implies !(#[trigger] front[i] is Number) by {
            assert(front[i] == children[i]);
        }
        lemma_last_number(front, j);
        assert(front[j] == children[j]);
    }
}

proof fn lemma_no_number(children: Seq<Child>)
    requires
        forall|i: int| 0 <= i < children.len() ==> !(#[trigger] children[i] is Number),
    ensures
        location_number(children) is None,
    decreases children.len(),
{
    if children.len() > 0 {
        let front = children.drop_last();
        assert(!(children[children.len() - 1] is Number));
        assert forall|i: int| 0 <= i < front.len() implies !(#[trigger] front[i] is Number) by {
            assert(front[i] == children[i]);
        }
        lemma_no_number(front);
    }
}

/// The first part of a location counts.
proof fn lemma_first_part(children: Seq<Child>, k: int)
    requires
        0 <= k < children.len(),
        children[k] is Part,
        forall|i: int| 0 <= i < k ==> !(#[trigger] children[i] is Part),
    ensures
        children[k] matches Child::Part(_, items) && first_part(children) == Some(items),
    decreases children.len(),
{
    let front = children.drop_last();
    if k < front.len() {
        assert forall|i: int| 0 <= i < k implies !(#[trigger] front[i] is Part) by {
            assert(front[i] == children[i]);
        }
        lemma_first_part(front, k);
        assert(front[k] == children[k]);
    } else {
        assert forall|i: int| 0 <= i < front.len() implies !(#[trigger] front[i] is Part) by {
            assert(front[i] == children[i]);
        }
        lemma_no_part(front);
    }
}

proof fn lemma_no_part(children: Seq<Child>)
    requires
        forall|i: int| 0 <= i < children.len() ==> !(#[trigger] children[i] is Part),
    ensures
        first_part(children) is None,
    decreases children.len(),
{
    if children.len() > 0 {
        let front = children.drop_last();
        assert(!(children[children.len() - 1] is Part));
        assert forall|i: int| 0 <= i < front.len() implies !(#[trigger] front[i] is Part) by {
            assert(front[i] == children[i]);
        }
        lemma_no_part(front);
    }
}

/// The last longitude of a part counts.
proof fn lemma_last_lon(items: Seq<PartItem>, a: int)
    requires
        0 <= a < items.len(),
        items[a] is Lon,
        forall|i: int| a < i < items.len() ==> !(#[trigger] items[i] is Lon),
    ensures
        items[a] matches PartItem::Lon(_, text) && part_lon(items) == captured_coordinate(
            capture_of(text),
        ),
    decreases items.len(),
{
    let front = items.drop_last();
    if a < front.len() {
        assert(!(items[items.len() - 1] is Lon));
        assert forall|i: int| a < i < front.len() implies !(#[trigger] front[i] is Lon) by {
            assert(front[i] == items[i]);
        }
        lemma_last_lon(front, a);
        assert(front[a] == items[a]);
    }
}

/// The last latitude of a part counts.
proof fn lemma_last_lat(items: Seq<PartItem>, b: int)
    requires
        0 <= b < items.len(),
        items[b] is Lat,
        forall|i: int| b < i < items.len() ==> !(#[trigger] items[i] is Lat),
    ensures
        items[b] matches PartItem::Lat(_, text) && part_lat(items) == captured_coordinate(
            capture_of(text),
        ),
    decreases items.len(),
{
    let front = items.drop_last();
    if b < front.len() {
        assert(!(items[items.len() - 1] is Lat));
        assert forall|i: int| b < i < front.len() implies !(#[trigger] front[i] is Lat) by {
            assert(front[i] == items[i]);
        }
        lemma_last_lat(front, b);
        assert(front[b] == items[b]);
    }
}

proof fn lemma_no_lon(items: Seq<PartItem>)
    requires
        forall|i: int| 0 <= i < items.len() ==> !(#[trigger] items[i] is Lon),
    ensures
        part_lon(items) is None,
    decreases items.len(),
{
    if items.len() > 0 {
        let front = items.drop_last();
        assert(!(items[items.len() - 1] is Lon));
        assert forall|i: int| 0 <= i < front.len() implies !(#[trigger] front[i] is Lon) by {
            assert(front[i] == items[i]);
        }
        lemma_no_lon(front);
    }
}

proof fn lemma_no_lat(items: Seq<PartItem>)
    requires
        forall|i: int| 0 <= i < items.len() ==> !(#[trigger] items[i] is Lat),
    ensures
        part_lat(items) is None,
    decreases items.len(),
{
    if items.len() > 0 {
        let front = items.drop_last();
        assert(!(items[items.len() - 1] is Lat));
        assert forall|i: int| 0 <= i < front.len() implies !(#[trigger] front[i] is Lat) by {
            assert(front[i] == items[i]);
        }
        lemma_no_lat(front);
    }
}

/// Whether `bytes` are a text of up to 24 bytes that holds `content`, with white
/// space around it.
pub open spec fn text_holds(bytes: Seq<u8>, content: Seq<char>) -> bool {
    &&& bytes.len() <= 24
    &&& exists|before: Seq<char>, after: Seq<char>|
        #![trigger before + content + after]
        bytes == encode_utf8(before + content + after) && blank_text(before) && blank_text(after)
}

/// White space only.
pub open spec fn blank_text(s: Seq<char>) -> bool {
    forall|i: int| 0 <= i < s.len() ==> white_space(#[trigger] s[i])
}

/// A text of up to 24 bytes is captured in full.
pub proof fn law_short_texts_are_captured(text: Seq<char>)
    requires
        encode_utf8(text).len() <= 24,
    ensures
        capture_of(encode_utf8(text)) == (Held { bytes: encode_utf8(text), overflow: false }),
        captured(capture_of(encode_utf8(text))) == Some(trimmed(text)),
{
    lemma_held_fits(24, encode_utf8(text));
    encode_utf8_valid_utf8(text);
    encode_utf8_decode_utf8(text);
}

/// A number in a text is captured.
proof fn lemma_held_number(bytes: Seq<u8>, n: u32)
    requires
        text_holds(bytes, decimal(n as nat)),
    ensures
        captured_number(capture_of(bytes)) == Some(n),
{
    let content = decimal(n as nat);
    let (before, after) = choose|before: Seq<char>, after: Seq<char>|
        #![trigger before + content + after]
        bytes == encode_utf8(before + content + after) && blank_text(before) && blank_text(after);
    law_short_texts_are_captured(before + content + after);
    law_decimal_reads_back(n);
    law_decimal_has_no_blanks(n as nat);
    law_trimming_keeps_the_middle(before, content, after);
}

/// A coordinate in a text is captured.
proof fn lemma_held_coordinate(bytes: Seq<u8>, content: Seq<char>)
    requires
        text_holds(bytes, content),
        float_text(content),
    ensures
        captured_coordinate(capture_of(bytes)) == Some(content),
{
    let (before, after) = choose|before: Seq<char>, after: Seq<char>|
        #![trigger before + content + after]
        bytes == encode_utf8(before + content + after) && blank_text(before) && blank_text(after);
    law_short_texts_are_captured(before + content + after);
    if content.len() > 0 {
        law_floats_have_number_characters(content, 0);
        law_floats_have_number_characters(content, content.len() - 1);
    }
    law_trimming_keeps_the_middle(before, content, after);
}

/// Every train that is written comes out: its number is that in the last number
/// element of the location, its coordinates are those in the last such elements of
/// the first part, whatever white space is around them and whatever else stands in
/// the location. Later parts do not matter.
pub proof fn law_train_reads_back(
    s: Scan,
    dress: Dress,
    children: Seq<Child>,
    train: Sighting,
    j: int,
    k: int,
    a: int,
    b: int,
)
    requires
        s.tok == Tok::Text,
        fits(dress),
        forall|i: int| 0 <= i < children.len() ==> child_wf(#[trigger] children[i]),
        0 <= j < children.len(),
        children[j] matches Child::Number(_, text) && text_holds(
            text,
            decimal(train.number as nat),
        ),
        forall|i: int| j < i < children.len() ==> !(#[trigger] children[i] is Number),
        0 <= k < children.len(),
        forall|i: int| 0 <= i < k ==> !(#[trigger] children[i] is Part),
        children[k] matches Child::Part(_, items) && {
            &&& 0 <= a < items.len()
            &&& items[a] matches PartItem::Lon(_, text) && text_holds(text, train.lon)
            &&& forall|i: int| a < i < items.len() ==> !(#[trigger] items[i] is Lon)
            &&& 0 <= b < items.len()
            &&& items[b] matches PartItem::Lat(_, text) && text_holds(text, train.lat)
            &&& forall|i: int| b < i < items.len() ==> !(#[trigger] items[i] is Lat)
        },
        float_text(train.lon),
        float_text(train.lat),
    ensures
        trains_in(s, location_xml(dress, children)) == seq![train],
{
    law_location_reads_back(s, dress, children);
    lemma_last_number(children, j);
    lemma_first_part(children, k);
    let items = children[k]->Part_1;
    lemma_last_lon(items, a);
    lemma_last_lat(items, b);
    lemma_held_number(children[j]->Number_1, train.number);
    lemma_held_coordinate(items[a]->Lon_1, train.lon);
    lemma_held_coordinate(items[b]->Lat_1, train.lat);
}

/// A location without a number, without a part, or without one of the coordinates
/// in its first part gives no train.
pub proof fn law_incomplete_locations_give_nothing(
    s: Scan,
    dress: Dress,
    children: Seq<Child>,
    k: int,
)
    requires
        s.tok == Tok::Text,
        fits(dress),
        forall|i: int| 0 <= i < children.len() ==> child_wf(#[trigger] children[i]),
        ({
            ||| forall|i: int| 0 <= i < children.len() ==> !(#[trigger] children[i] is Number)
            ||| forall|i: int| 0 <= i < children.len() ==> !(#[trigger] children[i] is Part)
            ||| {
                &&& 0 <= k < children.len()
                &&& forall|i: int| 0 <= i < k ==> !(#[trigger] children[i] is Part)
                &&& children[k] matches Child::Part(_, items) && {
                    ||| forall|i: int| 0 <= i < items.len() ==> !(#[trigger] items[i] is Lon)
                    ||| forall|i: int| 0 <= i < items.len() ==> !(#[trigger] items[i] is Lat)
                }
            }
        }),
    ensures
        trains_in(s, location_xml(dress, children)) == Seq::<Sighting>::empty(),
{
    law_location_reads_back(s, dress, children);
    if forall|i: int| 0 <= i < children.len() ==> !(#[trigger] children[i] is Number) {
        lemma_no_number(children);
    } else if forall|i: int| 0 <= i < children.len() ==> !(#[trigger] children[i] is Part) {
        lemma_no_part(children);
    } else {
        lemma_first_part(children, k);
        let items = children[k]->Part_1;
        if forall|i: int| 0 <= i < items.len() ==> !(#[trigger] items[i] is Lon) {
            lemma_no_lon(items);
        } else {
            lemma_no_lat(items);
        }
    }
}

/// A text of more than 24 bytes is not captured.
pub proof fn law_long_texts_are_not_captured(text: Seq<u8>)
    requires
        text.len() > 24,
    ensures
        captured(capture_of(text)) is None,
        captured_number(capture_of(text)) is None,
        captured_coordinate(capture_of(text)) is None,
{
    lemma_held_overflows(24, text);
}

/// A whole self-closing tag.
proof fn lemma_empty_tag(s: Scan, name: Seq<u8>, attrs: Seq<u8>)
    requires
        s.tok == Tok::Text,
        is_tag_name(name),
        are_attributes(attrs),
    ensures
        ({
            let t = Scan {
                is_close: false,
                name: held_all(nothing_held(), NAME_CAP as nat, name),
                ..s
            };
            let short = seq![LT] + name + attrs + seq![SLASH, GT];
            let r = scanned(s, short);
            &&& r.tok == Tok::Text
            &&& r.pick == tag_done(t, true).pick
            &&& r.text == tag_done(t, true).text
            &&& trains_in(s, short) == as_list(tag_emits(t, true))
        }),
{
    let start = seq![LT] + name + attrs;
    let short = start + seq![SLASH, GT];
    lemma_tag_start(s, false, name, attrs);
    let s1 = scanned(s, start);
    lemma_one(s1, SLASH);
    lemma_join(s, start, seq![SLASH]);
    let s2 = stepped(s1, SLASH);
    lemma_one(s2, GT);
    lemma_join(s, start + seq![SLASH], seq![GT]);
    assert(start + seq![SLASH] + seq![GT] =~= short);
}

/// Opening and closing at once is opening, then closing.
proof fn lemma_done_at_once(t: Scan, u: Scan)
    requires
        !t.is_close,
        u.is_close,
        u.name == t.name,
        u.pick == tag_done(t, false).pick,
        u.text == tag_done(t, false).text,
    ensures
        tag_done(t, true).pick == tag_done(u, false).pick,
        tag_done(t, true).text == tag_done(u, false).text,
        tag_emits(t, true) == tag_emits(u, false),
        tag_emits(t, false) is None,
{
}

/// A self-closing tag is read as an opening and a closing tag with nothing in
/// between, whatever the element.
pub proof fn law_self_closing_is_open_and_close(s: Scan, name: Seq<u8>, attrs: Seq<u8>)
    requires
        s.tok == Tok::Text,
        is_tag_name(name),
        are_attributes(attrs),
    ensures
        ({
            let short = seq![LT] + name + attrs + seq![SLASH, GT];
            let long = tag(false, name, attrs) + tag(true, name, Seq::empty());
            &&& scanned(s, short).tok == Tok::Text
            &&& scanned(s, long).tok == Tok::Text
            &&& scanned(s, short).pick == scanned(s, long).pick
            &&& scanned(s, short).text == scanned(s, long).text
            &&& trains_in(s, short) == trains_in(s, long)
        }),
{
    let held = held_all(nothing_held(), NAME_CAP as nat, name);
    let t = Scan { is_close: false, name: held, ..s };
    lemma_empty_tag(s, name, attrs);
    let open = tag(false, name, attrs);
    let close = tag(true, name, Seq::empty());
    lemma_tag(s, false, name, attrs);
    let r = scanned(s, open);
    let u = Scan { is_close: true, name: held, ..r };
    lemma_done_at_once(t, u);
    lemma_tag(r, true, name, Seq::empty());
    lemma_join(s, open, close);
}

} // verus!
