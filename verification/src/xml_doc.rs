//! Documents as rows of tokens, and the law that the extractor picks from them
//! what was written.
//!
//! A document is a row of location elements with filler around them; filler is
//! whatever the extractor passes over: text, unrelated elements, and tokens that
//! are neither tags nor text.
use vstd::prelude::*;
use crate::schema::{
    as_list, coordinate, element_named, lemma_names_are_distinct, opened, picked_train, Capture,
    Element, Pick, Sighting,
};
use crate::text::{
    decimal, float_text, law_decimal_has_no_blanks, law_decimal_reads_back,
    law_floats_have_number_characters, law_trimming_keeps_the_middle, read_u32, trimmed,
    white_space,
};
use crate::xml_parser::{
    emitted, law_rows_join, stepped, text_read, trains_in, walk_start, walked, Walk, XmlToken,
};

verus! {

/// A row of tokens.
pub type Row = Seq<XmlToken<Seq<char>>>;

/// Whether the extractor passes over a row between two elements: nothing is
/// picked or handed out.
pub open spec fn is_filler(row: Row) -> bool {
    forall|w: Walk|
        #![trigger walked(w, row)]
        w.pick.capture == Capture::Nothing ==> walked(w, row).pick == w.pick && trains_in(w, row)
            == Seq::<Sighting>::empty()
}

/// Tokens that are neither tags nor text, such as attributes.
pub open spec fn all_other(row: Row) -> bool {
    forall|i: int| 0 <= i < row.len() ==> #[trigger] row[i] is Other
}

/// What stands in a part of a train, in any order: with attributes, a text.
pub enum PartItem {
    Lon(Row, Seq<char>),
    Lat(Row, Seq<char>),
    Filler(Row),
}

/// What stands in a location, in any order.
pub enum Child {
    Number(Row, Seq<char>),
    Part(Row, Seq<PartItem>),
    Filler(Row),
}

/// The tokens of an opening tag with attributes.
pub open spec fn open_row(name: Seq<char>, attrs: Row) -> Row {
    seq![XmlToken::Start(name)] + attrs + seq![XmlToken::OpenEnd]
}

/// An element that holds a text.
pub open spec fn value_row(name: Seq<char>, attrs: Row, text: Seq<char>) -> Row {
    open_row(name, attrs) + seq![XmlToken::Text(text)] + seq![XmlToken::Close(name)]
}

/// An element that holds other elements.
pub open spec fn nested_row(name: Seq<char>, attrs: Row, inner: Row) -> Row {
    open_row(name, attrs) + inner + seq![XmlToken::Close(name)]
}

/// An item of a part.
pub open spec fn item_row(item: PartItem) -> Row {
    match item {
        PartItem::Lon(attrs, text) => value_row("Longitude"@, attrs, text),
        PartItem::Lat(attrs, text) => value_row("Latitude"@, attrs, text),
        PartItem::Filler(row) => row,
    }
}

/// The items of a part, one after the other.
pub open spec fn items_row(items: Seq<PartItem>) -> Row
    decreases items.len(),
{
    if items.len() == 0 {
        Seq::empty()
    } else {
        items_row(items.drop_last()) + item_row(items.last())
    }
}

/// A child of a location.
pub open spec fn child_row(child: Child) -> Row {
    match child {
        Child::Number(attrs, text) => value_row("TreinNummer"@, attrs, text),
        Child::Part(attrs, items) => nested_row(
            "TreinMaterieelDelen"@,
            attrs,
            items_row(items),
        ),
        Child::Filler(row) => row,
    }
}

/// The children of a location, one after the other.
pub open spec fn children_row(children: Seq<Child>) -> Row
    decreases children.len(),
{
    if children.len() == 0 {
        Seq::empty()
    } else {
        children_row(children.drop_last()) + child_row(children.last())
    }
}

/// A whole location element.
pub open spec fn location_row(attrs: Row, children: Seq<Child>) -> Row {
    nested_row("TreinLocation"@, attrs, children_row(children))
}

/// Whether the filler and the attributes of an item are such.
pub open spec fn item_wf(item: PartItem) -> bool {
    match item {
        PartItem::Lon(attrs, _) => all_other(attrs),
        PartItem::Lat(attrs, _) => all_other(attrs),
        PartItem::Filler(row) => is_filler(row),
    }
}

/// Whether the filler and the attributes of a child are such.
pub open spec fn child_wf(child: Child) -> bool {
    match child {
        Child::Number(attrs, _) => all_other(attrs),
        Child::Part(attrs, items) => all_other(attrs) && forall|i: int|
            0 <= i < items.len() ==> item_wf(#[trigger] items[i]),
        Child::Filler(row) => is_filler(row),
    }
}

/// The longitude that a part gives: that of its last such element.
pub open spec fn part_lon(items: Seq<PartItem>) -> Option<Seq<char>>
    decreases items.len(),
{
    if items.len() == 0 {
        None
    } else {
        match items.last() {
            PartItem::Lon(_, text) => coordinate(trimmed(text)),
            _ => part_lon(items.drop_last()),
        }
    }
}

/// The latitude that a part gives: that of its last such element.
pub open spec fn part_lat(items: Seq<PartItem>) -> Option<Seq<char>>
    decreases items.len(),
{
    if items.len() == 0 {
        None
    } else {
        match items.last() {
            PartItem::Lat(_, text) => coordinate(trimmed(text)),
            _ => part_lat(items.drop_last()),
        }
    }
}

/// The number that a location gives: that of its last such element.
pub open spec fn location_number(children: Seq<Child>) -> Option<u32>
    decreases children.len(),
{
    if children.len() == 0 {
        None
    } else {
        match children.last() {
            Child::Number(_, text) => read_u32(trimmed(text)),
            _ => location_number(children.drop_last()),
        }
    }
}

/// The items of the first part of a location.
pub open spec fn first_part(children: Seq<Child>) -> Option<Seq<PartItem>>
    decreases children.len(),
{
    if children.len() == 0 {
        None
    } else {
        match first_part(children.drop_last()) {
            Some(items) => Some(items),
            None => match children.last() {
                Child::Part(_, items) => Some(items),
                _ => None,
            },
        }
    }
}

/// The train that a location stands for: its number and the coordinates of its
/// first part, if all three are there and can be read.
pub open spec fn written_train(children: Seq<Child>) -> Option<Sighting> {
    match first_part(children) {
        Some(items) => match (location_number(children), part_lon(items), part_lat(items)) {
            (Some(number), Some(lon), Some(lat)) => Some(Sighting { number, lon, lat }),
            _ => None,
        },
        None => None,
    }
}

/// One token.
proof fn lemma_one(w: Walk, token: XmlToken<Seq<char>>)
    ensures
        walked(w, seq![token]) == stepped(w, token),
        trains_in(w, seq![token]) == as_list(emitted(w, token)),
{
    assert(seq![token].drop_last() =~= Seq::empty());
    assert(walked(w, Seq::empty()) == w);
    assert(trains_in(w, Seq::empty()) =~= Seq::empty());
    assert(trains_in(w, seq![token]) =~= as_list(emitted(w, token)));
}

/// A row that hands out nothing: the next one goes on where it ends.
proof fn lemma_join(w: Walk, a: Row, b: Row)
    requires
        trains_in(w, a) == Seq::<Sighting>::empty(),
    ensures
        walked(w, a + b) == walked(walked(w, a), b),
        trains_in(w, a + b) == trains_in(walked(w, a), b),
{
    law_rows_join(w, a, b);
    let rest = trains_in(walked(w, a), b);
    assert(Seq::<Sighting>::empty() + rest =~= rest);
}

/// Attributes change nothing.
proof fn lemma_attributes(w: Walk, attrs: Row)
    requires
        all_other(attrs),
    ensures
        walked(w, attrs) == w,
        trains_in(w, attrs) == Seq::<Sighting>::empty(),
    decreases attrs.len(),
{
    if attrs.len() > 0 {
        assert(attrs[attrs.len() - 1] is Other);
        assert forall|i: int| 0 <= i < attrs.drop_last().len() implies #[trigger] attrs.drop_last()[
        i] is Other by {
            assert(attrs[i] is Other);
        }
        lemma_attributes(w, attrs.drop_last());
        assert(trains_in(w, attrs) =~= Seq::<Sighting>::empty());
    }
}

/// An opening tag.
proof fn lemma_open(w: Walk, name: Seq<char>, attrs: Row)
    requires
        all_other(attrs),
    ensures
        walked(w, open_row(name, attrs)) == (Walk {
            pick: opened(w.pick, element_named(name)),
            current: name,
        }),
        trains_in(w, open_row(name, attrs)) == Seq::<Sighting>::empty(),
{
    lemma_one(w, XmlToken::Start(name));
    let w1 = stepped(w, XmlToken::Start(name));
    lemma_attributes(w1, attrs);
    lemma_join(w, seq![XmlToken::Start(name)], attrs);
    lemma_one(w1, XmlToken::OpenEnd);
    lemma_join(w, seq![XmlToken::Start(name)] + attrs, seq![XmlToken::OpenEnd]);
}

/// Text, and tokens that are neither tags nor text, are passed over.
pub proof fn law_quiet_tokens_are_filler(row: Row)
    requires
        forall|i: int|
            0 <= i < row.len() ==> (#[trigger] row[i]) is Text || row[i] is Other || row[i]
                is Failed,
    ensures
        is_filler(row),
{
    assert forall|w: Walk| #![trigger walked(w, row)]
        w.pick.capture == Capture::Nothing implies walked(w, row).pick == w.pick && trains_in(
        w,
        row,
    ) == Seq::<Sighting>::empty() by {
        lemma_quiet(w, row);
    }
}

proof fn lemma_quiet(w: Walk, row: Row)
    requires
        w.pick.capture == Capture::Nothing,
        forall|i: int|
            0 <= i < row.len() ==> (#[trigger] row[i]) is Text || row[i] is Other || row[i]
                is Failed,
    ensures
        walked(w, row) == w,
        trains_in(w, row) == Seq::<Sighting>::empty(),
    decreases row.len(),
{
    if row.len() > 0 {
        let last = row[row.len() - 1];
        assert(last is Text || last is Other || last is Failed);
        lemma_quiet(w, row.drop_last());
        assert(trains_in(w, row) =~= Seq::<Sighting>::empty());
    }
}

/// Filler after filler is filler.
pub proof fn law_fillers_join(a: Row, b: Row)
    requires
        is_filler(a),
        is_filler(b),
    ensures
        is_filler(a + b),
{
    assert forall|w: Walk| #![trigger walked(w, a + b)]
        w.pick.capture == Capture::Nothing implies walked(w, a + b).pick == w.pick && trains_in(
        w,
        a + b,
    ) == Seq::<Sighting>::empty() by {
        assert(walked(w, a).pick == w.pick);
        lemma_join(w, a, b);
        assert(walked(walked(w, a), b).pick == w.pick);
    }
}

/// The tags of unrelated elements are passed over, with their attributes.
pub proof fn law_unrelated_tags_are_filler(name: Seq<char>, attrs: Row)
    requires
        element_named(name) == Element::Other,
        all_other(attrs),
    ensures
        is_filler(open_row(name, attrs)),
        is_filler(seq![XmlToken::Close(name)]),
        is_filler(seq![XmlToken::Start(name)] + attrs + seq![XmlToken::EmptyEnd]),
{
    let open = open_row(name, attrs);
    let close: Row = seq![XmlToken::Close(name)];
    let empty = seq![XmlToken::Start(name)] + attrs + seq![XmlToken::EmptyEnd];
    assert forall|w: Walk| #![trigger walked(w, open)]
        w.pick.capture == Capture::Nothing implies walked(w, open).pick == w.pick && trains_in(
        w,
        open,
    ) == Seq::<Sighting>::empty() by {
        lemma_open(w, name, attrs);
    }
    assert forall|w: Walk| #![trigger walked(w, close)]
        w.pick.capture == Capture::Nothing implies walked(w, close).pick == w.pick && trains_in(
        w,
        close,
    ) == Seq::<Sighting>::empty() by {
        lemma_one(w, XmlToken::Close(name));
    }
    assert forall|w: Walk| #![trigger walked(w, empty)]
        w.pick.capture == Capture::Nothing implies walked(w, empty).pick == w.pick && trains_in(
        w,
        empty,
    ) == Seq::<Sighting>::empty() by {
        lemma_one(w, XmlToken::Start(name));
        let w1 = stepped(w, XmlToken::Start(name));
        lemma_attributes(w1, attrs);
        lemma_join(w, seq![XmlToken::Start(name)], attrs);
        lemma_one(w1, XmlToken::EmptyEnd);
        lemma_join(w, seq![XmlToken::Start(name)] + attrs, seq![XmlToken::EmptyEnd]);
    }
}

/// An element that holds a value: the value is picked where the element starts
/// a capture, and ignored elsewhere.
proof fn lemma_value(w: Walk, name: Seq<char>, attrs: Row, text: Seq<char>)
    requires
        name == "TreinNummer"@ || name == "Longitude"@ || name == "Latitude"@,
        w.pick.capture == Capture::Nothing,
        all_other(attrs),
    ensures
        walked(w, value_row(name, attrs, text)) == (Walk {
            pick: Pick {
                capture: Capture::Nothing,
                ..text_read(opened(w.pick, element_named(name)), text)
            },
            current: name,
        }),
        trains_in(w, value_row(name, attrs, text)) == Seq::<Sighting>::empty(),
{
    lemma_names_are_distinct();
    let open = open_row(name, attrs);
    lemma_open(w, name, attrs);
    let w1 = walked(w, open);
    lemma_one(w1, XmlToken::Text(text));
    lemma_join(w, open, seq![XmlToken::Text(text)]);
    let w2 = stepped(w1, XmlToken::Text(text));
    lemma_one(w2, XmlToken::Close(name));
    lemma_join(w, open + seq![XmlToken::Text(text)], seq![XmlToken::Close(name)]);
}

/// What is picked after some items of a part.
spec fn picked_items(pick: Pick, items: Seq<PartItem>) -> Pick
    decreases items.len(),
{
    if items.len() == 0 {
        pick
    } else {
        let before = picked_items(pick, items.drop_last());
        match items.last() {
            PartItem::Lon(_, text) if pick.in_first_part => Pick {
                lon: coordinate(trimmed(text)),
                ..before
            },
            PartItem::Lat(_, text) if pick.in_first_part => Pick {
                lat: coordinate(trimmed(text)),
                ..before
            },
            _ => before,
        }
    }
}

/// The items of a part.
proof fn lemma_items(w: Walk, items: Seq<PartItem>)
    requires
        w.pick.capture == Capture::Nothing,
        forall|i: int| 0 <= i < items.len() ==> item_wf(#[trigger] items[i]),
    ensures
        ({
            let r = walked(w, items_row(items));
            &&& r.pick == picked_items(w.pick, items)
            &&& r.pick.capture == Capture::Nothing
            &&& r.pick.in_first_part == w.pick.in_first_part
        }),
        trains_in(w, items_row(items)) == Seq::<Sighting>::empty(),
    decreases items.len(),
{
    if items.len() > 0 {
        let front = items.drop_last();
        let last = items.last();
        assert(item_wf(items[items.len() - 1]));
        assert forall|i: int| 0 <= i < front.len() implies item_wf(#[trigger] front[i]) by {
            assert(item_wf(items[i]));
        }
        lemma_items(w, front);
        let w1 = walked(w, items_row(front));
        lemma_names_are_distinct();
        match last {
            PartItem::Lon(attrs, text) => {
                lemma_value(w1, "Longitude"@, attrs, text);
            },
            PartItem::Lat(attrs, text) => {
                lemma_value(w1, "Latitude"@, attrs, text);
            },
            PartItem::Filler(row) => {
                assert(walked(w1, row).pick == w1.pick);
            },
        }
        lemma_join(w, items_row(front), item_row(last));
    }
}

/// What is picked from the items of the first part is what that part gives.
proof fn lemma_picked_items(pick: Pick, items: Seq<PartItem>)
    requires
        pick.in_first_part,
        pick.lon is None,
        pick.lat is None,
    ensures
        picked_items(pick, items) == (Pick { lon: part_lon(items), lat: part_lat(items), ..pick }),
    decreases items.len(),
{
    if items.len() > 0 {
        lemma_picked_items(pick, items.drop_last());
    }
}

/// Items that are not in the first part change nothing.
proof fn lemma_skipped_items(pick: Pick, items: Seq<PartItem>)
    requires
        !pick.in_first_part,
    ensures
        picked_items(pick, items) == pick,
    decreases items.len(),
{
    if items.len() > 0 {
        lemma_skipped_items(pick, items.drop_last());
    }
}

/// What is picked after some children of a location.
spec fn picked_children(children: Seq<Child>) -> Pick {
    Pick {
        in_location: true,
        seen_first_part: first_part(children) is Some,
        in_first_part: false,
        capture: Capture::Nothing,
        number: location_number(children),
        lon: match first_part(children) {
            Some(items) => part_lon(items),
            None => None,
        },
        lat: match first_part(children) {
            Some(items) => part_lat(items),
            None => None,
        },
    }
}

/// A part of a train.
proof fn lemma_part(w: Walk, attrs: Row, items: Seq<PartItem>)
    requires
        w.pick.in_location,
        !w.pick.in_first_part,
        w.pick.capture == Capture::Nothing,
        !w.pick.seen_first_part ==> w.pick.lon is None && w.pick.lat is None,
        all_other(attrs),
        forall|i: int| 0 <= i < items.len() ==> item_wf(#[trigger] items[i]),
    ensures
        walked(w, child_row(Child::Part(attrs, items))).pick == if w.pick.seen_first_part {
            w.pick
        } else {
            Pick {
                seen_first_part: true,
                lon: part_lon(items),
                lat: part_lat(items),
                ..w.pick
            }
        },
        trains_in(w, child_row(Child::Part(attrs, items))) == Seq::<Sighting>::empty(),
{
    lemma_names_are_distinct();
    let name = "TreinMaterieelDelen"@;
    let open = open_row(name, attrs);
    lemma_open(w, name, attrs);
    let w1 = walked(w, open);
    lemma_items(w1, items);
    lemma_join(w, open, items_row(items));
    if w.pick.seen_first_part {
        lemma_skipped_items(w1.pick, items);
    } else {
        lemma_picked_items(w1.pick, items);
    }
    let w2 = walked(w1, items_row(items));
    lemma_one(w2, XmlToken::Close(name));
    lemma_join(w, open + items_row(items), seq![XmlToken::Close(name)]);
}

/// The children of a location, right after its opening tag.
proof fn lemma_children(w: Walk, children: Seq<Child>)
    requires
        w.pick == picked_children(Seq::empty()),
        forall|i: int| 0 <= i < children.len() ==> child_wf(#[trigger] children[i]),
    ensures
        walked(w, children_row(children)).pick == picked_children(children),
        trains_in(w, children_row(children)) == Seq::<Sighting>::empty(),
    decreases children.len(),
{
    if children.len() == 0 {
        assert(children =~= Seq::empty());
    } else {
        let front = children.drop_last();
        let last = children.last();
        assert(child_wf(children[children.len() - 1]));
        assert forall|i: int| 0 <= i < front.len() implies child_wf(#[trigger] front[i]) by {
            assert(child_wf(children[i]));
        }
        lemma_children(w, front);
        let w1 = walked(w, children_row(front));
        lemma_names_are_distinct();
        match last {
            Child::Number(attrs, text) => {
                lemma_value(w1, "TreinNummer"@, attrs, text);
            },
            Child::Part(attrs, items) => {
                lemma_part(w1, attrs, items);
            },
            Child::Filler(row) => {
                assert(walked(w1, row).pick == w1.pick);
            },
        }
        lemma_join(w, children_row(front), child_row(last));
        assert(walked(w, children_row(children)).pick =~= picked_children(children));
    }
}

/// What is picked from a location element is the train that was written: its
/// number and the coordinates of its first part, whatever else stands in it, in
/// whatever order, and whatever came before it. Nothing else is handed out.
pub proof fn law_location_reads_back(w: Walk, attrs: Row, children: Seq<Child>)
    requires
        all_other(attrs),
        forall|i: int| 0 <= i < children.len() ==> child_wf(#[trigger] children[i]),
    ensures
        trains_in(w, location_row(attrs, children)) == as_list(written_train(children)),
        walked(w, location_row(attrs, children)).pick.capture == Capture::Nothing,
{
    lemma_names_are_distinct();
    let name = "TreinLocation"@;
    let open = open_row(name, attrs);
    lemma_open(w, name, attrs);
    let w1 = walked(w, open);
    assert(w1.pick =~= picked_children(Seq::empty()));
    lemma_children(w1, children);
    lemma_join(w, open, children_row(children));
    let w2 = walked(w1, children_row(children));
    assert(picked_train(w2.pick) == written_train(children));
    lemma_one(w2, XmlToken::Close(name));
    lemma_join(w, open + children_row(children), seq![XmlToken::Close(name)]);
}

/// A location with what stands before it.
pub struct Entry {
    pub before: Row,
    pub attrs: Row,
    pub children: Seq<Child>,
}

/// Whether the filler and the attributes of an entry are such.
pub open spec fn entry_wf(entry: Entry) -> bool {
    &&& is_filler(entry.before)
    &&& all_other(entry.attrs)
    &&& forall|i: int| 0 <= i < entry.children.len() ==> child_wf(#[trigger] entry.children[i])
}

/// A whole document, without what stands after its last location.
pub open spec fn document_row(entries: Seq<Entry>) -> Row
    decreases entries.len(),
{
    if entries.len() == 0 {
        Seq::empty()
    } else {
        let last = entries.last();
        document_row(entries.drop_last()) + last.before + location_row(last.attrs, last.children)
    }
}

/// The trains of a document, in order.
pub open spec fn written_trains(entries: Seq<Entry>) -> Seq<Sighting>
    decreases entries.len(),
{
    if entries.len() == 0 {
        Seq::empty()
    } else {
        written_trains(entries.drop_last()) + as_list(written_train(entries.last().children))
    }
}

/// What is picked from a document is the trains that were written, in order.
pub proof fn law_document_reads_back(entries: Seq<Entry>, after: Row)
    requires
        forall|i: int| 0 <= i < entries.len() ==> entry_wf(#[trigger] entries[i]),
        is_filler(after),
    ensures
        trains_in(walk_start(), document_row(entries) + after) == written_trains(entries),
{
    lemma_entries(entries);
    let doc = document_row(entries);
    let w = walked(walk_start(), doc);
    law_rows_join(walk_start(), doc, after);
    assert(walked(w, after).pick == w.pick);
    let trains = written_trains(entries);
    assert(trains + Seq::empty() =~= trains);
}

proof fn lemma_entries(entries: Seq<Entry>)
    requires
        forall|i: int| 0 <= i < entries.len() ==> entry_wf(#[trigger] entries[i]),
    ensures
        trains_in(walk_start(), document_row(entries)) == written_trains(entries),
        walked(walk_start(), document_row(entries)).pick.capture == Capture::Nothing,
    decreases entries.len(),
{
    if entries.len() > 0 {
        let front = entries.drop_last();
        let last = entries.last();
        assert(entry_wf(entries[entries.len() - 1]));
        assert forall|i: int| 0 <= i < front.len() implies entry_wf(#[trigger] front[i]) by {
            assert(entry_wf(entries[i]));
        }
        lemma_entries(front);
        let doc = document_row(front);
        let location = location_row(last.attrs, last.children);
        let w1 = walked(walk_start(), doc);
        law_rows_join(walk_start(), doc, last.before);
        let w2 = walked(w1, last.before);
        assert(w2.pick == w1.pick);
        law_rows_join(walk_start(), doc + last.before, location);
        law_location_reads_back(w2, last.attrs, last.children);
        let trains = written_trains(front);
        assert(trains + Seq::empty() =~= trains);
    }
}

/// The last number of a location counts.
proof fn lemma_last_number(children: Seq<Child>, j: int)
    requires
        0 <= j < children.len(),
        children[j] is Number,
        forall|i: int| j < i < children.len() ==> !(#[trigger] children[i] is Number),
    ensures
        children[j] matches Child::Number(_, text) && location_number(children) == read_u32(
            trimmed(text),
        ),
    decreases children.len(),
{
    let front = children.drop_last();
    if j < front.len() {
        assert(!(children[children.len() - 1] is Number));
        assert forall|i: int| j < i < front.len() implies !(#[trigger] front[i] is Number) by {
            assert(front[i] == children[i]);
        }
        lemma_last_number(front, j);
        assert(front[j] == children[j]);
    }
}

proof fn lemma_no_number(children: Seq<Child>)
    requires
        forall|i: int| 0 <= i < children.len() ==> !(#[trigger] children[i] is Number),
    ensures
        location_number(children) is None,
    decreases children.len(),
{
    if children.len() > 0 {
        let front = children.drop_last();
        assert(!(children[children.len() - 1] is Number));
        assert forall|i: int| 0 <= i < front.len() implies !(#[trigger] front[i] is Number) by {
            assert(front[i] == children[i]);
        }
        lemma_no_number(front);
    }
}

/// The first part of a location counts.
proof fn lemma_first_part(children: Seq<Child>, k: int)
    requires
        0 <= k < children.len(),
        children[k] is Part,
        forall|i: int| 0 <= i < k ==> !(#[trigger] children[i] is Part),
    ensures
        children[k] matches Child::Part(_, items) && first_part(children) == Some(items),
    decreases children.len(),
{
    let front = children.drop_last();
    if k < front.len() {
        assert forall|i: int| 0 <= i < k implies !(#[trigger] front[i] is Part) by {
            assert(front[i] == children[i]);
        }
        lemma_first_part(front, k);
        assert(front[k] == children[k]);
    } else {
        assert forall|i: int| 0 <= i < front.len() implies !(#[trigger] front[i] is Part) by {
            assert(front[i] == children[i]);
        }
        lemma_no_part(front);
    }
}

proof fn lemma_no_part(children: Seq<Child>)
    requires
        forall|i: int| 0 <= i < children.len() ==> !(#[trigger] children[i] is Part),
    ensures
        first_part(children) is None,
    decreases children.len(),
{
    if children.len() > 0 {
        let front = children.drop_last();
        assert(!(children[children.len() - 1] is Part));
        assert forall|i: int| 0 <= i < front.len() implies !(#[trigger] front[i] is Part) by {
            assert(front[i] == children[i]);
        }
        lemma_no_part(front);
    }
}

/// The last longitude of a part counts.
proof fn lemma_last_lon(items: Seq<PartItem>, a: int)
    requires
        0 <= a < items.len(),
        items[a] is Lon,
        forall|i: int| a < i < items.len() ==> !(#[trigger] items[i] is Lon),
    ensures
        items[a] matches PartItem::Lon(_, text) && part_lon(items) == coordinate(
            trimmed(text),
        ),
    decreases items.len(),
{
    let front = items.drop_last();
    if a < front.len() {
        assert(!(items[items.len() - 1] is Lon));
        assert forall|i: int| a < i < front.len() implies !(#[trigger] front[i] is Lon) by {
            assert(front[i] == items[i]);
        }
        lemma_last_lon(front, a);
        assert(front[a] == items[a]);
    }
}

/// The last latitude of a part counts.
proof fn lemma_last_lat(items: Seq<PartItem>, b: int)
    requires
        0 <= b < items.len(),
        items[b] is Lat,
        forall|i: int| b < i < items.len() ==> !(#[trigger] items[i] is Lat),
    ensures
        items[b] matches PartItem::Lat(_, text) && part_lat(items) == coordinate(
            trimmed(text),
        ),
    decreases items.len(),
{
    let front = items.drop_last();
    if b < front.len() {
        assert(!(items[items.len() - 1] is Lat));
        assert forall|i: int| b < i < front.len() implies !(#[trigger] front[i] is Lat) by {
            assert(front[i] == items[i]);
        }
        lemma_last_lat(front, b);
        assert(front[b] == items[b]);
    }
}

proof fn lemma_no_lon(items: Seq<PartItem>)
    requires
        forall|i: int| 0 <= i < items.len() ==> !(#[trigger] items[i] is Lon),
    ensures
        part_lon(items) is None,
    decreases items.len(),
{
    if items.len() > 0 {
        let front = items.drop_last();
        assert(!(items[items.len() - 1] is Lon));
        assert forall|i: int| 0 <= i < front.len() implies !(#[trigger] front[i] is Lon) by {
            assert(front[i] == items[i]);
        }
        lemma_no_lon(front);
    }
}

proof fn lemma_no_lat(items: Seq<PartItem>)
    requires
        forall|i: int| 0 <= i < items.len() ==> !(#[trigger] items[i] is Lat),
    ensures
        part_lat(items) is None,
    decreases items.len(),
{
    if items.len() > 0 {
        let front = items.drop_last();
        assert(!(items[items.len() - 1] is Lat));
        assert forall|i: int| 0 <= i < front.len() implies !(#[trigger] front[i] is Lat) by {
            assert(front[i] == items[i]);
        }
        lemma_no_lat(front);
    }
}

/// Whether `text` holds `content`, with white space around it.
pub open spec fn text_holds(text: Seq<char>, content: Seq<char>) -> bool {
    exists|before: Seq<char>, after: Seq<char>|
        #![trigger before + content + after]
        text == before + content + after && blank_text(before) && blank_text(after)
}

/// White space only.
pub open spec fn blank_text(s: Seq<char>) -> bool {
    forall|i: int| 0 <= i < s.len() ==> white_space(#[trigger] s[i])
}

/// A number in a text is read.
proof fn lemma_held_number(text: Seq<char>, n: u32)
    requires
        text_holds(text, decimal(n as nat)),
    ensures
        read_u32(trimmed(text)) == Some(n),
{
    let content = decimal(n as nat);
    let (before, after) = choose|before: Seq<char>, after: Seq<char>|
        #![trigger before + content + after]
        text == before + content + after && blank_text(before) && blank_text(after);
    law_decimal_reads_back(n);
    law_decimal_has_no_blanks(n as nat);
    law_trimming_keeps_the_middle(before, content, after);
}

/// A coordinate in a text is read.
proof fn lemma_held_coordinate(text: Seq<char>, content: Seq<char>)
    requires
        text_holds(text, content),
        float_text(content),
    ensures
        coordinate(trimmed(text)) == Some(content),
{
    let (before, after) = choose|before: Seq<char>, after: Seq<char>|
        #![trigger before + content + after]
        text == before + content + after && blank_text(before) && blank_text(after);
    if content.len() > 0 {
        law_floats_have_number_characters(content, 0);
        law_floats_have_number_characters(content, content.len() - 1);
    }
    law_trimming_keeps_the_middle(before, content, after);
}

/// Every train that is written comes out: its number is that in the last number
/// element of the location, its coordinates are those in the last such elements of
/// the first part, whatever white space is around them and whatever else stands in
/// the location. Later parts do not matter.
pub proof fn law_train_reads_back(
    w: Walk,
    attrs: Row,
    children: Seq<Child>,
    train: Sighting,
    j: int,
    k: int,
    a: int,
    b: int,
)
    requires
        all_other(attrs),
        forall|i: int| 0 <= i < children.len() ==> child_wf(#[trigger] children[i]),
        0 <= j < children.len(),
        children[j] matches Child::Number(_, text) && text_holds(
            text,
            decimal(train.number as nat),
        ),
        forall|i: int| j < i < children.len() ==> !(#[trigger] children[i] is Number),
        0 <= k < children.len(),
        forall|i: int| 0 <= i < k ==> !(#[trigger] children[i] is Part),
        children[k] matches Child::Part(_, items) && {
            &&& 0 <= a < items.len()
            &&& items[a] matches PartItem::Lon(_, text) && text_holds(text, train.lon)
            &&& forall|i: int| a < i < items.len() ==> !(#[trigger] items[i] is Lon)
            &&& 0 <= b < items.len()
            &&& items[b] matches PartItem::Lat(_, text) && text_holds(text, train.lat)
            &&& forall|i: int| b < i < items.len() ==> !(#[trigger] items[i] is Lat)
        },
        float_text(train.lon),
        float_text(train.lat),
    ensures
        trains_in(w, location_row(attrs, children)) == seq![train],
{
    law_location_reads_back(w, attrs, children);
    lemma_last_number(children, j);
    lemma_first_part(children, k);
    let items = children[k]->Part_1;
    lemma_last_lon(items, a);
    lemma_last_lat(items, b);
    lemma_held_number(children[j]->Number_1, train.number);
    lemma_held_coordinate(items[a]->Lon_1, train.lon);
    lemma_held_coordinate(items[b]->Lat_1, train.lat);
}

/// A location without a number, without a part, or without one of the coordinates
/// in its first part gives no train.
pub proof fn law_incomplete_locations_give_nothing(
    w: Walk,
    attrs: Row,
    children: Seq<Child>,
    k: int,
)
    requires
        all_other(attrs),
        forall|i: int| 0 <= i < children.len() ==> child_wf(#[trigger] children[i]),
        ({
            ||| forall|i: int| 0 <= i < children.len() ==> !(#[trigger] children[i] is Number)
            ||| forall|i: int| 0 <= i < children.len() ==> !(#[trigger] children[i] is Part)
            ||| {
                &&& 0 <= k < children.len()
                &&& forall|i: int| 0 <= i < k ==> !(#[trigger] children[i] is Part)
                &&& children[k] matches Child::Part(_, items) && {
                    ||| forall|i: int| 0 <= i < items.len() ==> !(#[trigger] items[i] is Lon)
                    ||| forall|i: int| 0 <= i < items.len() ==> !(#[trigger] items[i] is Lat)
                }
            }
        }),
    ensures
        trains_in(w, location_row(attrs, children)) == Seq::<Sighting>::empty(),
{
    law_location_reads_back(w, attrs, children);
    if forall|i: int| 0 <= i < children.len() ==> !(#[trigger] children[i] is Number) {
        lemma_no_number(children);
    } else if forall|i: int| 0 <= i < children.len() ==> !(#[trigger] children[i] is Part) {
        lemma_no_part(children);
    } else {
        lemma_first_part(children, k);
        let items = children[k]->Part_1;
        if forall|i: int| 0 <= i < items.len() ==> !(#[trigger] items[i] is Lon) {
            lemma_no_lon(items);
        } else {
            lemma_no_lat(items);
        }
    }
}

/// A self-closing tag is read as an opening and a closing tag with nothing in
/// between, whatever the element.
pub proof fn law_self_closing_is_open_and_close(w: Walk, name: Seq<char>, attrs: Row)
    requires
        all_other(attrs),
    ensures
        ({
            let short = seq![XmlToken::Start(name)] + attrs + seq![XmlToken::EmptyEnd];
            let long = open_row(name, attrs) + seq![XmlToken::Close(name)];
            &&& walked(w, short).pick == walked(w, long).pick
            &&& trains_in(w, short) == trains_in(w, long)
        }),
{
    let start = seq![XmlToken::Start(name)];
    lemma_one(w, XmlToken::Start(name));
    let w1 = stepped(w, XmlToken::Start(name));
    lemma_attributes(w1, attrs);
    lemma_join(w, start, attrs);
    lemma_one(w1, XmlToken::EmptyEnd);
    lemma_join(w, start + attrs, seq![XmlToken::EmptyEnd]);
    lemma_open(w, name, attrs);
    let w2 = walked(w, open_row(name, attrs));
    lemma_one(w2, XmlToken::Close(name));
    lemma_join(w, open_row(name, attrs), seq![XmlToken::Close(name)]);
}

} // verus!
