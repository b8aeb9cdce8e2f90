//! The record that is written after a dispatch cycle: which fields it has,
//! in which order, and what each holds.

use vstd::prelude::*;
use crate::config::FlagsView;
use crate::env::{lists_of, sets_of, State};
use crate::names::{lemma_bytes_asymmetric, lemma_bytes_irreflexive, name_before};
use crate::table::Table;
use crate::tags::{listing, TagSet};
use crate::text::{numeral_texts, numerals, texts};

verus! {

/// The tags reported for one output: its name, and the tags as numerals.
#[derive(Debug)]
pub struct Entry {
    pub name: String,
    pub tags: Vec<String>,
}

/// A record of the state. The fields stand in the order in which they are
/// written; a field that is `None` is left out of the record. The entries of
/// a field stand in the order of their names.
#[derive(Debug)]
pub struct Snapshot {
    pub layout: Option<String>,
    pub focused_view: Option<String>,
    pub focused_tags: Option<Vec<Entry>>,
    pub urgency: Option<Vec<Entry>>,
    pub view_tags: Option<Vec<Entry>>,
}

/// An entry as plain values.
pub struct EntryView {
    pub name: Seq<char>,
    pub tags: Seq<Seq<char>>,
}

/// A record as plain values.
pub struct SnapshotView {
    pub layout: Option<Seq<char>>,
    pub focused_view: Option<Seq<char>>,
    pub focused_tags: Option<Seq<EntryView>>,
    pub urgency: Option<Seq<EntryView>>,
    pub view_tags: Option<Seq<EntryView>>,
}

impl View for Entry {
    type V = EntryView;

    open spec fn view(&self) -> EntryView {
        EntryView { name: self.name@, tags: texts(self.tags@) }
    }
}

/// The entries of a list as plain values.
pub open spec fn entries_of(list: Seq<Entry>) -> Seq<EntryView> {
    Seq::new(list.len(), |i: int| list[i]@)
}

/// The entries of an optional list as plain values.
pub open spec fn section_of(list: Option<Vec<Entry>>) -> Option<Seq<EntryView>> {
    match list {
        Some(list) => Some(entries_of(list@)),
        None => None,
    }
}

impl View for Snapshot {
    type V = SnapshotView;

    open spec fn view(&self) -> SnapshotView {
        SnapshotView {
            layout: crate::config::text_of(self.layout),
            focused_view: crate::config::text_of(self.focused_view),
            focused_tags: section_of(self.focused_tags),
            urgency: section_of(self.urgency),
            view_tags: section_of(self.view_tags),
        }
    }
}

/// Whether one of `entries` is the entry of `name`.
pub open spec fn has_name(entries: Seq<EntryView>, name: Seq<char>) -> bool {
    exists|i: int| 0 <= i < entries.len() && (#[trigger] entries[i]).name == name
}

/// Whether `entries` lists `lists`: one entry for each name, in the order of
/// the names, each with the numerals of the list of its name.
pub open spec fn is_listing_of(entries: Seq<EntryView>, lists: Map<Seq<char>, Seq<u8>>) -> bool {
    &&& in_order(entries)
    &&& forall|name: Seq<char>| #[trigger] lists.dom().contains(name) <==> has_name(entries, name)
    &&& forall|i: int|
        0 <= i < entries.len() ==> (#[trigger] entries[i]).tags == numerals(
            lists[entries[i].name],
        )
}

/// Whether a map holds a value for any name.
pub open spec fn holds_any<V>(map: Map<Seq<char>, V>) -> bool {
    exists|name: Seq<char>| map.dom().contains(name)
}

/// The ascending listings of the sets of a map.
pub open spec fn listings_of(sets: Map<Seq<char>, Set<u8>>) -> Map<Seq<char>, Seq<u8>> {
    sets.map_values(|set: Set<u8>| listing(set))
}

/// Whether a text field of a record shows what it must: the observed text
/// where the report is on, and nothing where it is off.
pub open spec fn shows_text(on: bool, observed: Option<Seq<char>>, shown: Option<Seq<char>>) -> bool {
    shown == if on {
        observed
    } else {
        None
    }
}

/// Whether a field of entries shows what it must: the listing of `lists`
/// where the report is on and a list has been observed for some name, and
/// nothing otherwise.
pub open spec fn shows_lists(
    on: bool,
    lists: Map<Seq<char>, Seq<u8>>,
    shown: Option<Seq<EntryView>>,
) -> bool {
    match shown {
        Some(entries) => on && holds_any(lists) && is_listing_of(entries, lists),
        None => !(on && holds_any(lists)),
    }
}

/// Whether the record `shown` depicts `state` under `flags`.
pub open spec fn depicts(shown: SnapshotView, flags: FlagsView, state: State) -> bool {
    &&& shows_text(flags.layout, state.layout, shown.layout)
    &&& shows_text(flags.focused_view, state.focused_view, shown.focused_view)
    &&& shows_lists(flags.focused_tags, listings_of(state.focused_tags), shown.focused_tags)
    &&& shows_lists(flags.urgency, listings_of(state.urgency), shown.urgency)
    &&& shows_lists(flags.view_tags, state.view_tags, shown.view_tags)
}

/// Whether a record is written for `state` under `flags`: it is when some
/// report that is on has something to show.
pub open spec fn emits(flags: FlagsView, state: State) -> bool {
    ||| flags.layout && state.layout is Some
    ||| flags.focused_view && state.focused_view is Some
    ||| flags.focused_tags && holds_any(state.focused_tags)
    ||| flags.urgency && holds_any(state.urgency)
    ||| flags.view_tags && holds_any(state.view_tags)
}

/// Entries that follow the names of a table, each with the numerals of the
/// list of its name, list the lists.
proof fn lemma_entries_list<V>(
    table: Table<V>,
    entries: Seq<EntryView>,
    lists: Map<Seq<char>, Seq<u8>>,
)
    requires
        table.wf(),
        lists.dom() == table@.dom(),
        entries.len() == table.names().len(),
        forall|j: int| 0 <= j < entries.len() ==> (#[trigger] entries[j]).name == table.names()[j],
        forall|j: int|
            0 <= j < entries.len() ==> (#[trigger] entries[j]).tags == numerals(
                lists[table.names()[j]],
            ),
    ensures
        is_listing_of(entries, lists),
{
    assert forall|name: Seq<char>| #[trigger]
        lists.dom().contains(name) <==> has_name(entries, name) by {
        if lists.dom().contains(name) {
            let j = table.names().index_of(name);
            assert(table.names()[j] == name);
            assert(entries[j].name == name);
        }
        if has_name(entries, name) {
            let j = choose|j: int| 0 <= j < entries.len() && (#[trigger] entries[j]).name == name;
            table.lemma_position(j);
        }
    }
    assert forall|i: int, j: int| 0 <= i < j < entries.len() implies name_before(
        (#[trigger] entries[i]).name,
        (#[trigger] entries[j]).name,
    ) by {
        assert(name_before(table.names()[i], table.names()[j]));
    }
}

/// Lists a table of tag sets: an entry for each name, in the order of the
/// names, with the tags of its set in ascending order.
pub fn tag_entries(table: &Table<TagSet>) -> (out: Vec<Entry>)
    requires
        table.wf(),
        forall|i: int| 0 <= i < table.values().len() ==> (#[trigger] table.values()[i]).wf(),
    ensures
        is_listing_of(entries_of(out@), listings_of(sets_of(table@))),
{
    let mut out: Vec<Entry> = Vec::new();
    let mut i: usize = 0;
    while i < table.len()
        invariant
            table.wf(),
            i <= table.names().len(),
            out@.len() == i,
            forall|j: int|
                0 <= j < i ==> (#[trigger] out@[j])@ == (EntryView {
                    name: table.names()[j],
                    tags: numerals(table.values()[j].members()),
                }),
        decreases table.names().len() - i,
    {
        let name = table.name_at(i).clone();
        let tags = numeral_texts(table.value_at(i).as_slice());
        out.push(Entry { name, tags });
        i = i + 1;
    }
    proof {
        let lists = listings_of(sets_of(table@));
        assert(lists.dom() =~= table@.dom());
        assert forall|j: int| 0 <= j < out@.len() implies (#[trigger] out@[j])@.tags == numerals(
            lists[table.names()[j]],
        ) by {
            table.lemma_position(j);
            table.values()[j].lemma_members_listing();
        }
        lemma_entries_list(*table, entries_of(out@), lists);
    }
    out
}

/// Lists a table of view tags: an entry for each name, in the order of the
/// names, with the tags of its views in the order of the views.
pub fn view_entries(table: &Table<Vec<u8>>) -> (out: Vec<Entry>)
    requires
        table.wf(),
    ensures
        is_listing_of(entries_of(out@), lists_of(table@)),
{
    let mut out: Vec<Entry> = Vec::new();
    let mut i: usize = 0;
    while i < table.len()
        invariant
            table.wf(),
            i <= table.names().len(),
            out@.len() == i,
            forall|j: int|
                0 <= j < i ==> (#[trigger] out@[j])@ == (EntryView {
                    name: table.names()[j],
                    tags: numerals(table.values()[j]@),
                }),
        decreases table.names().len() - i,
    {
        let name = table.name_at(i).clone();
        let tags = numeral_texts(table.value_at(i).as_slice());
        out.push(Entry { name, tags });
        i = i + 1;
    }
    proof {
        let lists = lists_of(table@);
        assert(lists.dom() =~= table@.dom());
        assert forall|j: int| 0 <= j < out@.len() implies (#[trigger] out@[j])@.tags == numerals(
            lists[table.names()[j]],
        ) by {
            table.lemma_position(j);
        }
        lemma_entries_list(*table, entries_of(out@), lists);
    }
    out
}

/// Whether the names of `entries` stand in strictly ascending order.
pub open spec fn in_order(entries: Seq<EntryView>) -> bool {
    forall|i: int, j: int|
        0 <= i < j < entries.len() ==> name_before(
            (#[trigger] entries[i]).name,
            (#[trigger] entries[j]).name,
        )
}

/// Two positions of an ordered list that hold one name are one position,
/// and the order of two names is that of their positions.
proof fn lemma_order_of_positions(entries: Seq<EntryView>, i: int, j: int)
    requires
        in_order(entries),
        0 <= i < entries.len(),
        0 <= j < entries.len(),
    ensures
        entries[i].name == entries[j].name ==> i == j,
        name_before(entries[i].name, entries[j].name) ==> i < j,
{
    let x = vstd::utf8::encode_utf8(entries[i].name);
    let y = vstd::utf8::encode_utf8(entries[j].name);
    lemma_bytes_irreflexive(x);
    if i < j {
        assert(name_before(entries[i].name, entries[j].name));
    } else if j < i {
        assert(name_before(entries[j].name, entries[i].name));
        if name_before(entries[i].name, entries[j].name) {
            lemma_bytes_asymmetric(x, y);
        }
    }
}

/// Where every name of the ordered list `a` occurs in the ordered list `b`,
/// the name at position `i` of `a` stands in `b` at position `i` or later.
proof fn lemma_not_earlier(a: Seq<EntryView>, b: Seq<EntryView>, i: int) -> (j: int)
    requires
        in_order(a),
        in_order(b),
        forall|k: int| 0 <= k < a.len() ==> has_name(b, (#[trigger] a[k]).name),
        0 <= i < a.len(),
    ensures
        i <= j < b.len(),
        b[j].name == a[i].name,
    decreases i,
{
    assert(has_name(b, a[i].name));
    let j = choose|m: int| 0 <= m < b.len() && (#[trigger] b[m]).name == a[i].name;
    if i > 0 {
        let before = lemma_not_earlier(a, b, i - 1);
        assert(name_before(a[i - 1].name, a[i].name));
        lemma_order_of_positions(b, before, j);
    }
    j
}

/// A map has one listing only: what the names and their lists are decides
/// the entries and their order.
pub proof fn lemma_listing_unique(
    a: Seq<EntryView>,
    b: Seq<EntryView>,
    lists: Map<Seq<char>, Seq<u8>>,
)
    requires
        is_listing_of(a, lists),
        is_listing_of(b, lists),
    ensures
        a == b,
{
    assert forall|k: int| 0 <= k < a.len() implies has_name(b, (#[trigger] a[k]).name) by {
        assert(has_name(a, a[k].name));
        assert(lists.dom().contains(a[k].name));
    }
    assert forall|k: int| 0 <= k < b.len() implies has_name(a, (#[trigger] b[k]).name) by {
        assert(has_name(b, b[k].name));
        assert(lists.dom().contains(b[k].name));
    }
    assert forall|i: int| 0 <= i < a.len() implies i < b.len() && (#[trigger] a[i]).name
        == b[i].name by {
        let j = lemma_not_earlier(a, b, i);
        let back = lemma_not_earlier(b, a, j);
        lemma_order_of_positions(a, i, back);
    }
    if b.len() > 0 {
        let last = lemma_not_earlier(b, a, b.len() - 1);
    }
    if a.len() > 0 {
        assert(a[a.len() - 1].name == b[a.len() - 1].name);
    }
    assert(a =~= b);
}

/// A state has one record only: under given flags, two records that depict
/// one state are the same record.
pub proof fn lemma_record_unique(a: SnapshotView, b: SnapshotView, flags: FlagsView, state: State)
    requires
        depicts(a, flags, state),
        depicts(b, flags, state),
    ensures
        a == b,
{
    if a.focused_tags is Some {
        lemma_listing_unique(
            a.focused_tags->0,
            b.focused_tags->0,
            listings_of(state.focused_tags),
        );
    }
    if a.urgency is Some {
        lemma_listing_unique(a.urgency->0, b.urgency->0, listings_of(state.urgency));
    }
    if a.view_tags is Some {
        lemma_listing_unique(a.view_tags->0, b.view_tags->0, state.view_tags);
    }
}

} // verus!
