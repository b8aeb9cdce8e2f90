//! The state that the reports are made of, and how each event changes it.

use vstd::prelude::*;
use crate::config::{Flags, FlagsView};
use crate::names::same_name;
use crate::snapshot::{depicts, emits, holds_any, tag_entries, view_entries, Snapshot};
use crate::table::Table;
use crate::tags::{decode_set, decode_view_tags, listing, tags_of, view_tags_of, TagSet};
use crate::text::{strip_spaces, without_spaces};

verus! {

/// A notification from the compositor, with the entity that it is about: an
/// output, known by the make that its geometry gives, or a seat, known by
/// its name.
#[derive(Debug)]
#[allow(inconsistent_fields)]
pub enum Event {
    /// The focused tags of an output changed to those of the mask `tags`.
    FocusedTags { output: String, tags: u32 },
    /// The urgent tags of an output changed to those of the mask `tags`.
    UrgentTags { output: String, tags: u32 },
    /// The views of an output changed: `tags` holds one little-endian
    /// 32-bit tag mask for each view.
    ViewTags { output: String, tags: Vec<u8> },
    /// The layout of an output got the name `name`.
    LayoutName { output: String, name: String },
    /// The focus of a seat moved to the view with the title `title`.
    FocusedView { seat: String, title: String },
}

impl Event {
    /// A buffer of view tags holds whole 32-bit masks only.
    pub open spec fn wf(&self) -> bool {
        match self {
            Event::ViewTags { output, tags } => tags@.len() % 4 == 0,
            _ => true,
        }
    }
}

/// What has been observed so far, as plain values.
pub struct State {
    /// The name of the layout, once one has been received.
    pub layout: Option<Seq<char>>,
    /// The title of the focused view, once one has been received.
    pub focused_view: Option<Seq<char>>,
    /// The focused tags of each output that has reported them.
    pub focused_tags: Map<Seq<char>, Set<u8>>,
    /// The urgent tags of each output that has reported them.
    pub urgency: Map<Seq<char>, Set<u8>>,
    /// The tags of the views of each output that has reported them, one
    /// entry for each view.
    pub view_tags: Map<Seq<char>, Seq<u8>>,
}

/// The state in which nothing has been observed.
pub open spec fn empty_state() -> State {
    State {
        layout: None,
        focused_view: None,
        focused_tags: Map::empty(),
        urgency: Map::empty(),
        view_tags: Map::empty(),
    }
}

/// Whether events of the output with the make `make` are taken: all are
/// where no output is selected, and else those of the output whose make,
/// spaces removed, is the selected one.
pub open spec fn output_selected(flags: FlagsView, make: Seq<char>) -> bool {
    match flags.output {
        Some(selected) => without_spaces(make) == selected,
        None => true,
    }
}

/// Whether events of the seat named `seat` are taken: all are where no seat
/// is selected, and else those of the seat of exactly that name.
pub open spec fn seat_selected(flags: FlagsView, seat: Seq<char>) -> bool {
    match flags.seat {
        Some(selected) => seat == selected,
        None => true,
    }
}

/// The state after `event`.
///
/// An event counts where its report is on and its entity is selected; any
/// other leaves the state as it is. An event of an output is entered under
/// the output's make without spaces and replaces what that name held.
pub open spec fn step(flags: FlagsView, state: State, event: Event) -> State {
    match event {
        Event::FocusedTags { output, tags } => if flags.focused_tags && output_selected(
            flags,
            output@,
        ) {
            State {
                focused_tags: state.focused_tags.insert(without_spaces(output@), tags_of(tags)),
                ..state
            }
        } else {
            state
        },
        Event::UrgentTags { output, tags } => if flags.urgency && output_selected(flags, output@) {
            State {
                urgency: state.urgency.insert(without_spaces(output@), tags_of(tags)),
                ..state
            }
        } else {
            state
        },
        Event::ViewTags { output, tags } => if flags.view_tags && output_selected(
            flags,
            output@,
        ) {
            State {
                view_tags: state.view_tags.insert(without_spaces(output@), view_tags_of(tags@)),
                ..state
            }
        } else {
            state
        },
        Event::LayoutName { output, name } => if flags.layout && output_selected(flags, output@) {
            State { layout: Some(name@), ..state }
        } else {
            state
        },
        Event::FocusedView { seat, title } => if flags.focused_view && seat_selected(
            flags,
            seat@,
        ) {
            State { focused_view: Some(title@), ..state }
        } else {
            state
        },
    }
}

/// The state after a batch of events, applied in the order of the batch.
pub open spec fn run(flags: FlagsView, state: State, events: Seq<Event>) -> State
    decreases events.len(),
{
    if events.len() == 0 {
        state
    } else {
        step(flags, run(flags, state, events.drop_last()), events.last())
    }
}

/// The flags of a session and all that its events have reported.
pub struct Env {
    flags: Flags,
    layout: Option<String>,
    focused_view: Option<String>,
    focused_tags: Table<TagSet>,
    urgency: Table<TagSet>,
    view_tags: Table<Vec<u8>>,
}

/// The sets that a table of tag sets holds for its names.
pub open spec fn sets_of(table: Map<Seq<char>, TagSet>) -> Map<Seq<char>, Set<u8>> {
    table.map_values(|set: TagSet| set@)
}

/// The lists that a table of tag lists holds for its names.
pub open spec fn lists_of(table: Map<Seq<char>, Vec<u8>>) -> Map<Seq<char>, Seq<u8>> {
    table.map_values(|list: Vec<u8>| list@)
}

impl Env {
    /// The flags of the session.
    pub closed spec fn flags(&self) -> FlagsView {
        self.flags@
    }

    /// What has been observed.
    pub closed spec fn state(&self) -> State {
        State {
            layout: crate::config::text_of(self.layout),
            focused_view: crate::config::text_of(self.focused_view),
            focused_tags: sets_of(self.focused_tags@),
            urgency: sets_of(self.urgency@),
            view_tags: lists_of(self.view_tags@),
        }
    }

    /// The tables are in order and hold sets of tags.
    pub closed spec fn wf(&self) -> bool {
        &&& self.focused_tags.wf()
        &&& self.urgency.wf()
        &&& self.view_tags.wf()
        &&& forall|i: int|
            0 <= i < self.focused_tags.values().len() ==> (
            #[trigger] self.focused_tags.values()[i]).wf()
        &&& forall|i: int|
            0 <= i < self.urgency.values().len() ==> (#[trigger] self.urgency.values()[i]).wf()
    }

    /// A session with the given flags in which nothing has been observed yet.
    pub fn new(flags: Flags) -> (env: Env)
        ensures
            env.wf(),
            env.flags() == flags@,
            env.state() == empty_state(),
            !emits(env.flags(), env.state()),
    {
        let env = Env {
            flags,
            layout: None,
            focused_view: None,
            focused_tags: Table::new(),
            urgency: Table::new(),
            view_tags: Table::new(),
        };
        proof {
            assert(env.state().focused_tags =~= Map::empty());
            assert(env.state().urgency =~= Map::empty());
            assert(env.state().view_tags =~= Map::empty());
        }
        env
    }

    /// Whether events of the output with the make `make` are taken.
    pub fn wants_output(&self, make: &str) -> (wanted: bool)
        ensures
            wanted == output_selected(self.flags(), make@),
    {
        match &self.flags.output {
            Some(selected) => {
                let name = strip_spaces(make);
                same_name(name.as_str(), selected.as_str())
            },
            None => true,
        }
    }

    /// Whether the focused view of the seat named `seat` is to be reported.
    pub fn wants_seat(&self, seat: &str) -> (wanted: bool)
        ensures
            wanted == (self.flags().focused_view && seat_selected(self.flags(), seat@)),
    {
        self.flags.focused_view && match &self.flags.seat {
            Some(selected) => same_name(seat, selected.as_str()),
            None => true,
        }
    }

    /// Applies one event to the state.
    pub fn apply(&mut self, event: Event)
        requires
            old(self).wf(),
            event.wf(),
        ensures
            final(self).wf(),
            final(self).flags() == old(self).flags(),
            final(self).state() == step(old(self).flags(), old(self).state(), event),
    {
        match event {
            Event::FocusedTags { output, tags } => {
                if self.flags.focused_tags && self.wants_output(output.as_str()) {
                    let name = strip_spaces(output.as_str());
                    let set = decode_set(tags);
                    let ghost before = self.focused_tags;
                    self.focused_tags.put(name.as_str(), set);
                    proof {
                        lemma_sets_after_put(before, self.focused_tags, name@, set);
                    }
                }
            },
            Event::UrgentTags { output, tags } => {
                if self.flags.urgency && self.wants_output(output.as_str()) {
                    let name = strip_spaces(output.as_str());
                    let set = decode_set(tags);
                    let ghost before = self.urgency;
                    self.urgency.put(name.as_str(), set);
                    proof {
                        lemma_sets_after_put(before, self.urgency, name@, set);
                    }
                }
            },
            Event::ViewTags { output, tags } => {
                if self.flags.view_tags && self.wants_output(output.as_str()) {
                    let name = strip_spaces(output.as_str());
                    let list = decode_view_tags(tags.as_slice());
                    let ghost before = self.view_tags;
                    self.view_tags.put(name.as_str(), list);
                    proof {
                        assert(lists_of(self.view_tags@) =~= lists_of(before@).insert(
                            name@,
                            list@,
                        ));
                    }
                }
            },
            Event::LayoutName { output, name } => {
                if self.flags.layout && self.wants_output(output.as_str()) {
                    self.layout = Some(name);
                }
            },
            Event::FocusedView { seat, title } => {
                if self.wants_seat(seat.as_str()) {
                    self.focused_view = Some(title);
                }
            },
        }
    }

    /// The record of the state, if one is written: it is when some report
    /// that is on has something to show. What was written before plays no
    /// part in this.
    pub fn fmt(&self) -> (record: Option<Snapshot>)
        requires
            self.wf(),
        ensures
            record is Some <==> emits(self.flags(), self.state()),
            match record {
                Some(shown) => depicts(shown@, self.flags(), self.state()),
                None => true,
            },
    {
        let layout = match &self.layout {
            Some(name) if self.flags.layout => Some(name.clone()),
            _ => None,
        };
        let focused_view = match &self.focused_view {
            Some(title) if self.flags.focused_view => Some(title.clone()),
            _ => None,
        };
        proof {
            lemma_holds_any(self.focused_tags);
            lemma_holds_any(self.urgency);
            lemma_holds_any(self.view_tags);
            lemma_holds_any_mapped(self.focused_tags@, |set: TagSet| set@);
            lemma_holds_any_mapped(self.urgency@, |set: TagSet| set@);
            lemma_holds_any_mapped(self.view_tags@, |list: Vec<u8>| list@);
            lemma_holds_any_mapped(sets_of(self.focused_tags@), |set: Set<u8>| listing(set));
            lemma_holds_any_mapped(sets_of(self.urgency@), |set: Set<u8>| listing(set));
        }
        let focused_tags = if self.flags.focused_tags && !self.focused_tags.is_empty() {
            Some(tag_entries(&self.focused_tags))
        } else {
            None
        };
        let urgency = if self.flags.urgency && !self.urgency.is_empty() {
            Some(tag_entries(&self.urgency))
        } else {
            None
        };
        let view_tags = if self.flags.view_tags && !self.view_tags.is_empty() {
            Some(view_entries(&self.view_tags))
        } else {
            None
        };
        if layout.is_some() || focused_view.is_some() || focused_tags.is_some()
            || urgency.is_some() || view_tags.is_some() {
            Some(Snapshot { layout, focused_view, focused_tags, urgency, view_tags })
        } else {
            None
        }
    }

    /// Runs one dispatch cycle: applies the events of a batch in their order,
    /// and then gives the record of the state that results, if one is
    /// written.
    pub fn dispatch(&mut self, events: Vec<Event>) -> (record: Option<Snapshot>)
        requires
            old(self).wf(),
            forall|i: int| 0 <= i < events@.len() ==> (#[trigger] events@[i]).wf(),
        ensures
            final(self).wf(),
            final(self).flags() == old(self).flags(),
            final(self).state() == run(old(self).flags(), old(self).state(), events@),
            record is Some <==> emits(final(self).flags(), final(self).state()),
            match record {
                Some(shown) => depicts(shown@, final(self).flags(), final(self).state()),
                None => true,
            },
    {
        let ghost flags = self.flags();
        let ghost start = self.state();
        let ghost all = events@;
        assert(all.take(0) =~= Seq::<Event>::empty());
        for event in it: events
            invariant
                it.seq() == all,
                forall|i: int| 0 <= i < all.len() ==> (#[trigger] all[i]).wf(),
                self.wf(),
                self.flags() == flags,
                self.state() == run(flags, start, all.take(it.index() as int)),
        {
            proof {
                let next = all.take(it.index() as int + 1);
                assert(next.drop_last() =~= all.take(it.index() as int));
                assert(next.last() == event);
            }
            self.apply(event);
        }
        assert(all.take(all.len() as int) =~= all);
        self.fmt()
    }
}

/// A map holds a value for some name exactly when the map of its values does.
proof fn lemma_holds_any_mapped<V, W>(map: Map<Seq<char>, V>, f: spec_fn(V) -> W)
    ensures
        holds_any(map.map_values(f)) <==> holds_any(map),
{
    assert(map.map_values(f).dom() =~= map.dom());
    if holds_any(map) {
        let name = choose|name: Seq<char>| map.dom().contains(name);
        assert(map.map_values(f).dom().contains(name));
    }
    if holds_any(map.map_values(f)) {
        let name = choose|name: Seq<char>| map.map_values(f).dom().contains(name);
        assert(map.dom().contains(name));
    }
}

/// A table holds a value for some name exactly when it has an entry.
proof fn lemma_holds_any<V>(table: Table<V>)
    requires
        table.wf(),
    ensures
        holds_any(table@) <==> table.names().len() > 0,
{
    if table.names().len() > 0 {
        table.lemma_position(0);
    }
    if holds_any(table@) {
        let name = choose|name: Seq<char>| table@.dom().contains(name);
        let i = table.names().index_of(name);
        assert(0 <= i < table.names().len());
    }
}

/// A table of well-formed sets stays one when a well-formed set is entered,
/// and the sets that it holds change at the entered name only.
proof fn lemma_sets_after_put(
    before: Table<TagSet>,
    after: Table<TagSet>,
    name: Seq<char>,
    set: TagSet,
)
    requires
        before.wf(),
        after.wf(),
        set.wf(),
        forall|i: int| 0 <= i < before.values().len() ==> (#[trigger] before.values()[i]).wf(),
        after@ == before@.insert(name, set),
        before.names().contains(name) ==> after.values() == before.values().update(
            before.names().index_of(name),
            set,
        ),
        !before.names().contains(name) ==> exists|p: int|
            {
                &&& 0 <= p <= before.names().len()
                &&& after.names() == #[trigger] before.names().insert(p, name)
                &&& after.values() == before.values().insert(p, set)
            },
    ensures
        forall|i: int| 0 <= i < after.values().len() ==> (#[trigger] after.values()[i]).wf(),
        sets_of(after@) == sets_of(before@).insert(name, set@),
{
    assert(sets_of(after@) =~= sets_of(before@).insert(name, set@));
    if !before.names().contains(name) {
        let p = choose|p: int|
            {
                &&& 0 <= p <= before.names().len()
                &&& after.names() == #[trigger] before.names().insert(p, name)
                &&& after.values() == before.values().insert(p, set)
            };
        assert forall|i: int| 0 <= i < after.values().len() implies (
        #[trigger] after.values()[i]).wf() by {
            if i < p {
                assert(after.values()[i] == before.values()[i]);
            } else if i > p {
                assert(after.values()[i] == before.values()[i - 1]);
            }
        }
    }
}

/// Whether two events are of the same kind and about the same entity.
pub open spec fn same_target(first: Event, second: Event) -> bool {
    match (first, second) {
        (Event::FocusedTags { output: a, .. }, Event::FocusedTags { output: b, .. }) => a@ == b@,
        (Event::UrgentTags { output: a, .. }, Event::UrgentTags { output: b, .. }) => a@ == b@,
        (Event::ViewTags { output: a, .. }, Event::ViewTags { output: b, .. }) => a@ == b@,
        (Event::LayoutName { output: a, .. }, Event::LayoutName { output: b, .. }) => a@ == b@,
        (Event::FocusedView { seat: a, .. }, Event::FocusedView { seat: b, .. }) => a@ == b@,
        _ => false,
    }
}

/// The last write wins: of two events of one kind about one entity that
/// follow each other, the state keeps nothing of the first.
pub proof fn lemma_last_write_wins(flags: FlagsView, state: State, first: Event, second: Event)
    requires
        same_target(first, second),
    ensures
        step(flags, step(flags, state, first), second) == step(flags, state, second),
        run(flags, state, seq![first, second]) == run(flags, state, seq![second]),
{
    let both = seq![first, second];
    let once = seq![second];
    assert(both.drop_last() =~= seq![first]);
    assert(seq![first].drop_last() =~= Seq::<Event>::empty());
    assert(once.drop_last() =~= Seq::<Event>::empty());
    assert(run(flags, state, Seq::<Event>::empty()) == state);
    assert(run(flags, state, seq![first]) == step(flags, state, first));
    assert(run(flags, state, once) == step(flags, state, second));
    assert(run(flags, state, both) == step(flags, step(flags, state, first), second));
    let after = step(flags, step(flags, state, first), second);
    let direct = step(flags, state, second);
    assert(after.focused_tags =~= direct.focused_tags);
    assert(after.urgency =~= direct.urgency);
    assert(after.view_tags =~= direct.view_tags);
}

/// Focused tags replace, they do not add up: after two masks for one output
/// the output has the tags of the second mask.
pub proof fn lemma_focused_tags_replaced(
    flags: FlagsView,
    state: State,
    output: String,
    first: u32,
    second: u32,
)
    requires
        flags.focused_tags,
        output_selected(flags, output@),
    ensures
        run(
            flags,
            state,
            seq![
                Event::FocusedTags { output, tags: first },
                Event::FocusedTags { output, tags: second },
            ],
        ).focused_tags[without_spaces(output@)] == tags_of(second),
{
    let a = Event::FocusedTags { output, tags: first };
    let b = Event::FocusedTags { output, tags: second };
    lemma_last_write_wins(flags, state, a, b);
    assert(seq![b].drop_last() =~= Seq::<Event>::empty());
    assert(run(flags, state, Seq::<Event>::empty()) == state);
    assert(run(flags, state, seq![b]) == step(flags, state, b));
}

/// With a seat selected, the focused view of any other seat changes
/// nothing, and that of the selected seat becomes the reported title.
pub proof fn lemma_seat_filter(flags: FlagsView, state: State, seat: String, title: String)
    requires
        flags.seat is Some,
    ensures
        seat@ != flags.seat->0 ==> step(flags, state, Event::FocusedView { seat, title }) == state,
        seat@ == flags.seat->0 && flags.focused_view ==> step(
            flags,
            state,
            Event::FocusedView { seat, title },
        ) == (State { focused_view: Some(title@), ..state }),
{
}

/// An event of an output that is not the selected one changes nothing.
pub proof fn lemma_output_filter(flags: FlagsView, state: State, event: Event)
    requires
        flags.output is Some,
        match event {
            Event::FocusedTags { output, .. } => without_spaces(output@) != flags.output->0,
            Event::UrgentTags { output, .. } => without_spaces(output@) != flags.output->0,
            Event::ViewTags { output, .. } => without_spaces(output@) != flags.output->0,
            Event::LayoutName { output, .. } => without_spaces(output@) != flags.output->0,
            Event::FocusedView { .. } => false,
        },
    ensures
        step(flags, state, event) == state,
{
}

/// Before anything has been observed no record is written, whatever the
/// flags.
pub proof fn lemma_nothing_to_emit(flags: FlagsView)
    ensures
        !emits(flags, empty_state()),
{
}

/// An event that comes a second time changes nothing.
pub proof fn lemma_repeat_changes_nothing(flags: FlagsView, state: State, event: Event)
    ensures
        step(flags, step(flags, state, event), event) == step(flags, state, event),
{
    lemma_last_write_wins(flags, state, event, event);
}

/// Records are not held against earlier ones: whether one is written after
/// a cycle depends on the state alone. Where a second cycle ends in the
/// state in which the first ended, a record follows the second cycle exactly
/// when one followed the first.
pub proof fn lemma_emits_again(
    flags: FlagsView,
    state: State,
    first: Seq<Event>,
    second: Seq<Event>,
)
    requires
        run(flags, run(flags, state, first), second) == run(flags, state, first),
    ensures
        emits(flags, run(flags, run(flags, state, first), second)) == emits(
            flags,
            run(flags, state, first),
        ),
{
}

/// Nothing is forgotten: an event removes no name from the state and
/// clears no text.
pub proof fn lemma_nothing_forgotten(flags: FlagsView, state: State, event: Event)
    ensures
        state.focused_tags.dom().subset_of(step(flags, state, event).focused_tags.dom()),
        state.urgency.dom().subset_of(step(flags, state, event).urgency.dom()),
        state.view_tags.dom().subset_of(step(flags, state, event).view_tags.dom()),
        state.layout is Some ==> step(flags, state, event).layout is Some,
        state.focused_view is Some ==> step(flags, state, event).focused_view is Some,
{
}

/// Once a record is written, one is written after every later event.
pub proof fn lemma_emits_stays(flags: FlagsView, state: State, event: Event)
    requires
        emits(flags, state),
    ensures
        emits(flags, step(flags, state, event)),
{
    let after = step(flags, state, event);
    if flags.focused_tags && holds_any(state.focused_tags) {
        let name = choose|name: Seq<char>| state.focused_tags.dom().contains(name);
        assert(after.focused_tags.dom().contains(name));
    }
    if flags.urgency && holds_any(state.urgency) {
        let name = choose|name: Seq<char>| state.urgency.dom().contains(name);
        assert(after.urgency.dom().contains(name));
    }
    if flags.view_tags && holds_any(state.view_tags) {
        let name = choose|name: Seq<char>| state.view_tags.dom().contains(name);
        assert(after.view_tags.dom().contains(name));
    }
}

} // verus!
