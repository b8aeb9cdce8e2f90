use ristate::config::Flags;
use ristate::env::{Env, Event};
use ristate::snapshot::{Entry, Snapshot};

fn flags_all() -> Flags {
    let mut flags = Flags::default();
    flags.focused_tags = true;
    flags.focused_view = true;
    flags.urgency = true;
    flags.view_tags = true;
    flags.layout = true;
    flags
}

fn pairs(section: &Option<Vec<Entry>>) -> Vec<(String, Vec<String>)> {
    match section {
        Some(entries) => entries.iter().map(|e| (e.name.clone(), e.tags.clone())).collect(),
        None => panic!("the field is missing"),
    }
}

fn strings(list: &[&str]) -> Vec<String> {
    list.iter().map(|s| s.to_string()).collect()
}

fn focused(output: &str, tags: u32) -> Event {
    Event::FocusedTags { output: output.to_string(), tags }
}

fn shown(record: Option<Snapshot>) -> Snapshot {
    match record {
        Some(snapshot) => snapshot,
        None => panic!("no record was written"),
    }
}

#[test]
fn nothing_is_emitted_before_any_event() {
    let env = Env::new(flags_all());
    assert!(env.fmt().is_none());
    let env = Env::new(Flags::default());
    assert!(env.fmt().is_none());
    let mut flags = Flags::default();
    flags.focused_tags = true;
    let mut env = Env::new(flags);
    assert!(env.fmt().is_none());
    assert!(env.dispatch(Vec::new()).is_none());
}

#[test]
fn last_focused_tags_of_a_cycle_win() {
    let mut flags = Flags::default();
    flags.focused_tags = true;
    let mut env = Env::new(flags);
    let record = shown(env.dispatch(vec![focused("Acme Display", 0x1), focused("Acme Display", 0x2)]));
    assert_eq!(pairs(&record.focused_tags), vec![("AcmeDisplay".to_string(), strings(&["2"]))]);
    assert!(record.urgency.is_none());
    assert!(record.view_tags.is_none());
    assert!(record.layout.is_none());
    assert!(record.focused_view.is_none());
}

#[test]
fn seat_filter_takes_only_the_named_seat() {
    let mut flags = Flags::default();
    flags.focused_view = true;
    flags.seat = Some("default".to_string());
    let mut env = Env::new(flags);
    env.apply(Event::FocusedView { seat: "other".to_string(), title: "wrong".to_string() });
    assert!(env.fmt().is_none());
    env.apply(Event::FocusedView { seat: "Default".to_string(), title: "wrong".to_string() });
    assert!(env.fmt().is_none());
    env.apply(Event::FocusedView { seat: "default".to_string(), title: "editor".to_string() });
    let record = shown(env.fmt());
    assert_eq!(record.focused_view.as_deref(), Some("editor"));
    env.apply(Event::FocusedView { seat: "other".to_string(), title: "wrong".to_string() });
    let record = shown(env.fmt());
    assert_eq!(record.focused_view.as_deref(), Some("editor"));
    assert!(env.wants_seat("default"));
    assert!(!env.wants_seat("other"));
}

#[test]
fn without_seat_filter_every_seat_counts() {
    let mut flags = Flags::default();
    flags.focused_view = true;
    let mut env = Env::new(flags);
    assert!(env.wants_seat("anything"));
    env.apply(Event::FocusedView { seat: "a".to_string(), title: "one".to_string() });
    env.apply(Event::FocusedView { seat: "b".to_string(), title: "two".to_string() });
    assert_eq!(shown(env.fmt()).focused_view.as_deref(), Some("two"));
}

#[test]
fn unchanged_state_is_emitted_again() {
    let mut flags = Flags::default();
    flags.focused_tags = true;
    let mut env = Env::new(flags);
    let first = shown(env.dispatch(vec![focused("Acme", 0b101)]));
    let second = shown(env.dispatch(Vec::new()));
    let third = shown(env.dispatch(vec![focused("Acme", 0b101)]));
    let expected = vec![("Acme".to_string(), strings(&["1", "3"]))];
    assert_eq!(pairs(&first.focused_tags), expected);
    assert_eq!(pairs(&second.focused_tags), expected);
    assert_eq!(pairs(&third.focused_tags), expected);
}

#[test]
fn events_of_reports_that_are_off_are_dropped() {
    let mut env = Env::new(Flags::default());
    let record = env.dispatch(vec![
        focused("Acme", 1),
        Event::UrgentTags { output: "Acme".to_string(), tags: 2 },
        Event::ViewTags { output: "Acme".to_string(), tags: vec![1, 0, 0, 0] },
        Event::LayoutName { output: "Acme".to_string(), name: "tile".to_string() },
        Event::FocusedView { seat: "default".to_string(), title: "t".to_string() },
    ]);
    assert!(record.is_none());
}

#[test]
fn every_field_is_reported_when_on() {
    let mut env = Env::new(flags_all());
    let record = shown(env.dispatch(vec![
        focused("Acme Display", 0b110),
        Event::UrgentTags { output: "Acme Display".to_string(), tags: 0x8000_0000 },
        Event::ViewTags { output: "Acme Display".to_string(), tags: vec![1, 0, 0, 0, 3, 0, 0, 0, 4, 0, 0, 0] },
        Event::LayoutName { output: "Acme Display".to_string(), name: "rivertile - left".to_string() },
        Event::FocusedView { seat: "default".to_string(), title: "a \"title\"".to_string() },
    ]));
    assert_eq!(record.layout.as_deref(), Some("rivertile - left"));
    assert_eq!(record.focused_view.as_deref(), Some("a \"title\""));
    assert_eq!(pairs(&record.focused_tags), vec![("AcmeDisplay".to_string(), strings(&["2", "3"]))]);
    assert_eq!(pairs(&record.urgency), vec![("AcmeDisplay".to_string(), strings(&["32"]))]);
    assert_eq!(pairs(&record.view_tags), vec![("AcmeDisplay".to_string(), strings(&["1", "0", "3"]))]);
}

#[test]
fn only_observed_fields_are_reported() {
    let mut env = Env::new(flags_all());
    let record = shown(env.dispatch(vec![Event::UrgentTags { output: "X".to_string(), tags: 0 }]));
    assert!(record.layout.is_none());
    assert!(record.focused_view.is_none());
    assert!(record.focused_tags.is_none());
    assert!(record.view_tags.is_none());
    assert_eq!(pairs(&record.urgency), vec![("X".to_string(), Vec::<String>::new())]);
}

#[test]
fn outputs_are_listed_in_the_order_of_their_names() {
    let mut flags = Flags::default();
    flags.focused_tags = true;
    let mut env = Env::new(flags);
    let record = shown(env.dispatch(vec![
        focused("Zeta", 1),
        focused("Acme Display", 2),
        focused("acme", 4),
        focused("Mid", 8),
        focused("Zeta", 0x10),
    ]));
    assert_eq!(
        pairs(&record.focused_tags),
        vec![
            ("AcmeDisplay".to_string(), strings(&["2"])),
            ("Mid".to_string(), strings(&["4"])),
            ("Zeta".to_string(), strings(&["5"])),
            ("acme".to_string(), strings(&["3"])),
        ]
    );
}

#[test]
fn output_filter_compares_the_make_without_spaces() {
    let mut flags = Flags::default();
    flags.focused_tags = true;
    flags.layout = true;
    flags.output = Some("AcmeDisplay".to_string());
    let mut env = Env::new(flags);
    assert!(env.wants_output("Acme Display"));
    assert!(env.wants_output("AcmeDisplay"));
    assert!(!env.wants_output("Other"));
    assert!(!env.wants_output("acmedisplay"));
    let record = env.dispatch(vec![
        focused("Other", 1),
        Event::LayoutName { output: "Other".to_string(), name: "tile".to_string() },
    ]);
    assert!(record.is_none());
    let record = shown(env.dispatch(vec![focused("Acme Display", 1), focused("Other", 2)]));
    assert_eq!(pairs(&record.focused_tags), vec![("AcmeDisplay".to_string(), strings(&["1"]))]);
    assert!(record.layout.is_none());
}

#[test]
fn without_output_filter_every_output_counts() {
    let env = Env::new(Flags::default());
    assert!(env.wants_output("anything at all"));
    assert!(!env.wants_seat("default"));
}

#[test]
fn view_tags_keep_position_and_length() {
    let mut flags = Flags::default();
    flags.view_tags = true;
    let mut env = Env::new(flags);
    env.apply(Event::ViewTags { output: "A".to_string(), tags: vec![3, 0, 0, 0, 0, 0, 0, 0, 2, 0, 0, 0] });
    let record = shown(env.fmt());
    assert_eq!(pairs(&record.view_tags), vec![("A".to_string(), strings(&["0", "0", "2"]))]);
    env.apply(Event::ViewTags { output: "A".to_string(), tags: Vec::new() });
    let record = shown(env.fmt());
    assert_eq!(pairs(&record.view_tags), vec![("A".to_string(), Vec::<String>::new())]);
}

#[test]
fn layout_is_kept_for_the_whole_session() {
    let mut flags = Flags::default();
    flags.layout = true;
    let mut env = Env::new(flags);
    env.apply(Event::LayoutName { output: "A".to_string(), name: "one".to_string() });
    env.apply(Event::LayoutName { output: "B".to_string(), name: "two".to_string() });
    assert_eq!(shown(env.fmt()).layout.as_deref(), Some("two"));
}
