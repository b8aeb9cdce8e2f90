use ristate::config::{configuration, Command, Flags};

fn args(list: &[&str]) -> Vec<String> {
    list.iter().map(|s| s.to_string()).collect()
}

fn run(list: &[&str]) -> Flags {
    match configuration(&args(list)) {
        Command::Run(flags) => flags,
        Command::Help => panic!("help was not asked for"),
    }
}

#[test]
fn default_flags_report_nothing() {
    let flags = Flags::default();
    assert!(!flags.focused_tags);
    assert!(!flags.focused_view);
    assert!(!flags.urgency);
    assert!(!flags.view_tags);
    assert!(!flags.layout);
    assert_eq!(flags.output, None);
    assert_eq!(flags.seat, None);
}

#[test]
fn no_arguments_give_default_flags() {
    let flags = run(&["ristate"]);
    assert!(!flags.focused_tags && !flags.focused_view && !flags.urgency);
    assert!(!flags.view_tags && !flags.layout);
    assert_eq!(flags.output, None);
    assert_eq!(flags.seat, None);
    let flags = run(&[]);
    assert!(!flags.focused_tags);
}

#[test]
fn long_switches_turn_reports_on() {
    let flags = run(&["ristate", "--focused-tags"]);
    assert!(flags.focused_tags && !flags.focused_view && !flags.urgency && !flags.view_tags && !flags.layout);
    let flags = run(&["ristate", "--focused-view"]);
    assert!(!flags.focused_tags && flags.focused_view && !flags.urgency && !flags.view_tags && !flags.layout);
    let flags = run(&["ristate", "--urgency"]);
    assert!(!flags.focused_tags && !flags.focused_view && flags.urgency && !flags.view_tags && !flags.layout);
    let flags = run(&["ristate", "--view-tags"]);
    assert!(!flags.focused_tags && !flags.focused_view && !flags.urgency && flags.view_tags && !flags.layout);
    let flags = run(&["ristate", "--layout"]);
    assert!(!flags.focused_tags && !flags.focused_view && !flags.urgency && !flags.view_tags && flags.layout);
}

#[test]
fn short_switches_turn_reports_on() {
    let flags = run(&["ristate", "-t", "-f", "-u", "-vt", "-l"]);
    assert!(flags.focused_tags && flags.focused_view && flags.urgency && flags.view_tags && flags.layout);
    let flags = run(&["ristate", "-t"]);
    assert!(flags.focused_tags && !flags.focused_view);
    let flags = run(&["ristate", "-vt"]);
    assert!(flags.view_tags && !flags.focused_tags);
}

#[test]
fn seat_and_output_take_the_next_argument() {
    let flags = run(&["ristate", "--seat", "default", "--output", "AcmeDisplay"]);
    assert_eq!(flags.seat.as_deref(), Some("default"));
    assert_eq!(flags.output.as_deref(), Some("AcmeDisplay"));
    let flags = run(&["ristate", "-s", "seat0", "-o", "Dell"]);
    assert_eq!(flags.seat.as_deref(), Some("seat0"));
    assert_eq!(flags.output.as_deref(), Some("Dell"));
}

#[test]
fn a_value_that_looks_like_a_flag_is_still_a_value() {
    let flags = run(&["ristate", "--seat", "-t", "-u"]);
    assert_eq!(flags.seat.as_deref(), Some("-t"));
    assert!(!flags.focused_tags);
    assert!(flags.urgency);
    let flags = run(&["ristate", "-o", "--help"]);
    assert_eq!(flags.output.as_deref(), Some("--help"));
}

#[test]
fn seat_without_value_selects_nothing() {
    let flags = run(&["ristate", "-t", "--seat"]);
    assert!(flags.focused_tags);
    assert_eq!(flags.seat, None);
    let flags = run(&["ristate", "-s", "a", "-s"]);
    assert_eq!(flags.seat, None);
    let flags = run(&["ristate", "-o"]);
    assert_eq!(flags.output, None);
}

#[test]
fn the_last_selection_counts() {
    let flags = run(&["ristate", "-s", "a", "-s", "b", "-o", "x", "--output", "y"]);
    assert_eq!(flags.seat.as_deref(), Some("b"));
    assert_eq!(flags.output.as_deref(), Some("y"));
}

#[test]
fn unknown_arguments_are_passed_over() {
    let flags = run(&["ristate", "--bogus", "-x", "tags", "-t", "", "--Layout"]);
    assert!(flags.focused_tags);
    assert!(!flags.layout && !flags.urgency && !flags.focused_view && !flags.view_tags);
    assert_eq!(flags.seat, None);
    assert_eq!(flags.output, None);
}

#[test]
fn help_is_recognised() {
    assert!(matches!(configuration(&args(&["ristate", "--help"])), Command::Help));
    assert!(matches!(configuration(&args(&["ristate", "-h"])), Command::Help));
    assert!(matches!(configuration(&args(&["ristate", "-t", "-h", "-u"])), Command::Help));
    assert!(matches!(configuration(&args(&["-h"])), Command::Help));
}

#[test]
fn the_program_name_is_read_like_any_argument() {
    let flags = run(&["-t"]);
    assert!(flags.focused_tags);
}
