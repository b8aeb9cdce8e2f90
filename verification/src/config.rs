//! What to report, and for which output and seat: the flags, and how a
//! command line sets them.

use vstd::prelude::*;
use crate::names::same_name;
use crate::text::texts;

verus! {

/// The choices that a command line makes.
#[derive(Debug)]
pub struct Flags {
    /// Report the focused tags of each output.
    pub focused_tags: bool,
    /// Report the title of the focused view.
    pub focused_view: bool,
    /// Report the urgent tags of each output.
    pub urgency: bool,
    /// Report the tags of the views of each output.
    pub view_tags: bool,
    /// Report the name of the layout.
    pub layout: bool,
    /// Report this output only.
    pub output: Option<String>,
    /// Report this seat only.
    pub seat: Option<String>,
}

/// The flags as plain values.
pub struct FlagsView {
    pub focused_tags: bool,
    pub focused_view: bool,
    pub urgency: bool,
    pub view_tags: bool,
    pub layout: bool,
    pub output: Option<Seq<char>>,
    pub seat: Option<Seq<char>>,
}

/// The text that an optional string holds.
pub open spec fn text_of(s: Option<String>) -> Option<Seq<char>> {
    match s {
        Some(s) => Some(s@),
        None => None,
    }
}

/// The flags with which nothing is reported and nothing is left out.
pub open spec fn no_flags() -> FlagsView {
    FlagsView {
        focused_tags: false,
        focused_view: false,
        urgency: false,
        view_tags: false,
        layout: false,
        output: None,
        seat: None,
    }
}

impl View for Flags {
    type V = FlagsView;

    open spec fn view(&self) -> FlagsView {
        FlagsView {
            focused_tags: self.focused_tags,
            focused_view: self.focused_view,
            urgency: self.urgency,
            view_tags: self.view_tags,
            layout: self.layout,
            output: text_of(self.output),
            seat: text_of(self.seat),
        }
    }
}

impl Flags {
    /// The flags before any argument is read: every report is off and no
    /// output or seat is selected.
    pub fn default() -> (flags: Flags)
        ensures
            flags@ == no_flags(),
    {
        Flags {
            focused_tags: false,
            focused_view: false,
            urgency: false,
            view_tags: false,
            layout: false,
            output: None,
            seat: None,
        }
    }
}

/// What a command line asks for.
#[derive(Debug)]
pub enum Command {
    /// Report with these flags.
    Run(Flags),
    /// Show how the program is used, and do nothing else.
    Help,
}

/// The argument at position `at`, if there is one.
pub open spec fn argument(args: Seq<Seq<char>>, at: int) -> Option<Seq<char>> {
    if 0 <= at < args.len() {
        Some(args[at])
    } else {
        None
    }
}

/// The flags that the arguments from position `at` on make of `flags`, or
/// `None` where they ask for help.
///
/// The arguments are read from left to right. A switch turns its report on.
/// `--seat` and `--output` take the argument that follows them, whatever it
/// is, and select nothing when none follows. An argument that is no flag is
/// passed over.
pub open spec fn configured(args: Seq<Seq<char>>, at: int, flags: FlagsView) -> Option<FlagsView>
    decreases args.len() + 1 - at,
{
    if at < 0 || at >= args.len() {
        Some(flags)
    } else {
        let flag = args[at];
        if flag == "--seat"@ || flag == "-s"@ {
            configured(args, at + 2, FlagsView { seat: argument(args, at + 1), ..flags })
        } else if flag == "--output"@ || flag == "-o"@ {
            configured(args, at + 2, FlagsView { output: argument(args, at + 1), ..flags })
        } else if flag == "--urgency"@ || flag == "-u"@ {
            configured(args, at + 1, FlagsView { urgency: true, ..flags })
        } else if flag == "--focused-view"@ || flag == "-f"@ {
            configured(args, at + 1, FlagsView { focused_view: true, ..flags })
        } else if flag == "--focused-tags"@ || flag == "-t"@ {
            configured(args, at + 1, FlagsView { focused_tags: true, ..flags })
        } else if flag == "--layout"@ || flag == "-l"@ {
            configured(args, at + 1, FlagsView { layout: true, ..flags })
        } else if flag == "--view-tags"@ || flag == "-vt"@ {
            configured(args, at + 1, FlagsView { view_tags: true, ..flags })
        } else if flag == "--help"@ || flag == "-h"@ {
            None
        } else {
            configured(args, at + 1, flags)
        }
    }
}

/// Whether `flag` is one of the two spellings `long` and `short`.
fn is_flag(flag: &str, long: &str, short: &str) -> (r: bool)
    ensures
        r <==> (flag@ == long@ || flag@ == short@),
{
    same_name(flag, long) || same_name(flag, short)
}

/// Reads the arguments of a command line, the program's name included.
pub fn configuration(args: &Vec<String>) -> (command: Command)
    ensures
        match command {
            Command::Run(flags) => configured(texts(args@), 0, no_flags()) == Some(flags@),
            Command::Help => configured(texts(args@), 0, no_flags()) is None,
        },
{
    let mut flags = Flags::default();
    let mut at: usize = 0;
    while at < args.len()
        invariant
            configured(texts(args@), 0, no_flags()) == configured(texts(args@), at as int, flags@),
        decreases args@.len() - at,
    {
        let flag = args[at].as_str();
        assert(texts(args@)[at as int] == flag@);
        let takes_value = is_flag(flag, "--seat", "-s") || is_flag(flag, "--output", "-o");
        if takes_value {
            let value = if at + 1 < args.len() {
                assert(texts(args@)[at as int + 1] == args@[at as int + 1]@);
                Some(args[at + 1].clone())
            } else {
                None
            };
            if is_flag(flag, "--seat", "-s") {
                flags.seat = value;
            } else {
                flags.output = value;
            }
            if at + 1 < args.len() {
                at = at + 2;
            } else {
                assert(configured(texts(args@), at as int + 2, flags@) == Some(flags@));
                at = at + 1;
            }
        } else {
            if is_flag(flag, "--urgency", "-u") {
                flags.urgency = true;
            } else if is_flag(flag, "--focused-view", "-f") {
                flags.focused_view = true;
            } else if is_flag(flag, "--focused-tags", "-t") {
                flags.focused_tags = true;
            } else if is_flag(flag, "--layout", "-l") {
                flags.layout = true;
            } else if is_flag(flag, "--view-tags", "-vt") {
                flags.view_tags = true;
            } else if is_flag(flag, "--help", "-h") {
                return Command::Help;
            }
            at = at + 1;
        }
    }
    Command::Run(flags)
}

} // verus!
