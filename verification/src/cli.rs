//! The command line: which mode the arguments ask for.
use crate::error::{debug_of, debug_text};
use crate::show::ShowTarget;
use crate::text::{cat3, chars_of, copy_of, str_eq, views};
use vstd::prelude::*;

verus! {

/// How the program is called.
pub const USAGE: &'static str = "Usage:
  tsdb <target.dov> <action.atv>             apply actions to database
  tsdb <target.dov> --compact                compact pending section
  tsdb --relate <target.dov>                 generate .kv.rtv, .vk.rtv, .uuid.rtv indexes
  tsdb --plane <target.dov>                  generate .kv.ptv, .vk.ptv, .uuid.ptv, .ord.ptv, .kt.ptv indexes
  tsdb --query <query.qtv> <target.dov>      query database, print matching UUIDs
  tsdb --filter <filter.ftv> <target.dov>    rich predicate filter (eq/ne/lt/.. + numeric variants)
  tsdb --query  ... <target.dov> --show [<out.dtv>|-]   emit full records (stdout default; '-' alias)
  tsdb --filter ... <target.dov> --show [<out.dtv>|-]   emit full records (stdout default; '-' alias)
  tsdb --records <input.utv>|- <target.dov>  emit one JSON object per UUID of a list
  tsdb --help                                show this message
  tsdb --version                             print version";

/// What the arguments ask for.
#[derive(Debug)]
pub enum Command {
    /// Show how the program is called.
    Help,
    /// Show the version.
    Version,
    /// The arguments make no call of the program.
    Usage,
    /// The path of an output file is refused, with the reason.
    Refused(String),
    /// Apply the actions of a file to a database.
    Apply { dov: String, actions: String },
    Compact { dov: String },
    Relate { dov: String },
    Plane { dov: String },
    Query { qtv: String, dov: String, show: Option<ShowTarget> },
    Filter { ftv: String, dov: String, show: Option<ShowTarget> },
    Records { input: String, dov: String },
}

/// Where records are shown: at the standard output, or in the named file.
pub enum TargetView {
    Stdout,
    File(Seq<char>),
}

/// What a command says.
pub enum CommandView {
    Help,
    Version,
    Usage,
    Refused(Seq<char>),
    Apply { dov: Seq<char>, actions: Seq<char> },
    Compact { dov: Seq<char> },
    Relate { dov: Seq<char> },
    Plane { dov: Seq<char> },
    Query { qtv: Seq<char>, dov: Seq<char>, show: Option<TargetView> },
    Filter { ftv: Seq<char>, dov: Seq<char>, show: Option<TargetView> },
    Records { input: Seq<char>, dov: Seq<char> },
}

/// What a target says.
pub open spec fn target_view(t: Option<ShowTarget>) -> Option<TargetView> {
    match t {
        None => None,
        Some(ShowTarget::Stdout) => Some(TargetView::Stdout),
        Some(ShowTarget::File(p)) => Some(TargetView::File(p@)),
    }
}

impl View for Command {
    type V = CommandView;

    open spec fn view(&self) -> CommandView {
        match *self {
            Command::Help => CommandView::Help,
            Command::Version => CommandView::Version,
            Command::Usage => CommandView::Usage,
            Command::Refused(m) => CommandView::Refused(m@),
            Command::Apply { dov, actions } => CommandView::Apply { dov: dov@, actions: actions@ },
            Command::Compact { dov } => CommandView::Compact { dov: dov@ },
            Command::Relate { dov } => CommandView::Relate { dov: dov@ },
            Command::Plane { dov } => CommandView::Plane { dov: dov@ },
            Command::Query { qtv, dov, show } => CommandView::Query {
                qtv: qtv@,
                dov: dov@,
                show: target_view(show),
            },
            Command::Filter { ftv, dov, show } => CommandView::Filter {
                ftv: ftv@,
                dov: dov@,
                show: target_view(show),
            },
            Command::Records { input, dov } => CommandView::Records { input: input@, dov: dov@ },
        }
    }
}

/// What is said of an output path that starts with `-`.
pub open spec fn dash_path_message(path: Seq<char>) -> Seq<char> {
    "--show <out.dtv> path must not start with '-' (got "@ + debug_text(path)
        + "); use '-' alone for stdout"@
}

/// What is said of the path of an identifier list that starts with `-`.
pub open spec fn dash_input_message(path: Seq<char>) -> Seq<char> {
    "--records <input.utv> path must not start with '-' (got "@ + debug_text(path)
        + "); use '-' alone for stdin"@
}

/// Whether an argument starts with `-` and is more than that.
pub open spec fn is_dashed(a: Seq<char>) -> bool {
    a.len() > 1 && a[0] == '-'
}

/// The command of a query or a filter that shows its records at `show`.
pub open spec fn search_command(
    query: bool,
    criteria: Seq<char>,
    dov: Seq<char>,
    show: Option<TargetView>,
) -> CommandView {
    if query {
        CommandView::Query { qtv: criteria, dov, show }
    } else {
        CommandView::Filter { ftv: criteria, dov, show }
    }
}

/// The command of a query or a filter with four or more arguments.
pub open spec fn search_of(a: Seq<Seq<char>>, query: bool) -> CommandView {
    if a.len() == 4 {
        search_command(query, a[2], a[3], None)
    } else if a.len() == 5 && a[4] == "--show"@ {
        search_command(query, a[2], a[3], Some(TargetView::Stdout))
    } else if a.len() == 6 && a[4] == "--show"@ {
        if a[5] == "-"@ {
            search_command(query, a[2], a[3], Some(TargetView::Stdout))
        } else if is_dashed(a[5]) {
            CommandView::Refused(dash_path_message(a[5]))
        } else {
            search_command(query, a[2], a[3], Some(TargetView::File(a[5])))
        }
    } else {
        CommandView::Usage
    }
}

/// The command that arguments ask for. The first is the name of the program.
pub open spec fn command_of(a: Seq<Seq<char>>) -> CommandView {
    if a.len() == 1 {
        CommandView::Help
    } else if a.len() == 2 && (a[1] == "--version"@ || a[1] == "-V"@) {
        CommandView::Version
    } else if a.len() == 2 && (a[1] == "--help"@ || a[1] == "-h"@) {
        CommandView::Help
    } else if a.len() == 3 {
        if a[1] == "--relate"@ {
            CommandView::Relate { dov: a[2] }
        } else if a[1] == "--plane"@ {
            CommandView::Plane { dov: a[2] }
        } else if a[1] == "--compact"@ {
            CommandView::Compact { dov: a[2] }
        } else if a[2] == "--compact"@ {
            CommandView::Compact { dov: a[1] }
        } else {
            CommandView::Apply { dov: a[1], actions: a[2] }
        }
    } else if a.len() >= 4 && a[1] == "--query"@ {
        search_of(a, true)
    } else if a.len() >= 4 && a[1] == "--filter"@ {
        search_of(a, false)
    } else if a.len() == 4 && a[1] == "--records"@ {
        if is_dashed(a[2]) {
            CommandView::Refused(dash_input_message(a[2]))
        } else {
            CommandView::Records { input: a[2], dov: a[3] }
        }
    } else {
        CommandView::Usage
    }
}

fn dashed(a: &str) -> (r: bool)
    ensures
        r == is_dashed(a@),
{
    let v = chars_of(a);
    v.len() > 1 && v[0] == '-'
}

fn search(query: bool, criteria: &str, dov: &str, show: Option<ShowTarget>) -> (r: Command)
    ensures
        r@ == search_command(query, criteria@, dov@, target_view(show)),
{
    if query {
        Command::Query { qtv: copy_of(criteria), dov: copy_of(dov), show }
    } else {
        Command::Filter { ftv: copy_of(criteria), dov: copy_of(dov), show }
    }
}

fn parse_search(args: &[String], query: bool) -> (r: Command)
    requires
        args@.len() >= 4,
    ensures
        r@ == search_of(views(args@), query),
{
    let ghost a = views(args@);
    let n: usize = args.len();
    let criteria: &str = args[2].as_str();
    let dov: &str = args[3].as_str();
    if n == 4 {
        return search(query, criteria, dov, None);
    }
    if n > 6 || !str_eq(args[4].as_str(), "--show") {
        return Command::Usage;
    }
    if n == 5 {
        return search(query, criteria, dov, Some(ShowTarget::Stdout));
    }
    let path: &str = args[5].as_str();
    if str_eq(path, "-") {
        return search(query, criteria, dov, Some(ShowTarget::Stdout));
    }
    if dashed(path) {
        return Command::Refused(
            cat3(
                "--show <out.dtv> path must not start with '-' (got ",
                debug_of(path).as_str(),
                "); use '-' alone for stdout",
            ),
        );
    }
    search(query, criteria, dov, Some(ShowTarget::File(copy_of(path))))
}

/// The command that arguments ask for. The first is the name of the program.
pub fn parse_args(args: &[String]) -> (r: Command)
    ensures
        r@ == command_of(views(args@)),
{
    let ghost a = views(args@);
    let n: usize = args.len();
    if n == 1 {
        return Command::Help;
    }
    if n < 2 {
        return Command::Usage;
    }
    let first: &str = args[1].as_str();
    if n == 2 {
        return if str_eq(first, "--version") || str_eq(first, "-V") {
            Command::Version
        } else if str_eq(first, "--help") || str_eq(first, "-h") {
            Command::Help
        } else {
            Command::Usage
        };
    }
    let second: &str = args[2].as_str();
    if n == 3 {
        return if str_eq(first, "--relate") {
            Command::Relate { dov: copy_of(second) }
        } else if str_eq(first, "--plane") {
            Command::Plane { dov: copy_of(second) }
        } else if str_eq(first, "--compact") {
            Command::Compact { dov: copy_of(second) }
        } else if str_eq(second, "--compact") {
            Command::Compact { dov: copy_of(first) }
        } else {
            Command::Apply { dov: copy_of(first), actions: copy_of(second) }
        };
    }
    if str_eq(first, "--query") {
        parse_search(args, true)
    } else if str_eq(first, "--filter") {
        parse_search(args, false)
    } else if n == 4 && str_eq(first, "--records") {
        if dashed(second) {
            Command::Refused(
                cat3(
                    "--records <input.utv> path must not start with '-' (got ",
                    debug_of(second).as_str(),
                    "); use '-' alone for stdin",
                ),
            )
        } else {
            Command::Records { input: copy_of(second), dov: copy_of(args[3].as_str()) }
        }
    } else {
        Command::Usage
    }
}

} // verus!
