//! What the program is called to do.

use vstd::prelude::*;
use vstd::string::*;

use crate::text::str_eq;

verus! {

/// The id under which herdr knows this plugin.
pub const PLUGIN_ID: &'static str = "shaozk.herdr-shadow-pane";

/// What the program is called to do.
#[derive(Clone, Copy, Debug, PartialEq, Eq, Structural)]
pub enum Mode {
    /// Have herdr open the console.
    Launch,
    /// Print the version.
    Version,
    /// Read one pane through the socket and print how that went.
    DebugRead,
    /// Print the panes of the tab.
    DebugList,
    /// Be the console.
    Console,
}

/// The model of an optional argument.
pub open spec fn opt_arg(arg: Option<&str>) -> Option<Seq<char>> {
    match arg {
        Some(s) => Some(s@),
        None => None,
    }
}

/// What the program is called to do: its first argument decides, or else which
/// of the two debugging variables is set.
pub open spec fn mode(arg: Option<Seq<char>>, debug_read: bool, debug_list: bool) -> Mode {
    if arg == Some("launch"@) {
        Mode::Launch
    } else if arg == Some("--version"@) || arg == Some("version"@) {
        Mode::Version
    } else if debug_read {
        Mode::DebugRead
    } else if debug_list {
        Mode::DebugList
    } else {
        Mode::Console
    }
}

/// What the program is called to do, given its first argument, whether
/// `SHADOW_PANE_DEBUG_SOCKET_READ` is set, and whether `SHADOW_PANE_DEBUG_LIST` or
/// `SYNC_PANES_DEBUG_LIST` is.
pub fn mode_of(arg: Option<&str>, debug_read: bool, debug_list: bool) -> (r: Mode)
    ensures
        r == mode(opt_arg(arg), debug_read, debug_list),
{
    if let Some(word) = arg {
        if str_eq(word, "launch") {
            return Mode::Launch;
        }
        if str_eq(word, "--version") || str_eq(word, "version") {
            return Mode::Version;
        }
    }
    if debug_read {
        Mode::DebugRead
    } else if debug_list {
        Mode::DebugList
    } else {
        Mode::Console
    }
}

/// The arguments that make herdr open the console over the current pane.
pub fn launch_args() -> (r: Vec<String>)
    ensures
        r.deep_view() == seq![
            "plugin"@,
            "pane"@,
            "open"@,
            "--plugin"@,
            PLUGIN_ID@,
            "--entrypoint"@,
            "console"@,
            "--placement"@,
            "overlay"@,
        ],
{
    let args: Vec<String> = vec![
        "plugin".to_string(),
        "pane".to_string(),
        "open".to_string(),
        "--plugin".to_string(),
        PLUGIN_ID.to_string(),
        "--entrypoint".to_string(),
        "console".to_string(),
        "--placement".to_string(),
        "overlay".to_string(),
    ];
    assert(args.deep_view() =~= seq![
        "plugin"@,
        "pane"@,
        "open"@,
        "--plugin"@,
        PLUGIN_ID@,
        "--entrypoint"@,
        "console"@,
        "--placement"@,
        "overlay"@,
    ]);
    args
}

/// The word `launch` makes herdr open the console, whatever else is set, and the
/// word `version` prints the version, with or without dashes.
pub proof fn law_word_decides(read: bool, list: bool)
    ensures
        mode(Some("launch"@), read, list) == Mode::Launch,
        mode(Some("version"@), read, list) == Mode::Version,
        mode(Some("--version"@), read, list) == Mode::Version,
{
    reveal_strlit("launch");
    reveal_strlit("version");
    reveal_strlit("--version");
    assert("launch"@[0] == 'l' && "version"@[0] == 'v' && "--version"@[0] == '-');
}

/// Without one of these words the program reads a pane or lists the panes if it
/// is told to, the first before the second, and else is the console.
pub proof fn law_variables_decide(arg: Option<Seq<char>>, list: bool)
    requires
        arg != Some("launch"@),
        arg != Some("version"@),
        arg != Some("--version"@),
    ensures
        mode(arg, true, list) == Mode::DebugRead,
        mode(arg, false, true) == Mode::DebugList,
        mode(arg, false, false) == Mode::Console,
{
}

} // verus!
