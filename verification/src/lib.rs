//! Static stack analysis for embedded C built with arm-none-eabi-gcc: reads
//! the stack usage of each function from the `.su` files, the call graph
//! from the disassembly of the object files, and computes the worst-case
//! stack usage of every function with everything it calls.
pub mod analyze;
pub mod call_graph;
pub mod config;
pub mod fn_node;
pub mod report;
pub mod stack_usage;
pub mod symtab;
pub mod text;

use vstd::prelude::*;

verus! {

/// What a run does.
#[derive(Clone, Copy, Debug, PartialEq, Eq, Structural)]
pub enum Command {
    /// The settings turn strack off.
    Disabled,
    /// Read object files, analyse them and write the results.
    Analyze,
    /// Show the last report.
    Report,
    /// The function asked for does not exist.
    Unknown,
}

/// The command that the settings and the function asked for select: nothing
/// runs when strack is disabled; "analyze" and "report" are the functions.
pub open spec fn spec_command(enabled: bool, function: Seq<char>) -> Command {
    if !enabled {
        Command::Disabled
    } else if function == "analyze"@ {
        Command::Analyze
    } else if function == "report"@ {
        Command::Report
    } else {
        Command::Unknown
    }
}

/// Selects the command (see `spec_command`).
pub fn select_command(enabled: bool, function: &str) -> (c: Command)
    ensures
        c == spec_command(enabled, function@),
{
    if !enabled {
        return Command::Disabled;
    }
    let f = String::from_str(function);
    if f == String::from_str("analyze") {
        Command::Analyze
    } else if f == String::from_str("report") {
        Command::Report
    } else {
        Command::Unknown
    }
}

/// The exit status of a run of a command: 1 when nothing was done, else 0.
pub fn exit_code(c: Command) -> (r: i32)
    ensures
        r == (if c == Command::Disabled || c == Command::Unknown {
            1i32
        } else {
            0i32
        }),
{
    match c {
        Command::Disabled | Command::Unknown => 1,
        _ => 0,
    }
}


/// When the settings disable strack, nothing runs, whatever function is
/// asked for, and the run ends with status 1.
pub proof fn law_disabled_runs_nothing(function: Seq<char>)
    ensures
        spec_command(false, function) == Command::Disabled,
{
}

/// When strack is enabled, "analyze" analyses, "report" reports, and any
/// other name is refused.
pub proof fn law_enabled_commands(function: Seq<char>)
    ensures
        spec_command(true, "analyze"@) == Command::Analyze,
        spec_command(true, "report"@) == Command::Report,
        function != "analyze"@ && function != "report"@ ==> spec_command(true, function)
            == Command::Unknown,
{
    reveal_strlit("report");
    reveal_strlit("analyze");
    assert("report"@[0] != "analyze"@[0]);
}

} // verus!
