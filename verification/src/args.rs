//! The command line: what each subcommand takes, and the log filter that
//! the verbosity selects.

use vstd::prelude::*;

verus! {

/// The parsed command line.
#[derive(Debug, Clone, PartialEq, Eq)]
pub struct Args {
    /// How many times `-v` was given.
    pub verbose: u8,
    pub subcommand: SubCommand,
}

/// What to do.
#[derive(Debug, Clone, PartialEq, Eq)]
pub enum SubCommand {
    /// Build static files into `output` from vendor and device JSON files.
    Build { output: String, vendors: Vec<String>, devices: Vec<String> },
    /// Query devices from the LineageOS wiki (or a saved copy of its page).
    FetchLineage {
        html_file: Option<String>,
        tar_file: Option<String>,
        devices: Option<String>,
        vendors: Option<String>,
    },
    /// Query iPhone models from endoflife.date (or a saved API response).
    FetchIphone { file: Option<String>, devices: Option<String> },
    /// Query Samsung Knox support for known Android devices.
    FetchKnox { devices: String, file: Option<String>, rules: Option<String> },
}

/// The log filter for a verbosity level.
pub open spec fn log_filter_spec(verbose: u8) -> Seq<char> {
    if verbose == 0 {
        "warn"@
    } else if verbose == 1 {
        "info"@
    } else if verbose == 2 {
        "info,phones_fyi=debug"@
    } else if verbose == 3 {
        "info,phones_fyi=trace"@
    } else if verbose == 4 {
        "debug"@
    } else {
        "trace"@
    }
}

/// No `-v` logs warnings; one, information; two and three add debug and
/// trace output of this crate; four, debug output of everything; five and
/// more, everything.
pub proof fn lemma_log_filter_levels(verbose: u8)
    ensures
        verbose == 0 ==> log_filter_spec(verbose) == "warn"@,
        verbose == 1 ==> log_filter_spec(verbose) == "info"@,
        verbose == 2 ==> log_filter_spec(verbose) == "info,phones_fyi=debug"@,
        verbose == 3 ==> log_filter_spec(verbose) == "info,phones_fyi=trace"@,
        verbose == 4 ==> log_filter_spec(verbose) == "debug"@,
        verbose >= 5 ==> log_filter_spec(verbose) == "trace"@,
{
}

/// The log filter for a verbosity level: more `-v` flags, more detail.
pub fn log_filter(verbose: u8) -> (r: &'static str)
    ensures
        r@ == log_filter_spec(verbose),
{
    match verbose {
        0 => "warn",
        1 => "info",
        2 => "info,phones_fyi=debug",
        3 => "info,phones_fyi=trace",
        4 => "debug",
        _ => "trace",
    }
}

} // verus!
