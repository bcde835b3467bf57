//! Core logic of a tray launcher for user-curated shell commands: a validated
//! command registry with a persisted text document, a bounded process
//! supervisor, display post-processing for captured output, a rotating
//! append-only log, and a notification dispatch gate.
use vstd::prelude::*;

pub mod docfmt;
pub mod executor;
pub mod gate;
pub mod helptext;
pub mod logfile;
pub mod registry;
pub mod textutil;

verus! {

/// Relative path (under the user's home directory) of the commands document.
pub fn commands_file_rel() -> (r: &'static str)
    ensures
        r@ =~= ".config/gucli/commands.toml"@,
{
    ".config/gucli/commands.toml"
}

/// Full path of the commands document under the given home directory.
pub fn full_path_commands(home: &str) -> (r: String)
    ensures
        r@ == home@ + "/"@ + ".config/gucli/commands.toml"@,
{
    let mut r = home.to_owned();
    r.append("/");
    r.append(commands_file_rel());
    r
}

/// Relative path (under the user's home directory) of the log file.
pub fn log_file_rel() -> (r: &'static str)
    ensures
        r@ =~= ".config/gucli/gucli.log"@,
{
    ".config/gucli/gucli.log"
}

/// Full path of the log file under the given home directory.
pub fn full_path_log(home: &str) -> (r: String)
    ensures
        r@ == home@ + "/"@ + ".config/gucli/gucli.log"@,
{
    let mut r = home.to_owned();
    r.append("/");
    r.append(log_file_rel());
    r
}

} // verus!
