//! The process controller's decisions: which command line a control
//! action maps to, what a finished command reports, and how the
//! liveness probe's outcome is interpreted. Spawning the commands is
//! left to the caller.

use vstd::prelude::*;
use vstd::string::StringExecFns;
use crate::errors::NginxError;
use crate::text::str_eq;

verus! {

/// The three control actions the panel can issue.
#[derive(Clone, Copy, Debug, PartialEq, Eq, Structural)]
pub enum NginxAction {
    Start,
    Stop,
    Reload,
}

/// The name under which callers select an action.
pub open spec fn action_key(a: NginxAction) -> Seq<char> {
    match a {
        NginxAction::Start => "start"@,
        NginxAction::Stop => "stop"@,
        NginxAction::Reload => "reload"@,
    }
}

/// Which action a caller-supplied name selects.
pub open spec fn spec_action_from_name(n: Seq<char>) -> Option<NginxAction> {
    if n == action_key(NginxAction::Start) {
        Option::Some(NginxAction::Start)
    } else if n == action_key(NginxAction::Stop) {
        Option::Some(NginxAction::Stop)
    } else if n == action_key(NginxAction::Reload) {
        Option::Some(NginxAction::Reload)
    } else {
        Option::None
    }
}

/// Decodes an action name.
pub fn action_from_name(name: &str) -> (r: Option<NginxAction>)
    ensures
        r == spec_action_from_name(name@),
{
    if str_eq(name, "start") {
        Some(NginxAction::Start)
    } else if str_eq(name, "stop") {
        Some(NginxAction::Stop)
    } else if str_eq(name, "reload") {
        Some(NginxAction::Reload)
    } else {
        None
    }
}

/// The argument vector for an action: the nginx binary behind the
/// privilege-escalation wrapper, with the signal flag for stop and
/// reload and no arguments for start.
pub open spec fn spec_command_line(bin: Seq<char>, a: NginxAction) -> Seq<Seq<char>> {
    match a {
        NginxAction::Start => seq!["sudo"@, bin],
        NginxAction::Stop => seq!["sudo"@, bin, "-s"@, "stop"@],
        NginxAction::Reload => seq!["sudo"@, bin, "-s"@, "reload"@],
    }
}

/// Builds the argument vector that runs `bin` for the action.
pub fn command_line(bin: &str, a: NginxAction) -> (r: Vec<String>)
    ensures
        r@.map_values(|s: String| s@) == spec_command_line(bin@, a),
{
    let mut v: Vec<String> = Vec::new();
    v.push(String::from_str("sudo"));
    v.push(String::from_str(bin));
    match a {
        NginxAction::Start => {},
        NginxAction::Stop => {
            v.push(String::from_str("-s"));
            v.push(String::from_str("stop"));
        },
        NginxAction::Reload => {
            v.push(String::from_str("-s"));
            v.push(String::from_str("reload"));
        },
    }
    proof {
        assert(v@.map_values(|s: String| s@) =~= spec_command_line(bin@, a));
    }
    v
}

/// Resolves a caller-supplied action name to the command line to run;
/// an unknown name is rejected without naming any command.
pub fn plan_command(bin: &str, name: &str) -> (r: Result<Vec<String>, NginxError>)
    ensures
        spec_action_from_name(name@) matches Option::Some(a) ==> (r matches Ok(c)
            && c@.map_values(|s: String| s@) == spec_command_line(bin@, a)),
        spec_action_from_name(name@) is None ==> (r matches Err(e) && e matches
            NginxError::InvalidArgument(m) && m@ == "Invalid command"@),
{
    match action_from_name(name) {
        Some(a) => Ok(command_line(bin, a)),
        None => Err(NginxError::InvalidArgument(String::from_str("Invalid command"))),
    }
}

/// Interprets a finished control command: success reports a fixed
/// confirmation, failure surfaces the command's captured error output.
pub fn interpret_exit(success: bool, stderr: &str) -> (r: Result<String, NginxError>)
    ensures
        success ==> (r matches Ok(m) && m@ == "Command executed successfully"@),
        !success ==> (r matches Err(e) && e matches NginxError::Process(m) && m@ == stderr@),
{
    if success {
        Ok(String::from_str("Command executed successfully"))
    } else {
        Err(NginxError::Process(String::from_str(stderr)))
    }
}

/// Interprets the liveness probe: a probe that ran reports whether a
/// matching process exists; a probe that could not run is surfaced as
/// an undeterminable state, never as "not running".
pub fn interpret_probe(probe: Result<bool, String>) -> (r: Result<bool, NginxError>)
    ensures
        probe matches Ok(b) ==> (r matches Ok(running) && running == b),
        probe matches Err(m) ==> (r matches Err(e) && e matches NginxError::Undeterminable(t) && t@
            == m@),
{
    match probe {
        Ok(b) => Ok(b),
        Err(m) => Err(NginxError::Undeterminable(m)),
    }
}

/// The process name the liveness probe looks for.
pub fn probe_process_name() -> (r: &'static str)
    ensures
        r@ == "nginx"@,
{
    "nginx"
}

} // verus!
