//! What the run of an outside script means for the operation that asked
//! for it.
//!
//! The library starts no process. Its caller runs the script with one
//! file name as its argument, waits for it, and hands over what happened.

use vstd::prelude::*;
use vstd::string::StringExecFns;
use crate::text::{push_signed, signed_decimal_of};

verus! {

/// Exit codes from here on mean that the script ended abnormally.
pub const PROCESS_EXIT_CODE_THRESHOLD: i32 = 128;

/// What happened when a script was run.
#[derive(Debug, Clone, Copy, PartialEq, Eq, Structural)]
pub enum ScriptLaunch {
    /// The script ran and ended: with the exit code `code`, if it has
    /// one; `success` is what the system says of the ending.
    Exited { code: Option<i32>, success: bool },
    /// The script could not be started. `permission_denied` says whether
    /// permission was the reason, `readable` whether the script file can
    /// be examined at all.
    Failed { permission_denied: bool, readable: bool },
}

/// Why a script makes the operation that asked for it fail.
#[derive(Debug, Clone, Copy, PartialEq, Eq, Structural)]
pub enum ScriptError {
    /// The script ended with a code of no ordinary ending.
    Panicked { code: i32 },
    /// The script file is there but may not be executed.
    MissingExecutePermission,
    /// The script file cannot be reached for want of permission.
    NoAccess,
    /// The script could not be started, for another reason.
    SpawnFailed,
}

/// The code that a script's ending counts as: its exit code; where it
/// has none, 0 for a successful ending and 1 for any other.
pub open spec fn exit_code_of(code: Option<i32>, success: bool) -> i32 {
    match code {
        Some(c) => c,
        None => if success {
            0
        } else {
            1
        },
    }
}

/// What a script's run means. A code from 0 up to 127 lets the operation
/// go on, and is handed back: 0 is success, the others are warnings. Any
/// other code, and a script that could not be started, is an error.
pub open spec fn script_result_of(launch: ScriptLaunch) -> Result<i32, ScriptError> {
    match launch {
        ScriptLaunch::Exited { code, success } => {
            let c = exit_code_of(code, success);
            if 0 <= c < PROCESS_EXIT_CODE_THRESHOLD {
                Ok(c)
            } else {
                Err(ScriptError::Panicked { code: c })
            }
        },
        ScriptLaunch::Failed { permission_denied, readable } => if permission_denied {
            if readable {
                Err(ScriptError::MissingExecutePermission)
            } else {
                Err(ScriptError::NoAccess)
            }
        } else {
            Err(ScriptError::SpawnFailed)
        },
    }
}

/// What the run of a script means for the operation that asked for it:
/// the exit code where the operation goes on, an error where it fails.
pub fn execute_script(launch: ScriptLaunch) -> (r: Result<i32, ScriptError>)
    ensures
        r == script_result_of(launch),
{
    match launch {
        ScriptLaunch::Exited { code, success } => {
            let exit_code = match code {
                Some(code) => code,
                None => {
                    if success {
                        0
                    } else {
                        1
                    }
                },
            };
            if exit_code == 0 {
                Ok(0)
            } else if exit_code < PROCESS_EXIT_CODE_THRESHOLD && exit_code > 0 {
                Ok(exit_code)
            } else {
                Err(ScriptError::Panicked { code: exit_code })
            }
        },
        ScriptLaunch::Failed { permission_denied, readable } => {
            if permission_denied {
                if readable {
                    Err(ScriptError::MissingExecutePermission)
                } else {
                    Err(ScriptError::NoAccess)
                }
            } else {
                Err(ScriptError::SpawnFailed)
            }
        },
    }
}

/// Whether a script's answer is a warning: the operation goes on, but
/// the script did not succeed.
pub fn is_warning(outcome: &Result<i32, ScriptError>) -> (r: bool)
    ensures
        r == (outcome matches Ok(code) && code != 0),
{
    match outcome {
        Ok(code) => *code != 0,
        Err(_) => false,
    }
}

/// The text of the error, for the script at `script_path`.
pub open spec fn script_message_of(e: ScriptError, script_path: Seq<char>) -> Seq<char> {
    match e {
        ScriptError::Panicked { code } => "Script panicked: exit code "@ + signed_decimal_of(
            code as int,
        ),
        ScriptError::MissingExecutePermission => script_path + " is missing execute permission."@,
        ScriptError::NoAccess => script_path + " cannot be accessed due to permission issues."@,
        ScriptError::SpawnFailed => script_path + " could not be started."@,
    }
}

impl ScriptError {
    /// The text of the error, for the script at `script_path`.
    pub fn message(&self, script_path: &str) -> (r: String)
        ensures
            r@ == script_message_of(*self, script_path@),
    {
        match *self {
            ScriptError::Panicked { code } => {
                let mut out = String::from_str("Script panicked: exit code ");
                push_signed(&mut out, code as i64);
                out
            },
            ScriptError::MissingExecutePermission => {
                let mut out = script_path.to_owned();
                out.append(" is missing execute permission.");
                out
            },
            ScriptError::NoAccess => {
                let mut out = script_path.to_owned();
                out.append(" cannot be accessed due to permission issues.");
                out
            },
            ScriptError::SpawnFailed => {
                let mut out = script_path.to_owned();
                out.append(" could not be started.");
                out
            },
        }
    }
}

} // verus!
