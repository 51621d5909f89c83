//! Whether the app runs as administrator, and what a `runas` launch reported.
//!
//! The in-game reload needs elevation: the game runs elevated, and Windows silently discards
//! synthetic input aimed at a higher-integrity process while still reporting success. The calls
//! into Windows live outside the library; what they report is classified here.

use vstd::prelude::*;
use crate::text::{chars_of, decimal, decimal_isize, extend, string_of};

verus! {

/// Why a `runas` launch did not happen.
#[derive(Clone, Copy, Debug, PartialEq, Eq)]
pub enum RunAsError {
    /// The user dismissed the UAC prompt.
    Cancelled,
    /// `ShellExecuteW`'s status code, which is anything at or below 32.
    Failed(isize),
}

/// Windows' `ERROR_CANCELLED`.
pub const ERROR_CANCELLED: i32 = 1223;

/// What a `runas` launch reported: a `ShellExecuteW` status above 32 means it launched; at or
/// below 32 it failed, and the thread's last error tells why: `ERROR_CANCELLED` when the user
/// declined the prompt, and otherwise a failure carrying the status.
pub open spec fn shell_execute_outcome(code: isize, last_error: u32) -> Result<(), RunAsError> {
    if code > 32 {
        Ok(())
    } else if last_error == ERROR_CANCELLED as u32 {
        Err(RunAsError::Cancelled)
    } else {
        Err(RunAsError::Failed(code))
    }
}

/// Classifies a `runas` launch from the status `ShellExecuteW` returned and the last error
/// (`GetLastError`) read right after it.
pub fn classify_shell_execute(code: isize, last_error: u32) -> (r: Result<(), RunAsError>)
    ensures
        r == shell_execute_outcome(code, last_error),
{
    if code > 32 {
        Ok(())
    } else if last_error == 1223u32 {
        Err(RunAsError::Cancelled)
    } else {
        Err(RunAsError::Failed(code))
    }
}

/// Elevation is a Windows concept, and so is the reload that wants it. Elsewhere the app reports
/// itself as already elevated, which keeps the UI from offering a restart that could not fix
/// anything.
pub fn running_as_admin() -> (r: bool)
    ensures
        r,
{
    true
}

/// Restarting elevated where there is no elevation to restart into.
pub fn restart_elevated() -> (r: Result<(), String>)
    ensures
        r matches Err(m) && m@ == "This platform has nothing to restart into."@,
{
    Err(string_of(chars_of("This platform has nothing to restart into.").as_slice()))
}

/// The message for restarting the app elevated, given how the `runas` launch went.
pub open spec fn restart_message(r: Result<(), RunAsError>) -> Result<(), Seq<char>> {
    match r {
        Ok(()) => Ok(()),
        Err(RunAsError::Cancelled) => Err("Administrator permission was declined."@),
        Err(RunAsError::Failed(code)) => Err(
            "Windows would not restart Eous as administrator (ShellExecuteW error "@ + decimal(
                code as int,
            ) + ")."@,
        ),
    }
}

/// Turns the outcome of relaunching the app through `runas` into the result the caller reports.
pub fn restart_result(r: Result<(), RunAsError>) -> (out: Result<(), String>)
    ensures
        match (out, restart_message(r)) {
            (Ok(()), Ok(())) => true,
            (Err(m), Err(e)) => m@ == e,
            _ => false,
        },
{
    match r {
        Ok(()) => Ok(()),
        Err(RunAsError::Cancelled) => Err(
            string_of(chars_of("Administrator permission was declined.").as_slice()),
        ),
        Err(RunAsError::Failed(code)) => {
            let mut m = chars_of("Windows would not restart Eous as administrator (ShellExecuteW error ");
            extend(&mut m, decimal_isize(code).as_slice());
            extend(&mut m, chars_of(").").as_slice());
            Err(string_of(m.as_slice()))
        },
    }
}

} // verus!
