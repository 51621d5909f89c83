//! Starting the game: which arguments the configured executable gets, and what a failed spawn or a
//! failed elevated launch means.

use vstd::prelude::*;
use crate::elevation::RunAsError;
use crate::paths::{file_name, file_stem, file_stem_chars};
use crate::text::{
    chars_of, contains_chars, contains_seq, decimal, decimal_isize, extend, lowercase, string_of,
    to_lowercase,
};

verus! {

/// Windows' `ERROR_ELEVATION_REQUIRED`, as it appears in a spawn error's text.
pub open spec fn elevation_required() -> Seq<char> {
    "os error 740"@
}

/// Whether the configured executable is XXMI Launcher rather than the game itself: its file stem,
/// in lowercase, contains `xxmi`.
pub open spec fn is_launcher_path(path: Seq<char>) -> bool {
    match file_stem(path) {
        Some(stem) => contains_seq(lowercase(stem), "xxmi"@),
        None => false,
    }
}

/// Whether the configured executable is XXMI Launcher. The launcher's flags only go to the
/// launcher, never to a game the user pointed at directly.
pub fn is_xxmi_launcher(path: &str) -> (b: bool)
    ensures
        b == is_launcher_path(path@),
{
    match file_stem_chars(chars_of(path).as_slice()) {
        Some(stem) => {
            let lowered = to_lowercase(string_of(stem.as_slice()).as_str());
            contains_chars(chars_of(lowered.as_str()).as_slice(), chars_of("xxmi").as_slice())
        },
        None => false,
    }
}

/// The arguments for the launch: `--nogui --xxmi ZZMI` (start the game without the launcher's
/// window, with Zenless Zone Zero's model importer) when the user asked to skip the launcher and
/// the target is the launcher; none otherwise.
pub open spec fn launch_args_for(skip_setting: Option<Seq<char>>, exe_path: Seq<char>) -> Seq<Seq<char>> {
    if skip_setting == Some("true"@) && is_launcher_path(exe_path) {
        seq!["--nogui"@, "--xxmi"@, "ZZMI"@]
    } else {
        Seq::empty()
    }
}

/// The arguments to pass to the configured executable, given the `skip_xxmi_launcher` setting.
pub fn launch_args(skip_setting: Option<&str>, exe_path: &str) -> (r: Vec<&'static str>)
    ensures
        r@.map_values(|a: &str| a@) == launch_args_for(
            match skip_setting {
                Some(s) => Some(s@),
                None => None,
            },
            exe_path@,
        ),
{
    let skip = match skip_setting {
        Some(s) => crate::text::eq_chars(chars_of(s).as_slice(), chars_of("true").as_slice()),
        None => false,
    };
    if skip && is_xxmi_launcher(exe_path) {
        let r = vec!["--nogui", "--xxmi", "ZZMI"];
        assert(r@.map_values(|a: &str| a@) == seq!["--nogui"@, "--xxmi"@, "ZZMI"@]);
        r
    } else {
        let r: Vec<&'static str> = Vec::new();
        assert(r@.map_values(|a: &str| a@) == Seq::<Seq<char>>::empty());
        r
    }
}

/// Whether a spawn error means Windows wants the program started elevated.
pub fn needs_elevation(message: &str) -> (b: bool)
    ensures
        b == contains_seq(message@, elevation_required()),
{
    contains_chars(chars_of(message).as_slice(), chars_of("os error 740").as_slice())
}

/// The error a failed spawn is reported as, when it is not about elevation.
pub fn spawn_failure(message: &str) -> (r: String)
    ensures
        r@ == "Failed to spawn executable: "@ + message@,
{
    let mut m = chars_of("Failed to spawn executable: ");
    extend(&mut m, chars_of(message).as_slice());
    string_of(m.as_slice())
}

/// Launching elevated where the platform cannot raise a UAC prompt.
pub fn launch_elevated(path: &str, args: &[&str]) -> (r: Result<(), String>)
    ensures
        r matches Err(m) && m@ == "The game requires administrator privileges, which this platform can't request."@,
{
    Err(
        string_of(
            chars_of(
                "The game requires administrator privileges, which this platform can't request.",
            ).as_slice(),
        ),
    )
}

/// The message for launching the game elevated, given how the `runas` launch went.
pub open spec fn launch_elevated_message(r: Result<(), RunAsError>) -> Result<(), Seq<char>> {
    match r {
        Ok(()) => Ok(()),
        Err(RunAsError::Cancelled) => Err(
            "Launch cancelled \u{2014} administrator permission was declined."@,
        ),
        Err(RunAsError::Failed(code)) => Err(
            "The game needs administrator privileges, and the elevated launch failed (ShellExecuteW error "@
                + decimal(code as int) + ")."@,
        ),
    }
}

/// Turns the outcome of launching the game through `runas` into the result the caller reports.
pub fn launch_elevated_result(r: Result<(), RunAsError>) -> (out: Result<(), String>)
    ensures
        match (out, launch_elevated_message(r)) {
            (Ok(()), Ok(())) => true,
            (Err(m), Err(e)) => m@ == e,
            _ => false,
        },
{
    match r {
        Ok(()) => Ok(()),
        Err(RunAsError::Cancelled) => Err(
            string_of(
                chars_of("Launch cancelled \u{2014} administrator permission was declined.").as_slice(),
            ),
        ),
        Err(RunAsError::Failed(code)) => {
            let mut m = chars_of(
                "The game needs administrator privileges, and the elevated launch failed (ShellExecuteW error ",
            );
            extend(&mut m, decimal_isize(code).as_slice());
            extend(&mut m, chars_of(").").as_slice());
            Err(string_of(m.as_slice()))
        },
    }
}

} // verus!
