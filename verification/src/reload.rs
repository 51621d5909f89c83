//! Asking 3DMigoto to reload its mods, and the settings that decide how.
//!
//! 3DMigoto reloads on F10 and ignores hotkeys unless its own window is focused. The user picks one
//! of two ways round that: deferred, which waits for the game window and then presses F10, and
//! immediate, which presses it at once with `check_foreground_window = 0` in `d3dx.ini`. The
//! settings are read and written outside the library; what they mean is decided here.

use vstd::prelude::*;
use crate::paths::{file_name, file_name_chars};
use crate::text::{chars_of, eq_chars, lowercase, string_of, to_lowercase};

verus! {

/// How the F10 reaches 3DMigoto.
#[derive(Clone, Copy, Debug, PartialEq, Eq)]
pub enum ReloadMethod {
    /// Wait for the game window. Needs the app elevated; leaves `d3dx.ini` alone.
    Deferred,
    /// Press F10 now, with `check_foreground_window = 0` making 3DMigoto accept it from any
    /// window. Needs no elevation; hands every mod keybind to whatever the user is typing in.
    Immediate,
}

/// Settings-table key for the auto-reload switch.
pub open spec fn auto_reload_key() -> Seq<char> {
    "auto_reload_on_toggle"@
}

/// Settings-table key for the reload method.
pub open spec fn reload_method_key() -> Seq<char> {
    "reload_method"@
}

pub open spec fn opt_view(o: Option<&str>) -> Option<Seq<char>> {
    match o {
        Some(s) => Some(s@),
        None => None,
    }
}

fn is_text(o: Option<&str>, lit: &str) -> (b: bool)
    ensures
        b == (opt_view(o) == Some(lit@)),
{
    match o {
        Some(s) => eq_chars(chars_of(s).as_slice(), chars_of(lit).as_slice()),
        None => false,
    }
}

/// The method the stored setting names: immediate only for exactly `immediate`; anything else,
/// including a missing row, is the safe deferred method.
pub fn reload_method_from(stored: Option<&str>) -> (r: ReloadMethod)
    ensures
        r == (if opt_view(stored) == Some("immediate"@) {
            ReloadMethod::Immediate
        } else {
            ReloadMethod::Deferred
        }),
{
    if is_text(stored, "immediate") {
        ReloadMethod::Immediate
    } else {
        ReloadMethod::Deferred
    }
}

/// Whether the stored switch asks for reloads on toggle: only an explicit `true` does, so a fresh
/// install prompts for nothing.
pub fn auto_reload_from(stored: Option<&str>) -> (b: bool)
    ensures
        b == (opt_view(stored) == Some("true"@)),
{
    is_text(stored, "true")
}

/// Whether `d3dx.ini` should carry the app's line: only for immediate mode with the switch on.
pub fn wants_background_hotkeys(auto_reload: bool, method: ReloadMethod) -> (b: bool)
    ensures
        b == (auto_reload && method == ReloadMethod::Immediate),
{
    auto_reload && match method {
        ReloadMethod::Immediate => true,
        ReloadMethod::Deferred => false,
    }
}

/// The settings to write once for an install that has never chosen a method: the method is
/// stamped `deferred` so this never runs twice, and a switch turned on under the old terms is
/// turned off. Nothing when a method was already chosen.
pub open spec fn default_adoption(already_chosen: bool, auto_reload: bool) -> Seq<(Seq<char>, Seq<char>)> {
    if already_chosen {
        Seq::empty()
    } else if auto_reload {
        seq![(reload_method_key(), "deferred"@), (auto_reload_key(), "false"@)]
    } else {
        seq![(reload_method_key(), "deferred"@)]
    }
}

pub open spec fn setting_views(v: Seq<(&str, &str)>) -> Seq<(Seq<char>, Seq<char>)> {
    v.map_values(|p: (&str, &str)| (p.0@, p.1@))
}

/// The settings [`default_adoption`] writes.
pub fn adopt_default_method(already_chosen: bool, auto_reload: bool) -> (r: Vec<(&'static str, &'static str)>)
    ensures
        setting_views(r@) == default_adoption(already_chosen, auto_reload),
{
    let mut r: Vec<(&'static str, &'static str)> = Vec::new();
    if already_chosen {
        assert(setting_views(r@) == Seq::<(Seq<char>, Seq<char>)>::empty());
        return r;
    }
    r.push(("reload_method", "deferred"));
    if auto_reload {
        r.push(("auto_reload_on_toggle", "false"));
    }
    r
}

/// What saving the reload settings does to `d3dx.ini` once they are stored.
#[derive(Clone, Debug, PartialEq, Eq)]
pub enum D3dxSync {
    /// No Mods folder is set, and the file edit is not wanted: nothing to do.
    Nothing,
    /// Rewrite the `d3dx.ini` beside this Mods folder, turning the edit on or off.
    Apply { mods_folder: String, enable: bool },
}

/// Brings `d3dx.ini` into line with the stored settings: apply the wanted state beside the Mods
/// folder; with no Mods folder that is an error only when the edit is wanted.
pub fn d3dx_sync(wanted: bool, mods_folder: Option<&str>) -> (r: Result<D3dxSync, String>)
    ensures
        match mods_folder {
            Some(f) => r matches Ok(D3dxSync::Apply { mods_folder: m, enable }) && m@ == f@ && enable == wanted,
            None => if wanted {
                r matches Err(e) && e@ == "Set your Mods folder in Settings first \u{2014} that's how Eous finds d3dx.ini."@
            } else {
                r == Ok::<D3dxSync, String>(D3dxSync::Nothing)
            },
        },
{
    match mods_folder {
        Some(f) => Ok(D3dxSync::Apply { mods_folder: string_of(chars_of(f).as_slice()), enable: wanted }),
        None => if wanted {
            Err(
                string_of(
                    chars_of(
                        "Set your Mods folder in Settings first \u{2014} that's how Eous finds d3dx.ini.",
                    ).as_slice(),
                ),
            )
        } else {
            Ok(D3dxSync::Nothing)
        },
    }
}

/// The game's own process name, lowercase: what 3DMigoto is injected into.
pub open spec fn game_process_name() -> Seq<char> {
    "zenlesszonezero.exe"@
}

/// The configured executable's file name, lowercase.
pub open spec fn configured_name(configured_exe: Option<Seq<char>>) -> Option<Seq<char>> {
    match configured_exe {
        Some(p) => match file_name(p) {
            Some(n) => Some(lowercase(n)),
            None => None,
        },
        None => None,
    }
}

/// Whether a process (by lowercase executable name) is the game: the game's own process, or the
/// executable the user configured, which is often the launcher.
pub open spec fn is_game_process(name: Seq<char>, configured_exe: Option<Seq<char>>) -> bool {
    name == game_process_name() || configured_name(configured_exe) == Some(name)
}

fn configured_name_exec(configured_exe: Option<&str>) -> (r: Option<Vec<char>>)
    ensures
        match r {
            Some(v) => configured_name(opt_view(configured_exe)) == Some(v@),
            None => configured_name(opt_view(configured_exe)) is None,
        },
{
    match configured_exe {
        Some(p) => match file_name_chars(chars_of(p).as_slice()) {
            Some(n) => {
                let l = to_lowercase(string_of(n.as_slice()).as_str());
                Some(chars_of(l.as_str()))
            },
            None => None,
        },
        None => None,
    }
}

/// Whether the window in front belongs to the game, given the lowercase executable name of the
/// foreground process (`None` when it could not be found).
pub fn game_is_focused(foreground: Option<&str>, configured_exe: Option<&str>) -> (b: bool)
    ensures
        b == match foreground {
            Some(name) => is_game_process(name@, opt_view(configured_exe)),
            None => false,
        },
{
    match foreground {
        Some(name) => {
            let n = chars_of(name);
            if eq_chars(n.as_slice(), chars_of("zenlesszonezero.exe").as_slice()) {
                return true;
            }
            match configured_name_exec(configured_exe) {
                Some(c) => eq_chars(c.as_slice(), n.as_slice()),
                None => false,
            }
        },
        None => false,
    }
}

/// Whether any running process (by lowercase executable name) is the game or the configured
/// executable: the game is running at all, not merely focused.
pub fn any_game_process(names: &[String], configured_exe: Option<&str>) -> (b: bool)
    ensures
        b == exists|i: int| 0 <= i < names@.len() && is_game_process(#[trigger] names@[i]@, opt_view(configured_exe)),
{
    let game = chars_of("zenlesszonezero.exe");
    let configured = configured_name_exec(configured_exe);
    let n = names.len();
    for i in 0..n
        invariant
            n == names@.len(),
            game@ == game_process_name(),
            match configured {
                Some(v) => configured_name(opt_view(configured_exe)) == Some(v@),
                None => configured_name(opt_view(configured_exe)) is None,
            },
            forall|j: int| 0 <= j < i ==> !is_game_process(#[trigger] names@[j]@, opt_view(configured_exe)),
    {
        let name = chars_of(names[i].as_str());
        if eq_chars(name.as_slice(), game.as_slice()) {
            return true;
        }
        match &configured {
            Some(c) => {
                if eq_chars(c.as_slice(), name.as_slice()) {
                    return true;
                }
            },
            None => {},
        }
    }
    false
}

/// What a reload request does now.
#[derive(Clone, Copy, Debug, PartialEq, Eq)]
pub enum ReloadRequest {
    /// Press F10 at once: 3DMigoto accepts hotkeys from every window.
    PressNow,
    /// Record that a reload is owed and wait for the game window.
    Defer,
}

/// Immediate mode has nothing to wait for; deferred mode records the reload and waits.
pub fn plan_reload(method: ReloadMethod) -> (r: ReloadRequest)
    ensures
        r == (if method == ReloadMethod::Immediate {
            ReloadRequest::PressNow
        } else {
            ReloadRequest::Defer
        }),
{
    match method {
        ReloadMethod::Immediate => ReloadRequest::PressNow,
        ReloadMethod::Deferred => ReloadRequest::Defer,
    }
}

/// One poll of the deferred reload's watcher.
#[derive(Clone, Copy, Debug, PartialEq, Eq)]
pub enum WatchStep {
    /// Nothing is owed any more: stop.
    Done,
    /// Waited too long, with the game presumably closed: drop the reload and stop.
    GiveUp,
    /// The game is in front: let it settle, press F10, and stop.
    Press,
    /// Not yet: sleep and poll again.
    Wait,
}

/// The watcher's decision on one poll: stop when nothing is owed, give up past the deadline, press
/// once the game is in front, and otherwise wait.
pub fn watch_step(pending: bool, past_deadline: bool, focused: bool) -> (r: WatchStep)
    ensures
        r == (if !pending {
            WatchStep::Done
        } else if past_deadline {
            WatchStep::GiveUp
        } else if focused {
            WatchStep::Press
        } else {
            WatchStep::Wait
        }),
{
    if !pending {
        WatchStep::Done
    } else if past_deadline {
        WatchStep::GiveUp
    } else if focused {
        WatchStep::Press
    } else {
        WatchStep::Wait
    }
}

/// Whether the app restarts itself elevated at startup: only when reloads are on, the deferred
/// method is chosen (it is the one that needs elevation), and the app is not elevated already.
pub fn wants_elevated_restart(auto_reload: bool, method: ReloadMethod, elevated: bool) -> (b: bool)
    ensures
        b == (auto_reload && method == ReloadMethod::Deferred && !elevated),
{
    auto_reload && matches!(method, ReloadMethod::Deferred) && !elevated
}

} // verus!
