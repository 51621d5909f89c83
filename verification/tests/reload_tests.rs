use eous_modify::elevation::{classify_shell_execute, restart_elevated, restart_result, running_as_admin, RunAsError};
use eous_modify::launcher::{
    is_xxmi_launcher, launch_args, launch_elevated, launch_elevated_result, needs_elevation,
    spawn_failure,
};
use eous_modify::reload::{
    adopt_default_method, any_game_process, auto_reload_from, d3dx_sync, game_is_focused,
    plan_reload, reload_method_from, wants_background_hotkeys, watch_step, D3dxSync, ReloadMethod,
    ReloadRequest, WatchStep,
};
use eous_modify::toggle::{needs_flush, to_restore, to_snapshot, Flip};

#[test]
fn only_an_explicit_immediate_picks_immediate() {
    assert_eq!(reload_method_from(Some("immediate")), ReloadMethod::Immediate);
    assert_eq!(reload_method_from(Some("Immediate")), ReloadMethod::Deferred);
    assert_eq!(reload_method_from(None), ReloadMethod::Deferred);
    assert!(auto_reload_from(Some("true")));
    assert!(!auto_reload_from(Some("yes")));
    assert!(!auto_reload_from(None));
}

#[test]
fn background_hotkeys_only_for_immediate_with_the_switch_on() {
    assert!(wants_background_hotkeys(true, ReloadMethod::Immediate));
    assert!(!wants_background_hotkeys(true, ReloadMethod::Deferred));
    assert!(!wants_background_hotkeys(false, ReloadMethod::Immediate));
}

#[test]
fn adopting_the_default_turns_an_old_switch_off_once() {
    assert_eq!(adopt_default_method(true, true), vec![]);
    assert_eq!(adopt_default_method(false, false), vec![("reload_method", "deferred")]);
    assert_eq!(
        adopt_default_method(false, true),
        vec![("reload_method", "deferred"), ("auto_reload_on_toggle", "false")]
    );
}

#[test]
fn syncing_d3dx_without_a_mods_folder_only_fails_when_wanted() {
    assert_eq!(d3dx_sync(false, None), Ok(D3dxSync::Nothing));
    assert_eq!(
        d3dx_sync(true, None),
        Err("Set your Mods folder in Settings first \u{2014} that's how Eous finds d3dx.ini.".to_string())
    );
    assert_eq!(
        d3dx_sync(true, Some(r"C:\Mods")),
        Ok(D3dxSync::Apply { mods_folder: r"C:\Mods".to_string(), enable: true })
    );
}

#[test]
fn the_game_or_the_configured_launcher_counts_as_the_game() {
    assert!(game_is_focused(Some("zenlesszonezero.exe"), None));
    assert!(game_is_focused(Some("xxmi launcher.exe"), Some(r"C:\XXMI\XXMI Launcher.exe")));
    assert!(!game_is_focused(Some("notepad.exe"), Some(r"C:\XXMI\XXMI Launcher.exe")));
    assert!(!game_is_focused(None, None));
    let names = vec!["explorer.exe".to_string(), "zenlesszonezero.exe".to_string()];
    assert!(any_game_process(&names, None));
    assert!(!any_game_process(&names[..1], None));
}

#[test]
fn reload_requests_and_the_watcher_decide_as_documented() {
    assert_eq!(plan_reload(ReloadMethod::Immediate), ReloadRequest::PressNow);
    assert_eq!(plan_reload(ReloadMethod::Deferred), ReloadRequest::Defer);
    assert_eq!(watch_step(false, true, true), WatchStep::Done);
    assert_eq!(watch_step(true, true, true), WatchStep::GiveUp);
    assert_eq!(watch_step(true, false, true), WatchStep::Press);
    assert_eq!(watch_step(true, false, false), WatchStep::Wait);
}

#[test]
fn runas_codes_are_classified() {
    assert_eq!(classify_shell_execute(42, 0), Ok(()));
    assert_eq!(classify_shell_execute(42, 1223), Ok(()));
    assert_eq!(classify_shell_execute(5, 1223), Err(RunAsError::Cancelled));
    assert_eq!(classify_shell_execute(5, 2), Err(RunAsError::Failed(5)));
    assert_eq!(classify_shell_execute(0, 0), Err(RunAsError::Failed(0)));
    assert_eq!(
        restart_result(Err(RunAsError::Failed(-31))),
        Err("Windows would not restart Eous as administrator (ShellExecuteW error -31).".to_string())
    );
    assert_eq!(restart_result(Err(RunAsError::Cancelled)), Err("Administrator permission was declined.".to_string()));
    assert_eq!(
        launch_elevated_result(Err(RunAsError::Failed(2))),
        Err("The game needs administrator privileges, and the elevated launch failed (ShellExecuteW error 2).".to_string())
    );
    assert_eq!(
        launch_elevated_result(Err(RunAsError::Cancelled)),
        Err("Launch cancelled \u{2014} administrator permission was declined.".to_string())
    );
    assert!(running_as_admin());
    assert_eq!(restart_elevated(), Err("This platform has nothing to restart into.".to_string()));
    assert!(launch_elevated("game.exe", &[]).is_err());
}

#[test]
fn launcher_flags_only_go_to_the_launcher() {
    assert!(is_xxmi_launcher(r"C:\XXMI\XXMI Launcher.exe"));
    assert!(!is_xxmi_launcher(r"C:\Games\ZenlessZoneZero.exe"));
    assert_eq!(launch_args(Some("true"), r"C:\XXMI\XXMI Launcher.exe"), vec!["--nogui", "--xxmi", "ZZMI"]);
    assert!(launch_args(Some("false"), r"C:\XXMI\XXMI Launcher.exe").is_empty());
    assert!(launch_args(Some("true"), r"C:\Games\ZenlessZoneZero.exe").is_empty());
    assert!(needs_elevation("The requested operation requires elevation. (os error 740)"));
    assert_eq!(spawn_failure("boom"), "Failed to spawn executable: boom");
}

#[test]
fn flips_decide_flush_snapshot_and_restore() {
    let flips = vec![
        Flip { mod_id: 1, folder_name: "a".to_string(), was_enabled: true },
        Flip { mod_id: 2, folder_name: "b".to_string(), was_enabled: false },
        Flip { mod_id: 3, folder_name: "c".to_string(), was_enabled: true },
    ];
    assert!(needs_flush(&flips, true));
    assert!(!needs_flush(&flips, false));
    assert!(!needs_flush(&flips[1..2], true));
    assert_eq!(to_snapshot(&flips), vec![(1, "a".to_string()), (3, "c".to_string())]);
    assert_eq!(to_restore(&flips), vec![2]);
}
