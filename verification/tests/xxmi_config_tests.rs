use eous_modify::xxmi_config::{d3dx_ini_path, rewrite};

const KEY: &str = "check_foreground_window";

const SHIPPED: &str = "[Include]\nfoo = bar\n\n[System]\nload_library_redirect = 2\n\n; Only enable key input processing when the game is in the foreground:\ncheck_foreground_window = 1\n";

#[test]
fn xxmi_config_d3dx_ini_sits_beside_the_mods_folder() {
    let path = d3dx_ini_path(r"C:\XXMI\ZZMI\Mods").unwrap();
    assert_eq!(path, r"C:\XXMI\ZZMI\d3dx.ini");
}

#[test]
fn enabling_zeroes_the_key_and_records_the_old_value() {
    let out = rewrite(SHIPPED, true);
    assert!(out.contains("check_foreground_window = 0   ; managed by Eous Modify, was 1"));
    assert!(!out.contains("check_foreground_window = 1"));
    assert!(out.contains("load_library_redirect = 2"));
    assert!(out.contains("[Include]"));
}

#[test]
fn enabling_twice_does_not_stack_markers() {
    let once = rewrite(SHIPPED, true);
    let twice = rewrite(&once, true);
    assert_eq!(once, twice);
}

#[test]
fn disabling_restores_the_recorded_value() {
    let enabled = rewrite(SHIPPED, true);
    assert_eq!(rewrite(&enabled, false), SHIPPED);
}

#[test]
fn enabling_leaves_a_users_own_zero_alone() {
    let already = SHIPPED.replace("check_foreground_window = 1", "check_foreground_window = 0");
    assert_eq!(rewrite(&already, true), already);
}

#[test]
fn disabling_never_touches_a_line_we_did_not_write() {
    assert_eq!(rewrite(SHIPPED, false), SHIPPED);
}

#[test]
fn adds_the_key_inside_an_existing_system_section() {
    let no_key = "[System]\nload_library_redirect = 2\n\n[Logging]\ncalls = 1\n";
    let out = rewrite(no_key, true);
    let system_at = out.find("[System]").unwrap();
    let logging_at = out.find("[Logging]").unwrap();
    let key_at = out.find(KEY).unwrap();
    assert!(system_at < key_at && key_at < logging_at, "key must land inside [System]:\n{out}");
    assert_eq!(rewrite(&out, false), no_key);
}

#[test]
fn creates_a_system_section_when_the_file_has_none() {
    let out = rewrite("[Logging]\ncalls = 1\n", true);
    assert!(out.contains("[System]"));
    assert!(out.contains("check_foreground_window = 0"));
    assert_eq!(rewrite(&out, false), "[Logging]\ncalls = 1\n\n[System]\n");
}

#[test]
fn ignores_the_key_outside_the_system_section() {
    let elsewhere = "[Logging]\ncheck_foreground_window = 1\n\n[System]\nload_library_redirect = 2\n";
    let out = rewrite(elsewhere, true);
    assert!(out.contains("[Logging]\ncheck_foreground_window = 1"), "{out}");
}

#[test]
fn ignores_a_commented_out_key() {
    let commented = "[System]\n;check_foreground_window = 1\n";
    let out = rewrite(commented, true);
    assert!(out.contains(";check_foreground_window = 1"));
    assert!(out.contains("check_foreground_window = 0   ; managed by Eous Modify, was absent"));
}

#[test]
fn xxmi_config_preserves_crlf_line_endings() {
    let crlf = SHIPPED.replace('\n', "\r\n");
    let out = rewrite(&crlf, true);
    assert!(!out.contains('\n') || out.contains("\r\n"));
    assert_eq!(out.matches('\n').count(), out.matches("\r\n").count());
    assert_eq!(rewrite(&out, false), crlf);
}

#[test]
fn enabling_records_the_value_before_a_trailing_comment() {
    let contents = "[SYSTEM]\nCheck_Foreground_Window=1 ; comment\n";
    assert_eq!(
        rewrite(contents, true),
        "[SYSTEM]\ncheck_foreground_window = 0   ; managed by Eous Modify, was 1\n"
    );
}

#[test]
fn enabling_only_looks_at_the_first_system_section() {
    let contents = "[System]\nx = 1\n[System]\ncheck_foreground_window = 1\n";
    assert_eq!(
        rewrite(contents, true),
        "[System]\nx = 1\ncheck_foreground_window = 0   ; managed by Eous Modify, was absent\n[System]\ncheck_foreground_window = 1\n"
    );
}

#[test]
fn enabling_twice_changes_nothing_in_any_shape_of_file() {
    for contents in [
        "",
        "[Logging]\ncalls = 1\n",
        "[System]\nload_library_redirect = 2\n\n[Logging]\ncalls = 1\n",
        "[System]\r\ncheck_foreground_window=1 ; note\r\n",
        "[System]\ncheck_foreground_window = 0",
    ] {
        let once = rewrite(contents, true);
        assert_eq!(rewrite(&once, true), once, "{contents:?}");
    }
}

#[test]
fn disabling_after_enabling_writes_the_value_back_in_full_form() {
    let compact = "[System]\ncheck_foreground_window=1\n";
    let round = rewrite(&rewrite(compact, true), false);
    assert_eq!(round, "[System]\ncheck_foreground_window = 1\n");
    let no_system = "[Logging]\ncalls = 1";
    assert_eq!(rewrite(&rewrite(no_system, true), false), "[Logging]\ncalls = 1\n\n[System]");
}

#[test]
fn a_users_value_reading_absent_is_taken_for_the_apps_record() {
    let odd = "[System]\ncheck_foreground_window = absent\n";
    let round = rewrite(&rewrite(odd, true), false);
    assert_eq!(round, "[System]\n");
}

#[test]
fn disabling_after_enabling_gives_back_the_file() {
    for contents in [
        "[Loader]\ntarget = ZenlessZoneZero.exe\n\n[System]\ncheck_foreground_window = 1\nhunting = 0\n",
        "[System]\r\n; comment\r\ncheck_foreground_window = 2\r\n[Other]\r\nx = 1",
        "[System]\ncheck_foreground_window = 0 ; mine\n",
        "[System]\nhunting = 0\n\n[Other]\ncheck_foreground_window = 1\n",
        "[System]\nhunting = 0",
    ] {
        let on = rewrite(contents, true);
        assert_eq!(on == contents, contents.contains("= 0 ; mine"));
        assert_eq!(rewrite(&on, false), contents);
    }
}

#[test]
fn enabling_twice_changes_nothing_when_the_file_ends_in_a_bare_cr() {
    for contents in [
        "[System]\ncheck_foreground_window = 1\nx = 1\r",
        "[System]\nx = 1\n[Other]\ny = 2\r",
        "[System]\ncheck_foreground_window = 0\r",
    ] {
        let once = rewrite(contents, true);
        assert_eq!(rewrite(&once, true), once);
    }
}
