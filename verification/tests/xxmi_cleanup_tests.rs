use eous_modify::xxmi_cleanup::{d3dx_ini_path, revert};

const KEY: &str = "check_foreground_window";
const MARKER: &str = "; managed by Eous Modify, was ";
const WAS_ABSENT: &str = "absent";

const SHIPPED: &str = "[Include]\nfoo = bar\n\n[System]\nload_library_redirect = 2\n\n; Only enable key input processing when the game is in the foreground:\ncheck_foreground_window = 1\n";

fn managed(previous: &str) -> String {
    SHIPPED.replace("check_foreground_window = 1", &format!("{KEY} = 0   {MARKER}{previous}"))
}

#[test]
fn xxmi_cleanup_d3dx_ini_sits_beside_the_mods_folder() {
    let path = d3dx_ini_path(r"C:\XXMI\ZZMI\Mods").unwrap();
    assert_eq!(path, r"C:\XXMI\ZZMI\d3dx.ini");
}

#[test]
fn restores_the_recorded_value() {
    assert_eq!(revert(&managed("1")), SHIPPED);
}

#[test]
fn removes_a_line_that_was_not_there_before() {
    let out = revert(&managed(WAS_ABSENT));
    assert!(!out.contains(KEY));
    assert!(out.contains("load_library_redirect = 2"));
}

#[test]
fn never_touches_a_line_we_did_not_write() {
    assert_eq!(revert(SHIPPED), SHIPPED);
    let theirs = SHIPPED.replace("check_foreground_window = 1", "check_foreground_window = 0");
    assert_eq!(revert(&theirs), theirs);
}

#[test]
fn running_twice_changes_nothing_further() {
    let once = revert(&managed("1"));
    assert_eq!(revert(&once), once);
}

#[test]
fn xxmi_cleanup_preserves_crlf_line_endings() {
    let crlf = managed("1").replace('\n', "\r\n");
    let out = revert(&crlf);
    assert!(out.contains("\r\n"));
    assert_eq!(out, SHIPPED.replace('\n', "\r\n"));
}

#[test]
fn leaves_a_matching_key_outside_the_system_section_alone() {
    let elsewhere = format!("[Other]\n{KEY} = 0   {MARKER}1\n");
    assert_eq!(revert(&elsewhere), elsewhere);
}

#[test]
fn every_marked_key_line_in_system_is_reverted_in_one_pass() {
    let two = format!("[system]\n{KEY} = 0   {MARKER}1\n{KEY} = 0   {MARKER}0\n{KEY} = 1\n");
    assert_eq!(revert(&two), format!("[system]\n{KEY} = 1\n{KEY} = 0\n{KEY} = 1\n"));
    let absent_then_one = format!("[System]\n{KEY} = 0   {MARKER}absent\n{KEY} = 0   {MARKER}1\n");
    let once = revert(&absent_then_one);
    assert_eq!(once, format!("[System]\n{KEY} = 1\n"));
    assert_eq!(revert(&once), once);
}

#[test]
fn a_file_without_a_final_newline_keeps_that_shape() {
    let contents = format!("[System]\n{KEY} = 0   {MARKER}  1  ");
    assert_eq!(revert(&contents), format!("[System]\n{KEY} = 1"));
    assert_eq!(revert(""), "");
}

#[test]
fn the_mods_folder_at_a_root_has_no_parent() {
    assert_eq!(d3dx_ini_path(r"C:\"), None);
    assert_eq!(d3dx_ini_path(""), None);
    assert_eq!(d3dx_ini_path(r"C:\Mods"), Some(r"C:\d3dx.ini".to_string()));
    assert_eq!(d3dx_ini_path("Mods"), Some("d3dx.ini".to_string()));
    assert_eq!(d3dx_ini_path("/games/zzmi/Mods/"), Some("/games/zzmi\\d3dx.ini".to_string()));
}

#[test]
fn a_share_root_has_no_parent_but_a_folder_on_it_does() {
    assert_eq!(d3dx_ini_path(r"\\server\share"), None);
    assert_eq!(d3dx_ini_path(r"\\server\share\"), None);
    assert_eq!(d3dx_ini_path(r"\\server\share\Mods").as_deref(), Some(r"\\server\share\d3dx.ini"));
    assert_eq!(d3dx_ini_path(r"\\server\share\ZZMI\Mods").as_deref(), Some(r"\\server\share\ZZMI\d3dx.ini"));
}

#[test]
fn reverting_twice_changes_nothing_when_the_file_ends_in_a_bare_cr() {
    let contents = "[System]\ncheck_foreground_window = 0   ; managed by Eous Modify, was 1\nx = 1\r";
    let once = revert(contents);
    assert_eq!(once, "[System]\ncheck_foreground_window = 1\nx = 1\r");
    assert_eq!(revert(&once), once);
}

#[test]
fn a_trailing_dot_component_is_no_folder_of_its_own() {
    assert_eq!(d3dx_ini_path(r"C:\G\Mods\.").as_deref(), Some(r"C:\G\d3dx.ini"));
    assert_eq!(d3dx_ini_path("a/b/.").as_deref(), Some(r"a\d3dx.ini"));
    assert_eq!(d3dx_ini_path(r"C:\G\Mods\.\").as_deref(), Some(r"C:\G\d3dx.ini"));
    assert_eq!(d3dx_ini_path(r"C:\.\Mods").as_deref(), Some(r"C:\d3dx.ini"));
}

#[test]
fn a_line_whose_first_bytes_cut_a_character_is_no_key_line() {
    let contents = "[System]\ncheck_foreground_window = 0   ; managed by Eous Modify, was 1\nabcdefghijklmnopqrstuv\u{e9}xyz = 1\n";
    assert_eq!(revert(contents), "[System]\ncheck_foreground_window = 1\nabcdefghijklmnopqrstuv\u{e9}xyz = 1\n");
}
