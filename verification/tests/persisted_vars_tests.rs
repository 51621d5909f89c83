use eous_modify::persisted_vars::{
    belongs_to, extract, merge, path_namespaces, split_var_line, user_config_path,
};

const USER_INI: &str = "; AUTOMATICALLY GENERATED FILE - DO NOT EDIT\n\n[Constants]\n$\\zzmiv1\\first_run = 0\n$\\mods\\robot aria\\ariahumanzzz.ini\\wholeb2 = 1\n$\\mods\\robot aria\\ariahumanzzz.ini\\facea2 = 3\n$\\maximiliumm\\belle_summer\\hat = 1\n";

fn aria_ns() -> Vec<String> {
    vec!["\\mods\\robot aria\\ariahumanzzz.ini".to_string()]
}

#[test]
fn user_config_sits_beside_the_mods_folder() {
    let path = user_config_path(r"C:\XXMI\ZZMI\Mods").unwrap();
    assert_eq!(path, r"C:\XXMI\ZZMI\d3dx_user.ini");
}

#[test]
fn extracts_only_the_mods_own_variables() {
    let vars = extract(USER_INI, &aria_ns());
    assert_eq!(
        vars,
        vec![
            ("$\\mods\\robot aria\\ariahumanzzz.ini\\wholeb2".to_string(), "1".to_string()),
            ("$\\mods\\robot aria\\ariahumanzzz.ini\\facea2".to_string(), "3".to_string()),
        ]
    );
}

#[test]
fn ignores_a_mod_with_its_own_namespace() {
    let vars = extract(USER_INI, &vec!["\\mods\\belle summer togglesss".to_string()]);
    assert!(vars.is_empty());
}

#[test]
fn does_not_match_a_folder_that_merely_shares_a_prefix() {
    let vars = extract(USER_INI, &vec!["\\mods\\robot".to_string()]);
    assert!(vars.is_empty(), "\\mods\\robot must not swallow \\mods\\robot aria\\…");
}

#[test]
fn restoring_replaces_an_existing_value_rather_than_duplicating_it() {
    let vars = vec![("$\\mods\\robot aria\\ariahumanzzz.ini\\facea2".to_string(), "7".to_string())];
    let out = merge(USER_INI, &vars);
    assert!(out.contains("facea2 = 7"));
    assert!(!out.contains("facea2 = 3"));
    assert_eq!(out.matches("facea2").count(), 1);
    assert!(out.contains("$\\zzmiv1\\first_run = 0"));
    assert!(out.contains("$\\maximiliumm\\belle_summer\\hat = 1"));
    assert_eq!(out.lines().count(), USER_INI.lines().count());
}

#[test]
fn restoring_adds_a_missing_variable_inside_constants() {
    let without = "; header\n\n[Constants]\n$\\zzmiv1\\first_run = 0\n\n[Present]\nfoo = bar\n";
    let vars = vec![("$\\mods\\robot aria\\ariahumanzzz.ini\\facea2".to_string(), "2".to_string())];
    let out = merge(without, &vars);

    let constants_at = out.find("[Constants]").unwrap();
    let present_at = out.find("[Present]").unwrap();
    let var_at = out.find("facea2").unwrap();
    assert!(constants_at < var_at && var_at < present_at, "must land inside [Constants]:\n{out}");
}

#[test]
fn creates_constants_when_the_file_is_empty() {
    let vars = vec![("$\\mods\\x\\y.ini\\v".to_string(), "1".to_string())];
    let out = merge("", &vars);
    assert!(out.contains("[Constants]"));
    assert!(out.contains("$\\mods\\x\\y.ini\\v = 1"));
}

#[test]
fn snapshot_then_restore_round_trips() {
    let saved = extract(USER_INI, &aria_ns());
    let purged: String = USER_INI
        .lines()
        .filter(|l| {
            let key = split_var_line(l).map(|(k, _)| k).unwrap_or_default();
            !belongs_to(&key, &aria_ns())
        })
        .map(|l| format!("{l}\n"))
        .collect();
    assert!(!purged.contains("facea2"));

    let restored = merge(&purged, &saved);
    assert!(restored.contains("$\\mods\\robot aria\\ariahumanzzz.ini\\facea2 = 3"));
    assert!(restored.contains("$\\mods\\robot aria\\ariahumanzzz.ini\\wholeb2 = 1"));
}

#[test]
fn persisted_vars_preserves_crlf_line_endings() {
    let crlf = USER_INI.replace('\n', "\r\n");
    let vars = vec![("$\\mods\\robot aria\\ariahumanzzz.ini\\facea2".to_string(), "9".to_string())];
    let out = merge(&crlf, &vars);
    assert_eq!(out.matches('\n').count(), out.matches("\r\n").count());
}

#[test]
fn merging_nothing_leaves_the_file_untouched() {
    assert_eq!(merge(USER_INI, &[]), USER_INI);
}

#[test]
fn namespaces_are_the_lowercased_ini_paths_under_the_game_folder() {
    let inis = vec![
        r"C:\XXMI\ZZMI\Mods\Robot Aria\AriaHumanZZZ.ini".to_string(),
        r"C:\XXMI\ZZMI\Mods\Robot Aria\Parts\Hat.INI".to_string(),
        r"D:\Elsewhere\x.ini".to_string(),
    ];
    assert_eq!(
        path_namespaces(r"C:\XXMI\ZZMI\Mods", &inis),
        vec![
            "\\mods\\robot aria\\ariahumanzzz.ini".to_string(),
            "\\mods\\robot aria\\parts\\hat.ini".to_string(),
        ]
    );
    assert!(path_namespaces("", &inis).is_empty());
}

#[test]
fn keys_are_matched_case_insensitively_and_lines_split_at_the_first_equals() {
    assert_eq!(
        split_var_line("  $\\Mods\\A\\b.ini\\v =  x = y "),
        Some(("$\\Mods\\A\\b.ini\\v".to_string(), "x = y".to_string()))
    );
    assert_eq!(split_var_line("x = 1"), None);
    assert_eq!(split_var_line("$novalue"), None);
    assert!(belongs_to("$\\Mods\\A\\b.ini\\v", &vec!["\\mods\\a\\B.ini".to_string()]));
    assert!(!belongs_to("$\\mods\\a\\b.ini", &vec!["\\mods\\a\\b.ini".to_string()]));
}

#[test]
fn merging_replaces_keys_in_any_ascii_case_and_appends_where_the_last_closed_constants_ends() {
    let contents = "[Constants]\n$\\A = 1\n[Other]\nx = 1\n[Constants]\n$\\b = 2\n";
    let vars = vec![
        ("$\\a".to_string(), "5".to_string()),
        ("$\\new".to_string(), "9".to_string()),
    ];
    assert_eq!(
        merge(contents, &vars),
        "[Constants]\n$\\a = 5\n$\\new = 9\n[Other]\nx = 1\n[Constants]\n$\\b = 2\n"
    );
    assert_eq!(merge("[Other]\nx = 1", &vars[1..]), "[Other]\nx = 1\n[Constants]\n$\\new = 9");
}

#[test]
fn restored_variables_read_back_whatever_the_file_held() {
    let vars = vec![
        ("$\\mods\\robot aria\\ariahumanzzz.ini\\wholeb2".to_string(), "0".to_string()),
        ("$\\mods\\robot aria\\ariahumanzzz.ini\\newvar".to_string(), "2".to_string()),
    ];
    for contents in [USER_INI, "", "[Other]\r\nx = 1\r\n"] {
        let back = extract(&merge(contents, &vars), &aria_ns());
        for v in &vars {
            assert!(back.contains(v), "{:?} missing after merging into {:?}", v, contents);
        }
    }
}

#[test]
fn a_mods_folder_ending_in_a_dot_component_keeps_the_mods_prefix() {
    let inis = vec![r"C:\G\Mods\.\Robot Aria\AriaHumanZZZ.ini".to_string()];
    assert_eq!(path_namespaces(r"C:\G\Mods\.", &inis), vec![r"\mods\robot aria\ariahumanzzz.ini".to_string()]);
    assert_eq!(user_config_path(r"C:\G\Mods\.").as_deref(), Some(r"C:\G\d3dx_user.ini"));
}
