use eous_modify::keybinds::{add_new_keybinds, parse_keybinds_from_ini, KeybindInfo};

#[test]
fn parses_the_key_sections_a_mod_declares() {
    let ini = r#"
[Mod]
Name = Test Mod

; Constants
[Constants]
global persist $active = 0

[KeySwap]
key = ]
type = cycle
$active = 0,1

[KeyToggleHat]
key = h
type = toggle
$hat_on = 0,1
"#;
    let keybinds = parse_keybinds_from_ini(ini);
    assert_eq!(
        keybinds,
        vec![
            KeybindInfo { title: "KeySwap".to_string(), key: "]".to_string() },
            KeybindInfo { title: "KeyToggleHat".to_string(), key: "h".to_string() },
        ]
    );
}

#[test]
fn parses_a_mod_that_writes_constants_as_a_section_rather_than_a_comment() {
    let ini = r#"
namespace = RabbitFX
; RabbitFX -Zenless Zone Zero- Version 7.7

[Constants]
persist global $censor = 0

[KeyCensor]
key = no_modifiers \
type = cycle
$censor = 0,1
"#;
    assert_eq!(
        parse_keybinds_from_ini(ini),
        vec![KeybindInfo { title: "KeyCensor".to_string(), key: r"no_modifiers \".to_string() }]
    );
}

#[test]
fn parses_a_mod_with_no_constants_line_at_all() {
    let ini = r#"
[KeySwap_0]
condition = $active0 == 1
key = O
type = cycle
"#;
    assert_eq!(
        parse_keybinds_from_ini(ini),
        vec![KeybindInfo { title: "KeySwap_0".to_string(), key: "O".to_string() }]
    );
}

#[test]
fn parses_a_key_section_sitting_above_the_constants_comment() {
    let ini = r#"
[KeyBefore]
key = x

; Constants
[KeyAfter]
key = y
"#;
    assert_eq!(
        parse_keybinds_from_ini(ini),
        vec![
            KeybindInfo { title: "KeyBefore".to_string(), key: "x".to_string() },
            KeybindInfo { title: "KeyAfter".to_string(), key: "y".to_string() },
        ]
    );
}

#[test]
fn a_commented_out_section_declares_nothing() {
    let ini = ";[KeySwap]\nkey = x\n";
    assert!(parse_keybinds_from_ini(ini).is_empty());
}

#[test]
fn sections_and_keys_are_matched_in_any_case_and_empty_values_dropped() {
    let ini = "[  keyToggle  ]\r\nKEY =  F6  \r\nkey =\r\nkeyless line\r\n[Other]\r\nkey = z\r\n";
    assert_eq!(
        parse_keybinds_from_ini(ini),
        vec![KeybindInfo { title: "keyToggle".to_string(), key: "F6".to_string() }]
    );
}

#[test]
fn the_value_is_everything_after_the_first_equals_sign() {
    let ini = "[KeyA]\nkey = ctrl = alt\n";
    assert_eq!(
        parse_keybinds_from_ini(ini),
        vec![KeybindInfo { title: "KeyA".to_string(), key: "ctrl = alt".to_string() }]
    );
}

#[test]
fn a_keybind_repeated_across_inis_is_kept_once() {
    let first = parse_keybinds_from_ini("[KeySwap]\nkey = VK_F1\n[KeyHat]\nkey = h\n");
    let second = parse_keybinds_from_ini("[KeySwap]\nkey = VK_F1\n[KeyBody]\nkey = b\n");
    let all = add_new_keybinds(add_new_keybinds(Vec::new(), first), second);
    let keys: Vec<(&str, &str)> = all.iter().map(|k| (k.title.as_str(), k.key.as_str())).collect();
    assert_eq!(keys, vec![("KeySwap", "VK_F1"), ("KeyHat", "h"), ("KeyBody", "b")]);
}
