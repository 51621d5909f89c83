use eous_modify::scanner::{
    climb_stops, is_single_mod_wrapper, known_ids, packs_to_group, placement_for, fixed_disabled_name, is_structural_folder, next_climb, pack_action, pack_folder_of, pack_group_name,
    recorded_folder_name, scan_summary, PackAction, ScanCounts,
};
use eous_modify::seed::{other_item_name, other_item_slug, slugify, stale_slugs};

#[test]
fn slugs_keep_letters_and_digits_with_single_dashes() {
    assert_eq!(slugify("Astra Yao"), "astra-yao");
    assert_eq!(slugify("  --Soldier 11!! "), "soldier-11");
    assert_eq!(slugify("Zhu Yuan (Alt)"), "zhu-yuan-alt");
    assert_eq!(slugify("???"), "");
    assert_eq!(slugify("Ellen"), "ellen");
}

#[test]
fn layout_folders_are_structural() {
    assert!(is_structural_folder("agents/ellen", false, false));
    assert!(is_structural_folder("Misc", false, false));
    assert!(is_structural_folder("_uncategorized", false, false));
    assert!(is_structural_folder("Bangboo Things", true, false));
    assert!(is_structural_folder("ellen", false, true));
    assert!(!is_structural_folder("Ellen Shining Eridu", false, false));
    assert!(!is_structural_folder("misc/pack", false, false));
    assert!(!is_structural_folder("agents/ellen/skin", false, false));
}

#[test]
fn a_pack_is_the_non_layout_folder_a_mod_arrived_in() {
    assert_eq!(
        pack_folder_of("misc/Icon Sticker/Character Menu", false, false),
        Some("misc/Icon Sticker".to_string())
    );
    assert_eq!(pack_folder_of("agents/ellen/Bassist Ellen", false, false), None);
    assert_eq!(pack_folder_of("Loose", false, false), None);
    assert_eq!(pack_folder_of("misc/Thing", false, false), None);
}

#[test]
fn the_climb_stops_at_the_mods_folder() {
    assert_eq!(
        next_climb(r"C:\Mods\Astra Shining Eridu\skin01", r"C:\Mods"),
        Some((r"C:\Mods\Astra Shining Eridu".to_string(), "Astra Shining Eridu".to_string()))
    );
    assert_eq!(next_climb(r"C:\Mods\skin01", r"C:\Mods"), None);
    assert_eq!(next_climb(r"D:\Other\a\b", r"C:\Mods"), None);
    assert_eq!(
        next_climb(r"C:\Mods\misc\pack\x", r"C:\Mods"),
        Some((r"C:\Mods\misc\pack".to_string(), "misc\\pack".to_string()))
    );
}

#[test]
fn a_disabled_folder_without_the_underscore_is_respelled() {
    assert_eq!(fixed_disabled_name("DISABLEDBrokenPrefix"), Some("DISABLED_BrokenPrefix".to_string()));
    assert_eq!(fixed_disabled_name("DISABLED_AlreadyCorrect"), None);
    assert_eq!(fixed_disabled_name("RandomModWithNoHints"), None);
    assert_eq!(fixed_disabled_name("DISABLED"), Some("DISABLED_".to_string()));
    let respelled = fixed_disabled_name("DISABLEDx").unwrap();
    assert_eq!(fixed_disabled_name(&respelled), None);
}

#[test]
fn a_mod_is_recorded_without_its_disabled_prefix() {
    assert_eq!(recorded_folder_name(r"agents\ellen\DISABLED_Skin"), "agents/ellen/Skin");
    assert_eq!(recorded_folder_name("DISABLED_AlreadyCorrect"), "AlreadyCorrect");
    assert_eq!(recorded_folder_name("Enemies/RandomReskin"), "Enemies/RandomReskin");
}

#[test]
fn a_packs_group_is_named_after_its_folder_and_made_for_two_or_more() {
    assert_eq!(pack_group_name("misc/Icon Sticker"), "Icon Sticker");
    assert_eq!(pack_group_name("Icon Sticker"), "Icon Sticker");
    assert_eq!(pack_action(0, Some(4)), PackAction::Skip);
    assert_eq!(pack_action(1, Some(4)), PackAction::Join(4));
    assert_eq!(pack_action(1, None), PackAction::Skip);
    assert_eq!(pack_action(3, None), PackAction::Create);
}

#[test]
fn the_scan_reports_each_count_on_its_own_line() {
    let counts = ScanCounts {
        processed: 5,
        added: 4,
        remapped: 0,
        moved: 3,
        grouped: 2,
        pruned: 1,
        renamed: 1,
        errors: 0,
    };
    assert_eq!(
        scan_summary(counts),
        "Processed 5 mod folders.\nAdded 4 new mods.\nMapped 0 mods to an agent.\nMoved 3 folders into place.\nGrouped 2 mods that arrived together.\nPruned 1 missing mods.\nRenamed 1 folders.\n0 errors."
    );
}

#[test]
fn every_category_keeps_a_catch_all_item() {
    assert_eq!(other_item_slug("ui"), "ui-other");
    assert_eq!(other_item_name("UI"), "Other UI");
    let existing = vec!["ui-hud".to_string(), "ui-other".to_string(), "ui-old".to_string()];
    let defined = vec!["ui-hud".to_string(), other_item_slug("ui")];
    assert_eq!(stale_slugs(&existing, &defined), vec!["ui-old".to_string()]);
}

#[test]
fn slugs_are_words_joined_by_single_dashes() {
    for input in ["Astra Yao", "--x--y--", "Zhu Yuan (Alt)", "a", ""] {
        let s = slugify(input);
        assert!(!s.starts_with('-') && !s.ends_with('-') && !s.contains("--"), "{s}");
        assert!(s.chars().all(|c| c.is_ascii_alphanumeric() || c == '-'), "{s}");
    }
}

#[test]
fn a_wrapper_holds_one_folder_and_no_ini_of_its_own() {
    assert!(is_single_mod_wrapper(false, 1));
    assert!(!is_single_mod_wrapper(true, 1));
    assert!(!is_single_mod_wrapper(false, 2));
    assert!(climb_stops(true, true));
    assert!(climb_stops(false, false));
    assert!(!climb_stops(false, true));
}

#[test]
fn found_folders_are_matched_to_recorded_mods_by_name() {
    let existing = vec![(4, "agents/ellen/Skin".to_string()), (9, "Other".to_string())];
    let found = vec!["Other".to_string(), "New".to_string(), "agents/ellen/Skin".to_string()];
    assert_eq!(known_ids(&existing, &found), vec![Some(9), None, Some(4)]);
}

#[test]
fn packs_of_two_or_more_are_grouped_in_first_seen_order() {
    let packs = vec![
        Some("B".to_string()),
        None,
        Some("A".to_string()),
        Some("B".to_string()),
        Some("C".to_string()),
        Some("A".to_string()),
    ];
    assert_eq!(
        packs_to_group(&packs),
        vec![("B".to_string(), vec![0, 3]), ("A".to_string(), vec![2, 5])]
    );
}

#[test]
fn a_known_mod_without_an_agent_is_mapped_when_one_is_deduced() {
    assert_eq!(placement_for((None, Some(2), Some(3)), Some(7)), ((Some(7), None, None), true));
    assert_eq!(placement_for((None, Some(2), Some(3)), None), ((None, Some(2), Some(3)), false));
    assert_eq!(placement_for((Some(1), None, None), Some(7)), ((Some(1), None, None), false));
}

#[test]
fn slugifying_a_slug_changes_nothing() {
    for s in ["Ellen Joe", "  Qingyi!! (v2) ", "--x--", "\u{c4}B c", "\u{212a}elvin"] {
        let once = slugify(s);
        assert!(once.chars().all(|c| c.is_ascii_lowercase() || c.is_ascii_digit() || c == '-'));
        assert_eq!(slugify(&once), once);
    }
}
