use eous_modify::archive::{
    agent_subpath, analysis_of, archive_kind, deduce_archive, ArchiveKind, category_item_subpath, entry_path, extraction_prefix, first_likely_root,
    import_folder_for, ini_hints, is_ini_entry, mark_likely_roots, mod_home, numbered_dir,
    pick_root_ini, preview_in_root, recorded_mod_path, sort_entries, unpack_target, ArchiveEntry,
    ModHome, UnpackTarget,
};

fn entry(path: &str, is_dir: bool) -> ArchiveEntry {
    ArchiveEntry { path: path.to_string(), is_dir, is_likely_mod_root: false }
}

fn listing() -> Vec<ArchiveEntry> {
    vec![
        entry("Skin/sub/extra.txt", false),
        entry("Skin/", true),
        entry("Skin/sub/", true),
        entry("Skin/Preview.PNG", false),
        entry("Skin/mod.ini", false),
        entry("readme.ini", false),
        entry("Other/", true),
        entry("Other/thumbnail.jpg", false),
    ]
}

#[test]
fn archive_paths_use_forward_slashes() {
    assert_eq!(entry_path(r"Skin\sub\mod.ini"), "Skin/sub/mod.ini");
    assert_eq!(entry_path("plain.txt"), "plain.txt");
}

#[test]
fn ini_entries_are_files_ending_in_ini_in_any_case() {
    assert!(is_ini_entry("Skin/Mod.INI", false));
    assert!(!is_ini_entry("Skin/mod.ini", true));
    assert!(!is_ini_entry("Skin/mod.ini.txt", false));
}

#[test]
fn entries_sort_by_path() {
    let sorted = sort_entries(listing());
    let paths: Vec<&str> = sorted.iter().map(|e| e.path.as_str()).collect();
    assert_eq!(
        paths,
        vec![
            "Other/",
            "Other/thumbnail.jpg",
            "Skin/",
            "Skin/Preview.PNG",
            "Skin/mod.ini",
            "Skin/sub/",
            "Skin/sub/extra.txt",
            "readme.ini",
        ]
    );
}

#[test]
fn a_folder_holding_an_ini_is_a_likely_root() {
    let marked = mark_likely_roots(sort_entries(listing()));
    let roots: Vec<&str> =
        marked.iter().filter(|e| e.is_likely_mod_root).map(|e| e.path.as_str()).collect();
    // A top-level .ini marks nothing, and a folder without one is not a root.
    assert_eq!(roots, vec!["Skin/"]);
    assert_eq!(marked.len(), 8);
}

#[test]
fn the_preview_is_found_in_any_case_and_in_candidate_order() {
    let marked = mark_likely_roots(sort_entries(listing()));
    let root = first_likely_root(&marked).unwrap();
    assert_eq!(marked[root].path, "Skin/");
    assert_eq!(preview_in_root(&marked, root), Some("Skin/preview.png".to_string()));
    let other = marked.iter().position(|e| e.path == "Other/").unwrap();
    assert_eq!(preview_in_root(&marked, other), Some("Other/thumbnail.jpg".to_string()));
}

#[test]
fn the_first_root_is_the_one_with_the_least_path() {
    let mut v = vec![entry("b/", true), entry("a/", true), entry("c/", true)];
    v[0].is_likely_mod_root = true;
    v[2].is_likely_mod_root = true;
    assert_eq!(first_likely_root(&v), Some(0));
    v[1].is_likely_mod_root = true;
    assert_eq!(first_likely_root(&v), Some(1));
    assert_eq!(first_likely_root(&vec![entry("a/", true)]), None);
}

#[test]
fn the_root_ini_lies_directly_in_the_root() {
    let prefix: Vec<char> = "Skin/".chars().collect();
    let paths = vec![
        "Skin/sub/deep.ini".to_string(),
        "Other/mod.ini".to_string(),
        "Skin/mod.ini".to_string(),
    ];
    assert_eq!(pick_root_ini(&paths, &prefix), Some(2));
    let none = vec!["Skin/sub/deep.ini".to_string()];
    assert_eq!(pick_root_ini(&none, &prefix), None);
}

#[test]
fn ini_metadata_comes_from_the_last_section_that_has_it() {
    let ini = "[Mod]\nName = First\nAuthor =  Someone  \n[Info]\nModName = Second\nCharacter = Ellen\n[General]\nCategory = UI\n";
    let hints = ini_hints(ini);
    assert_eq!(hints.names, vec!["First".to_string(), "Second".to_string()]);
    assert_eq!(hints.author, Some("Someone".to_string()));
    assert_eq!(hints.target, Some("Ellen".to_string()));
    assert_eq!(hints.kind, Some("UI".to_string()));
    let empty = ini_hints("[Other]\nName = x\n");
    assert!(empty.names.is_empty());
    assert_eq!(empty.author, None);
}

#[test]
fn an_imported_mods_folder_name_is_tidied() {
    assert_eq!(import_folder_for("  My 'Cool' Mod v1.2 "), Ok("My__Cool__Mod_v1_2".to_string()));
    assert_eq!(import_folder_for("   "), Err("Mod name cannot be empty.".to_string()));
}

#[test]
fn a_mod_lives_by_agent_then_item_then_category() {
    assert_eq!(mod_home(Some(1), Some(2), Some(3)), ModHome::Agent(1));
    assert_eq!(mod_home(None, Some(2), Some(3)), ModHome::CategoryItem(3));
    assert_eq!(mod_home(None, Some(2), None), ModHome::Category(2));
    assert_eq!(mod_home(None, None, None), ModHome::Misc);
}

#[test]
fn recorded_paths_use_forward_slashes() {
    assert_eq!(agent_subpath("ellen"), r"agents\ellen");
    assert_eq!(category_item_subpath("ui", "ui-other"), r"ui\ui-other");
    assert_eq!(recorded_mod_path(r"agents\ellen", "My_Skin"), "agents/ellen/My_Skin");
    assert_eq!(recorded_mod_path("misc", "X"), "misc/X");
}

#[test]
fn the_extraction_prefix_has_no_trailing_slash() {
    assert_eq!(extraction_prefix(Some(r"Skin\sub\")), "Skin/sub");
    assert_eq!(extraction_prefix(Some("")), "");
    assert_eq!(extraction_prefix(None), "");
}

#[test]
fn a_lone_archive_unpacks_where_it_is_and_several_get_their_own() {
    let one = vec![r"C:\m\inner.zip".to_string(), r"C:\m\sub\x.7z".to_string()];
    assert_eq!(unpack_target(&one, 0), Some(UnpackTarget::Here(r"C:\m".to_string())));
    let two = vec![r"C:\m\red.zip".to_string(), r"C:\m\blue.zip".to_string()];
    assert_eq!(unpack_target(&two, 0), Some(UnpackTarget::Own(r"C:\m\red".to_string())));
    assert_eq!(unpack_target(&two, 1), Some(UnpackTarget::Own(r"C:\m\blue".to_string())));
}

#[test]
fn vacant_folder_tries_are_numbered() {
    assert_eq!(numbered_dir(r"C:\m\skin01", 2), r"C:\m\skin01 (2)");
    assert_eq!(numbered_dir(r"C:\m\skin01", 13), r"C:\m\skin01 (13)");
}

#[test]
fn archives_are_read_by_their_extension_in_any_case() {
    assert_eq!(archive_kind(r"C:\dl\Skin.ZIP"), Ok(ArchiveKind::Zip));
    assert_eq!(archive_kind("pack.7z"), Ok(ArchiveKind::SevenZip));
    assert_eq!(archive_kind("pack.Rar"), Ok(ArchiveKind::Rar));
    assert_eq!(archive_kind("pack.TAR"), Err(Some("tar".to_string())));
    assert_eq!(archive_kind("pack"), Err(None));
}

#[test]
fn the_ini_target_hint_names_the_agent_before_anything_else() {
    let d = deduce_archive(
        &vec!["Summer Skin".to_string(), String::new()],
        Some("someone".to_string()),
        Some(7),
        Some((Some(3), 2)),
        &vec![Some(9)],
        Some(11),
        Some((None, 4)),
        Some("archive".to_string()),
    );
    assert_eq!(d.agent_id, Some(7));
    assert_eq!(d.category_id, None);
    assert_eq!(d.category_item_id, None);
    assert_eq!(d.name.as_deref(), Some("Summer Skin"));
    assert_eq!(d.author.as_deref(), Some("someone"));
}

#[test]
fn the_type_hint_names_the_category_and_file_stems_may_still_name_an_agent() {
    let d = deduce_archive(&vec![], None, None, Some((Some(3), 2)), &vec![None, Some(9), Some(5)], Some(11), None, Some("archive".to_string()));
    assert_eq!(d.agent_id, Some(9));
    assert_eq!(d.category_id, Some(2));
    assert_eq!(d.category_item_id, Some(3));
    assert_eq!(d.name.as_deref(), Some("archive"));
}

#[test]
fn the_archive_stem_is_tried_last_for_an_agent_then_a_category() {
    let d = deduce_archive(&vec![], None, None, None, &vec![None], Some(11), Some((None, 4)), None);
    assert_eq!((d.agent_id, d.category_id), (Some(11), None));
    let d = deduce_archive(&vec![], None, None, None, &vec![], None, Some((None, 4)), Some("x".to_string()));
    assert_eq!((d.agent_id, d.category_id, d.category_item_id), (None, Some(4), None));
    assert_eq!(d.name.as_deref(), Some("x"));
}

#[test]
fn the_analysis_carries_the_listing_preview_and_deduction() {
    let d = deduce_archive(&vec![], None, Some(1), None, &vec![], None, None, Some("Skin".to_string()));
    let a = analysis_of("dl/Skin.zip", vec![entry("Skin/mod.ini", false)], Some("Skin/preview.png".to_string()), d);
    assert_eq!(a.file_path, "dl/Skin.zip");
    assert_eq!(a.entries.len(), 1);
    assert_eq!(a.deduced_agent_id, Some(1));
    assert_eq!(a.deduced_name.as_deref(), Some("Skin"));
    assert_eq!(a.detected_preview_internal_path.as_deref(), Some("Skin/preview.png"));
}

#[test]
fn the_name_is_the_last_section_name_that_is_not_empty() {
    let names = vec!["First".to_string(), "Second".to_string(), String::new()];
    let d = deduce_archive(&names, None, None, None, &vec![], None, None, Some("archive".to_string()));
    assert_eq!(d.name.as_deref(), Some("Second"));
    let d = deduce_archive(&vec![String::new()], None, None, None, &vec![], None, None, Some("archive".to_string()));
    assert_eq!(d.name.as_deref(), Some("archive"));
}
