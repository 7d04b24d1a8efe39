use bzmm::catalog::{
    get_enabled_mods, read_mod_metadata, scan_for_deprecated_mods, sort_categories, Category, Mod,
    ModParser, ModsFile,
};
use bzmm::catalog::get_downloaded_mods;
use bzmm::enablement::{get_enabled_file_path, ModInstallation};
use bzmm::queue::SourceDir;

fn listed(name: &str, version: &str) -> Mod {
    Mod {
        name: name.to_string(),
        version: version.to_string(),
        url: Some(format!("http://example.com/{}.zip", name)),
        new_version: None,
        description: "from the catalog".to_string(),
    }
}

#[test]
fn a_differing_local_version_becomes_an_available_update() {
    let file = ModsFile {
        categories: vec![Category {
            name: "Essential".to_string(),
            sort_order: 1,
            mods: vec![listed("Test Mod", "1.0.1"), listed("Fresh Mod", "2.0")],
        }],
    };
    let locals = vec![("Test Mod".to_string(), "1.0.0".to_string())];
    let out = ModParser::check_for_updates(&file, &locals);
    let updated = &out.categories[0].mods[0];
    assert_eq!(updated.version, "1.0.0");
    assert_eq!(updated.new_version.as_deref(), Some("1.0.1"));
    // a mod that is not installed locally is untouched
    let fresh = &out.categories[0].mods[1];
    assert_eq!(fresh.version, "2.0");
    assert!(fresh.new_version.is_none());
}

#[test]
fn a_matching_local_version_is_no_update() {
    let file = ModsFile {
        categories: vec![Category {
            name: "Essential".to_string(),
            sort_order: 1,
            mods: vec![listed("Test Mod", "1.0.0")],
        }],
    };
    let locals = vec![("Test Mod".to_string(), "1.0.0".to_string())];
    let out = ModParser::check_for_updates(&file, &locals);
    let m = &out.categories[0].mods[0];
    assert_eq!(m.version, "1.0.0");
    assert!(m.new_version.is_none());
}

#[test]
fn metadata_falls_back_when_the_files_are_missing() {
    let m = read_mod_metadata("NiceMod", Some(" 3.1 \n"), Some(" a mod \n"), false);
    assert_eq!(m.name, "NiceMod");
    assert_eq!(m.version, "3.1");
    assert_eq!(m.description, "a mod");
    let fallback = read_mod_metadata("NiceMod", None, None, false);
    assert_eq!(fallback.version, "Unknown");
    assert_eq!(fallback.description, "Sideloaded mod: NiceMod");
    let dep = read_mod_metadata("OldMod", None, None, true);
    assert_eq!(dep.description, "Deprecated mod: OldMod");
}

#[test]
fn deprecated_are_the_local_mods_the_catalog_dropped() {
    let candidates = vec![listed("Kept", "1"), listed("Dropped", "2")];
    let active = vec!["Kept".to_string()];
    let cat = scan_for_deprecated_mods(&candidates, &active);
    assert_eq!(cat.name, "Deprecated");
    assert_eq!(cat.sort_order, -999);
    assert_eq!(cat.mods.len(), 1);
    assert_eq!(cat.mods[0].name, "Dropped");
}

#[test]
fn constructors_fix_the_category_names_and_keys() {
    let side = Category::new_sideloaded(Vec::new());
    assert_eq!(side.name, "Sideloaded");
    assert_eq!(side.sort_order, 0);
    let dep = Category::new_deprecated(Vec::new());
    assert_eq!(dep.name, "Deprecated");
    assert_eq!(dep.sort_order, -999);
    let m = Mod::new_sideloaded("A".to_string(), "1".to_string(), "d".to_string());
    assert!(m.url.is_none() && m.new_version.is_none());
}

#[test]
fn categories_sort_by_their_key_with_deprecated_first() {
    let cats = vec![
        Category { name: "B".to_string(), sort_order: 2, mods: Vec::new() },
        Category { name: "Deprecated".to_string(), sort_order: -999, mods: Vec::new() },
        Category { name: "A".to_string(), sort_order: 1, mods: Vec::new() },
    ];
    let sorted = sort_categories(&cats);
    assert_eq!(sorted.len(), 3);
    assert_eq!(sorted[0].name, "Deprecated");
    assert_eq!(sorted[1].name, "A");
    assert_eq!(sorted[2].name, "B");
}

#[test]
fn enabled_mods_are_those_with_the_profile_marker() {
    let on = ModInstallation {
        name: "On".to_string(),
        version_file: Some("1".to_string()),
        readme_file: Some("r".to_string()),
        payload: None,
        markers: vec![get_enabled_file_path("main")],
    };
    let off = ModInstallation {
        name: "Off".to_string(),
        version_file: Some("1".to_string()),
        readme_file: Some("r".to_string()),
        payload: None,
        markers: vec![get_enabled_file_path("other")],
    };
    let names = get_enabled_mods(&vec![on, off], "main");
    assert_eq!(names, vec!["On".to_string()]);
}

#[test]
fn downloaded_mods_deduplicate_across_sources_and_append_sideloaded() {
    let sources = vec![
        SourceDir {
            name: "85899b".to_string(),
            files: vec!["Broken.zip".to_string()],
            dirs: vec!["Good".to_string(), "Broken".to_string()],
        },
        SourceDir {
            name: "8bdeed".to_string(),
            files: Vec::new(),
            dirs: vec!["Good".to_string(), "Second".to_string()],
        },
    ];
    let sideload = vec!["Hand".to_string()];
    let names = get_downloaded_mods(&sources, &sideload);
    // Broken still has its archive, Good appears once, sideloaded names follow
    assert_eq!(
        names,
        vec!["Good".to_string(), "Second".to_string(), "Hand".to_string()]
    );
}
