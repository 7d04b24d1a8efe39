use bzmm::enablement::{update_mod, delete_mod, is_mod_enabled, ModInstallation, get_enabled_file_path, get_enabling_file_path};
use bzmm::errors::ModError;
use bzmm::overlay::TargetTree;
use bzmm::settings::{
    delete_profile, update_cache_path_in_settings, update_profile, update_settings, Profile,
    Settings, SettingsUpdate, XmlCache,
};

fn sample_settings() -> Settings {
    Settings {
        dark_mode: bzmm::settings::DarkMode::System,
        download_path: "/downloads".to_string(),
        sideload_path: String::new(),
        profiles: vec![Profile {
            name: "main".to_string(),
            dcs_path: "/sim".to_string(),
            repo_url: "http://example.com/repo.xml".to_string(),
        }],
        cached_xml_paths: Vec::new(),
    }
}

#[test]
fn only_the_two_path_keys_can_be_set() {
    let s = sample_settings();
    let ok = update_settings(
        &s,
        &SettingsUpdate { key: "download_path".to_string(), value: "/new".to_string() },
    )
    .unwrap();
    assert_eq!(ok.download_path, "/new");
    assert_eq!(ok.profiles.len(), 1);
    let ok2 = update_settings(
        &s,
        &SettingsUpdate { key: "sideload_path".to_string(), value: "/side".to_string() },
    )
    .unwrap();
    assert_eq!(ok2.sideload_path, "/side");
    match update_settings(
        &s,
        &SettingsUpdate { key: "dark_mode".to_string(), value: "Dark".to_string() },
    ) {
        Err(ModError::SettingsError(_)) => {}
        _ => panic!("an unknown key must be refused"),
    }
}

#[test]
fn profiles_replace_in_place_or_append_past_the_end() {
    let s = sample_settings();
    let replaced = update_profile(
        &s,
        0,
        Profile {
            name: "renamed".to_string(),
            dcs_path: "/sim2".to_string(),
            repo_url: "http://example.com/repo.xml".to_string(),
        },
    );
    assert_eq!(replaced.profiles.len(), 1);
    assert_eq!(replaced.profiles[0].name, "renamed");
    let appended = update_profile(
        &s,
        7,
        Profile {
            name: "second".to_string(),
            dcs_path: "/other".to_string(),
            repo_url: "http://other.example/repo.xml".to_string(),
        },
    );
    assert_eq!(appended.profiles.len(), 2);
    assert_eq!(appended.profiles[1].name, "second");
}

#[test]
fn deleting_a_profile_checks_its_index() {
    let s = sample_settings();
    let gone = delete_profile(&s, 0).unwrap();
    assert!(gone.profiles.is_empty());
    match delete_profile(&s, 3) {
        Err(ModError::SettingsError(_)) => {}
        _ => panic!("an index past the end must be refused"),
    }
}

#[test]
fn cache_filenames_are_stable_and_shaped() {
    let a = XmlCache::generate_cache_filename("http://example.com/repo.xml");
    let b = XmlCache::generate_cache_filename("http://example.com/repo.xml");
    let c = XmlCache::generate_cache_filename("http://other.example/repo.xml");
    assert_eq!(a, b);
    assert!(a.starts_with("repo_"));
    assert!(a.ends_with(".xml"));
    let digits = &a["repo_".len()..a.len() - ".xml".len()];
    assert!(!digits.is_empty());
    assert!(digits.chars().all(|c| c.is_ascii_digit()));
    assert_ne!(a, c);
    let p = XmlCache::get_cache_path("/cache", "http://example.com/repo.xml");
    assert_eq!(p, format!("/cache/{}", a));
}

#[test]
fn the_cache_path_lands_at_the_profile_index() {
    let mut s = sample_settings();
    s.profiles.push(Profile {
        name: "second".to_string(),
        dcs_path: "/other".to_string(),
        repo_url: "http://other.example/repo.xml".to_string(),
    });
    let updated = update_cache_path_in_settings(&s, "http://other.example/repo.xml", "/cache/x.xml");
    assert_eq!(updated.cached_xml_paths.len(), 2);
    assert_eq!(updated.cached_xml_paths[0], "");
    assert_eq!(updated.cached_xml_paths[1], "/cache/x.xml");
    // an unknown URL changes nothing
    let unchanged = update_cache_path_in_settings(&s, "http://nowhere.example/", "/cache/y.xml");
    assert!(unchanged.cached_xml_paths.is_empty());
}

fn bare_installation(markers: Vec<String>) -> ModInstallation {
    ModInstallation {
        name: "CoolMod".to_string(),
        version_file: Some("1.0".to_string()),
        readme_file: Some("readme".to_string()),
        payload: Some(bzmm::overlay::Payload { entries: Vec::new() }),
        markers,
    }
}

fn downloaded_installation(version: &str) -> ModInstallation {
    ModInstallation {
        name: "CoolMod".to_string(),
        version_file: Some(version.to_string()),
        readme_file: Some("readme".to_string()),
        payload: Some(bzmm::overlay::Payload { entries: Vec::new() }),
        markers: Vec::new(),
    }
}

fn update_dir() -> Vec<String> {
    vec!["downloads".to_string(), "85899b".to_string(), "CoolMod".to_string()]
}

#[test]
fn updates_are_refused_for_sideloaded_or_mid_enable_mods() {
    let target = TargetTree { entries: Vec::new() };
    let inst = bare_installation(Vec::new());
    let (_, _, outcome) =
        update_mod(inst, &target, "main", &update_dir(), true, Some(downloaded_installation("2.0")));
    match outcome {
        Err(ModError::EnablementError(_)) => {}
        _ => panic!("sideloaded mods are never updated"),
    }
    let enabling = bare_installation(vec![get_enabling_file_path("main")]);
    let (kept, _, outcome2) = update_mod(
        enabling,
        &target,
        "main",
        &update_dir(),
        false,
        Some(downloaded_installation("2.0")),
    );
    match outcome2 {
        Err(ModError::EnablementError(_)) => {}
        _ => panic!("a mod mid-enable is never updated"),
    }
    assert_eq!(kept.version_file.as_deref(), Some("1.0"));
}

#[test]
fn updating_a_disabled_mod_swaps_the_version_and_stays_disabled() {
    let target = TargetTree { entries: Vec::new() };
    let inst = bare_installation(Vec::new());
    let (after, tree, outcome) = update_mod(
        inst,
        &target,
        "main",
        &update_dir(),
        false,
        Some(downloaded_installation("2.0")),
    );
    let res = outcome.expect("the update succeeds");
    assert!(res.success);
    assert_eq!(res.message.as_deref(), Some("Mod updated successfully"));
    assert_eq!(after.version_file.as_deref(), Some("2.0"));
    assert!(!is_mod_enabled(&after, "main"));
    assert!(tree.entries.is_empty());
}

#[test]
fn a_failed_download_fails_the_update_and_keeps_the_old_mod() {
    let target = TargetTree { entries: Vec::new() };
    let inst = bare_installation(Vec::new());
    let (after, _, outcome) = update_mod(inst, &target, "main", &update_dir(), false, None);
    match outcome {
        Err(ModError::DownloadError(_)) => {}
        _ => panic!("a failed download fails the update"),
    }
    assert_eq!(after.version_file.as_deref(), Some("1.0"));
}

#[test]
fn updating_an_enabled_mod_disables_reinstalls_and_reenables() {
    let target = TargetTree { entries: Vec::new() };
    let inst = bare_installation(vec![get_enabled_file_path("main")]);
    let (after, tree, outcome) = update_mod(
        inst,
        &target,
        "main",
        &update_dir(),
        false,
        Some(downloaded_installation("2.0")),
    );
    let res = outcome.expect("the update succeeds");
    assert!(res.success);
    assert_eq!(after.version_file.as_deref(), Some("2.0"));
    assert!(is_mod_enabled(&after, "main"));
    assert!(tree.entries.is_empty());
}

#[test]
fn a_failed_reenable_surfaces_the_update_as_failed_but_keeps_the_download() {
    let target = TargetTree { entries: Vec::new() };
    let inst = bare_installation(vec![get_enabled_file_path("main")]);
    let mut broken = downloaded_installation("2.0");
    broken.readme_file = None;
    let (after, _, outcome) =
        update_mod(inst, &target, "main", &update_dir(), false, Some(broken));
    match outcome {
        Err(ModError::EnablementError(_)) => {}
        _ => panic!("a failed re-enable surfaces the update as failed"),
    }
    // the new version stays downloaded, though not enabled
    assert_eq!(after.version_file.as_deref(), Some("2.0"));
    assert!(!is_mod_enabled(&after, "main"));
}

#[test]
fn deleting_disables_first_and_refuses_sideloaded() {
    let target = TargetTree { entries: Vec::new() };
    let inst = bare_installation(Vec::new());
    match delete_mod(inst, &target, "main", &vec!["d".to_string()], true) {
        Err(ModError::EnablementError(_)) => {}
        _ => panic!("sideloaded mods are never deleted"),
    }
    let inst2 = bare_installation(vec![get_enabled_file_path("main")]);
    let (tree, res) = delete_mod(inst2, &target, "main", &vec!["d".to_string()], false).unwrap();
    assert!(res.success);
    assert_eq!(res.message.as_deref(), Some("Mod deleted successfully"));
    assert!(tree.entries.is_empty());
}
