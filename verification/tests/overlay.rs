use bzmm::enablement::{
    disable_mod, enable_mod, get_enabled_file_path, get_enabling_file_path, is_mod_enabled,
    verify_mod_structure, get_mod_version, ModInstallation,
};
use bzmm::errors::ModError;
use bzmm::overlay::{
    process_second_level_dirs, DeepEntry, Entry2, Entry3, Payload, SrcEntry2, SrcEntry3, SrcLeaf,
    TargetTree, clone_tree, verify_symlink,
};

fn deep_eq(a: &DeepEntry, b: &DeepEntry) -> bool {
    match (a, b) {
        (DeepEntry::File { content: x }, DeepEntry::File { content: y }) => x == y,
        (DeepEntry::Dir, DeepEntry::Dir) => true,
        (DeepEntry::Link { target: x }, DeepEntry::Link { target: y }) => x == y,
        _ => false,
    }
}

fn entry3_eq(a: &Entry3, b: &Entry3) -> bool {
    match (a, b) {
        (Entry3::File { content: x }, Entry3::File { content: y }) => x == y,
        (Entry3::Link { target: x }, Entry3::Link { target: y }) => x == y,
        (Entry3::Dir { entries: x }, Entry3::Dir { entries: y }) => {
            x.len() == y.len()
                && x.iter().zip(y.iter()).all(|(p, q)| p.0 == q.0 && deep_eq(&p.1, &q.1))
        }
        _ => false,
    }
}

fn entry2_eq(a: &Entry2, b: &Entry2) -> bool {
    match (a, b) {
        (Entry2::File { content: x }, Entry2::File { content: y }) => x == y,
        (Entry2::Link { target: x }, Entry2::Link { target: y }) => x == y,
        (Entry2::Dir { entries: x }, Entry2::Dir { entries: y }) => {
            x.len() == y.len()
                && x.iter().zip(y.iter()).all(|(p, q)| p.0 == q.0 && entry3_eq(&p.1, &q.1))
        }
        _ => false,
    }
}

fn tree_eq(a: &TargetTree, b: &TargetTree) -> bool {
    a.entries.len() == b.entries.len()
        && a.entries
            .iter()
            .zip(b.entries.iter())
            .all(|(p, q)| p.0 == q.0 && entry2_eq(&p.1, &q.1))
}

fn sample_payload() -> Payload {
    Payload {
        entries: vec![(
            "Mods".to_string(),
            SrcEntry2::Dir {
                entries: vec![(
                    "aircraft".to_string(),
                    SrcEntry3::Dir {
                        entries: vec![
                            (
                                "plane.lua".to_string(),
                                SrcLeaf::File { content: "payload body".to_string() },
                            ),
                            ("textures".to_string(), SrcLeaf::Dir),
                        ],
                    },
                )],
            },
        )],
    }
}

fn sample_installation() -> ModInstallation {
    ModInstallation {
        name: "CoolMod".to_string(),
        version_file: Some("1.0\n".to_string()),
        readme_file: Some("a readme".to_string()),
        payload: Some(sample_payload()),
        markers: Vec::new(),
    }
}

fn base_path() -> Vec<String> {
    vec!["downloads".to_string(), "ab12cd".to_string(), "CoolMod".to_string()]
}

#[test]
fn enable_links_and_disable_restores_the_tree() {
    // a target that already holds unrelated content
    let target = TargetTree {
        entries: vec![(
            "Config".to_string(),
            Entry2::File { content: "untouched".to_string() },
        )],
    };
    let before = clone_tree(&target);
    let mod_dir = base_path();
    let (inst, enabled) = enable_mod(sample_installation(), &target, "main", &mod_dir);
    let (tree_after_enable, result) = enabled.expect("enable should succeed");
    assert!(result.success);
    assert!(is_mod_enabled(&inst, "main"));
    // the overlay created the two materialized levels and linked the leaves
    assert_eq!(tree_after_enable.entries.len(), 2);
    let (name, mods) = &tree_after_enable.entries[1];
    assert_eq!(name, "Mods");
    match mods {
        Entry2::Dir { entries } => match &entries[0].1 {
            Entry3::Dir { entries: deep } => {
                assert_eq!(deep.len(), 2);
                match &deep[0].1 {
                    DeepEntry::Link { target } => {
                        assert_eq!(
                            target,
                            &vec![
                                "downloads".to_string(),
                                "ab12cd".to_string(),
                                "CoolMod".to_string(),
                                "CoolMod".to_string(),
                                "Mods".to_string(),
                                "aircraft".to_string(),
                                "plane.lua".to_string(),
                            ]
                        );
                    }
                    _ => panic!("expected a link for the payload file"),
                }
            }
            _ => panic!("expected a real directory at the second level"),
        },
        _ => panic!("expected a real directory at the first level"),
    }
    // disabling returns the target to its prior state, byte for byte
    let (inst2, disabled) = disable_mod(inst, &tree_after_enable, "main", &mod_dir);
    let (tree_after_disable, result2) = disabled.expect("disable should succeed");
    assert!(result2.success);
    assert!(tree_eq(&tree_after_disable, &before));
    assert!(!is_mod_enabled(&inst2, "main"));
    assert!(inst2.markers.is_empty());
}

#[test]
fn enable_merges_lua_and_disable_removes_the_block() {
    // the target already holds a same-named lua file below the link depth
    let target = TargetTree {
        entries: vec![(
            "Mods".to_string(),
            Entry2::Dir {
                entries: vec![(
                    "aircraft".to_string(),
                    Entry3::Dir {
                        entries: vec![(
                            "plane.lua".to_string(),
                            DeepEntry::File { content: "original = true\n".to_string() },
                        )],
                    },
                )],
            },
        )],
    };
    let before = clone_tree(&target);
    let mod_dir = base_path();
    let (inst, enabled) = enable_mod(sample_installation(), &target, "main", &mod_dir);
    let (tree2, _) = enabled.expect("enable should succeed");
    // the lua file was merged through the patch ledger, not replaced
    match &tree2.entries[0].1 {
        Entry2::Dir { entries } => match &entries[0].1 {
            Entry3::Dir { entries: deep } => match &deep[0].1 {
                DeepEntry::File { content } => {
                    assert!(content.starts_with("original = true\n"));
                    assert!(content.contains("payload body"));
                    assert!(content.contains("\"mod_name\":\"CoolMod\""));
                }
                _ => panic!("expected the merged file to stay a file"),
            },
            _ => panic!("expected the existing directory to be reused"),
        },
        _ => panic!("expected the existing directory to be reused"),
    }
    let (_, disabled) = disable_mod(inst, &tree2, "main", &mod_dir);
    let (tree3, _) = disabled.expect("disable should succeed");
    assert!(tree_eq(&tree3, &before));
}

#[test]
fn enable_is_a_no_op_on_an_enabled_mod() {
    let mut inst = sample_installation();
    inst.markers.push(get_enabled_file_path("main"));
    let target = TargetTree {
        entries: vec![("Keep".to_string(), Entry2::File { content: "x".to_string() })],
    };
    let before = clone_tree(&target);
    let mod_dir = base_path();
    let (inst2, outcome) = enable_mod(inst, &target, "main", &mod_dir);
    let (tree2, result) = outcome.expect("already enabled is a success");
    assert!(result.success);
    assert_eq!(result.message.as_deref(), Some("Mod already enabled"));
    assert!(tree_eq(&tree2, &before));
    assert_eq!(inst2.markers, vec![get_enabled_file_path("main")]);
}

#[test]
fn enable_refuses_while_enabling_is_in_progress() {
    let mut inst = sample_installation();
    inst.markers.push(get_enabling_file_path("main"));
    let target = TargetTree { entries: Vec::new() };
    let (_, outcome) = enable_mod(inst, &target, "main", &base_path());
    match outcome {
        Err(ModError::EnablementError(_)) => {}
        _ => panic!("a mod mid-enable must not be enabled again"),
    }
}

#[test]
fn missing_readme_fails_enable_without_touching_anything() {
    let mut inst = sample_installation();
    inst.readme_file = None;
    let target = TargetTree {
        entries: vec![("Keep".to_string(), Entry2::File { content: "x".to_string() })],
    };
    let (inst2, outcome) = enable_mod(inst, &target, "main", &base_path());
    match outcome {
        Err(ModError::DirectoryStructureError(msg)) => {
            assert_eq!(msg, "README.txt not found");
        }
        _ => panic!("a missing README.txt must fail the structure check"),
    }
    // no marker was written
    assert!(inst2.markers.is_empty());
}

#[test]
fn conflicting_real_file_aborts_enable() {
    // a real non-lua file stands where a link must go
    let target = TargetTree {
        entries: vec![(
            "Mods".to_string(),
            Entry2::Dir {
                entries: vec![(
                    "aircraft".to_string(),
                    Entry3::Dir {
                        entries: vec![(
                            "textures".to_string(),
                            DeepEntry::File { content: "not a dir".to_string() },
                        )],
                    },
                )],
            },
        )],
    };
    let (inst, outcome) = enable_mod(sample_installation(), &target, "main", &base_path());
    match outcome {
        Err(ModError::FileConflictError(_)) => {}
        other => panic!("expected a file conflict, got {:?}", other.is_ok()),
    }
    assert!(inst.markers.is_empty());
}

#[test]
fn structure_check_reports_the_first_missing_piece() {
    let mut inst = sample_installation();
    assert!(verify_mod_structure(&inst).is_ok());
    inst.version_file = None;
    match verify_mod_structure(&inst) {
        Err(ModError::DirectoryStructureError(msg)) => assert_eq!(msg, "VERSION.txt not found"),
        _ => panic!("missing VERSION.txt must be reported"),
    }
    let mut inst2 = sample_installation();
    inst2.payload = None;
    match verify_mod_structure(&inst2) {
        Err(ModError::DirectoryStructureError(msg)) => {
            assert_eq!(msg, "Main subdirectory not found")
        }
        _ => panic!("missing payload must be reported"),
    }
}

#[test]
fn version_comes_trimmed_from_the_version_file() {
    let inst = sample_installation();
    assert_eq!(get_mod_version(&inst).unwrap(), "1.0");
}

#[test]
fn marker_file_names_follow_the_profile() {
    assert_eq!(get_enabled_file_path("alpha"), "ENABLED-alpha.txt");
    assert_eq!(get_enabling_file_path("alpha"), "ENABLING-alpha.txt");
}

#[test]
fn symlink_verification_compares_whole_paths() {
    let a = vec!["x".to_string(), "y".to_string()];
    let b = vec!["x".to_string(), "y".to_string()];
    let c = vec!["x".to_string(), "z".to_string()];
    assert!(verify_symlink(&a, &b));
    assert!(!verify_symlink(&a, &c));
}

#[test]
fn stale_links_are_repointed_and_kept_links_left_alone() {
    let stale = TargetTree {
        entries: vec![(
            "Mods".to_string(),
            Entry2::Dir {
                entries: vec![(
                    "aircraft".to_string(),
                    Entry3::Dir {
                        entries: vec![(
                            "textures".to_string(),
                            DeepEntry::Link { target: vec!["somewhere".to_string()] },
                        )],
                    },
                )],
            },
        )],
    };
    let base = base_path();
    let out = process_second_level_dirs(
        &sample_payload(),
        stale,
        &base,
        "CoolMod",
        "1.0",
        false,
    )
    .expect("stale links are replaced, not conflicts");
    match &out.entries[0].1 {
        Entry2::Dir { entries } => match &entries[0].1 {
            Entry3::Dir { entries: deep } => {
                let textures = deep.iter().find(|e| e.0 == "textures").unwrap();
                match &textures.1 {
                    DeepEntry::Link { target } => {
                        assert_eq!(target.last().unwrap(), "textures");
                        assert_eq!(target[0], "downloads");
                    }
                    _ => panic!("expected the stale link to be repointed"),
                }
            }
            _ => panic!("expected a directory"),
        },
        _ => panic!("expected a directory"),
    }
}

#[test]
fn top_level_files_are_linked_and_unlinked() {
    let payload = Payload {
        entries: vec![(
            "notes.txt".to_string(),
            SrcEntry2::File { content: "hello".to_string() },
        )],
    };
    let inst = ModInstallation {
        name: "CoolMod".to_string(),
        version_file: Some("1.0".to_string()),
        readme_file: Some("r".to_string()),
        payload: Some(payload),
        markers: Vec::new(),
    };
    let target = TargetTree { entries: Vec::new() };
    let (inst2, enabled) = enable_mod(inst, &target, "main", &base_path());
    let (tree2, _) = enabled.expect("a free name takes a link");
    assert_eq!(tree2.entries.len(), 1);
    match &tree2.entries[0].1 {
        Entry2::Link { target } => assert_eq!(target.last().unwrap(), "notes.txt"),
        _ => panic!("expected a link at the first level"),
    }
    let (_, disabled) = disable_mod(inst2, &tree2, "main", &base_path());
    let (tree3, _) = disabled.expect("disable succeeds");
    assert!(tree3.entries.is_empty());
}

#[test]
fn version_trimming_covers_unicode_whitespace() {
    let mut inst = sample_installation();
    inst.version_file = Some("1.0\u{0C}\u{A0}\n".to_string());
    assert_eq!(get_mod_version(&inst).unwrap(), "1.0");
}
