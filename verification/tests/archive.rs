use bzmm::archive::{
    is_zip_header, sanitize_entry_path, validate_zip_file, verify_archive, EntryCheck, Extraction,
};
use bzmm::errors::ModError;
use bzmm::pipeline::{is_mod_successfully_downloaded, source_dir_name, DownloadPipeline};
use bzmm::queue::SourceDir;

#[test]
fn only_the_archive_signature_is_accepted() {
    assert!(is_zip_header(&vec![0x50, 0x4b, 0x03, 0x04, 0xff]));
    assert!(!is_zip_header(&vec![0x50, 0x4b, 0x05, 0x06]));
    assert!(!is_zip_header(&vec![0x50, 0x4b]));
    assert!(!is_zip_header(&Vec::new()));
}

#[test]
fn a_wrong_header_is_rejected_before_any_extraction() {
    // an HTML error page instead of an archive
    let header = vec![b'<', b'h', b't', b'm'];
    match validate_zip_file(5000, &header) {
        Err(ModError::DownloadError(_)) => {}
        _ => panic!("a non-archive must be rejected"),
    }
    // a tiny file cannot be an archive either
    match validate_zip_file(42, &vec![0x50, 0x4b, 0x03, 0x04]) {
        Err(ModError::DownloadError(_)) => {}
        _ => panic!("a tiny file must be rejected"),
    }
    assert!(validate_zip_file(5000, &vec![0x50, 0x4b, 0x03, 0x04]).is_ok());
}

#[test]
fn traversal_paths_are_rejected() {
    assert!(sanitize_entry_path("../evil").is_none());
    assert!(sanitize_entry_path("a/../b").is_none());
    assert!(sanitize_entry_path("/absolute").is_none());
    assert!(sanitize_entry_path("a//b").is_none());
    assert!(sanitize_entry_path("./hidden").is_none());
    assert!(sanitize_entry_path("").is_none());
    let comps = sanitize_entry_path("mod/dir/file.txt").unwrap();
    assert_eq!(comps, vec!["mod".to_string(), "dir".to_string(), "file.txt".to_string()]);
    // directory entries keep their components without the marker
    let dir = sanitize_entry_path("mod/dir/").unwrap();
    assert_eq!(dir, vec!["mod".to_string(), "dir".to_string()]);
}

#[test]
fn verification_fails_on_the_first_unreadable_entry() {
    let fine = vec![
        EntryCheck { name: "a".to_string(), readable: true },
        EntryCheck { name: "b".to_string(), readable: true },
    ];
    assert!(verify_archive(&fine).is_ok());
    let broken = vec![
        EntryCheck { name: "a".to_string(), readable: true },
        EntryCheck { name: "b".to_string(), readable: false },
    ];
    match verify_archive(&broken) {
        Err(ModError::ParseError(_)) => {}
        _ => panic!("an unreadable entry must fail verification"),
    }
}

#[test]
fn cancellation_after_directory_creation_removes_the_destination() {
    let mut e = Extraction::begin(false).unwrap();
    assert!(!e.cleanup_removes_destination());
    e.dir_ready();
    assert!(e.cleanup_removes_destination());
    assert!(e.check_cancelled(true).is_err());
    assert!(e.cleanup_removes_destination());
}

#[test]
fn cancellation_before_anything_starts_cleans_nothing() {
    match Extraction::begin(true) {
        Err(e) => assert!(e.is_cancelled()),
        Ok(_) => panic!("a cancelled start must not proceed"),
    }
}

#[test]
fn the_source_directory_is_a_hash_prefix_of_the_url() {
    assert_eq!(source_dir_name("http://example.com/repo.xml"), "85899b");
    assert_eq!(source_dir_name("src1"), "8bdeed");
    // deterministic
    assert_eq!(source_dir_name("src1"), source_dir_name("src1"));
}

#[test]
fn downloaded_means_directory_present_and_archive_gone() {
    let both = SourceDir {
        name: "85899b".to_string(),
        files: vec!["CoolMod.zip".to_string()],
        dirs: vec!["CoolMod".to_string()],
    };
    assert!(!is_mod_successfully_downloaded(&both, "CoolMod"));
    let only_dir = SourceDir {
        name: "85899b".to_string(),
        files: Vec::new(),
        dirs: vec!["CoolMod".to_string()],
    };
    assert!(is_mod_successfully_downloaded(&only_dir, "CoolMod"));
    let only_zip = SourceDir {
        name: "85899b".to_string(),
        files: vec!["CoolMod.zip".to_string()],
        dirs: Vec::new(),
    };
    assert!(!is_mod_successfully_downloaded(&only_zip, "CoolMod"));
    let neither = SourceDir { name: "85899b".to_string(), files: Vec::new(), dirs: Vec::new() };
    assert!(!is_mod_successfully_downloaded(&neither, "CoolMod"));
}

#[test]
fn a_cancelled_pipeline_leaves_no_artifact() {
    let mut p = DownloadPipeline::start();
    p.begin_download();
    assert!(p.tmp_exists);
    let remove_tmp = p.download_finished(false, true);
    assert!(remove_tmp);
    assert!(!p.tmp_exists && !p.zip_exists && !p.extract_dir_exists);
}

#[test]
fn a_full_pipeline_run_ends_with_only_the_extracted_directory() {
    let mut p = DownloadPipeline::start();
    p.begin_download();
    let remove_tmp = p.download_finished(true, false);
    assert!(!remove_tmp);
    assert!(p.zip_exists && !p.tmp_exists);
    p.validate(5000, &vec![0x50, 0x4b, 0x03, 0x04], false).unwrap();
    p.extraction_finished(true, false);
    assert!(!p.zip_exists && !p.tmp_exists && p.extract_dir_exists);
}

#[test]
fn a_rejected_archive_is_removed_on_the_spot() {
    let mut p = DownloadPipeline::start();
    p.begin_download();
    let _ = p.download_finished(true, false);
    match p.validate(42, &vec![0x50, 0x4b, 0x03, 0x04], false) {
        Err(ModError::DownloadError(_)) => {}
        _ => panic!("a tiny file must be rejected"),
    }
    assert!(!p.zip_exists && !p.tmp_exists && !p.extract_dir_exists);
}

#[test]
fn a_failed_extraction_cleans_both_artifacts() {
    let mut p = DownloadPipeline::start();
    p.begin_download();
    let _ = p.download_finished(true, false);
    p.validate(5000, &vec![0x50, 0x4b, 0x03, 0x04], false).unwrap();
    p.extraction_finished(false, false);
    assert!(!p.zip_exists && !p.tmp_exists && !p.extract_dir_exists);
}

#[test]
fn backslash_components_are_rejected_as_traversal() {
    assert!(sanitize_entry_path("..\\evil").is_none());
    assert!(sanitize_entry_path("a\\..\\b").is_none());
    assert!(sanitize_entry_path("dir/with\\slash").is_none());
}
