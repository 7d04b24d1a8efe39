use bzmm::queue::{cleanup_download_files, tmp_name_of, DownloadQueue, SourceDir};

#[test]
fn at_most_two_transfers_run_concurrently() {
    let mut q = DownloadQueue::new();
    q.add_download("http://x/a.zip".to_string(), "a.zip".to_string(), "src1".to_string());
    q.add_download("http://x/b.zip".to_string(), "b.zip".to_string(), "src1".to_string());
    q.add_download("http://x/c.zip".to_string(), "c.zip".to_string(), "src1".to_string());
    // both slots fill with the first two requests, in order
    let first = q.process_one_download().expect("first slot is free");
    assert_eq!(first.filename, "a.zip");
    let second = q.process_one_download().expect("second slot is free");
    assert_eq!(second.filename, "b.zip");
    // the third waits: both slots are taken
    assert!(q.process_one_download().is_none());
    assert_eq!(q.active.len(), 2);
    // one transfer finishes; only then is the third admitted
    q.finish_download("a.zip");
    let third = q.process_one_download().expect("a slot came free");
    assert_eq!(third.filename, "c.zip");
    assert_eq!(q.active.len(), 2);
}

#[test]
fn cancelling_a_queued_download_withdraws_it_before_it_starts() {
    let mut q = DownloadQueue::new();
    q.add_download("http://x/a.zip".to_string(), "a.zip".to_string(), "src1".to_string());
    q.add_download("http://x/b.zip".to_string(), "b.zip".to_string(), "src1".to_string());
    let (was_queued, was_active) = q.cancel_download("b.zip");
    assert!(was_queued);
    assert!(!was_active);
    // the cancelled item can never be admitted
    let only = q.process_one_download().expect("the other item still runs");
    assert_eq!(only.filename, "a.zip");
    assert!(q.process_one_download().is_none());
    assert_eq!(q.queue.len(), 0);
}

#[test]
fn cancelling_an_unknown_filename_is_a_no_op() {
    let mut q = DownloadQueue::new();
    q.add_download("http://x/a.zip".to_string(), "a.zip".to_string(), "src1".to_string());
    let (was_queued, was_active) = q.cancel_download("nothing.zip");
    assert!(!was_queued);
    assert!(!was_active);
    assert_eq!(q.queue.len(), 1);
}

#[test]
fn cancelling_an_in_flight_download_releases_its_handle() {
    let mut q = DownloadQueue::new();
    q.add_download("http://x/a.zip".to_string(), "a.zip".to_string(), "src1".to_string());
    let started = q.process_one_download().unwrap();
    assert_eq!(started.filename, "a.zip");
    assert_eq!(q.active.len(), 1);
    let (was_queued, was_active) = q.cancel_download("a.zip");
    assert!(!was_queued);
    assert!(was_active);
    assert!(q.active.is_empty());
}

#[test]
fn temporary_names_strip_the_archive_suffix() {
    assert_eq!(tmp_name_of("CoolMod.zip"), "CoolMod.tmp");
    assert_eq!(tmp_name_of("plain"), "plain.tmp");
}

#[test]
fn cleanup_removes_both_artifacts_from_every_source() {
    let dirs = vec![
        SourceDir {
            name: "85899b".to_string(),
            files: vec![
                "CoolMod.tmp".to_string(),
                "CoolMod.zip".to_string(),
                "Other.zip".to_string(),
            ],
            dirs: vec!["SomeMod".to_string()],
        },
        SourceDir {
            name: "8bdeed".to_string(),
            files: vec!["CoolMod.zip".to_string()],
            dirs: Vec::new(),
        },
    ];
    let cleaned = cleanup_download_files(&dirs, "CoolMod.zip");
    assert_eq!(cleaned.len(), 2);
    assert_eq!(cleaned[0].files, vec!["Other.zip".to_string()]);
    assert_eq!(cleaned[0].dirs, vec!["SomeMod".to_string()]);
    assert!(cleaned[1].files.is_empty());
}

#[test]
fn duplicate_filenames_never_hold_two_handles() {
    let mut q = DownloadQueue::new();
    q.add_download("http://x/a.zip".to_string(), "a.zip".to_string(), "src1".to_string());
    q.add_download("http://y/a.zip".to_string(), "a.zip".to_string(), "src2".to_string());
    let first = q.process_one_download().unwrap();
    assert_eq!(first.filename, "a.zip");
    // the same filename cannot take a second slot while it is in flight
    assert!(q.process_one_download().is_none());
    q.finish_download("a.zip");
    assert!(q.process_one_download().is_some());
}
