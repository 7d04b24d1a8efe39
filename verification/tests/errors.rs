use bzmm::errors::ModError;

#[test]
fn messages_carry_their_operation_context() {
    assert_eq!(
        ModError::HttpError("500".to_string()).message(),
        "HTTP error: 500"
    );
    assert_eq!(
        ModError::InvalidUrl("ftp://x".to_string()).message(),
        "Invalid URL: ftp://x"
    );
    assert_eq!(
        ModError::DirectoryStructureError("README.txt not found".to_string()).message(),
        "Invalid mod directory structure: README.txt not found"
    );
    assert_eq!(
        ModError::FileConflictError("x already exists".to_string()).message(),
        "File conflict: x already exists"
    );
    assert_eq!(ModError::Cancelled.message(), "Operation was cancelled");
    assert_eq!(
        ModError::RequestError("timed out".to_string()).message(),
        "HTTP request failed: timed out"
    );
}

#[test]
fn cancellation_is_never_a_plain_failure() {
    assert!(ModError::Cancelled.is_cancelled());
    assert!(!ModError::DownloadError("x".to_string()).is_cancelled());
}
