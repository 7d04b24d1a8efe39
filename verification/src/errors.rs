use vstd::prelude::*;

verus! {

/// The failure taxonomy of the mod pipeline: transport failures, bad HTTP
/// statuses, malformed URLs, filesystem failures, invalid archives, overlay
/// conflicts, concurrent-enablement conflicts, missing mod structure, and
/// cancellation, which is a distinct terminal outcome rather than a failure.
#[derive(Debug)]
pub enum ModError {
    RequestError(String),
    ParseError(String),
    IoError(String),
    SettingsError(String),
    DirectoryStructureError(String),
    FileConflictError(String),
    EnablementError(String),
    DownloadError(String),
    InvalidUrl(String),
    HttpError(String),
    Cancelled,
}

/// The user-visible text of each error, with its operation context prefix.
pub open spec fn error_message(e: ModError) -> Seq<char> {
    match e {
        ModError::RequestError(s) => "HTTP request failed: "@ + s@,
        ModError::ParseError(s) => "XML parsing failed: "@ + s@,
        ModError::IoError(s) => "I/O error: "@ + s@,
        ModError::SettingsError(s) => "Settings error: "@ + s@,
        ModError::DirectoryStructureError(s) => "Invalid mod directory structure: "@ + s@,
        ModError::FileConflictError(s) => "File conflict: "@ + s@,
        ModError::EnablementError(s) => "Mod enablement error: "@ + s@,
        ModError::DownloadError(s) => "Download error: "@ + s@,
        ModError::InvalidUrl(s) => "Invalid URL: "@ + s@,
        ModError::HttpError(s) => "HTTP error: "@ + s@,
        ModError::Cancelled => "Operation was cancelled"@,
    }
}

impl ModError {
    /// Render the error as text, as callers report it to the user.
    pub fn message(&self) -> (r: String)
        ensures
            r@ == error_message(*self),
    {
        match self {
            ModError::RequestError(s) => String::from_str("HTTP request failed: ").concat(s.as_str()),
            ModError::ParseError(s) => String::from_str("XML parsing failed: ").concat(s.as_str()),
            ModError::IoError(s) => String::from_str("I/O error: ").concat(s.as_str()),
            ModError::SettingsError(s) => String::from_str("Settings error: ").concat(s.as_str()),
            ModError::DirectoryStructureError(s) => String::from_str("Invalid mod directory structure: ").concat(s.as_str()),
            ModError::FileConflictError(s) => String::from_str("File conflict: ").concat(s.as_str()),
            ModError::EnablementError(s) => String::from_str("Mod enablement error: ").concat(s.as_str()),
            ModError::DownloadError(s) => String::from_str("Download error: ").concat(s.as_str()),
            ModError::InvalidUrl(s) => String::from_str("Invalid URL: ").concat(s.as_str()),
            ModError::HttpError(s) => String::from_str("HTTP error: ").concat(s.as_str()),
            ModError::Cancelled => String::from_str("Operation was cancelled"),
        }
    }

    /// Cancellation must never be confused with an application failure.
    pub fn is_cancelled(&self) -> (r: bool)
        ensures
            r == (self is Cancelled),
    {
        match self {
            ModError::Cancelled => true,
            _ => false,
        }
    }
}

} // verus!
