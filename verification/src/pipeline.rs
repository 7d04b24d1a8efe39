use vstd::prelude::*;
use crate::errors::ModError;
use crate::queue::SourceDir;
use crate::archive::{validate_zip_file, has_zip_magic};
use crate::strutil::{str_eq, push_char};
use crate::fstree::str_views;

verus! {

// ----------------------------------------------------------------------------
// Per-source directories
//
// Each catalog source stores its mods under a directory named by the first
// six hex digits of the SHA-256 of the source's URL.
// ----------------------------------------------------------------------------

/// What SHA-256 yields on these bytes.
pub uninterp spec fn sha256_of(data: Seq<u8>) -> Seq<u8>;

/// Relies on sha2's Sha256: a pure function of the input bytes producing a
/// 32-byte digest.
#[verifier::external_body]
fn sha256_bytes(data: &[u8]) -> (r: Vec<u8>)
    ensures
        r@ == sha256_of(data@),
        r@.len() == 32,
{
    let mut hasher = <sha2::Sha256 as sha2::Digest>::new();
    sha2::Digest::update(&mut hasher, data);
    sha2::Digest::finalize(hasher).to_vec()
}

pub open spec fn hex_digit(d: nat) -> char {
    if d == 0 {
        '0'
    } else if d == 1 {
        '1'
    } else if d == 2 {
        '2'
    } else if d == 3 {
        '3'
    } else if d == 4 {
        '4'
    } else if d == 5 {
        '5'
    } else if d == 6 {
        '6'
    } else if d == 7 {
        '7'
    } else if d == 8 {
        '8'
    } else if d == 9 {
        '9'
    } else if d == 10 {
        'a'
    } else if d == 11 {
        'b'
    } else if d == 12 {
        'c'
    } else if d == 13 {
        'd'
    } else if d == 14 {
        'e'
    } else {
        'f'
    }
}

/// The lower-case hex encoding of bytes, two digits per byte.
pub open spec fn hex_of(data: Seq<u8>) -> Seq<char>
    decreases data.len(),
{
    if data.len() == 0 {
        Seq::empty()
    } else {
        hex_of(data.drop_last()) + seq![
            hex_digit((data.last() / 16) as nat),
            hex_digit((data.last() % 16) as nat),
        ]
    }
}

fn hex_digit_char(d: u8) -> (c: char)
    requires
        d < 16,
    ensures
        c == hex_digit(d as nat),
{
    if d == 0 {
        '0'
    } else if d == 1 {
        '1'
    } else if d == 2 {
        '2'
    } else if d == 3 {
        '3'
    } else if d == 4 {
        '4'
    } else if d == 5 {
        '5'
    } else if d == 6 {
        '6'
    } else if d == 7 {
        '7'
    } else if d == 8 {
        '8'
    } else if d == 9 {
        '9'
    } else if d == 10 {
        'a'
    } else if d == 11 {
        'b'
    } else if d == 12 {
        'c'
    } else if d == 13 {
        'd'
    } else if d == 14 {
        'e'
    } else {
        'f'
    }
}

fn to_hex(data: &Vec<u8>) -> (r: String)
    ensures
        r@ == hex_of(data@),
{
    let mut r = String::new();
    let mut i: usize = 0;
    while i < data.len()
        invariant
            0 <= i <= data@.len(),
            r@ =~= hex_of(data@.take(i as int)),
        decreases data@.len() - i,
    {
        let b = data[i];
        push_char(&mut r, hex_digit_char(b / 16));
        push_char(&mut r, hex_digit_char(b % 16));
        proof {
            assert(data@.take(i as int + 1).drop_last() =~= data@.take(i as int));
            assert(data@.take(i as int + 1).last() == data@[i as int]);
            assert(r@ =~= hex_of(data@.take(i as int + 1)));
        }
        i = i + 1;
    }
    proof {
        assert(data@.take(data@.len() as int) =~= data@);
    }
    r
}

proof fn lemma_hex_len(data: Seq<u8>)
    ensures
        hex_of(data).len() == data.len() * 2,
    decreases data.len(),
{
    if data.len() > 0 {
        lemma_hex_len(data.drop_last());
    }
}

/// The directory a source's downloads live under: the first six hex digits of
/// the SHA-256 of the UTF-8 bytes of the source's catalog URL.
pub open spec fn source_hash(url: Seq<char>) -> Seq<char> {
    hex_of(sha256_of(vstd::utf8::encode_utf8(url))).take(6)
}

/// The name of the per-source download directory for this catalog URL.
pub fn source_dir_name(repo_url: &str) -> (r: String)
    ensures
        r@ == source_hash(repo_url@),
{
    let digest = sha256_bytes(repo_url.as_bytes());
    let hex = to_hex(&digest);
    proof {
        lemma_hex_len(digest@);
    }
    String::from_str(hex.as_str().substring_char(0, 6))
}

// ----------------------------------------------------------------------------
// What counts as successfully downloaded
// ----------------------------------------------------------------------------

/// The archive file a mod is downloaded as.
pub open spec fn zip_file_name(mod_name: Seq<char>) -> Seq<char> {
    mod_name + ".zip"@
}

pub open spec fn contains_str(names: Seq<Seq<char>>, name: Seq<char>) -> bool {
    exists|i: int| 0 <= i < names.len() && names[i] == name
}

pub(crate) fn contains_name(names: &Vec<String>, name: &str) -> (r: bool)
    ensures
        r == contains_str(str_views(names@), name@),
{
    let mut i: usize = 0;
    while i < names.len()
        invariant
            0 <= i <= names@.len(),
            forall|k: int| 0 <= k < i ==> str_views(names@)[k] != name@,
        decreases names@.len() - i,
    {
        if str_eq(names[i].as_str(), name) {
            assert(str_views(names@)[i as int] == name@);
            return true;
        }
        i = i + 1;
    }
    proof {
        if contains_str(str_views(names@), name@) {
            let k = choose|k: int|
                0 <= k < str_views(names@).len() && str_views(names@)[k] == name@;
        }
    }
    false
}

/// A mod is successfully downloaded within one source directory exactly when
/// its extracted directory exists and its archive no longer does: a remaining
/// archive witnesses an incomplete download or a failed extraction.
pub fn is_mod_successfully_downloaded(source: &SourceDir, mod_name: &str) -> (r: bool)
    ensures
        r == (contains_str(str_views(source.dirs@), mod_name@) && !contains_str(
            str_views(source.files@),
            zip_file_name(mod_name@),
        )),
{
    let zip = String::from_str(mod_name).concat(".zip");
    let dir_exists = contains_name(&source.dirs, mod_name);
    let zip_exists = contains_name(&source.files, zip.as_str());
    dir_exists && !zip_exists
}

// ----------------------------------------------------------------------------
// The download pipeline
//
// One queued item runs transfer, validation, and extraction in order.  The
// surrounding application performs each step's I/O; this machine tracks which
// artifacts exist and decides what every failure, cancellation included, must
// remove, so that no temporary or partial artifact survives a failed or
// cancelled run.
// ----------------------------------------------------------------------------

pub enum PipelineStage {
    Ready,
    Downloading,
    Validating,
    Extracting,
    Done,
    Cancelled,
    Failed,
}

/// The pipeline for one filename: its stage and which artifacts of that
/// filename currently exist on disk.
pub struct DownloadPipeline {
    pub stage: PipelineStage,
    pub tmp_exists: bool,
    pub zip_exists: bool,
    pub extract_dir_exists: bool,
}

/// No artifact of the filename is left behind.
pub open spec fn pipeline_clean(p: DownloadPipeline) -> bool {
    !p.tmp_exists && !p.zip_exists && !p.extract_dir_exists
}

impl DownloadPipeline {
    /// A fresh pipeline: nothing exists yet.
    pub fn start() -> (r: DownloadPipeline)
        ensures
            r.stage is Ready,
            pipeline_clean(r),
    {
        DownloadPipeline {
            stage: PipelineStage::Ready,
            tmp_exists: false,
            zip_exists: false,
            extract_dir_exists: false,
        }
    }

    /// Cancellation before anything started: nothing was created, nothing is
    /// to clean.
    pub fn cancel_before_start(&mut self) -> (r: ModError)
        requires
            old(self).stage is Ready,
            pipeline_clean(*old(self)),
        ensures
            final(self).stage is Cancelled,
            pipeline_clean(*final(self)),
            r is Cancelled,
    {
        self.stage = PipelineStage::Cancelled;
        ModError::Cancelled
    }

    /// The transfer begins; it streams into the temporary file.
    pub fn begin_download(&mut self)
        requires
            old(self).stage is Ready,
            pipeline_clean(*old(self)),
        ensures
            final(self).stage is Downloading,
            final(self).tmp_exists,
            !final(self).zip_exists,
            !final(self).extract_dir_exists,
    {
        self.stage = PipelineStage::Downloading;
        self.tmp_exists = true;
    }

    /// The transfer ended.  A failed or cancelled transfer's temporary file
    /// is removed on the spot; a successful one is renamed to the final
    /// archive name.  Returns whether the temporary file must be deleted.
    pub fn download_finished(&mut self, ok: bool, cancelled: bool) -> (remove_tmp: bool)
        requires
            old(self).stage is Downloading,
            old(self).tmp_exists,
            !old(self).zip_exists,
            !old(self).extract_dir_exists,
        ensures
            remove_tmp == (cancelled || !ok),
            cancelled ==> final(self).stage is Cancelled && pipeline_clean(*final(self)),
            !cancelled && !ok ==> final(self).stage is Failed && pipeline_clean(*final(self)),
            !cancelled && ok ==> final(self).stage is Validating && !final(self).tmp_exists
                && final(self).zip_exists && !final(self).extract_dir_exists,
    {
        if cancelled {
            self.stage = PipelineStage::Cancelled;
            self.tmp_exists = false;
            true
        } else if !ok {
            self.stage = PipelineStage::Failed;
            self.tmp_exists = false;
            true
        } else {
            // the temporary file is renamed to the final archive name
            self.stage = PipelineStage::Validating;
            self.tmp_exists = false;
            self.zip_exists = true;
            false
        }
    }

    /// The downloaded archive is admitted for extraction only when it is
    /// plausible at all: large enough and carrying the archive signature.  A
    /// rejected file is removed on the spot.  Cancellation before extraction
    /// likewise removes the archive.
    pub fn validate(&mut self, file_size: u64, header: &Vec<u8>, cancelled: bool) -> (r: Result<
        (),
        ModError,
    >)
        requires
            old(self).stage is Validating,
            old(self).zip_exists,
            !old(self).tmp_exists,
            !old(self).extract_dir_exists,
        ensures
            cancelled ==> (r matches Err(e) && e is Cancelled) && final(self).stage is Cancelled
                && pipeline_clean(*final(self)),
            !cancelled && !(file_size >= 100 && has_zip_magic(header@)) ==> (r matches Err(e)
                && e is DownloadError) && final(self).stage is Failed && pipeline_clean(
                *final(self),
            ),
            !cancelled && file_size >= 100 && has_zip_magic(header@) ==> r is Ok && final(self).stage is Extracting && final(self).zip_exists && !final(self).tmp_exists,
    {
        if cancelled {
            self.stage = PipelineStage::Cancelled;
            self.zip_exists = false;
            return Err(ModError::Cancelled);
        }
        match validate_zip_file(file_size, header) {
            Ok(()) => {
                self.stage = PipelineStage::Extracting;
                Ok(())
            },
            Err(e) => {
                self.stage = PipelineStage::Failed;
                self.zip_exists = false;
                Err(e)
            },
        }
    }

    /// Extraction ended.  A failed or cancelled extraction removes both the
    /// archive and the partially extracted directory; after a successful one
    /// the archive is removed and only the extracted directory remains, which
    /// is exactly the successfully-downloaded shape.
    pub fn extraction_finished(&mut self, ok: bool, cancelled: bool)
        requires
            old(self).stage is Extracting,
            old(self).zip_exists,
            !old(self).tmp_exists,
        ensures
            cancelled ==> final(self).stage is Cancelled && pipeline_clean(*final(self)),
            !cancelled && !ok ==> final(self).stage is Failed && pipeline_clean(*final(self)),
            !cancelled && ok ==> final(self).stage is Done && !final(self).tmp_exists && !final(self).zip_exists && final(self).extract_dir_exists,
    {
        if cancelled {
            self.stage = PipelineStage::Cancelled;
            self.zip_exists = false;
            self.extract_dir_exists = false;
        } else if !ok {
            self.stage = PipelineStage::Failed;
            self.zip_exists = false;
            self.extract_dir_exists = false;
        } else {
            self.stage = PipelineStage::Done;
            self.zip_exists = false;
            self.extract_dir_exists = true;
        }
    }
}

} // verus!
