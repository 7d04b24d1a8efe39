use vstd::prelude::*;
use crate::errors::ModError;

verus! {

// ----------------------------------------------------------------------------
// Archive verification and extraction
//
// The surrounding application reads the archive; this module makes the
// decisions: whether the file can be an archive at all, which entry paths may
// be written under the destination, whether the verification pass passed, and
// what cancellation at each checkpoint must clean up.
// ----------------------------------------------------------------------------

/// The four bytes every zip archive starts with.
pub open spec fn zip_magic() -> Seq<u8> {
    seq![0x50u8, 0x4bu8, 0x03u8, 0x04u8]
}

pub open spec fn has_zip_magic(bytes: Seq<u8>) -> bool {
    bytes.len() >= 4 && bytes.take(4) == zip_magic()
}

/// Whether the file's first bytes are the archive signature.
pub fn is_zip_header(bytes: &Vec<u8>) -> (r: bool)
    ensures
        r == has_zip_magic(bytes@),
{
    if bytes.len() < 4 {
        return false;
    }
    let r = bytes[0] == 0x50 && bytes[1] == 0x4b && bytes[2] == 0x03 && bytes[3] == 0x04;
    proof {
        if r {
            assert(bytes@.take(4) =~= zip_magic());
        } else {
            assert(bytes@.take(4) != zip_magic()) by {
                if bytes@.take(4) == zip_magic() {
                    assert(bytes@[0] == 0x50 && bytes@[1] == 0x4b && bytes@[2] == 0x03 && bytes@[3]
                        == 0x04);
                }
            }
        }
    }
    r
}

/// A downloaded file is accepted for extraction only when it is large enough
/// to be an archive at all and starts with the archive signature; anything
/// else is rejected before a single file is written to the destination.
pub fn validate_zip_file(file_size: u64, header: &Vec<u8>) -> (r: Result<(), ModError>)
    ensures
        r is Ok <==> (file_size >= 100 && has_zip_magic(header@)),
        r matches Err(e) ==> e is DownloadError,
{
    if file_size < 100 {
        return Err(
            ModError::DownloadError(
                String::from_str("Downloaded file is too small to be a valid ZIP"),
            ),
        );
    }
    if !is_zip_header(header) {
        return Err(
            ModError::DownloadError(String::from_str("Downloaded file is not a valid ZIP archive")),
        );
    }
    Ok(())
}

// ----------------------------------------------------------------------------
// Entry paths
// ----------------------------------------------------------------------------

/// The position of the first separator at or after i, or the length.
pub open spec fn sep_break(s: Seq<char>, i: nat) -> nat
    decreases s.len() - i,
{
    if i < s.len() {
        if s[i as int] == '/' {
            i
        } else {
            sep_break(s, i + 1)
        }
    } else {
        s.len()
    }
}

/// The '/'-separated components of an entry name.
pub open spec fn path_components(s: Seq<char>) -> Seq<Seq<char>>
    decreases s.len(),
{
    if s.len() == 0 {
        Seq::empty()
    } else {
        let j = sep_break(s, 0);
        if j + 1 <= s.len() {
            seq![s.take(j as int)] + path_components(s.skip(j as int + 1))
        } else {
            seq![s]
        }
    }
}

/// A component that may be written under the destination: nonempty, not the
/// current directory, never the parent directory, and free of backslashes,
/// which another platform would read as separators.
pub open spec fn component_ok(c: Seq<char>) -> bool {
    c.len() > 0 && c != "."@ && c != ".."@ && (forall|k: int| 0 <= k < c.len() ==> c[k] != '\\')
}

/// The entry name without its directory marker: the part that is split into
/// components.
pub open spec fn entry_base(name: Seq<char>) -> Seq<char> {
    if name.len() > 0 && name.last() == '/' {
        name.drop_last()
    } else {
        name
    }
}

pub open spec fn components_ok(cs: Seq<Seq<char>>) -> bool {
    forall|i: int| 0 <= i < cs.len() ==> component_ok(#[trigger] cs[i])
}

/// An entry name whose normalized path stays inside the destination: it names
/// something (possibly a directory, with a trailing separator), is relative,
/// and no component walks upward or disappears.
pub open spec fn entry_path_ok(name: Seq<char>) -> bool {
    entry_base(name).len() > 0 && entry_base(name).last() != '/' && components_ok(
        path_components(entry_base(name)),
    )
}

/// Whether the entry names a directory rather than a file.
pub open spec fn entry_is_dir(name: Seq<char>) -> bool {
    name.len() > 0 && name.last() == '/'
}

pub fn entry_names_dir(name: &str) -> (r: bool)
    ensures
        r == entry_is_dir(name@),
{
    let len = name.unicode_len();
    len > 0 && name.get_char(len - 1) == '/'
}


/// Whether a component carries a backslash.
fn has_backslash(s: &str) -> (r: bool)
    ensures
        r == exists|k: int| 0 <= k < s@.len() && s@[k] == '\\',
{
    let len = s.unicode_len();
    let mut i: usize = 0;
    while i < len
        invariant
            0 <= i <= len,
            len == s@.len(),
            forall|k: int| 0 <= k < i ==> s@[k] != '\\',
        decreases len - i,
    {
        if s.get_char(i) == '\\' {
            return true;
        }
        i = i + 1;
    }
    false
}

/// Splits an entry name into its components, rejecting any name whose
/// normalized path would escape the destination.
pub fn sanitize_entry_path(name: &str) -> (r: Option<Vec<String>>)
    ensures
        match r {
            Some(comps) => entry_path_ok(name@) && crate::fstree::str_views(comps@)
                == path_components(entry_base(name@)),
            None => !entry_path_ok(name@),
        },
{
    let len = name.unicode_len();
    let is_dir = entry_names_dir(name);
    let blen = if is_dir {
        len - 1
    } else {
        len
    };
    let base = name.substring_char(0, blen);
    let ghost bv = entry_base(name@);
    proof {
        assert(base@ =~= bv);
    }
    if blen == 0 {
        return None;
    }
    let mut comps: Vec<String> = Vec::new();
    let mut start: usize = 0;
    let mut i: usize = 0;
    proof {
        reveal_strlit(".");
        reveal_strlit("..");
        assert(base@.skip(0) =~= base@);
        assert(crate::fstree::str_views(comps@) =~= Seq::<Seq<char>>::empty());
    }
    while i < blen
        invariant
            0 <= start <= i <= blen,
            blen == base@.len(),
            blen > 0,
            base@ == bv,
            bv == entry_base(name@),
            "."@.len() == 1,
            ".."@.len() == 2,
            forall|k: int| start <= k < i ==> base@[k] != '/',
            start > 0 ==> base@[start as int - 1] == '/',
            path_components(base@) =~= crate::fstree::str_views(comps@) + path_components(
                base@.skip(start as int),
            ),
            forall|k: int|
                0 <= k < comps@.len() ==> component_ok(
                    #[trigger] crate::fstree::str_views(comps@)[k],
                ),
        decreases blen - i,
    {
        if base.get_char(i) == '/' {
            let piece = String::from_str(base.substring_char(start, i));
            proof {
                let rest = base@.skip(start as int);
                lemma_sep_break_at(rest, (i - start) as nat);
                assert(rest.take(i - start) =~= base@.subrange(start as int, i as int));
                assert(rest.skip(i - start + 1) =~= base@.skip(i as int + 1));
                assert(path_components(rest) == seq![piece@] + path_components(
                    base@.skip(i as int + 1),
                ));
                assert(path_components(base@)[comps@.len() as int] == piece@);
            }
            let bad = piece.as_str().unicode_len() == 0 || crate::strutil::str_eq(
                piece.as_str(),
                ".",
            ) || crate::strutil::str_eq(piece.as_str(), "..") || has_backslash(piece.as_str());
            if bad {
                proof {
                    assert(!component_ok(piece@));
                    assert(crate::fstree::str_views(comps@).len() == comps@.len());
                    assert(0 <= comps@.len() < path_components(entry_base(name@)).len());
                    assert(!component_ok(
                        path_components(entry_base(name@))[comps@.len() as int],
                    ));
                    assert(!components_ok(path_components(entry_base(name@))));
                    assert(!entry_path_ok(name@));
                }
                return None;
            }
            proof {
                assert(crate::fstree::str_views(comps@.push(piece)) =~= crate::fstree::str_views(
                    comps@,
                ).push(piece@));
            }
            comps.push(piece);
            start = i + 1;
        }
        i = i + 1;
    }
    if start == blen {
        // the name ends in a separator run: its final component is empty
        proof {
            assert(base@.last() == '/');
            assert(entry_base(name@).len() > 0 && entry_base(name@).last() == '/');
            assert(!entry_path_ok(name@));
        }
        return None;
    }
    let piece = String::from_str(base.substring_char(start, blen));
    proof {
        let rest = base@.skip(start as int);
        lemma_sep_break_at(rest, (blen - start) as nat);
        assert(rest =~= base@.subrange(start as int, blen as int));
        assert(path_components(rest) =~= seq![piece@]);
        assert(path_components(base@)[comps@.len() as int] == piece@);
    }
    let bad = piece.as_str().unicode_len() == 0 || crate::strutil::str_eq(piece.as_str(), ".")
        || crate::strutil::str_eq(piece.as_str(), "..") || has_backslash(piece.as_str());
    if bad {
        proof {
            assert(!component_ok(piece@));
            assert(crate::fstree::str_views(comps@).len() == comps@.len());
            assert(0 <= comps@.len() < path_components(entry_base(name@)).len());
            assert(!component_ok(
                path_components(entry_base(name@))[comps@.len() as int],
            ));
            assert(!components_ok(path_components(entry_base(name@))));
            assert(!entry_path_ok(name@));
        }
        return None;
    }
    proof {
        assert(crate::fstree::str_views(comps@.push(piece)) =~= crate::fstree::str_views(
            comps@,
        ).push(piece@));
    }
    comps.push(piece);
    proof {
        assert(path_components(base@) =~= crate::fstree::str_views(comps@));
        assert(base@.last() != '/');
        assert(entry_path_ok(name@)) by {
            assert(forall|k: int|
                0 <= k < path_components(entry_base(name@)).len() ==> component_ok(
                    #[trigger] path_components(entry_base(name@))[k],
                ));
        }
    }
    Some(comps)
}

/// A scan that stopped at j pins sep_break down exactly.
proof fn lemma_sep_break_at(s: Seq<char>, j: nat)
    requires
        j <= s.len(),
        forall|k: int| 0 <= k < j ==> s[k] != '/',
        j == s.len() || s[j as int] == '/',
    ensures
        sep_break(s, 0) == j,
{
    lemma_sep_break_from(s, 0, j);
}

proof fn lemma_sep_break_from(s: Seq<char>, i: nat, j: nat)
    requires
        i <= j <= s.len(),
        forall|k: int| i <= k < j ==> s[k] != '/',
        j == s.len() || s[j as int] == '/',
    ensures
        sep_break(s, i) == j,
    decreases j - i,
{
    if i < j {
        lemma_sep_break_from(s, i + 1, j);
    }
}

// ----------------------------------------------------------------------------
// The verification pass and the extraction machine
// ----------------------------------------------------------------------------

/// The status observation the extraction reports: extracting, then completed.
pub struct ExtractionStatus {
    pub mod_name: String,
    pub status: String,
}

/// The error observation a failed extraction reports, with its causing text.
pub struct ExtractionError {
    pub mod_name: String,
    pub error: String,
}

/// The outcome of reading a leading chunk of one contained file.
pub struct EntryCheck {
    pub name: String,
    pub readable: bool,
}

/// Verification pass over the archive: every contained file must yield its
/// leading bytes, so corruption surfaces before anything is extracted.
pub fn verify_archive(entries: &Vec<EntryCheck>) -> (r: Result<(), ModError>)
    ensures
        r is Ok <==> (forall|i: int| 0 <= i < entries@.len() ==> (#[trigger] entries@[i]).readable),
        r matches Err(e) ==> e is ParseError,
{
    let mut i: usize = 0;
    while i < entries.len()
        invariant
            0 <= i <= entries@.len(),
            forall|k: int| 0 <= k < i ==> (#[trigger] entries@[k]).readable,
        decreases entries@.len() - i,
    {
        if !entries[i].readable {
            return Err(
                ModError::ParseError(
                    String::from_str("Failed to read file in archive").concat(
                        entries[i].name.as_str(),
                    ),
                ),
            );
        }
        i = i + 1;
    }
    Ok(())
}

pub enum ExtractionPhase {
    Started,
    DirReady,
    Verified,
    Extracting,
    Done,
    Cancelled,
}

/// One extraction in progress: its phase, how many entries are written, and
/// whether the destination directory has been created yet.
pub struct Extraction {
    pub phase: ExtractionPhase,
    pub entries_done: usize,
    pub dir_created: bool,
}

impl Extraction {
    /// Cancellation is checked before anything is created.
    pub fn begin(cancelled: bool) -> (r: Result<Extraction, ModError>)
        ensures
            match r {
                Ok(e) => !cancelled && e.phase is Started && !e.dir_created && e.entries_done == 0,
                Err(e) => cancelled && e is Cancelled,
            },
    {
        if cancelled {
            Err(ModError::Cancelled)
        } else {
            Ok(Extraction { phase: ExtractionPhase::Started, entries_done: 0, dir_created: false })
        }
    }

    /// The destination directory exists now; from here on, cancellation must
    /// remove it entirely, leaving no partial extraction behind.
    pub fn dir_ready(&mut self)
        requires
            old(self).phase is Started,
        ensures
            final(self).phase is DirReady,
            final(self).dir_created,
            final(self).entries_done == old(self).entries_done,
    {
        self.dir_created = true;
        self.phase = ExtractionPhase::DirReady;
    }

    /// A cooperative cancellation checkpoint: when the handle is signalled,
    /// the extraction ends as cancelled, and the whole destination directory
    /// is to be removed exactly when it was created.
    pub fn check_cancelled(&mut self, cancelled: bool) -> (r: Result<(), ModError>)
        ensures
            !cancelled ==> r is Ok && *final(self) == *old(self),
            cancelled ==> (r matches Err(e) && e is Cancelled) && final(self).phase is Cancelled && final(self).dir_created == old(self).dir_created,
            cancelled ==> (final(self).dir_created <==> old(self).dir_created),
    {
        if cancelled {
            self.phase = ExtractionPhase::Cancelled;
            Err(ModError::Cancelled)
        } else {
            Ok(())
        }
    }

    /// Whether a cancellation at this point must remove the destination
    /// directory: exactly when it was created.
    pub fn cleanup_removes_destination(&self) -> (r: bool)
        ensures
            r == self.dir_created,
    {
        self.dir_created
    }

    /// The verification pass is complete.
    pub fn verified(&mut self)
        requires
            old(self).phase is DirReady,
        ensures
            final(self).phase is Verified,
            final(self).dir_created == old(self).dir_created,
            final(self).entries_done == old(self).entries_done,
    {
        self.phase = ExtractionPhase::Verified;
    }

    /// One entry has been written out.
    pub fn entry_written(&mut self)
        requires
            old(self).phase is Verified || old(self).phase is Extracting,
            old(self).entries_done < usize::MAX,
        ensures
            final(self).phase is Extracting,
            final(self).entries_done == old(self).entries_done + 1,
            final(self).dir_created == old(self).dir_created,
    {
        self.phase = ExtractionPhase::Extracting;
        self.entries_done = self.entries_done + 1;
    }

    /// The final checkpoint before completion is signalled.
    pub fn finish(&mut self, cancelled: bool) -> (r: Result<(), ModError>)
        requires
            old(self).phase is Verified || old(self).phase is Extracting,
        ensures
            !cancelled ==> r is Ok && final(self).phase is Done,
            cancelled ==> (r matches Err(e) && e is Cancelled) && final(self).phase is Cancelled,
            final(self).dir_created == old(self).dir_created,
            final(self).entries_done == old(self).entries_done,
    {
        if cancelled {
            self.phase = ExtractionPhase::Cancelled;
            Err(ModError::Cancelled)
        } else {
            self.phase = ExtractionPhase::Done;
            Ok(())
        }
    }
}

} // verus!
