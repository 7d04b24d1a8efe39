use vstd::prelude::*;
use crate::errors::ModError;
use crate::strutil::{starts_with, str_starts_with};

verus! {

// ----------------------------------------------------------------------------
// One cancellable transfer
//
// The surrounding application performs the network and file I/O; this state
// machine makes every decision of the transfer: which URLs are admissible,
// what the total size is, which statuses succeed, when a progress observation
// is due, what cancellation means at each checkpoint, and when the finished
// file is acceptable.
// ----------------------------------------------------------------------------

/// A transfer's progress observation: integer percentages only, emitted only
/// when the percentage advances.
pub struct DownloadProgress {
    pub mod_name: String,
    pub downloaded_bytes: u64,
    pub total_bytes: u64,
    pub progress_percent: u64,
}

/// URLs a transfer accepts: nonempty and with an HTTP scheme prefix.
pub open spec fn url_ok(url: Seq<char>) -> bool {
    url.len() > 0 && starts_with(url, "http"@)
}

/// Rejects empty or non-HTTP URLs before any network call is made.
pub fn validate_url(url: &str) -> (r: Result<(), ModError>)
    ensures
        r is Ok <==> url_ok(url@),
        r matches Err(e) ==> e is InvalidUrl,
{
    if url.unicode_len() == 0 || !str_starts_with(url, "http") {
        Err(ModError::InvalidUrl(String::from_str(url)))
    } else {
        Ok(())
    }
}

/// Whether an HTTP status code counts as success.
pub open spec fn status_ok(code: u16) -> bool {
    200 <= code < 300
}

pub fn status_is_success(code: u16) -> (r: bool)
    ensures
        r == status_ok(code),
{
    200 <= code && code < 300
}

// ----------------------------------------------------------------------------
// The declared size and the integer percentage
// ----------------------------------------------------------------------------

pub open spec fn is_dec_digit(c: char) -> bool {
    '0' <= c && c <= '9'
}

pub open spec fn digit_value(c: char) -> nat {
    ((c as int) - ('0' as int)) as nat
}

pub open spec fn all_digits(s: Seq<char>) -> bool {
    forall|i: int| 0 <= i < s.len() ==> is_dec_digit(#[trigger] s[i])
}

pub open spec fn dec_value(s: Seq<char>) -> nat
    decreases s.len(),
{
    if s.len() == 0 {
        0
    } else {
        dec_value(s.drop_last()) * 10 + digit_value(s.last())
    }
}

/// What a Content-Length header yields: its decimal value when it is a plain
/// in-range number, and 0 when it is absent or unusable.
pub open spec fn content_length_of(h: Option<Seq<char>>) -> nat {
    match h {
        Some(s) => if s.len() > 0 && all_digits(s) && dec_value(s) <= u64::MAX {
            dec_value(s)
        } else {
            0
        },
        None => 0,
    }
}

/// A longer run of digits never names a smaller number.
proof fn lemma_dec_value_mono(s: Seq<char>, i: int)
    requires
        0 <= i <= s.len(),
    ensures
        dec_value(s.take(i)) <= dec_value(s),
    decreases s.len() - i,
{
    if i < s.len() {
        lemma_dec_value_mono(s, i + 1);
        assert(s.take(i + 1).drop_last() =~= s.take(i));
        assert(dec_value(s.take(i + 1)) == dec_value(s.take(i)) * 10 + digit_value(
            s.take(i + 1).last(),
        ));
    } else {
        assert(s.take(i) =~= s);
    }
}

/// Reads the declared total size out of a Content-Length header.
pub fn parse_content_length(h: Option<&str>) -> (r: u64)
    ensures
        r as nat == content_length_of(
            match h {
                Some(s) => Some(s@),
                None => None,
            },
        ),
{
    let s = match h {
        Some(s) => s,
        None => {
            return 0;
        },
    };
    let len = s.unicode_len();
    if len == 0 {
        return 0;
    }
    let mut acc: u64 = 0;
    let mut i: usize = 0;
    while i < len
        invariant
            0 <= i <= len,
            len == s@.len(),
            len > 0,
            h matches Some(hs) && hs@ == s@,
            all_digits(s@.take(i as int)),
            acc as nat == dec_value(s@.take(i as int)),
        decreases len - i,
    {
        let c = s.get_char(i);
        if !('0' <= c && c <= '9') {
            proof {
                assert(!is_dec_digit(s@[i as int]));
                assert(!all_digits(s@));
            }
            return 0;
        }
        let d = (c as u32) - ('0' as u32);
        proof {
            assert(s@.take(i as int + 1).drop_last() =~= s@.take(i as int));
            assert(s@.take(i as int + 1).last() == s@[i as int]);
            assert(digit_value(s@[i as int]) == d as nat);
        }
        if acc > (u64::MAX - (d as u64)) / 10 {
            // the header names a number too large to be a size
            proof {
                let m = u64::MAX - (d as u64);
                assert(10 * ((m as int) / 10) + 9 >= m as int);
                assert((acc as int) * 10 + (d as int) > u64::MAX as int);
                assert(dec_value(s@.take(i as int + 1)) == (acc as nat) * 10 + (d as nat));
                assert(dec_value(s@.take(i as int + 1)) > u64::MAX);
                lemma_dec_value_mono(s@, i + 1);
                assert(s@.take(s@.len() as int) =~= s@);
                assert(dec_value(s@) > u64::MAX);
            }
            return 0;
        }
        acc = acc * 10 + (d as u64);
        i = i + 1;
    }
    proof {
        assert(s@.take(len as int) =~= s@);
    }
    acc
}

/// The integer percentage of a transfer, and 0 while the total is unknown.
pub open spec fn progress_percent(downloaded: nat, total: nat) -> nat {
    if total == 0 {
        0
    } else if downloaded >= total {
        100
    } else {
        downloaded * 100 / total
    }
}

/// The integer percentage, capped at the guaranteed final 100.
pub fn calculate_progress(downloaded: u64, total_size: u64) -> (r: u64)
    ensures
        r as nat == progress_percent(downloaded as nat, total_size as nat),
        r <= 100,
{
    if total_size == 0 {
        0
    } else if downloaded >= total_size {
        100
    } else {
        let p = (downloaded as u128) * 100 / (total_size as u128);
        proof {
            lemma_percent_bound(downloaded, total_size);
        }
        p as u64
    }
}

/// Below the total, the integer percentage stays below 100 and fits every
/// machine width.
proof fn lemma_percent_bound(d: u64, t: u64) by (nonlinear_arith)
    requires
        0 < t,
        d < t,
    ensures
        (d as nat) * 100 / (t as nat) < 100,
{
}

// ----------------------------------------------------------------------------
// The transfer state machine
// ----------------------------------------------------------------------------

pub enum TransferState {
    Probing,
    Streaming,
    Complete,
    Cancelled,
    Failed,
}

/// The state of one transfer: what phase it is in, how much arrived, the
/// declared total, and the last percentage reported.
pub struct Transfer {
    pub state: TransferState,
    pub downloaded: u64,
    pub total: u64,
    pub last_percent: u64,
}

impl Transfer {
    /// Admits a transfer for a valid URL, rejecting bad URLs before any
    /// network call.
    pub fn begin(url: &str) -> (r: Result<Transfer, ModError>)
        ensures
            match r {
                Ok(t) => url_ok(url@) && t.state is Probing && t.downloaded == 0 && t.total == 0
                    && t.last_percent == 0,
                Err(e) => !url_ok(url@) && e is InvalidUrl,
            },
    {
        match validate_url(url) {
            Ok(()) => Ok(
                Transfer { state: TransferState::Probing, downloaded: 0, total: 0, last_percent: 0 },
            ),
            Err(e) => Err(e),
        }
    }

    /// Cooperative cancellation checkpoint: a signalled handle ends the
    /// transfer with the distinct cancelled outcome, never a generic error.
    pub fn check_cancelled(&mut self, cancelled: bool) -> (r: Result<(), ModError>)
        ensures
            !cancelled ==> r is Ok && *final(self) == *old(self),
            cancelled ==> (r matches Err(e) && e is Cancelled) && final(self).state is Cancelled
                && final(self).downloaded == old(self).downloaded && final(self).total == old(self).total && final(self).last_percent == old(self).last_percent,
    {
        if cancelled {
            self.state = TransferState::Cancelled;
            Err(ModError::Cancelled)
        } else {
            Ok(())
        }
    }

    /// Learns the declared size from the metadata probe; an absent or
    /// malformed header means an unknown total of 0.
    pub fn set_total(&mut self, content_length: Option<&str>)
        requires
            old(self).state is Probing,
        ensures
            final(self).state is Streaming,
            final(self).total as nat == content_length_of(
                match content_length {
                    Some(s) => Some(s@),
                    None => None,
                },
            ),
            final(self).downloaded == old(self).downloaded,
            final(self).last_percent == old(self).last_percent,
    {
        self.total = parse_content_length(content_length);
        self.state = TransferState::Streaming;
    }

    /// Judges the streaming response's status: a non-success status fails the
    /// transfer, and the error carries the response body as diagnostic text.
    pub fn on_status(&mut self, code: u16, body: String) -> (r: Result<(), ModError>)
        requires
            old(self).state is Streaming,
        ensures
            status_ok(code) ==> r is Ok && *final(self) == *old(self),
            !status_ok(code) ==> (r matches Err(e) && e == ModError::HttpError(body)) && final(self).state is Failed,
    {
        if status_is_success(code) {
            Ok(())
        } else {
            self.state = TransferState::Failed;
            Err(ModError::HttpError(body))
        }
    }

    /// Accounts one received chunk and decides whether a progress observation
    /// is due: only when the integer percentage advanced.
    pub fn on_chunk(&mut self, len: u64) -> (emit: Option<u64>)
        requires
            old(self).state is Streaming,
            old(self).downloaded + len <= u64::MAX,
        ensures
            final(self).state is Streaming,
            final(self).downloaded == old(self).downloaded + len,
            final(self).total == old(self).total,
            ({
                let pct = progress_percent(
                    (old(self).downloaded + len) as nat,
                    old(self).total as nat,
                );
                match emit {
                    Some(p) => p as nat == pct && pct > old(self).last_percent && final(self).last_percent as nat == pct,
                    None => pct <= old(self).last_percent && final(self).last_percent == old(self).last_percent,
                }
            }),
    {
        self.downloaded = self.downloaded + len;
        let pct = calculate_progress(self.downloaded, self.total);
        if pct > self.last_percent {
            self.last_percent = pct;
            Some(pct)
        } else {
            None
        }
    }

    /// Finishes the transfer: the file must not be empty, and a final 100%
    /// observation is due exactly when none was reported yet.
    pub fn finalize(&mut self, file_len: u64) -> (r: Result<Option<u64>, ModError>)
        requires
            old(self).state is Streaming,
        ensures
            file_len == 0 ==> (r matches Err(e) && e is IoError) && final(self).state is Failed,
            file_len > 0 ==> final(self).state is Complete && (r matches Ok(emit)
                && (old(self).last_percent < 100 ==> emit == Some(100u64)) && (old(self).last_percent >= 100 ==> emit is None)),
    {
        if file_len == 0 {
            self.state = TransferState::Failed;
            return Err(ModError::IoError(String::from_str("Downloaded file is empty")));
        }
        self.state = TransferState::Complete;
        if self.last_percent < 100 {
            self.last_percent = 100;
            Ok(Some(100))
        } else {
            Ok(None)
        }
    }
}

} // verus!
