use vstd::prelude::*;
use crate::fstree::str_views;
use crate::strutil::{str_ends_with, str_eq};

verus! {

// ----------------------------------------------------------------------------
// The download queue
//
// Admission control for the pipeline: callers enqueue downloads; at most
// `max_concurrent` transfers hold a slot at any time; the queue is first in,
// first out; one cancellation handle exists per in-flight filename.  The
// surrounding application performs the transfers; this state machine decides
// who may start, who is in flight, and what a cancellation removes.
// ----------------------------------------------------------------------------

/// One enqueued download request.
pub struct QueuedDownload {
    pub url: String,
    pub filename: String,
    pub repo_url: String,
}

pub struct QueuedDownloadV {
    pub url: Seq<char>,
    pub filename: Seq<char>,
    pub repo_url: Seq<char>,
}

impl View for QueuedDownload {
    type V = QueuedDownloadV;

    open spec fn view(&self) -> QueuedDownloadV {
        QueuedDownloadV { url: self.url@, filename: self.filename@, repo_url: self.repo_url@ }
    }
}

/// The queued requests in arrival order, the filenames currently holding a
/// transfer slot, and the slot bound.
pub struct DownloadQueue {
    pub queue: Vec<QueuedDownload>,
    pub active: Vec<String>,
    pub max_concurrent: usize,
}

pub open spec fn queue_views(q: Seq<QueuedDownload>) -> Seq<QueuedDownloadV> {
    q.map_values(|d: QueuedDownload| d@)
}

/// A filename among those currently transferring.
pub open spec fn is_active(active: Seq<Seq<char>>, name: Seq<char>) -> bool {
    exists|i: int| 0 <= i < active.len() && active[i] == name
}

/// The queue's invariant: never more in-flight transfers than slots, and at
/// most one live cancellation handle per filename.
pub open spec fn queue_wf(q: DownloadQueue) -> bool {
    &&& q.active@.len() <= q.max_concurrent
    &&& q.max_concurrent >= 1
    &&& forall|i: int, j: int|
        0 <= i < j < q.active@.len() ==> str_views(q.active@)[i] != str_views(q.active@)[j]
}

/// The queued items that survive cancelling `name`: every request for that
/// filename is withdrawn, all others keep their order.
pub open spec fn retain_queue(q: Seq<QueuedDownloadV>, name: Seq<char>) -> Seq<QueuedDownloadV>
    decreases q.len(),
{
    if q.len() == 0 {
        q
    } else {
        let p = retain_queue(q.drop_last(), name);
        if q.last().filename == name {
            p
        } else {
            p.push(q.last())
        }
    }
}

/// The active names that survive finishing or cancelling `name`.
pub open spec fn deactivate(active: Seq<Seq<char>>, name: Seq<char>) -> Seq<Seq<char>>
    decreases active.len(),
{
    if active.len() == 0 {
        active
    } else if active[0] == name {
        active.drop_first()
    } else {
        seq![active[0]] + deactivate(active.drop_first(), name)
    }
}

/// Nothing queued for a cancelled filename survives the cancellation.
pub proof fn lemma_retain_removes_all(q: Seq<QueuedDownloadV>, name: Seq<char>)
    ensures
        forall|i: int|
            0 <= i < retain_queue(q, name).len() ==> (#[trigger] retain_queue(q, name)[i]).filename
                != name,
    decreases q.len(),
{
    if q.len() > 0 {
        lemma_retain_removes_all(q.drop_last(), name);
        let p = retain_queue(q.drop_last(), name);
        if q.last().filename == name {
        } else {
            assert(retain_queue(q, name) == p.push(q.last()));
            assert(forall|i: int|
                0 <= i < p.len() ==> #[trigger] retain_queue(q, name)[i] == p[i]);
            assert(retain_queue(q, name)[p.len() as int] == q.last());
        }
    }
}

/// Cancelling a still-queued, not-yet-started download guarantees that no
/// request for its filename stays queued and no handle for it exists, so no
/// later admission can start its transfer and no file for it is ever written.
pub proof fn lemma_cancel_queued_never_starts(
    q: Seq<QueuedDownloadV>,
    active: Seq<Seq<char>>,
    name: Seq<char>,
)
    requires
        !is_active(active, name),
    ensures
        forall|i: int|
            0 <= i < retain_queue(q, name).len() ==> (#[trigger] retain_queue(q, name)[i]).filename
                != name,
        deactivate(active, name) == active,
        !is_active(deactivate(active, name), name),
    decreases active.len(),
{
    lemma_retain_removes_all(q, name);
    if active.len() > 0 {
        assert(active[0] != name);
        assert(!is_active(active.drop_first(), name)) by {
            if is_active(active.drop_first(), name) {
                let i = choose|i: int|
                    0 <= i < active.drop_first().len() && active.drop_first()[i] == name;
                assert(active[i + 1] == name);
            }
        }
        lemma_cancel_queued_never_starts(q, active.drop_first(), name);
        assert(deactivate(active, name) =~= active);
    } else {
        assert(deactivate(active, name) =~= active);
    }
}

impl DownloadQueue {
    /// An empty queue admitting two concurrent transfers.
    pub fn new() -> (r: DownloadQueue)
        ensures
            r.queue@.len() == 0,
            r.active@.len() == 0,
            r.max_concurrent == 2,
            queue_wf(r),
    {
        DownloadQueue { queue: Vec::new(), active: Vec::new(), max_concurrent: 2 }
    }

    /// Appends a request at the back of the queue.  Non-blocking: whether a
    /// transfer starts is decided by process_one_download.
    pub fn add_download(&mut self, url: String, filename: String, repo_url: String)
        requires
            queue_wf(*old(self)),
        ensures
            queue_wf(*final(self)),
            final(self).queue@ == old(self).queue@.push(
                QueuedDownload { url, filename, repo_url },
            ),
            final(self).active@ == old(self).active@,
            final(self).max_concurrent == old(self).max_concurrent,
    {
        self.queue.push(QueuedDownload { url, filename, repo_url });
    }

    /// Admits the head of the queue when a slot is free: removes it from the
    /// queue, registers its cancellation handle, and hands it to the caller
    /// to transfer.  With all slots taken, or nothing queued, nothing starts.
    pub fn process_one_download(&mut self) -> (r: Option<QueuedDownload>)
        requires
            queue_wf(*old(self)),
        ensures
            queue_wf(*final(self)),
            final(self).max_concurrent == old(self).max_concurrent,
            match r {
                Some(d) => old(self).queue@.len() > 0 && old(self).active@.len() < old(
                    self,
                ).max_concurrent && d == old(self).queue@[0] && final(self).queue@ == old(
                    self,
                ).queue@.drop_first() && str_views(final(self).active@) == str_views(
                    old(self).active@,
                ).push(d.filename@) && !is_active(str_views(old(self).active@), d.filename@),
                None => final(self).queue@ == old(self).queue@ && final(self).active@ == old(
                    self,
                ).active@ && (old(self).queue@.len() == 0 || old(self).active@.len() >= old(
                    self,
                ).max_concurrent || is_active(
                    str_views(old(self).active@),
                    old(self).queue@[0].filename@,
                )),
            },
            final(self).active@.len() <= final(self).max_concurrent,
    {
        if self.queue.len() == 0 || self.active.len() >= self.max_concurrent {
            return None;
        }
        // a second handle for a filename already in flight is never created
        if name_is_active(&self.active, self.queue[0].filename.as_str()) {
            return None;
        }
        let d = self.queue.remove(0);
        proof {
            assert(self.queue@ =~= old(self).queue@.drop_first());
        }
        self.active.push(d.filename.clone());
        proof {
            assert(str_views(self.active@) =~= str_views(old(self).active@).push(d.filename@));
            assert(forall|i: int, j: int|
                0 <= i < j < self.active@.len() ==> str_views(self.active@)[i] != str_views(
                    self.active@,
                )[j]) by {
                assert(forall|i: int|
                    0 <= i < old(self).active@.len() ==> str_views(self.active@)[i] == str_views(
                        old(self).active@,
                    )[i]);
            }
        }
        Some(d)
    }

    /// Releases the slot and the cancellation handle of a finished transfer,
    /// whether it succeeded, failed, or was cancelled.
    pub fn finish_download(&mut self, filename: &str)
        requires
            queue_wf(*old(self)),
        ensures
            queue_wf(*final(self)),
            final(self).queue@ == old(self).queue@,
            final(self).max_concurrent == old(self).max_concurrent,
            str_views(final(self).active@) == deactivate(
                str_views(old(self).active@),
                filename@,
            ),
    {
        let new_active = remove_active(&self.active, filename);
        self.active = new_active;
    }

    /// Cancels a download: a still-queued request is withdrawn so its
    /// transfer never starts; an in-flight one has its handle signalled and
    /// removed.  Cancelling an unknown filename is a no-op success.  Returns
    /// whether the filename was queued and whether it was in flight, so that
    /// the caller can clean up this filename's partial files.
    pub fn cancel_download(&mut self, filename: &str) -> (r: (bool, bool))
        requires
            queue_wf(*old(self)),
        ensures
            queue_wf(*final(self)),
            final(self).max_concurrent == old(self).max_concurrent,
            queue_views(final(self).queue@) == retain_queue(
                queue_views(old(self).queue@),
                filename@,
            ),
            str_views(final(self).active@) == deactivate(
                str_views(old(self).active@),
                filename@,
            ),
            r.0 == (queue_views(final(self).queue@).len() < old(self).queue@.len()),
            r.1 == is_active(str_views(old(self).active@), filename@),
    {
        let mut kept: Vec<QueuedDownload> = Vec::new();
        let n = self.queue.len();
        let mut i: usize = 0;
        proof {
            assert(queue_views(self.queue@).take(0) =~= Seq::<QueuedDownloadV>::empty());
            assert(retain_queue(Seq::<QueuedDownloadV>::empty(), filename@) =~= Seq::<
                QueuedDownloadV,
            >::empty());
            assert(queue_views(kept@) =~= Seq::<QueuedDownloadV>::empty());
        }
        while i < n
            invariant
                0 <= i <= n,
                n == self.queue@.len(),
                self == old(self),
                queue_views(kept@) =~= retain_queue(
                    queue_views(self.queue@).take(i as int),
                    filename@,
                ),
            decreases n - i,
        {
            let ghost qv = queue_views(self.queue@);
            proof {
                assert(qv.take(i as int + 1).drop_last() =~= qv.take(i as int));
                assert(qv.take(i as int + 1).last() == qv[i as int]);
            }
            if !str_eq(self.queue[i].filename.as_str(), filename) {
                let item = QueuedDownload {
                    url: self.queue[i].url.clone(),
                    filename: self.queue[i].filename.clone(),
                    repo_url: self.queue[i].repo_url.clone(),
                };
                proof {
                    assert(item@ == qv[i as int]);
                }
                kept.push(item);
                proof {
                    assert(queue_views(kept@) =~= retain_queue(
                        qv.take(i as int + 1),
                        filename@,
                    ));
                }
            }
            i = i + 1;
        }
        proof {
            assert(queue_views(self.queue@).take(n as int) =~= queue_views(self.queue@));
        }
        let was_queued = kept.len() < n;
        proof {
            assert(queue_views(kept@).len() == kept@.len());
        }
        self.queue = kept;
        let was_active = name_is_active(&self.active, filename);
        let new_active = remove_active(&self.active, filename);
        self.active = new_active;
        (was_queued, was_active)
    }
}

/// Whether this filename currently holds a transfer slot.
fn name_is_active(active: &Vec<String>, name: &str) -> (r: bool)
    ensures
        r == is_active(str_views(active@), name@),
{
    let mut i: usize = 0;
    while i < active.len()
        invariant
            0 <= i <= active@.len(),
            forall|k: int| 0 <= k < i ==> str_views(active@)[k] != name@,
        decreases active@.len() - i,
    {
        if str_eq(active[i].as_str(), name) {
            assert(str_views(active@)[i as int] == name@);
            return true;
        }
        i = i + 1;
    }
    proof {
        if is_active(str_views(active@), name@) {
            let k = choose|k: int|
                0 <= k < str_views(active@).len() && str_views(active@)[k] == name@;
        }
    }
    false
}

/// Deactivation by the first occurrence acts by index.
proof fn lemma_deactivate_at(av: Seq<Seq<char>>, i: int)
    requires
        0 <= i < av.len(),
        forall|k: int| 0 <= k < i ==> av[k] != av[i],
    ensures
        deactivate(av, av[i]) == av.remove(i),
    decreases i,
{
    if i == 0 {
        assert(deactivate(av, av[0]) =~= av.remove(0));
    } else {
        let d = av.drop_first();
        assert(forall|k: int| 0 <= k < i - 1 ==> #[trigger] d[k] != d[i - 1]) by {
            assert(forall|k: int| 0 <= k < d.len() ==> #[trigger] d[k] == av[k + 1]);
        }
        lemma_deactivate_at(d, i - 1);
        assert(d[i - 1] == av[i]);
        assert(av[0] != av[i]);
        assert(deactivate(av, av[i]) =~= av.remove(i)) by {
            assert(d.remove(i - 1) =~= av.remove(i).drop_first());
            assert(av.remove(i)[0] == av[0]);
        }
    }
}

/// Deactivating an unknown name changes nothing.
proof fn lemma_deactivate_absent(av: Seq<Seq<char>>, name: Seq<char>)
    requires
        forall|k: int| 0 <= k < av.len() ==> av[k] != name,
    ensures
        deactivate(av, name) == av,
    decreases av.len(),
{
    if av.len() > 0 {
        assert(forall|k: int|
            0 <= k < av.drop_first().len() ==> #[trigger] av.drop_first()[k] == av[k + 1]);
        lemma_deactivate_absent(av.drop_first(), name);
        assert(deactivate(av, name) =~= av);
    } else {
        assert(deactivate(av, name) =~= av);
    }
}

/// The active names with the first occurrence of this name taken out.
fn remove_active(active: &Vec<String>, name: &str) -> (r: Vec<String>)
    ensures
        str_views(r@) == deactivate(str_views(active@), name@),
        r@.len() <= active@.len(),
        is_active(str_views(active@), name@) ==> r@.len() == active@.len() - 1,
        (forall|i: int, j: int|
            0 <= i < j < active@.len() ==> str_views(active@)[i] != str_views(active@)[j])
            ==> (forall|i: int, j: int|
            0 <= i < j < r@.len() ==> str_views(r@)[i] != str_views(r@)[j]),
{
    let ghost av = str_views(active@);
    let mut idx: Option<usize> = None;
    let mut i: usize = 0;
    while i < active.len()
        invariant
            0 <= i <= active@.len(),
            av == str_views(active@),
            match idx {
                Some(j) => j < i && av[j as int] == name@ && (forall|k: int|
                    0 <= k < j ==> av[k] != name@),
                None => forall|k: int| 0 <= k < i ==> av[k] != name@,
            },
        decreases active@.len() - i,
    {
        if idx.is_none() && str_eq(active[i].as_str(), name) {
            idx = Some(i);
        }
        i = i + 1;
    }
    match idx {
        None => {
            proof {
                lemma_deactivate_absent(av, name@);
                if is_active(av, name@) {
                    let k = choose|k: int| 0 <= k < av.len() && av[k] == name@;
                }
            }
            let r = crate::fstree::clone_path(active);
            proof {
                assert(str_views(r@) =~= av);
            }
            r
        },
        Some(j) => {
            proof {
                assert(forall|k: int| 0 <= k < j ==> av[k] != av[j as int]);
                lemma_deactivate_at(av, j as int);
            }
            let mut out: Vec<String> = Vec::new();
            let mut k: usize = 0;
            while k < active.len()
                invariant
                    0 <= k <= active@.len(),
                    j < active@.len(),
                    av == str_views(active@),
                    str_views(out@) =~= if k <= j {
                        av.take(k as int)
                    } else {
                        av.remove(j as int).take(k as int - 1)
                    },
                decreases active@.len() - k,
            {
                if k != j {
                    let ghost o0 = out@;
                    out.push(active[k].clone());
                    proof {
                        assert(out@.last()@ == av[k as int]);
                        assert(forall|x: int| 0 <= x < o0.len() ==> out@[x] == o0[x]);
                        assert(forall|x: int|
                            0 <= x < o0.len() ==> str_views(out@)[x] == str_views(o0)[x]);
                        assert(str_views(out@).len() == o0.len() + 1);
                        assert(str_views(out@)[o0.len() as int] == av[k as int]);
                        assert(str_views(o0).len() == o0.len());
                        assert(o0.len() == if k <= j {
                            k as int
                        } else {
                            k as int - 1
                        });
                        if k <= j {
                            assert(str_views(out@) =~= av.take(k as int + 1));
                        } else {
                            assert(av.remove(j as int)[k as int - 1] == av[k as int]);
                            assert(str_views(out@) =~= av.remove(j as int).take(k as int));
                        }
                    }
                } else {
                    proof {
                        assert(av.take(j as int) =~= av.remove(j as int).take(j as int));
                    }
                }
                k = k + 1;
            }
            proof {
                assert(av.remove(j as int).take(active@.len() as int - 1) =~= av.remove(
                    j as int,
                ));
                assert(av[j as int] == name@);
                assert(is_active(av, name@));
                assert(forall|x: int|
                    0 <= x < out@.len() ==> str_views(out@)[x] == av.remove(j as int)[x]);
                if forall|x: int, y: int| 0 <= x < y < av.len() ==> av[x] != av[y] {
                    assert(forall|x: int, y: int|
                        0 <= x < y < out@.len() ==> str_views(out@)[x] != str_views(out@)[y]) by {
                        assert(forall|x: int|
                            0 <= x < av.remove(j as int).len() ==> av.remove(j as int)[x] == (
                            if x < j {
                                av[x]
                            } else {
                                av[x + 1]
                            }));
                    }
                }
            }
            out
        },
    }
}

// ----------------------------------------------------------------------------
// Cleaning a cancelled filename's artifacts out of the source directories
// ----------------------------------------------------------------------------

/// One per-source download directory: the plain files inside it and the
/// names of its mod subdirectories.
pub struct SourceDir {
    pub name: String,
    pub files: Vec<String>,
    pub dirs: Vec<String>,
}

/// The filename's stem: the name with every trailing `.zip` stripped.
pub open spec fn zip_stem(name: Seq<char>) -> Seq<char>
    decreases name.len(),
{
    if name.len() >= 4 && name.skip(name.len() - 4) == ".zip"@ {
        zip_stem(name.take(name.len() - 4))
    } else {
        name
    }
}

/// The temporary file the transfer writes before the final rename.
pub open spec fn tmp_name(name: Seq<char>) -> Seq<char> {
    zip_stem(name) + ".tmp"@
}

/// The files that survive the cleanup of one directory: everything except
/// the cancelled filename's temporary and final artifacts.
pub open spec fn surviving_files(files: Seq<Seq<char>>, name: Seq<char>) -> Seq<Seq<char>>
    decreases files.len(),
{
    if files.len() == 0 {
        files
    } else {
        let p = surviving_files(files.drop_last(), name);
        if files.last() == name || files.last() == tmp_name(name) {
            p
        } else {
            p.push(files.last())
        }
    }
}

/// After the cleanup no artifact of the cancelled filename remains anywhere.
pub proof fn lemma_cleanup_complete(files: Seq<Seq<char>>, name: Seq<char>)
    ensures
        forall|i: int|
            0 <= i < surviving_files(files, name).len() ==> #[trigger] surviving_files(
                files,
                name,
            )[i] != name && surviving_files(files, name)[i] != tmp_name(name),
    decreases files.len(),
{
    if files.len() > 0 {
        lemma_cleanup_complete(files.drop_last(), name);
        let p = surviving_files(files.drop_last(), name);
        if files.last() == name || files.last() == tmp_name(name) {
        } else {
            assert(surviving_files(files, name) == p.push(files.last()));
            assert(forall|i: int|
                0 <= i < p.len() ==> #[trigger] surviving_files(files, name)[i] == p[i]);
            assert(surviving_files(files, name)[p.len() as int] == files.last());
        }
    }
}

fn zip_stem_exec(name: &str) -> (r: String)
    ensures
        r@ == zip_stem(name@),
    decreases name@.len(),
{
    let len = name.unicode_len();
    if len >= 4 && str_ends_with(name, ".zip") {
        proof {
            reveal_strlit(".zip");
        }
        let head = name.substring_char(0, len - 4);
        proof {
            assert(head@ =~= name@.take(name@.len() - 4));
        }
        zip_stem_exec(head)
    } else {
        proof {
            reveal_strlit(".zip");
            assert(!(name@.len() >= 4 && name@.skip(name@.len() - 4) == ".zip"@));
        }
        String::from_str(name)
    }
}

/// The name of the temporary file the transfer for `filename` writes.
pub fn tmp_name_of(filename: &str) -> (r: String)
    ensures
        r@ == tmp_name(filename@),
{
    zip_stem_exec(filename).concat(".tmp")
}

/// Best-effort cleanup after a cancellation: removes the cancelled filename's
/// temporary and final files from every source directory, touching nothing
/// else.
pub fn cleanup_download_files(dirs: &Vec<SourceDir>, filename: &str) -> (r: Vec<SourceDir>)
    ensures
        r@.len() == dirs@.len(),
        forall|i: int|
            0 <= i < r@.len() ==> (#[trigger] r@[i]).name@ == dirs@[i].name@ && str_views(
                r@[i].files@,
            ) == surviving_files(str_views(dirs@[i].files@), filename@) && r@[i].dirs@
                == dirs@[i].dirs@,
{
    let tmp = tmp_name_of(filename);
    let mut out: Vec<SourceDir> = Vec::new();
    let mut i: usize = 0;
    while i < dirs.len()
        invariant
            0 <= i <= dirs@.len(),
            out@.len() == i,
            tmp@ == tmp_name(filename@),
            forall|k: int|
                0 <= k < i ==> (#[trigger] out@[k]).name@ == dirs@[k].name@ && str_views(
                    out@[k].files@,
                ) == surviving_files(str_views(dirs@[k].files@), filename@) && out@[k].dirs@
                    == dirs@[k].dirs@,
        decreases dirs@.len() - i,
    {
        let src = &dirs[i].files;
        let ghost fv = str_views(src@);
        let mut kept: Vec<String> = Vec::new();
        let mut k: usize = 0;
        proof {
            assert(str_views(kept@) =~= surviving_files(fv.take(0), filename@)) by {
                assert(fv.take(0) =~= Seq::<Seq<char>>::empty());
            }
        }
        while k < src.len()
            invariant
                0 <= k <= src@.len(),
                fv == str_views(src@),
                tmp@ == tmp_name(filename@),
                str_views(kept@) =~= surviving_files(fv.take(k as int), filename@),
            decreases src@.len() - k,
        {
            proof {
                assert(fv.take(k as int + 1).drop_last() =~= fv.take(k as int));
                assert(fv.take(k as int + 1).last() == fv[k as int]);
            }
            if !str_eq(src[k].as_str(), filename) && !str_eq(src[k].as_str(), tmp.as_str()) {
                let ghost k0 = str_views(kept@);
                kept.push(src[k].clone());
                proof {
                    assert(str_views(kept@) =~= k0.push(fv[k as int]));
                }
            }
            k = k + 1;
        }
        proof {
            assert(fv.take(src@.len() as int) =~= fv);
        }
        out.push(
            SourceDir {
                name: dirs[i].name.clone(),
                files: kept,
                dirs: crate::fstree::clone_path(&dirs[i].dirs),
            },
        );
        i = i + 1;
    }
    out
}

} // verus!
