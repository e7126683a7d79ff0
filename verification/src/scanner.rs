//! Finding files: their checksums, the table of jobs, and what a scan of a
//! directory puts into it.

use vstd::prelude::*;

use crate::scanner::jobs::{
    all_queued, can_queue, distinct_paths, file_models, files_have, has_path, job_for, job_model,
    law_others_unqueued, law_queue_keeps_order, law_queued_is_pending, lemma_can_queue_less,
    lemma_filter_from, metadata, table_ok, FileModel, JobError, JobModel, JobStatus, JobStore,
    Table,
};
use crate::text::{chars_of, hex, push_hex};
use crate::tokenizers::ascii_lower;

pub mod jobs;

verus! {

/// The hash of bytes.
pub uninterp spec fn xxh3(data: Seq<u8>) -> u64;

/// `xxhash_rust::xxh3::xxh3_64`: the hash depends on the bytes alone.
#[verifier::external_body]
fn hash_of(data: &[u8]) -> (n: u64)
    ensures
        n == xxh3(data@),
{
    xxhash_rust::xxh3::xxh3_64(data)
}

/// The checksum with a given hash: sixteen hexadecimal digits.
pub fn checksum_text(hash: u64) -> (s: String)
    ensures
        s@ == hex(hash as nat, 16, false),
{
    let mut s = String::new();
    push_hex(&mut s, hash, 16, false);
    assert(s@ =~= hex(hash as nat, 16, false));
    s
}

/// The checksum of the bytes of a file.
pub fn compute_checksum(data: &[u8]) -> (s: String)
    ensures
        s@ == hex(xxh3(data@) as nat, 16, false),
{
    checksum_text(hash_of(data))
}

/// Two hashes with one checksum are equal.
pub proof fn law_checksum_tells_hash(a: u64, b: u64)
    requires
        hex(a as nat, 16, false) == hex(b as nat, 16, false),
    ensures
        a == b,
{
    assert(sixteen_to(16) == 0x1_0000_0000_0000_0000) by {
        reveal_with_fuel(sixteen_to, 17);
    }
    lemma_hex_value(a as nat, b as nat, 16);
}

/// A power of sixteen.
spec fn sixteen_to(n: nat) -> nat
    decreases n,
{
    if n == 0 {
        1
    } else {
        16 * sixteen_to((n - 1) as nat)
    }
}

proof fn lemma_hex_value(a: nat, b: nat, width: nat)
    requires
        hex(a, width, false) == hex(b, width, false),
        a < sixteen_to(width),
        b < sixteen_to(width),
    ensures
        a == b,
    decreases width,
{
    if width > 0 {
        let n = (width - 1) as nat;
        let x = hex(a, width, false);
        let y = hex(b, width, false);
        assert(x.last() == y.last());
        assert(a % 16 == b % 16);
        assert(x.drop_last() =~= hex(a / 16, n, false));
        assert(y.drop_last() =~= hex(b / 16, n, false));
        lemma_hex_value(a / 16, b / 16, n);
    }
}

// ---------------------------------------------------------------------------
// Scanning
// ---------------------------------------------------------------------------

/// A file that a walk through a directory found.
#[derive(Debug)]
pub struct FoundFile {
    pub path: String,
    /// What stands behind the last dot of its name.
    pub extension: Option<String>,
    /// When it was changed, in seconds.
    pub modified: u64,
    pub size: u64,
}

/// What a found file says: path, time and size.
pub open spec fn found(f: FoundFile) -> FileModel {
    (f.path@, f.modified, f.size)
}

/// Whether a found file is a PDF, by its extension in any case.
pub open spec fn is_pdf(f: FoundFile) -> bool {
    f.extension matches Some(e) && e@.map_values(|c: char| ascii_lower(c)) == "pdf"@
}

/// Whether a file is to be done: it is not known, its time or its size is
/// another one, or its job failed or was never finished.
pub open spec fn is_changed(jobs: Seq<JobModel>, f: FileModel) -> bool {
    !has_path(jobs, f.0) || {
        let m = metadata(job_for(jobs, f.0));
        m.1 != f.1 || m.2 != f.2 || m.3 == JobStatus::Error || m.3 == JobStatus::Extracting
    }
}

/// The files that a scan puts into the table.
pub open spec fn to_queue(jobs: Seq<JobModel>, files: Seq<FoundFile>) -> Seq<FileModel> {
    files.filter(|f: FoundFile| is_pdf(f) && is_changed(jobs, found(f))).map_values(
        |f: FoundFile| found(f),
    )
}

/// Why a scan failed.
#[derive(Debug)]
pub enum ScanError {
    NotADirectory { path: String },
    Jobs(JobError),
}

impl ScanError {
    /// The text of the error.
    pub fn message(&self) -> (s: String)
        ensures
            s@ == (match *self {
                ScanError::NotADirectory { path } => "Input path is not a directory: "@ + path@,
                ScanError::Jobs(e) => crate::scanner::jobs::job_error_text(e),
            }),
    {
        match self {
            ScanError::NotADirectory { path } => {
                let mut s = "Input path is not a directory: ".to_owned();
                s.push_str(path.as_str());
                s
            },
            ScanError::Jobs(e) => e.message(),
        }
    }
}

fn has_pdf_extension(f: &FoundFile) -> (b: bool)
    ensures
        b == is_pdf(*f),
{
    proof {
        reveal_strlit("pdf");
    }
    match &f.extension {
        None => false,
        Some(e) => {
            let v = chars_of(e.as_str());
            let ghost lower = e@.map_values(|c: char| ascii_lower(c));
            if v.len() != 3 {
                assert(lower.len() != "pdf"@.len());
                return false;
            }
            let b = (v[0] == 'p' || v[0] == 'P') && (v[1] == 'd' || v[1] == 'D') && (v[2] == 'f'
                || v[2] == 'F');
            proof {
                assert(lower[0] == ascii_lower(v@[0]));
                assert(lower[1] == ascii_lower(v@[1]));
                assert(lower[2] == ascii_lower(v@[2]));
                if b {
                    assert(lower =~= "pdf"@);
                } else {
                    assert(lower[0] != "pdf"@[0] || lower[1] != "pdf"@[1] || lower[2] != "pdf"@[2]);
                }
            }
            b
        },
    }
}

fn file_changed(jobs: &JobStore, f: &FoundFile) -> (b: bool)
    requires
        jobs.wf(),
    ensures
        b == is_changed(jobs.jobs(), found(*f)),
{
    let id = match jobs.get_id_by_path(f.path.as_str()) {
        None => {
            return true;
        },
        Some(id) => id,
    };
    let ghost all = jobs.jobs();
    let ghost mine = job_for(all, f.path@);
    let ghost at = choose|i: int| 0 <= i < all.len() && (#[trigger] all[i]).path == f.path@;
    assert(all[at] == mine);
    assert(all[at].id == id);
    match jobs.job(id) {
        None => true,
        Some(job) => {
            proof {
                let k = choose|k: int| 0 <= k < all.len() && #[trigger] all[k] == job_model(*job);
                assert(all[k].id == all[at].id);
                assert(k == at);
            }
            let modified = match job.file_modified {
                Some(m) => m,
                None => 0,
            };
            let size = match job.file_size {
                Some(n) => n,
                None => 0,
            };
            modified != f.modified || size != f.size || job.status == JobStatus::Error || job.status
                == JobStatus::Extracting
        },
    }
}

/// Puts the files that a walk through `dir` found into the table: those PDFs
/// that are new or changed, or whose job failed or was never finished. Gives
/// their number. Nothing was found where `dir` is no directory.
pub fn scan_directory(jobs: &mut JobStore, dir: &str, files: &Option<Vec<FoundFile>>) -> (r: Result<
    u64,
    ScanError,
>)
    requires
        old(jobs).wf(),
    ensures
        final(jobs).wf(),
        match r {
            Ok(n) => {
                &&& files matches Some(v) && n == to_queue(old(jobs).jobs(), v@).len()
                &&& final(jobs).table() == all_queued(
                    old(jobs).table(),
                    to_queue(old(jobs).jobs(), files->Some_0@),
                )
            },
            Err(ScanError::NotADirectory { path }) => {
                &&& files is None
                &&& path@ == dir@
                &&& final(jobs).table() == old(jobs).table()
            },
            Err(ScanError::Jobs(e)) => {
                &&& files matches Some(v) && !can_queue(
                    old(jobs).table(),
                    to_queue(old(jobs).jobs(), v@),
                )
                &&& e is BatchMarkPending
                &&& final(jobs).table() == old(jobs).table()
            },
        },
{
    let found_files = match files {
        None => {
            return Err(ScanError::NotADirectory { path: dir.to_owned() });
        },
        Some(v) => v,
    };
    let ghost all = found_files@;
    let ghost known = jobs.jobs();
    let ghost p = |f: FoundFile| is_pdf(f) && is_changed(known, found(f));
    let ghost show = |f: FoundFile| found(f);
    let mut changes: Vec<(String, u64, u64)> = Vec::new();
    let mut i: usize = 0;
    proof {
        reveal(Seq::filter);
        assert(file_models(changes@) =~= all.take(0).filter(p).map_values(show));
    }
    while i < found_files.len()
        invariant
            i <= found_files@.len(),
            all == found_files@,
            jobs.wf(),
            known == jobs.jobs(),
            jobs.table() == old(jobs).table(),
            p == (|f: FoundFile| is_pdf(f) && is_changed(known, found(f))),
            show == (|f: FoundFile| found(f)),
            file_models(changes@) == all.take(i as int).filter(p).map_values(show),
            changes@.len() <= i,
        decreases found_files@.len() - i,
    {
        let ghost before = changes@;
        proof {
            reveal(Seq::filter);
            assert(all.take(i + 1).drop_last() =~= all.take(i as int));
            assert(all.take(i + 1).last() == all[i as int]);
        }
        let f = &found_files[i];
        if has_pdf_extension(f) && file_changed(jobs, f) {
            changes.push((f.path.clone(), f.modified, f.size));
            proof {
                let sofar = all.take(i as int).filter(p);
                assert(file_models(changes@) =~= file_models(before).push(found(*f)));
                assert(sofar.push(all[i as int]).map_values(show) =~= sofar.map_values(show).push(
                    found(*f),
                ));
            }
        }
        i += 1;
    }
    proof {
        assert(all.take(i as int) =~= all);
        assert(file_models(changes@) == to_queue(known, all));
        assert(file_models(changes@).len() == changes@.len());
    }
    if changes.len() == 0 {
        return Ok(0);
    }
    match jobs.batch_mark_pending(&changes) {
        Ok(_) => Ok(changes.len() as u64),
        Err(e) => {
            proof {
                let m = file_models(changes@);
                let n = choose|n: int|
                    0 <= n < changes@.len() && e->path@ == (#[trigger] changes@[n]).0@ && can_queue(
                        old(jobs).table(),
                        m.take(n),
                    ) && !can_queue(old(jobs).table(), m.take(n + 1));
                if can_queue(old(jobs).table(), m) {
                    lemma_can_queue_less(old(jobs).table(), m, n + 1);
                }
            }
            Err(ScanError::Jobs(e))
        },
    }
}

proof fn lemma_to_queue_from(jobs: Seq<JobModel>, files: Seq<FoundFile>, k: int) -> (i: int)
    requires
        0 <= k < to_queue(jobs, files).len(),
    ensures
        0 <= i < files.len(),
        to_queue(jobs, files)[k] == found(files[i]),
{
    let p = |f: FoundFile| is_pdf(f) && is_changed(jobs, found(f));
    lemma_filter_from(files, p, k);
    choose|i: int| 0 <= i < files.len() && #[trigger] files[i] == files.filter(p)[k]
}

proof fn lemma_to_queue_distinct(jobs: Seq<JobModel>, files: Seq<FoundFile>)
    requires
        forall|i: int, j: int|
            0 <= i < j < files.len() ==> (#[trigger] files[i]).path@ != (#[trigger] files[j]).path@,
    ensures
        distinct_paths(to_queue(jobs, files)),
    decreases files.len(),
{
    reveal(Seq::filter);
    if files.len() > 0 {
        let d = files.drop_last();
        assert forall|i: int, j: int| 0 <= i < j < d.len() implies (#[trigger] d[i]).path@ != (
        #[trigger] d[j]).path@ by {
            assert(files[i].path@ != files[j].path@);
        }
        lemma_to_queue_distinct(jobs, d);
        let q = to_queue(jobs, files);
        let r = to_queue(jobs, d);
        assert forall|a: int, b: int| 0 <= a < b < q.len() implies (#[trigger] q[a]).0 != (
        #[trigger] q[b]).0 by {
            assert(q[a] == r[a]);
            if b < r.len() {
                assert(q[b] == r[b]);
            } else {
                assert(q[b] == found(files.last()));
                let i = lemma_to_queue_from(jobs, d, a);
                assert(files[i].path@ != files[files.len() - 1].path@);
            }
        }
    }
}

proof fn lemma_filter_nothing<T>(s: Seq<T>, p: spec_fn(T) -> bool)
    requires
        forall|i: int| 0 <= i < s.len() ==> !p(#[trigger] s[i]),
    ensures
        s.filter(p).len() == 0,
    decreases s.len(),
{
    reveal(Seq::filter);
    if s.len() > 0 {
        let d = s.drop_last();
        assert forall|i: int| 0 <= i < d.len() implies !p(#[trigger] d[i]) by {
            assert(!p(s[i]));
        }
        assert(!p(s[s.len() - 1]));
        lemma_filter_nothing(d, p);
    }
}

/// A second scan that finds the same files puts none of them into the table.
pub proof fn law_scan_again(t: Table, files: Seq<FoundFile>)
    requires
        table_ok(t.jobs, t.last),
        0 <= t.last,
        can_queue(t, to_queue(t.jobs, files)),
        forall|i: int, j: int|
            0 <= i < j < files.len() ==> (#[trigger] files[i]).path@ != (#[trigger] files[j]).path@,
    ensures
        to_queue(all_queued(t, to_queue(t.jobs, files)).jobs, files).len() == 0,
{
    let q = to_queue(t.jobs, files);
    let after = all_queued(t, q);
    let p = |f: FoundFile| is_pdf(f) && is_changed(t.jobs, found(f));
    lemma_to_queue_distinct(t.jobs, files);
    law_queue_keeps_order(t, q);
    assert forall|n: int| 0 <= n < files.len() implies !(is_pdf(#[trigger] files[n])
        && is_changed(after.jobs, found(files[n]))) by {
        let f = files[n];
        if is_pdf(f) {
            if is_changed(t.jobs, found(f)) {
                lemma_filter_keeps(files, p, n);
                let k = choose|k: int| 0 <= k < files.filter(p).len() && files.filter(p)[k] == f;
                assert(q[k] == found(f));
                let i = law_queued_is_pending(t, q, k);
                assert(after.jobs[i].path == f.path@);
                assert(has_path(after.jobs, f.path@));
                assert(job_for(after.jobs, f.path@) == after.jobs[i]);
            } else {
                let i = choose|i: int| 0 <= i < t.jobs.len() && (#[trigger] t.jobs[i]).path
                    == f.path@;
                assert(!files_have(q, f.path@)) by {
                    if files_have(q, f.path@) {
                        let k = choose|k: int| 0 <= k < q.len() && (#[trigger] q[k]).0 == f.path@;
                        let m = lemma_to_queue_from(t.jobs, files, k);
                        lemma_filter_from(files, p, k);
                        assert(q[k] == found(files.filter(p)[k]));
                        assert(files[m].path@ == f.path@);
                        assert(m == n);
                        assert(found(files.filter(p)[k]) == found(f));
                    }
                }
                law_others_unqueued(t, q, i);
                assert(after.jobs[i].path == f.path@);
                assert(has_path(after.jobs, f.path@));
                assert(job_for(after.jobs, f.path@) == after.jobs[i]);
            }
        }
    }
    lemma_filter_nothing(files, |f: FoundFile| is_pdf(f) && is_changed(after.jobs, found(f)));
}

proof fn lemma_filter_keeps<T>(s: Seq<T>, p: spec_fn(T) -> bool, i: int)
    requires
        0 <= i < s.len(),
        p(s[i]),
    ensures
        s.filter(p).contains(s[i]),
    decreases s.len(),
{
    reveal(Seq::filter);
    let d = s.drop_last();
    if i < d.len() {
        lemma_filter_keeps(d, p, i);
        let k = choose|k: int| 0 <= k < d.filter(p).len() && d.filter(p)[k] == s[i];
        assert(s.filter(p)[k] == s[i]);
    } else {
        assert(s.filter(p)[d.filter(p).len() as int] == s[i]);
    }
}

/// A file is a PDF exactly where its extension is the three letters `pdf`,
/// each in either case.
pub proof fn law_pdf_extension(f: FoundFile)
    ensures
        is_pdf(f) <==> f.extension is Some && ({
            let e = f.extension->0@;
            &&& e.len() == 3
            &&& e[0] == 'p' || e[0] == 'P'
            &&& e[1] == 'd' || e[1] == 'D'
            &&& e[2] == 'f' || e[2] == 'F'
        }),
{
    reveal_strlit("pdf");
    if let Some(x) = f.extension {
        let e = x@;
        let low = e.map_values(|c: char| ascii_lower(c));
        if e.len() == 3 {
            assert(low[0] == ascii_lower(e[0]) && low[1] == ascii_lower(e[1]) && low[2]
                == ascii_lower(e[2]));
            let w = "pdf"@;
            assert(w[0] == 'p' && w[1] == 'd' && w[2] == 'f');
            if (e[0] == 'p' || e[0] == 'P') && (e[1] == 'd' || e[1] == 'D') && (e[2] == 'f' || e[2]
                == 'F') {
                assert(low =~= w);
            }
        } else {
            assert(low.len() != "pdf"@.len());
        }
    }
}

/// A file without a job counts as changed. One with a job counts as unchanged
/// exactly where the job knows the same time and size, with zero for what it
/// does not know, and neither failed nor is being extracted.
pub proof fn law_changed(jobs: Seq<JobModel>, last: int, f: FileModel)
    requires
        table_ok(jobs, last),
    ensures
        (forall|i: int| 0 <= i < jobs.len() ==> (#[trigger] jobs[i]).path != f.0) ==> is_changed(
            jobs,
            f,
        ),
        forall|i: int|
            0 <= i < jobs.len() && (#[trigger] jobs[i]).path == f.0 ==> (!is_changed(jobs, f) <==> {
                &&& jobs[i].file_modified == Some(f.1) || (jobs[i].file_modified is None && f.1
                    == 0)
                &&& jobs[i].file_size == Some(f.2) || (jobs[i].file_size is None && f.2 == 0)
                &&& jobs[i].status == JobStatus::Pending || jobs[i].status == JobStatus::Extracted
                    || jobs[i].status == JobStatus::Done
            }),
{
    assert forall|i: int| 0 <= i < jobs.len() && (#[trigger] jobs[i]).path == f.0 implies job_for(
        jobs,
        f.0,
    ) == jobs[i] by {
        let k = choose|k: int| 0 <= k < jobs.len() && (#[trigger] jobs[k]).path == f.0;
        if k < i {
            assert(jobs[k].path != jobs[i].path);
        } else if i < k {
            assert(jobs[i].path != jobs[k].path);
        }
    }
}

/// A scan queues the PDF files that changed, all of them, in the order in
/// which they were found, with their path, time and size.
pub proof fn law_files_to_queue(jobs: Seq<JobModel>, files: Seq<FoundFile>, i: int)
    requires
        0 <= i < files.len(),
    ensures
        ({
            let wanted = |f: FoundFile|
                is_pdf(f) && is_changed(jobs, (f.path@, f.modified, f.size));
            let n = files.take(i).filter(wanted).len() as int;
            &&& to_queue(jobs, files).len() == files.filter(wanted).len()
            &&& wanted(files[i]) ==> n < to_queue(jobs, files).len() && to_queue(jobs, files)[n]
                == (files[i].path@, files[i].modified, files[i].size)
        }),
{
    let a = |f: FoundFile| is_pdf(f) && is_changed(jobs, found(f));
    let wanted = |f: FoundFile| is_pdf(f) && is_changed(jobs, (f.path@, f.modified, f.size));
    crate::text::lemma_filter_same(files, a, wanted);
    if wanted(files[i]) {
        crate::text::lemma_filter_place(files, wanted, i);
    }
}

} // verus!
