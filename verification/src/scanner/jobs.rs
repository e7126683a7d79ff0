//! The table of jobs: one for each file, from its discovery to its end.

use vstd::prelude::*;

use crate::patterns::opt_text;
use crate::text::same_text;

verus! {

// ---------------------------------------------------------------------------
// Jobs
// ---------------------------------------------------------------------------

/// How far a job has come.
#[derive(Clone, Copy, PartialEq, Eq, Structural, Debug)]
pub enum JobStatus {
    Pending,
    Extracting,
    Extracted,
    Done,
    Error,
}

/// The name of a status.
pub open spec fn status_name(s: JobStatus) -> Seq<char> {
    match s {
        JobStatus::Pending => "pending"@,
        JobStatus::Extracting => "extracting"@,
        JobStatus::Extracted => "extracted"@,
        JobStatus::Done => "done"@,
        JobStatus::Error => "error"@,
    }
}

impl JobStatus {
    /// The name of the status.
    pub fn name(&self) -> (s: &'static str)
        ensures
            s@ == status_name(*self),
    {
        match self {
            JobStatus::Pending => "pending",
            JobStatus::Extracting => "extracting",
            JobStatus::Extracted => "extracted",
            JobStatus::Done => "done",
            JobStatus::Error => "error",
        }
    }

    /// The status with a name.
    pub fn from_name(name: &str) -> (r: Option<JobStatus>)
        ensures
            match r {
                Some(s) => status_name(s) == name@,
                None => forall|s: JobStatus| #[trigger] status_name(s) != name@,
            },
    {
        if same_text(name, "pending") {
            Some(JobStatus::Pending)
        } else if same_text(name, "extracting") {
            Some(JobStatus::Extracting)
        } else if same_text(name, "extracted") {
            Some(JobStatus::Extracted)
        } else if same_text(name, "done") {
            Some(JobStatus::Done)
        } else if same_text(name, "error") {
            Some(JobStatus::Error)
        } else {
            None
        }
    }
}

/// No two statuses have the same name.
pub proof fn law_names_differ(a: JobStatus, b: JobStatus)
    requires
        status_name(a) == status_name(b),
    ensures
        a == b,
{
    reveal_strlit("pending");
    reveal_strlit("extracting");
    reveal_strlit("extracted");
    reveal_strlit("done");
    reveal_strlit("error");
    assert("pending"@.len() == 7 && "extracting"@.len() == 10 && "extracted"@.len() == 9);
    assert("done"@.len() == 4 && "error"@.len() == 5);
}

/// A job.
#[derive(Debug)]
pub struct Job {
    pub id: i64,
    pub path: String,
    pub checksum: String,
    pub status: JobStatus,
    /// Whether characters are to be recognised in images.
    pub ocr_flag: bool,
    pub error: Option<String>,
    pub ocr_attempts: i64,
    pub ocr_error: Option<String>,
    /// When recognition was given up, in seconds.
    pub failed_ocr: Option<i64>,
    pub language: Option<String>,
    /// When the file was changed, in seconds, and its size.
    pub file_modified: Option<u64>,
    pub file_size: Option<u64>,
}

/// What a job says.
pub struct JobModel {
    pub id: i64,
    pub path: Seq<char>,
    pub checksum: Seq<char>,
    pub status: JobStatus,
    pub ocr_flag: bool,
    pub error: Option<Seq<char>>,
    pub ocr_attempts: i64,
    pub ocr_error: Option<Seq<char>>,
    pub failed_ocr: Option<i64>,
    pub language: Option<Seq<char>>,
    pub file_modified: Option<u64>,
    pub file_size: Option<u64>,
}

/// What a job says.
pub open spec fn job_model(j: Job) -> JobModel {
    JobModel {
        id: j.id,
        path: j.path@,
        checksum: j.checksum@,
        status: j.status,
        ocr_flag: j.ocr_flag,
        error: opt_text(j.error),
        ocr_attempts: j.ocr_attempts,
        ocr_error: opt_text(j.ocr_error),
        failed_ocr: j.failed_ocr,
        language: opt_text(j.language),
        file_modified: j.file_modified,
        file_size: j.file_size,
    }
}

/// What jobs say.
pub open spec fn job_models(v: Seq<Job>) -> Seq<JobModel> {
    v.map_values(|j: Job| job_model(j))
}

/// A job for a file that was not known.
pub open spec fn new_job(
    id: int,
    path: Seq<char>,
    checksum: Seq<char>,
    modified: Option<u64>,
    size: Option<u64>,
) -> JobModel {
    JobModel {
        id: id as i64,
        path,
        checksum,
        status: JobStatus::Pending,
        ocr_flag: false,
        error: None,
        ocr_attempts: 0,
        ocr_error: None,
        failed_ocr: None,
        language: None,
        file_modified: modified,
        file_size: size,
    }
}

/// A job that is to be done again.
pub open spec fn requeued(j: JobModel) -> JobModel {
    JobModel { status: JobStatus::Pending, ocr_flag: false, error: None, ..j }
}

/// Whether jobs are in the order of their ids, which go from 1 to `last`, and
/// no two of them are for one path.
pub open spec fn table_ok(jobs: Seq<JobModel>, last: int) -> bool {
    &&& forall|i: int| 0 <= i < jobs.len() ==> 1 <= (#[trigger] jobs[i]).id <= last
    &&& forall|i: int, j: int|
        0 <= i < j < jobs.len() ==> (#[trigger] jobs[i]).id < (#[trigger] jobs[j]).id
    &&& forall|i: int, j: int|
        0 <= i < j < jobs.len() ==> (#[trigger] jobs[i]).path != (#[trigger] jobs[j]).path
}

/// Whether there is a job for a path.
pub open spec fn has_path(jobs: Seq<JobModel>, path: Seq<char>) -> bool {
    exists|i: int| 0 <= i < jobs.len() && (#[trigger] jobs[i]).path == path
}

/// The job for a path.
pub open spec fn job_for(jobs: Seq<JobModel>, path: Seq<char>) -> JobModel {
    jobs[choose|i: int| 0 <= i < jobs.len() && (#[trigger] jobs[i]).path == path]
}

// ---------------------------------------------------------------------------
// Choosing jobs
// ---------------------------------------------------------------------------

/// Which jobs are wanted.
#[derive(Clone, Copy, Debug)]
pub enum Wanted {
    /// Those with a status.
    Status(JobStatus),
    /// Those that are done but for the recognition of characters, which was
    /// tried fewer times than this.
    Ocr(u32),
}

/// Whether a job is wanted.
pub open spec fn is_wanted(w: Wanted, j: JobModel) -> bool {
    match w {
        Wanted::Status(s) => j.status == s,
        Wanted::Ocr(n) => j.status == JobStatus::Done && j.ocr_flag && j.ocr_attempts < n,
    }
}

/// The jobs that are wanted, in the order of their ids.
pub open spec fn wanted(jobs: Seq<JobModel>, w: Wanted) -> Seq<JobModel> {
    jobs.filter(|j: JobModel| is_wanted(w, j))
}

/// The first of a sequence, at most `limit`, and none for a negative limit.
pub open spec fn first_of<T>(s: Seq<T>, limit: int) -> Seq<T> {
    if limit <= 0 {
        Seq::empty()
    } else if limit < s.len() {
        s.take(limit)
    } else {
        s
    }
}

proof fn lemma_first_push<T>(s: Seq<T>, x: T, limit: int)
    ensures
        first_of(s.push(x), limit) == (if s.len() < limit {
            first_of(s, limit).push(x)
        } else {
            first_of(s, limit)
        }),
{
    assert(first_of(s.push(x), limit) =~= (if s.len() < limit {
        first_of(s, limit).push(x)
    } else {
        first_of(s, limit)
    }));
}

/// The id, path and checksum of a job.
pub open spec fn key(j: JobModel) -> (i64, Seq<char>, Seq<char>) {
    (j.id, j.path, j.checksum)
}

/// The ids, paths and checksums of jobs.
pub open spec fn keys(jobs: Seq<JobModel>) -> Seq<(i64, Seq<char>, Seq<char>)> {
    jobs.map_values(|j: JobModel| key(j))
}

/// What ids, paths and checksums say.
pub open spec fn triples(v: Seq<(i64, String, String)>) -> Seq<(i64, Seq<char>, Seq<char>)> {
    v.map_values(|t: (i64, String, String)| (t.0, t.1@, t.2@))
}

/// The jobs that are claimed: the first that are pending.
pub open spec fn claimed(jobs: Seq<JobModel>, limit: int) -> Seq<JobModel> {
    first_of(wanted(jobs, Wanted::Status(JobStatus::Pending)), limit)
}

/// The jobs after some were claimed.
pub open spec fn after_claim(jobs: Seq<JobModel>, limit: int) -> Seq<JobModel> {
    jobs.map_values(
        |j: JobModel|
            if claimed(jobs, limit).contains(j) {
                JobModel { status: JobStatus::Extracting, ..j }
            } else {
                j
            },
    )
}

// ---------------------------------------------------------------------------
// The table
// ---------------------------------------------------------------------------

/// The jobs of a collection.
pub struct JobStore {
    rows: Vec<Job>,
    last_id: i64,
}

/// The jobs after the one with `id` was changed by `f`.
pub open spec fn with_job(
    jobs: Seq<JobModel>,
    id: i64,
    f: spec_fn(JobModel) -> JobModel,
) -> Seq<JobModel> {
    jobs.map_values(
        |j: JobModel|
            if j.id == id {
                f(j)
            } else {
                j
            },
    )
}

/// The jobs after the one for `path` was changed by `f`.
pub open spec fn with_path(
    jobs: Seq<JobModel>,
    path: Seq<char>,
    f: spec_fn(JobModel) -> JobModel,
) -> Seq<JobModel> {
    jobs.map_values(
        |j: JobModel|
            if j.path == path {
                f(j)
            } else {
                j
            },
    )
}

impl JobStore {
    /// The jobs, in the order of their ids.
    pub closed spec fn jobs(self) -> Seq<JobModel> {
        job_models(self.rows@)
    }

    /// The last id that was given.
    pub closed spec fn last(self) -> int {
        self.last_id as int
    }

    /// Whether the table is in order.
    pub open spec fn wf(self) -> bool {
        table_ok(self.jobs(), self.last()) && 0 <= self.last() <= i64::MAX
    }

    /// A table without jobs.
    pub fn open_in_memory() -> (s: JobStore)
        ensures
            s.wf(),
            s.jobs() == Seq::<JobModel>::empty(),
            s.last() == 0,
    {
        let s = JobStore { rows: Vec::new(), last_id: 0 };
        assert(s.jobs() =~= Seq::empty());
        s
    }

    fn find_path(&self, path: &str) -> (r: Option<usize>)
        ensures
            match r {
                Some(i) => i < self.jobs().len() && self.jobs()[i as int].path == path@,
                None => !has_path(self.jobs(), path@),
            },
    {
        let mut i: usize = 0;
        while i < self.rows.len()
            invariant
                i <= self.rows@.len(),
                forall|k: int| 0 <= k < i ==> (#[trigger] self.jobs()[k]).path != path@,
            decreases self.rows@.len() - i,
        {
            if same_text(self.rows[i].path.as_str(), path) {
                return Some(i);
            }
            i += 1;
        }
        None
    }

    fn find_id(&self, id: i64) -> (r: Option<usize>)
        ensures
            match r {
                Some(i) => i < self.jobs().len() && self.jobs()[i as int].id == id,
                None => forall|i: int|
                    0 <= i < self.jobs().len() ==> (#[trigger] self.jobs()[i]).id != id,
            },
    {
        let mut i: usize = 0;
        while i < self.rows.len()
            invariant
                i <= self.rows@.len(),
                forall|k: int| 0 <= k < i ==> (#[trigger] self.jobs()[k]).id != id,
            decreases self.rows@.len() - i,
        {
            if self.rows[i].id == id {
                return Some(i);
            }
            i += 1;
        }
        None
    }

    /// Marks a job as done.
    pub fn mark_done(&mut self, id: i64, ocr_flag: bool)
        requires
            old(self).wf(),
        ensures
            final(self).wf(),
            final(self).last() == old(self).last(),
            final(self).jobs() == with_job(
                old(self).jobs(),
                id,
                |j: JobModel| JobModel { status: JobStatus::Done, ocr_flag, ..j },
            ),
    {
        let found = self.find_id(id);
        if let Some(i) = found {
            self.rows[i].status = JobStatus::Done;
            self.rows[i].ocr_flag = ocr_flag;
        }
        assert(self.jobs() =~= with_job(
            old(self).jobs(),
            id,
            |j: JobModel| JobModel { status: JobStatus::Done, ocr_flag, ..j },
        ));
    }

    /// Marks a job as extracted.
    pub fn mark_extracted(&mut self, id: i64, ocr_flag: bool)
        requires
            old(self).wf(),
        ensures
            final(self).wf(),
            final(self).last() == old(self).last(),
            final(self).jobs() == with_job(
                old(self).jobs(),
                id,
                |j: JobModel| JobModel { status: JobStatus::Extracted, ocr_flag, ..j },
            ),
    {
        let found = self.find_id(id);
        if let Some(i) = found {
            self.rows[i].status = JobStatus::Extracted;
            self.rows[i].ocr_flag = ocr_flag;
        }
        assert(self.jobs() =~= with_job(
            old(self).jobs(),
            id,
            |j: JobModel| JobModel { status: JobStatus::Extracted, ocr_flag, ..j },
        ));
    }

    /// Marks a job as failed.
    pub fn mark_error(&mut self, id: i64, error_msg: &str)
        requires
            old(self).wf(),
        ensures
            final(self).wf(),
            final(self).last() == old(self).last(),
            final(self).jobs() == with_job(
                old(self).jobs(),
                id,
                |j: JobModel| JobModel { status: JobStatus::Error, error: Some(error_msg@), ..j },
            ),
    {
        let found = self.find_id(id);
        if let Some(i) = found {
            self.rows[i].status = JobStatus::Error;
            self.rows[i].error = Some(error_msg.to_owned());
        }
        assert(self.jobs() =~= with_job(
            old(self).jobs(),
            id,
            |j: JobModel| JobModel { status: JobStatus::Error, error: Some(error_msg@), ..j },
        ));
    }

    /// Marks jobs as done, with the flag and the checksum that reading their
    /// files gave. A job that is listed with and without the flag has it in the
    /// end; of several checksums it has the last.
    pub fn batch_mark_done(&mut self, items: &[(i64, bool, String)])
        requires
            old(self).wf(),
        ensures
            final(self).wf(),
            final(self).last() == old(self).last(),
            final(self).jobs() == after_done(old(self).jobs(), done_items(items@)),
    {
        let ghost before = self.jobs();
        let mut i: usize = 0;
        while i < self.rows.len()
            invariant
                i <= self.rows@.len() == before.len(),
                self.last_id == old(self).last_id,
                forall|k: int| 0 <= k < i ==> (#[trigger] self.jobs()[k]) == done_by(
                    before[k],
                    done_items(items@),
                ),
                forall|k: int| i <= k < before.len() ==> (#[trigger] self.jobs()[k]) == before[k],
            decreases self.rows@.len() - i,
        {
            let ghost now = self.jobs();
            assert(now[i as int] == before[i as int]);
            let id = self.rows[i].id;
            if let Some(k) = last_item(items, id) {
                self.rows[i].status = JobStatus::Done;
                self.rows[i].ocr_flag = is_flagged(items, id);
                self.rows[i].checksum = items[k].2.clone();
            }
            assert(self.jobs() =~= now.update(i as int, done_by(before[i as int], done_items(items@))));
            i += 1;
        }
        assert(self.jobs() =~= after_done(before, done_items(items@)));
    }

    /// Puts the jobs that are being extracted back among those to be done.
    pub fn reprocess_extracting(&mut self)
        requires
            old(self).wf(),
        ensures
            final(self).wf(),
            final(self).last() == old(self).last(),
            final(self).jobs() == reprocessed(old(self).jobs()),
    {
        let ghost before = self.jobs();
        let mut i: usize = 0;
        while i < self.rows.len()
            invariant
                i <= self.rows@.len() == before.len(),
                self.last_id == old(self).last_id,
                forall|k: int| 0 <= k < i ==> (#[trigger] self.jobs()[k]) == reprocessed_job(before[k]),
                forall|k: int| i <= k < before.len() ==> (#[trigger] self.jobs()[k]) == before[k],
            decreases self.rows@.len() - i,
        {
            let ghost now = self.jobs();
            assert(now[i as int] == before[i as int]);
            if self.rows[i].status == JobStatus::Extracting {
                self.rows[i].status = JobStatus::Pending;
                self.rows[i].error = None;
            }
            assert(self.jobs() =~= now.update(i as int, reprocessed_job(before[i as int])));
            i += 1;
        }
        assert(self.jobs() =~= reprocessed(before));
    }

    /// Records that recognition of characters was tried at the time `now`.
    pub fn mark_ocr_attempt(
        &mut self,
        id: i64,
        success: bool,
        ocr_error: Option<&str>,
        max_retries: u32,
        now: i64,
    )
        requires
            old(self).wf(),
            forall|i: int|
                0 <= i < old(self).jobs().len() && (#[trigger] old(self).jobs()[i]).id == id
                    ==> old(self).jobs()[i].ocr_attempts < i64::MAX,
        ensures
            final(self).wf(),
            final(self).last() == old(self).last(),
            final(self).jobs() == with_job(
                old(self).jobs(),
                id,
                |j: JobModel|
                    ocr_tried(
                        j,
                        success,
                        match ocr_error {
                            Some(e) => Some(e@),
                            None => None,
                        },
                        max_retries,
                        now,
                    ),
            ),
    {
        let found = self.find_id(id);
        if let Some(i) = found {
            assert(self.jobs()[i as int].ocr_attempts < i64::MAX);
            let attempts = self.rows[i].ocr_attempts + 1;
            self.rows[i].ocr_attempts = attempts;
            if success {
                self.rows[i].ocr_flag = false;
                self.rows[i].ocr_error = None;
                self.rows[i].failed_ocr = None;
            } else {
                self.rows[i].ocr_error = match ocr_error {
                    Some(e) => Some(e.to_owned()),
                    None => None,
                };
                self.rows[i].failed_ocr = if attempts >= max_retries as i64 {
                    Some(now)
                } else {
                    None
                };
            }
        }
        assert(self.jobs() =~= with_job(
            old(self).jobs(),
            id,
            |j: JobModel|
                ocr_tried(
                    j,
                    success,
                    match ocr_error {
                        Some(e) => Some(e@),
                        None => None,
                    },
                    max_retries,
                    now,
                ),
        ));
    }

    // -----------------------------------------------------------------------
    // Reading
    // -----------------------------------------------------------------------

    fn pick(&self, w: Wanted, limit: i64) -> (idx: Vec<usize>)
        ensures
            forall|k: int| 0 <= k < idx@.len() ==> (#[trigger] idx@[k]) < self.rows@.len(),
            idx@.map_values(|i: usize| self.jobs()[i as int]) == first_of(
                wanted(self.jobs(), w),
                limit as int,
            ),
    {
        let ghost all = self.jobs();
        let ghost p = |j: JobModel| is_wanted(w, j);
        let mut idx: Vec<usize> = Vec::new();
        let mut n: i64 = 0;
        let mut i: usize = 0;
        proof {
            reveal(Seq::filter);
            assert(idx@.map_values(|i: usize| all[i as int]) =~= first_of(
                all.take(0).filter(p),
                limit as int,
            ));
        }
        while i < self.rows.len()
            invariant
                i <= self.rows@.len(),
                all == self.jobs(),
                all.len() == self.rows@.len(),
                p == (|j: JobModel| is_wanted(w, j)),
                limit > 0 ==> n <= limit,
                n == idx@.len(),
                forall|k: int| 0 <= k < idx@.len() ==> (#[trigger] idx@[k]) < self.rows@.len(),
                limit <= 0 ==> n == 0,
                limit > 0 && n < limit ==> n == all.take(i as int).filter(p).len(),
                limit > 0 && n == limit ==> n <= all.take(i as int).filter(p).len(),
                idx@.map_values(|i: usize| all[i as int]) == first_of(
                    all.take(i as int).filter(p),
                    limit as int,
                ),
            decreases self.rows@.len() - i,
        {
            let ghost sofar = all.take(i as int).filter(p);
            let ghost before = idx@;
            proof {
                reveal(Seq::filter);
                assert(all.take(i + 1).drop_last() =~= all.take(i as int));
                assert(all.take(i + 1).last() == all[i as int]);
                assert(all[i as int] == job_model(self.rows@[i as int]));
                lemma_first_push(sofar, all[i as int], limit as int);
            }
            let row = &self.rows[i];
            let fits = match w {
                Wanted::Status(s) => row.status == s,
                Wanted::Ocr(max) => row.status == JobStatus::Done && row.ocr_flag && row.ocr_attempts
                    < max as i64,
            };
            assert(fits == is_wanted(w, all[i as int]));
            if fits && n < limit {
                idx.push(i);
                n += 1;
                assert(idx@.map_values(|i: usize| all[i as int]) =~= before.map_values(
                    |i: usize| all[i as int],
                ).push(all[i as int]));
            }
            i += 1;
        }
        assert(all.take(i as int) =~= all);
        idx
    }

    fn keys_at(&self, idx: &Vec<usize>) -> (r: Vec<(i64, String, String)>)
        requires
            forall|k: int| 0 <= k < idx@.len() ==> (#[trigger] idx@[k]) < self.rows@.len(),
        ensures
            triples(r@) == keys(idx@.map_values(|i: usize| self.jobs()[i as int])),
    {
        let mut r: Vec<(i64, String, String)> = Vec::new();
        let mut k: usize = 0;
        while k < idx.len()
            invariant
                k <= idx@.len(),
                forall|k: int| 0 <= k < idx@.len() ==> (#[trigger] idx@[k]) < self.rows@.len(),
                r@.len() == k,
                forall|m: int|
                    0 <= m < k ==> (#[trigger] r@[m]).0 == self.jobs()[idx@[m] as int].id && r@[m].1@
                        == self.jobs()[idx@[m] as int].path && r@[m].2@
                        == self.jobs()[idx@[m] as int].checksum,
            decreases idx@.len() - k,
        {
            let row = &self.rows[idx[k]];
            r.push((row.id, row.path.clone(), row.checksum.clone()));
            k += 1;
        }
        assert(triples(r@) =~= keys(idx@.map_values(|i: usize| self.jobs()[i as int])));
        r
    }

    /// The first jobs that are pending.
    pub fn fetch_pending(&self, limit: i64) -> (r: Vec<(i64, String, String)>)
        ensures
            triples(r@) == keys(claimed(self.jobs(), limit as int)),
    {
        let idx = self.pick(Wanted::Status(JobStatus::Pending), limit);
        self.keys_at(&idx)
    }

    /// Takes the first jobs that are pending: they are being extracted from
    /// then on.
    pub fn claim_pending(&mut self, limit: i64) -> (r: Vec<(i64, String, String)>)
        requires
            old(self).wf(),
        ensures
            final(self).wf(),
            final(self).last() == old(self).last(),
            triples(r@) == keys(claimed(old(self).jobs(), limit as int)),
            final(self).jobs() == after_claim(old(self).jobs(), limit as int),
    {
        let idx = self.pick(Wanted::Status(JobStatus::Pending), limit);
        let r = self.keys_at(&idx);
        let ghost before = self.jobs();
        let ghost taken = claimed(before, limit as int);
        assert(taken == idx@.map_values(|i: usize| before[i as int]));
        let mut k: usize = 0;
        while k < idx.len()
            invariant
                k <= idx@.len(),
                self.last_id == old(self).last_id,
                self.rows@.len() == before.len(),
                forall|m: int| 0 <= m < idx@.len() ==> (#[trigger] idx@[m]) < before.len(),
                forall|i: int|
                    0 <= i < before.len() ==> (#[trigger] self.jobs()[i]) == (if among(
                        idx@.take(k as int),
                        i,
                    ) {
                        JobModel { status: JobStatus::Extracting, ..before[i] }
                    } else {
                        before[i]
                    }),
            decreases idx@.len() - k,
        {
            let ghost now = self.jobs();
            let at = idx[k];
            assert(now[at as int].id == before[at as int].id);
            self.rows[at].status = JobStatus::Extracting;
            proof {
                let t = idx@.take(k as int);
                let u = idx@.take(k + 1);
                assert forall|i: int| 0 <= i < before.len() implies #[trigger] among(u, i) == (
                among(t, i) || i == at) by {
                    if among(t, i) {
                        let m = choose|m: int| 0 <= m < t.len() && #[trigger] t[m] == i;
                        assert(u[m] == i);
                    }
                    if i == at {
                        assert(u[k as int] == i);
                    }
                    if among(u, i) && i != at {
                        let m = choose|m: int| 0 <= m < u.len() && #[trigger] u[m] == i;
                        assert(t[m] == i);
                    }
                }
                assert(now[at as int] == before[at as int] || now[at as int] == (JobModel {
                    status: JobStatus::Extracting,
                    ..before[at as int]
                }));
                assert(self.jobs() =~= now.update(
                    at as int,
                    JobModel { status: JobStatus::Extracting, ..before[at as int] },
                ));
            }
            k += 1;
        }
        proof {
            assert(idx@.take(k as int) =~= idx@);
            assert forall|i: int| 0 <= i < before.len() implies among(idx@, i) == taken.contains(
                #[trigger] before[i],
            ) by {
                if among(idx@, i) {
                    let m = choose|m: int| 0 <= m < idx@.len() && #[trigger] idx@[m] == i;
                    assert(taken[m] == before[i]);
                }
                if taken.contains(before[i]) {
                    let m = choose|m: int| 0 <= m < taken.len() && taken[m] == before[i];
                    assert(before[idx@[m] as int].id == before[i].id);
                    assert(idx@[m] == i);
                }
            }
            assert(self.jobs() =~= after_claim(before, limit as int));
        }
        r
    }

    /// The first jobs that are extracted, with the flag.
    pub fn fetch_extracted(&self, limit: i64) -> (r: Vec<(i64, String, String, bool)>)
        ensures
            quads(r@) == first_of(
                wanted(self.jobs(), Wanted::Status(JobStatus::Extracted)),
                limit as int,
            ).map_values(|j: JobModel| (j.id, j.path, j.checksum, j.ocr_flag)),
    {
        let idx = self.pick(Wanted::Status(JobStatus::Extracted), limit);
        let ghost picked = idx@.map_values(|i: usize| self.jobs()[i as int]);
        let mut r: Vec<(i64, String, String, bool)> = Vec::new();
        let mut k: usize = 0;
        while k < idx.len()
            invariant
                k <= idx@.len(),
                forall|k: int| 0 <= k < idx@.len() ==> (#[trigger] idx@[k]) < self.rows@.len(),
                r@.len() == k,
                forall|m: int|
                    0 <= m < k ==> {
                        let j = self.jobs()[idx@[m] as int];
                        &&& (#[trigger] r@[m]).0 == j.id
                        &&& r@[m].1@ == j.path
                        &&& r@[m].2@ == j.checksum
                        &&& r@[m].3 == j.ocr_flag
                    },
            decreases idx@.len() - k,
        {
            let row = &self.rows[idx[k]];
            r.push((row.id, row.path.clone(), row.checksum.clone(), row.ocr_flag));
            k += 1;
        }
        assert(quads(r@) =~= picked.map_values(
            |j: JobModel| (j.id, j.path, j.checksum, j.ocr_flag),
        ));
        r
    }

    /// The first jobs that need recognition of characters and for which it was
    /// tried fewer than `max_retries` times.
    pub fn fetch_ocr_needed(&self, limit: i64, max_retries: u32) -> (r: Vec<(i64, String, String)>)
        ensures
            triples(r@) == keys(
                first_of(wanted(self.jobs(), Wanted::Ocr(max_retries)), limit as int),
            ),
    {
        let idx = self.pick(Wanted::Ocr(max_retries), limit);
        self.keys_at(&idx)
    }

    fn count(&self, w: Wanted) -> (n: i64)
        requires
            self.wf(),
        ensures
            n == wanted(self.jobs(), w).len(),
    {
        proof {
            lemma_table_len(self.jobs(), self.last());
        }
        let ghost len = self.rows.len();
        let limit: i64 = i64::MAX;
        let idx = self.pick(w, limit);
        proof {
            lemma_filter_len(self.jobs(), |j: JobModel| is_wanted(w, j));
            assert(idx@.map_values(|i: usize| self.jobs()[i as int]).len() == idx@.len());
        }
        idx.len() as i64
    }

    /// How many jobs are pending.
    pub fn count_pending(&self) -> (n: i64)
        requires
            self.wf(),
        ensures
            n == wanted(self.jobs(), Wanted::Status(JobStatus::Pending)).len(),
    {
        self.count(Wanted::Status(JobStatus::Pending))
    }

    /// How many jobs need recognition of characters.
    pub fn count_ocr_pending(&self, max_retries: u32) -> (n: i64)
        requires
            self.wf(),
        ensures
            n == wanted(self.jobs(), Wanted::Ocr(max_retries)).len(),
    {
        self.count(Wanted::Ocr(max_retries))
    }

    /// How many jobs have the status with a name.
    pub fn count_by_status(&self, status: &str) -> (n: i64)
        requires
            self.wf(),
        ensures
            n == self.jobs().filter(|j: JobModel| status_name(j.status) == status@).len(),
    {
        let ghost all = self.jobs();
        let ghost p = |j: JobModel| status_name(j.status) == status@;
        let mut n: i64 = 0;
        let mut i: usize = 0;
        proof {
            reveal(Seq::filter);
            lemma_table_len(all, self.last());
            assert(all.take(0).filter(p).len() == 0);
        }
        while i < self.rows.len()
            invariant
                i <= self.rows@.len(),
                all == self.jobs(),
                all.len() == self.rows@.len() <= i64::MAX,
                p == (|j: JobModel| status_name(j.status) == status@),
                n == all.take(i as int).filter(p).len(),
                n <= i,
            decreases self.rows@.len() - i,
        {
            proof {
                reveal(Seq::filter);
                assert(all.take(i + 1).drop_last() =~= all.take(i as int));
                assert(all.take(i + 1).last() == job_model(self.rows@[i as int]));
            }
            if same_text(self.rows[i].status.name(), status) {
                n += 1;
            }
            i += 1;
        }
        assert(all.take(i as int) =~= all);
        n
    }
}

// ---------------------------------------------------------------------------
// Putting files into the table
// ---------------------------------------------------------------------------

/// Why a file could not be put into the table: its numbers or the ids of jobs
/// are beyond the range of the table.
#[derive(Debug)]
pub enum JobError {
    Upsert,
    MarkPending,
    BatchMarkPending { path: String },
    UpdateMetadata,
    NoJob,
}

/// The text of an error.
pub open spec fn job_error_text(e: JobError) -> Seq<char> {
    match e {
        JobError::Upsert => "Failed to upsert file"@,
        JobError::MarkPending => "Failed to mark pending"@,
        JobError::BatchMarkPending { path } => "Failed to batch-mark pending: "@ + path@,
        JobError::UpdateMetadata => "Failed to update file metadata"@,
        JobError::NoJob => "Failed to query job language"@,
    }
}

impl JobError {
    /// The text of the error.
    pub fn message(&self) -> (s: String)
        ensures
            s@ == job_error_text(*self),
    {
        match self {
            JobError::Upsert => "Failed to upsert file".to_owned(),
            JobError::MarkPending => "Failed to mark pending".to_owned(),
            JobError::BatchMarkPending { path } => {
                let mut s = "Failed to batch-mark pending: ".to_owned();
                s.push_str(path.as_str());
                s
            },
            JobError::UpdateMetadata => "Failed to update file metadata".to_owned(),
            JobError::NoJob => "Failed to query job language".to_owned(),
        }
    }
}

/// Jobs and the last id that was given.
pub struct Table {
    pub jobs: Seq<JobModel>,
    pub last: int,
}

/// The table after a file with a checksum was put into it: a file that is not
/// known gets a job, one with another checksum is to be done again.
pub open spec fn upserted(t: Table, path: Seq<char>, checksum: Seq<char>) -> Table {
    if !has_path(t.jobs, path) {
        Table {
            jobs: t.jobs.push(new_job(t.last + 1, path, checksum, None, None)),
            last: t.last + 1,
        }
    } else if job_for(t.jobs, path).checksum != checksum {
        Table {
            jobs: with_path(
                t.jobs,
                path,
                |j: JobModel| JobModel { checksum, ..requeued(j) },
            ),
            last: t.last,
        }
    } else {
        t
    }
}

/// The table after a file was put into it to be done, whether known or not.
pub open spec fn queued(t: Table, path: Seq<char>) -> Table {
    if !has_path(t.jobs, path) {
        Table {
            jobs: t.jobs.push(new_job(t.last + 1, path, ""@, None, None)),
            last: t.last + 1,
        }
    } else {
        Table { jobs: with_path(t.jobs, path, |j: JobModel| requeued(j)), last: t.last }
    }
}

/// A file: path, time of its last change and size.
pub type FileModel = (Seq<char>, u64, u64);

/// What files say.
pub open spec fn file_models(files: Seq<(String, u64, u64)>) -> Seq<FileModel> {
    files.map_values(|f: (String, u64, u64)| (f.0@, f.1, f.2))
}

/// The table after a file was put into it to be done, with its time and size.
pub open spec fn queued_with(t: Table, f: FileModel) -> Table {
    if !has_path(t.jobs, f.0) {
        Table {
            jobs: t.jobs.push(new_job(t.last + 1, f.0, ""@, Some(f.1), Some(f.2))),
            last: t.last + 1,
        }
    } else {
        Table {
            jobs: with_path(
                t.jobs,
                f.0,
                |j: JobModel|
                    JobModel { file_modified: Some(f.1), file_size: Some(f.2), ..requeued(j) },
            ),
            last: t.last,
        }
    }
}

/// The table after files were put into it in turn.
pub open spec fn all_queued(t: Table, files: Seq<FileModel>) -> Table
    decreases files.len(),
{
    if files.len() == 0 {
        t
    } else {
        queued_with(all_queued(t, files.drop_last()), files.last())
    }
}

/// Whether the numbers of a file are within the range of the table.
pub open spec fn in_range(f: FileModel) -> bool {
    f.1 <= i64::MAX && f.2 <= i64::MAX
}

/// Whether files can be put into the table: their numbers and the ids are
/// within its range.
pub open spec fn can_queue(t: Table, files: Seq<FileModel>) -> bool {
    &&& forall|i: int| 0 <= i < files.len() ==> in_range(#[trigger] files[i])
    &&& all_queued(t, files).last <= i64::MAX
}

/// Whether some file has a path.
pub open spec fn files_have(files: Seq<FileModel>, path: Seq<char>) -> bool {
    exists|k: int| 0 <= k < files.len() && (#[trigger] files[k]).0 == path
}

proof fn lemma_with_path(jobs: Seq<JobModel>, path: Seq<char>, f: spec_fn(JobModel) -> JobModel)
    requires
        forall|j: JobModel| (#[trigger] f(j)).path == j.path && f(j).id == j.id,
    ensures
        forall|last: int| table_ok(jobs, last) ==> #[trigger] table_ok(with_path(jobs, path, f), last),
        forall|p: Seq<char>| #[trigger] has_path(with_path(jobs, path, f), p) == has_path(jobs, p),
{
    let after = with_path(jobs, path, f);
    assert forall|i: int| 0 <= i < jobs.len() implies (#[trigger] after[i]).path == jobs[i].path
        && after[i].id == jobs[i].id by {
        assert(f(jobs[i]).path == jobs[i].path);
    }
    assert forall|p: Seq<char>| #[trigger] has_path(after, p) == has_path(jobs, p) by {
        if has_path(jobs, p) {
            let i = choose|i: int| 0 <= i < jobs.len() && (#[trigger] jobs[i]).path == p;
            assert(after[i].path == p);
        }
        if has_path(after, p) {
            let i = choose|i: int| 0 <= i < after.len() && (#[trigger] after[i]).path == p;
            assert(jobs[i].path == p);
        }
    }
}

proof fn lemma_push_job(jobs: Seq<JobModel>, last: int, j: JobModel)
    requires
        table_ok(jobs, last),
        0 <= last < i64::MAX,
        j.id == last + 1,
        !has_path(jobs, j.path),
    ensures
        table_ok(jobs.push(j), last + 1),
{
    let after = jobs.push(j);
    assert forall|a: int, b: int| 0 <= a < b < after.len() implies (#[trigger] after[a]).path != (
    #[trigger] after[b]).path by {
        assert(after[a] == jobs[a]);
        if b < jobs.len() {
            assert(after[b] == jobs[b]);
        }
    }
}

proof fn lemma_queued_with(t: Table, f: FileModel)
    ensures
        forall|p: Seq<char>| #[trigger] has_path(queued_with(t, f).jobs, p) == (has_path(t.jobs, p)
            || p == f.0),
        queued_with(t, f).last == t.last + (if has_path(t.jobs, f.0) {
            0int
        } else {
            1
        }),
{
    let after = queued_with(t, f).jobs;
    if has_path(t.jobs, f.0) {
        lemma_with_path(
            t.jobs,
            f.0,
            |j: JobModel| JobModel { file_modified: Some(f.1), file_size: Some(f.2), ..requeued(j) },
        );
    } else {
        assert forall|p: Seq<char>| #[trigger] has_path(after, p) == (has_path(t.jobs, p) || p
            == f.0) by {
            if has_path(t.jobs, p) {
                let i = choose|i: int| 0 <= i < t.jobs.len() && (#[trigger] t.jobs[i]).path == p;
                assert(after[i].path == p);
            }
            if p == f.0 {
                assert(after[t.jobs.len() as int].path == p);
            }
            if has_path(after, p) && p != f.0 {
                let i = choose|i: int| 0 <= i < after.len() && (#[trigger] after[i]).path == p;
                assert(t.jobs[i].path == p);
            }
        }
    }
}

proof fn lemma_all_queued(t: Table, files: Seq<FileModel>)
    ensures
        forall|p: Seq<char>| #[trigger] has_path(all_queued(t, files).jobs, p) == (has_path(t.jobs, p)
            || files_have(files, p)),
        t.last <= all_queued(t, files).last,
    decreases files.len(),
{
    if files.len() > 0 {
        let d = files.drop_last();
        let f = files.last();
        lemma_all_queued(t, d);
        lemma_queued_with(all_queued(t, d), f);
        assert forall|p: Seq<char>| #[trigger] has_path(all_queued(t, files).jobs, p) == (has_path(
            t.jobs,
            p,
        ) || files_have(files, p)) by {
            if files_have(d, p) {
                let k = choose|k: int| 0 <= k < d.len() && (#[trigger] d[k]).0 == p;
                assert(files[k].0 == p);
            }
            if p == f.0 {
                assert(files[files.len() - 1].0 == p);
            }
            if files_have(files, p) && p != f.0 {
                let k = choose|k: int| 0 <= k < files.len() && (#[trigger] files[k]).0 == p;
                assert(d[k].0 == p);
            }
        }
    }
}

proof fn lemma_queued_monotone(t: Table, files: Seq<FileModel>, n: int)
    requires
        0 <= n <= files.len(),
    ensures
        all_queued(t, files.take(n)).last <= all_queued(t, files).last,
    decreases files.len(),
{
    if n == files.len() {
        assert(files.take(n) =~= files);
    } else {
        let d = files.drop_last();
        lemma_queued_monotone(t, d, n);
        assert(d.take(n) =~= files.take(n));
        lemma_queued_with(all_queued(t, d), files.last());
    }
}

/// Where files can be put into the table, so can the first of them.
pub proof fn lemma_can_queue_less(t: Table, files: Seq<FileModel>, n: int)
    requires
        0 <= n <= files.len(),
        can_queue(t, files),
    ensures
        can_queue(t, files.take(n)),
{
    lemma_queued_monotone(t, files, n);
    let front = files.take(n);
    assert forall|i: int| 0 <= i < front.len() implies in_range(#[trigger] front[i]) by {
        assert(front[i] == files[i]);
    }
}

/// Putting files into a table that is in order leaves it in order.
pub proof fn law_queue_keeps_order(t: Table, files: Seq<FileModel>)
    requires
        table_ok(t.jobs, t.last),
        0 <= t.last,
        all_queued(t, files).last <= i64::MAX,
    ensures
        table_ok(all_queued(t, files).jobs, all_queued(t, files).last),
    decreases files.len(),
{
    if files.len() > 0 {
        let d = files.drop_last();
        let f = files.last();
        let u = all_queued(t, d);
        lemma_queued_with(u, f);
        law_queue_keeps_order(t, d);
        lemma_all_queued(t, d);
        if has_path(u.jobs, f.0) {
            lemma_with_path(
                u.jobs,
                f.0,
                |j: JobModel|
                    JobModel { file_modified: Some(f.1), file_size: Some(f.2), ..requeued(j) },
            );
        } else {
            lemma_push_job(
                u.jobs,
                u.last,
                new_job(u.last + 1, f.0, ""@, Some(f.1), Some(f.2)),
            );
        }
    }
}

/// Whether no two files have one path.
pub open spec fn distinct_paths(files: Seq<FileModel>) -> bool {
    forall|i: int, j: int|
        0 <= i < j < files.len() ==> (#[trigger] files[i]).0 != (#[trigger] files[j]).0
}

/// A file that was put into the table is pending with its time and size.
pub proof fn law_queued_is_pending(t: Table, files: Seq<FileModel>, k: int) -> (i: int)
    requires
        distinct_paths(files),
        0 <= k < files.len(),
    ensures
        0 <= i < all_queued(t, files).jobs.len(),
        metadata(all_queued(t, files).jobs[i]) == (
            files[k].0,
            files[k].1,
            files[k].2,
            JobStatus::Pending,
        ),
    decreases files.len(),
{
    let d = files.drop_last();
    let f = files.last();
    let u = all_queued(t, d);
    let after = all_queued(t, files).jobs;
    if k == d.len() {
        if has_path(u.jobs, f.0) {
            let i = choose|i: int| 0 <= i < u.jobs.len() && (#[trigger] u.jobs[i]).path == f.0;
            assert(after[i].path == f.0);
            i
        } else {
            assert(after[u.jobs.len() as int].path == f.0);
            u.jobs.len() as int
        }
    } else {
        assert forall|a: int, b: int| 0 <= a < b < d.len() implies (#[trigger] d[a]).0 != (
        #[trigger] d[b]).0 by {
            assert(files[a].0 != files[b].0);
        }
        let i = law_queued_is_pending(t, d, k);
        assert(files[k].0 != files[d.len() as int].0);
        assert(u.jobs[i].path == files[k].0);
        assert(after[i] == u.jobs[i]);
        i
    }
}

/// A job for a path that is not among those of the files stays as it is.
pub proof fn law_others_unqueued(t: Table, files: Seq<FileModel>, i: int)
    requires
        0 <= i < t.jobs.len(),
        !files_have(files, t.jobs[i].path),
    ensures
        i < all_queued(t, files).jobs.len(),
        all_queued(t, files).jobs[i] == t.jobs[i],
    decreases files.len(),
{
    if files.len() > 0 {
        let d = files.drop_last();
        assert(files[files.len() - 1].0 != t.jobs[i].path);
        assert(!files_have(d, t.jobs[i].path)) by {
            if files_have(d, t.jobs[i].path) {
                let k = choose|k: int| 0 <= k < d.len() && (#[trigger] d[k]).0 == t.jobs[i].path;
                assert(files[k].0 == t.jobs[i].path);
            }
        }
        law_others_unqueued(t, d, i);
    }
}

fn earlier_path(files: &Vec<(String, u64, u64)>, n: usize) -> (b: bool)
    requires
        n < files@.len(),
    ensures
        b == files_have(file_models(files@).take(n as int), files@[n as int].0@),
{
    let ghost front = file_models(files@).take(n as int);
    let mut k: usize = 0;
    while k < n
        invariant
            k <= n < files@.len(),
            front == file_models(files@).take(n as int),
            forall|m: int| 0 <= m < k ==> (#[trigger] front[m]).0 != files@[n as int].0@,
        decreases n - k,
    {
        assert(front[k as int].0 == files@[k as int].0@);
        if same_text(files[k].0.as_str(), files[n].0.as_str()) {
            return true;
        }
        k += 1;
    }
    false
}

impl JobStore {
    /// The table.
    pub open spec fn table(self) -> Table {
        Table { jobs: self.jobs(), last: self.last() }
    }

    fn push_job(&mut self, path: String, checksum: String, modified: Option<u64>, size: Option<u64>)
        requires
            old(self).wf(),
            old(self).last() < i64::MAX,
            !has_path(old(self).jobs(), path@),
        ensures
            final(self).wf(),
            final(self).last() == old(self).last() + 1,
            final(self).jobs() == old(self).jobs().push(
                new_job(old(self).last() + 1, path@, checksum@, modified, size),
            ),
    {
        let ghost before = self.jobs();
        let id = self.last_id + 1;
        let job = Job {
            id,
            path,
            checksum,
            status: JobStatus::Pending,
            ocr_flag: false,
            error: None,
            ocr_attempts: 0,
            ocr_error: None,
            failed_ocr: None,
            language: None,
            file_modified: modified,
            file_size: size,
        };
        let ghost model = job_model(job);
        proof {
            lemma_push_job(before, self.last(), model);
        }
        self.rows.push(job);
        self.last_id = id;
        assert(self.jobs() =~= before.push(model));
    }

    /// Puts a file with a checksum into the table. Says whether it is to be
    /// done: it was not known, or its checksum is another one.
    pub fn upsert_file(&mut self, path: &str, checksum: &str) -> (r: Result<bool, JobError>)
        requires
            old(self).wf(),
        ensures
            final(self).wf(),
            match r {
                Ok(b) => {
                    &&& final(self).table() == upserted(old(self).table(), path@, checksum@)
                    &&& b == (!has_path(old(self).jobs(), path@) || job_for(
                        old(self).jobs(),
                        path@,
                    ).checksum != checksum@)
                },
                Err(e) => {
                    &&& e is Upsert
                    &&& !has_path(old(self).jobs(), path@)
                    &&& old(self).last() == i64::MAX
                    &&& final(self).table() == old(self).table()
                },
            },
    {
        let ghost before = self.jobs();
        match self.find_path(path) {
            None => {
                if self.last_id == i64::MAX {
                    return Err(JobError::Upsert);
                }
                self.push_job(path.to_owned(), checksum.to_owned(), None, None);
                Ok(true)
            },
            Some(i) => {
                assert(has_path(before, path@));
                let ghost at = choose|k: int| 0 <= k < before.len() && (#[trigger] before[k]).path
                    == path@;
                assert(at == i);
                if same_text(self.rows[i].checksum.as_str(), checksum) {
                    return Ok(false);
                }
                let ghost f = |j: JobModel| JobModel { checksum: checksum@, ..requeued(j) };
                self.rows[i].checksum = checksum.to_owned();
                self.rows[i].status = JobStatus::Pending;
                self.rows[i].ocr_flag = false;
                self.rows[i].error = None;
                proof {
                    assert(self.jobs() =~= with_path(before, path@, f));
                    lemma_with_path(before, path@, f);
                }
                Ok(true)
            },
        }
    }

    /// Puts a file into the table to be done, whether known or not.
    pub fn mark_pending(&mut self, path: &str) -> (r: Result<bool, JobError>)
        requires
            old(self).wf(),
        ensures
            final(self).wf(),
            match r {
                Ok(b) => b && final(self).table() == queued(old(self).table(), path@),
                Err(e) => {
                    &&& e is MarkPending
                    &&& !has_path(old(self).jobs(), path@)
                    &&& old(self).last() == i64::MAX
                    &&& final(self).table() == old(self).table()
                },
            },
    {
        let ghost before = self.jobs();
        match self.find_path(path) {
            None => {
                if self.last_id == i64::MAX {
                    return Err(JobError::MarkPending);
                }
                self.push_job(path.to_owned(), "".to_owned(), None, None);
            },
            Some(i) => {
                assert(has_path(before, path@));
                let ghost f = |j: JobModel| requeued(j);
                self.rows[i].status = JobStatus::Pending;
                self.rows[i].ocr_flag = false;
                self.rows[i].error = None;
                proof {
                    assert(self.jobs() =~= with_path(before, path@, f));
                    lemma_with_path(before, path@, f);
                }
            },
        }
        Ok(true)
    }

    fn queue_file(&mut self, path: &str, modified: u64, size: u64)
        requires
            old(self).wf(),
            has_path(old(self).jobs(), path@) || old(self).last() < i64::MAX,
        ensures
            final(self).wf(),
            final(self).table() == queued_with(old(self).table(), (path@, modified, size)),
    {
        let ghost before = self.jobs();
        match self.find_path(path) {
            None => {
                self.push_job(path.to_owned(), "".to_owned(), Some(modified), Some(size));
            },
            Some(i) => {
                assert(has_path(before, path@));
                let ghost f = |j: JobModel|
                    JobModel { file_modified: Some(modified), file_size: Some(size), ..requeued(j) };
                self.rows[i].status = JobStatus::Pending;
                self.rows[i].ocr_flag = false;
                self.rows[i].error = None;
                self.rows[i].file_modified = Some(modified);
                self.rows[i].file_size = Some(size);
                proof {
                    assert(self.jobs() =~= with_path(before, path@, f));
                    lemma_with_path(before, path@, f);
                }
            },
        }
    }

    /// Finds the first file that cannot be put into the table.
    fn first_refused(&self, files: &Vec<(String, u64, u64)>) -> (r: Option<usize>)
        requires
            self.wf(),
        ensures
            match r {
                None => can_queue(self.table(), file_models(files@)),
                Some(n) => n < files@.len() && can_queue(
                    self.table(),
                    file_models(files@).take(n as int),
                ) && !can_queue(self.table(), file_models(files@).take(n + 1)),
            },
    {
        let ghost models = file_models(files@);
        let mut fresh: i64 = 0;
        let mut n: usize = 0;
        while n < files.len()
            invariant
                self.wf(),
                n <= files@.len(),
                models == file_models(files@),
                fresh >= 0,
                self.last_id + fresh <= i64::MAX,
                can_queue(self.table(), models.take(n as int)),
                all_queued(self.table(), models.take(n as int)).last == self.last_id + fresh,
            decreases files@.len() - n,
        {
            let ghost front = models.take(n as int);
            let ghost next = models.take(n + 1);
            let ghost f = models[n as int];
            proof {
                assert(next.drop_last() =~= front);
                assert(next.last() == f);
                assert(next[n as int] == f);
                lemma_all_queued(self.table(), front);
                lemma_queued_with(all_queued(self.table(), front), f);
            }
            if files[n].1 > i64::MAX as u64 || files[n].2 > i64::MAX as u64 {
                assert(!in_range(next[n as int]));
                return Some(n);
            }
            let known = match self.find_path(files[n].0.as_str()) {
                Some(i) => {
                    assert(has_path(self.jobs(), f.0));
                    true
                },
                None => earlier_path(files, n),
            };
            assert(known == has_path(all_queued(self.table(), front).jobs, f.0));
            if !known {
                if fresh == i64::MAX - self.last_id {
                    return Some(n);
                }
                fresh += 1;
            }
            assert forall|i: int| 0 <= i < next.len() implies in_range(#[trigger] next[i]) by {
                if i < n {
                    assert(next[i] == front[i]);
                }
            }
            n += 1;
        }
        assert(models.take(n as int) =~= models);
        None
    }

    /// Puts files into the table to be done, with their times and sizes: all
    /// of them, or none where one is refused.
    pub fn batch_mark_pending(&mut self, files: &Vec<(String, u64, u64)>) -> (r: Result<
        (),
        JobError,
    >)
        requires
            old(self).wf(),
        ensures
            final(self).wf(),
            match r {
                Ok(_) => {
                    &&& can_queue(old(self).table(), file_models(files@))
                    &&& final(self).table() == all_queued(
                        old(self).table(),
                        file_models(files@),
                    )
                },
                Err(e) => {
                    &&& final(self).table() == old(self).table()
                    &&& e matches JobError::BatchMarkPending { path } && exists|n: int|
                        0 <= n < files@.len() && path@ == (#[trigger] files@[n]).0@ && can_queue(
                            old(self).table(),
                            file_models(files@).take(n),
                        ) && !can_queue(old(self).table(), file_models(files@).take(n + 1))
                },
            },
    {
        if let Some(n) = self.first_refused(files) {
            let path = files[n].0.clone();
            assert(path@ == files@[n as int].0@);
            return Err(JobError::BatchMarkPending { path });
        }
        let ghost start = self.table();
        let ghost models = file_models(files@);
        let mut n: usize = 0;
        assert(models.take(0) =~= Seq::empty());
        while n < files.len()
            invariant
                n <= files@.len(),
                self.wf(),
                models == file_models(files@),
                can_queue(start, models),
                self.table() == all_queued(start, models.take(n as int)),
            decreases files@.len() - n,
        {
            proof {
                let next = models.take(n + 1);
                assert(next.drop_last() =~= models.take(n as int));
                assert(next.last() == models[n as int]);
                lemma_queued_monotone(start, models, n + 1);
                lemma_queued_with(self.table(), models[n as int]);
            }
            self.queue_file(files[n].0.as_str(), files[n].1, files[n].2);
            n += 1;
        }
        assert(models.take(n as int) =~= models);
        Ok(())
    }

    /// Records the time and the size of the file of a job.
    pub fn update_file_metadata(&mut self, id: i64, modified: u64, size: u64) -> (r: Result<
        (),
        JobError,
    >)
        requires
            old(self).wf(),
        ensures
            final(self).wf(),
            final(self).last() == old(self).last(),
            match r {
                Ok(_) => modified <= i64::MAX && size <= i64::MAX && final(self).jobs() == with_job(
                    old(self).jobs(),
                    id,
                    |j: JobModel|
                        JobModel { file_modified: Some(modified), file_size: Some(size), ..j },
                ),
                Err(e) => {
                    &&& e is UpdateMetadata
                    &&& modified > i64::MAX || size > i64::MAX
                    &&& final(self).jobs() == old(self).jobs()
                },
            },
    {
        if modified > i64::MAX as u64 || size > i64::MAX as u64 {
            return Err(JobError::UpdateMetadata);
        }
        let found = self.find_id(id);
        if let Some(i) = found {
            self.rows[i].file_modified = Some(modified);
            self.rows[i].file_size = Some(size);
        }
        assert(self.jobs() =~= with_job(
            old(self).jobs(),
            id,
            |j: JobModel| JobModel { file_modified: Some(modified), file_size: Some(size), ..j },
        ));
        Ok(())
    }

    /// Whether a file is known with a time and a size.
    pub fn is_file_unchanged(&self, path: &str, modified: u64, size: u64) -> (b: bool)
        requires
            self.wf(),
        ensures
            b == (has_path(self.jobs(), path@) && job_for(self.jobs(), path@).file_modified == Some(
                modified,
            ) && job_for(self.jobs(), path@).file_size == Some(size)),
    {
        match self.find_path(path) {
            Some(i) => {
                assert(job_for(self.jobs(), path@) == self.jobs()[i as int]);
                let same_time = match self.rows[i].file_modified {
                    Some(m) => m == modified,
                    None => false,
                };
                let same_size = match self.rows[i].file_size {
                    Some(n) => n == size,
                    None => false,
                };
                same_time && same_size
            },
            None => false,
        }
    }

    /// The id of the job for a path.
    pub fn get_id_by_path(&self, path: &str) -> (r: Option<i64>)
        requires
            self.wf(),
        ensures
            r == (if has_path(self.jobs(), path@) {
                Some(job_for(self.jobs(), path@).id)
            } else {
                None
            }),
    {
        match self.find_path(path) {
            Some(i) => {
                assert(job_for(self.jobs(), path@) == self.jobs()[i as int]);
                Some(self.rows[i].id)
            },
            None => None,
        }
    }

    /// The job with an id.
    pub fn job(&self, id: i64) -> (r: Option<&Job>)
        requires
            self.wf(),
        ensures
            match r {
                Some(j) => j.id == id && exists|i: int|
                    0 <= i < self.jobs().len() && #[trigger] self.jobs()[i] == job_model(*j),
                None => forall|i: int|
                    0 <= i < self.jobs().len() ==> (#[trigger] self.jobs()[i]).id != id,
            },
    {
        match self.find_id(id) {
            Some(i) => {
                assert(self.jobs()[i as int] == job_model(self.rows@[i as int]));
                Some(&self.rows[i])
            },
            None => None,
        }
    }

    /// The language of the text of a job.
    pub fn get_job_language(&self, id: i64) -> (r: Result<Option<String>, JobError>)
        requires
            self.wf(),
        ensures
            match r {
                Ok(lang) => exists|i: int|
                    0 <= i < self.jobs().len() && (#[trigger] self.jobs()[i]).id == id
                        && self.jobs()[i].language == opt_text(lang),
                Err(e) => e is NoJob && forall|i: int|
                    0 <= i < self.jobs().len() ==> (#[trigger] self.jobs()[i]).id != id,
            },
    {
        match self.find_id(id) {
            Some(i) => {
                let lang = match &self.rows[i].language {
                    Some(l) => Some(l.clone()),
                    None => None,
                };
                assert(self.jobs()[i as int].language == opt_text(lang));
                Ok(lang)
            },
            None => Err(JobError::NoJob),
        }
    }

    /// The jobs.
    pub fn rows(&self) -> (r: &Vec<Job>)
        ensures
            job_models(r@) == self.jobs(),
    {
        &self.rows
    }

    /// The last id that was given.
    pub fn last_id(&self) -> (n: i64)
        ensures
            n == self.last(),
    {
        self.last_id
    }

    /// A table with given jobs, `None` where they are no table.
    pub fn from_rows(rows: Vec<Job>, last_id: i64) -> (r: Option<JobStore>)
        ensures
            match r {
                Some(s) => s.wf() && s.jobs() == job_models(rows@) && s.last() == last_id,
                None => last_id < 0 || !table_ok(job_models(rows@), last_id as int),
            },
    {
        if last_id < 0 {
            return None;
        }
        let ghost models = job_models(rows@);
        let mut i: usize = 0;
        while i < rows.len()
            invariant
                i <= rows@.len(),
                models == job_models(rows@),
                table_ok(models.take(i as int), last_id as int),
            decreases rows@.len() - i,
        {
            let ghost front = models.take(i as int);
            let ghost next = models.take(i + 1);
            assert(models[i as int] == job_model(rows@[i as int]));
            if rows[i].id < 1 || rows[i].id > last_id {
                assert(models[i as int].id < 1 || models[i as int].id > last_id);
                return None;
            }
            let mut k: usize = 0;
            while k < i
                invariant
                    k <= i < rows@.len(),
                    models == job_models(rows@),
                    forall|m: int|
                        0 <= m < k ==> (#[trigger] models[m]).id < models[i as int].id
                            && models[m].path != models[i as int].path,
                decreases i - k,
            {
                assert(models[k as int] == job_model(rows@[k as int]));
                assert(models[i as int] == job_model(rows@[i as int]));
                if rows[k].id >= rows[i].id || same_text(
                    rows[k].path.as_str(),
                    rows[i].path.as_str(),
                ) {
                    return None;
                }
                k += 1;
            }
            proof {
                assert forall|a: int, b: int| 0 <= a < b < next.len() implies (
                #[trigger] next[a]).id < (#[trigger] next[b]).id && next[a].path != next[b].path by {
                    assert(next[a] == models[a] && next[b] == models[b]);
                    if b < i {
                        assert(front[a] == models[a] && front[b] == models[b]);
                    }
                }
                assert forall|a: int| 0 <= a < next.len() implies 1 <= (#[trigger] next[a]).id
                    <= last_id by {
                    if a < i {
                        assert(front[a] == next[a]);
                    }
                }
            }
            i += 1;
        }
        assert(models.take(i as int) =~= models);
        Some(JobStore { rows, last_id })
    }

    /// Path, time, size and status of each job; zero for a time or a size that
    /// is not recorded.
    pub fn load_all_metadata(&self) -> (r: Vec<(String, u64, u64, JobStatus)>)
        ensures
            r@.map_values(|t: (String, u64, u64, JobStatus)| (t.0@, t.1, t.2, t.3))
                == self.jobs().map_values(|j: JobModel| metadata(j)),
    {
        let mut r: Vec<(String, u64, u64, JobStatus)> = Vec::new();
        let mut i: usize = 0;
        while i < self.rows.len()
            invariant
                i <= self.rows@.len(),
                r@.len() == i,
                forall|k: int|
                    0 <= k < i ==> ((#[trigger] r@[k]).0@, r@[k].1, r@[k].2, r@[k].3) == metadata(
                        self.jobs()[k],
                    ),
            decreases self.rows@.len() - i,
        {
            let row = &self.rows[i];
            let modified = match row.file_modified {
                Some(m) => m,
                None => 0,
            };
            let size = match row.file_size {
                Some(n) => n,
                None => 0,
            };
            r.push((row.path.clone(), modified, size, row.status));
            assert(self.jobs()[i as int] == job_model(self.rows@[i as int]));
            i += 1;
        }
        assert(r@.map_values(|t: (String, u64, u64, JobStatus)| (t.0@, t.1, t.2, t.3))
            =~= self.jobs().map_values(|j: JobModel| metadata(j)));
        r
    }
}

/// Path, time, size and status of a job.
pub open spec fn metadata(j: JobModel) -> (Seq<char>, u64, u64, JobStatus) {
    (
        j.path,
        match j.file_modified {
            Some(m) => m,
            None => 0,
        },
        match j.file_size {
            Some(n) => n,
            None => 0,
        },
        j.status,
    )
}

// ---------------------------------------------------------------------------
// Failures
// ---------------------------------------------------------------------------

/// When recognition was given up for a job.
pub open spec fn given_up(j: JobModel) -> int {
    match j.failed_ocr {
        Some(t) => t as int,
        None => 0,
    }
}

/// Where a job goes among others, the newest failure first: behind all that
/// are not older.
pub open spec fn failure_place(s: Seq<JobModel>, time: int) -> nat
    decreases s.len(),
{
    if s.len() == 0 {
        0
    } else if given_up(s.last()) >= time {
        s.len()
    } else {
        failure_place(s.drop_last(), time)
    }
}

/// Jobs with the newest failure first, those of one time in their given order.
pub open spec fn newest_first(s: Seq<JobModel>) -> Seq<JobModel>
    decreases s.len(),
{
    if s.len() == 0 {
        s
    } else {
        let front = newest_first(s.drop_last());
        front.insert(failure_place(front, given_up(s.last())) as int, s.last())
    }
}

/// The jobs for which recognition was given up, the newest failure first.
pub open spec fn failed_jobs(jobs: Seq<JobModel>) -> Seq<JobModel> {
    newest_first(jobs.filter(|j: JobModel| j.failed_ocr is Some))
}

/// What ids, paths, checksums and errors say.
pub open spec fn failures(v: Seq<(i64, String, String, Option<String>)>) -> Seq<
    (i64, Seq<char>, Seq<char>, Option<Seq<char>>),
> {
    v.map_values(|t: (i64, String, String, Option<String>)| (t.0, t.1@, t.2@, opt_text(t.3)))
}

/// What ids, paths, names of statuses, flags and errors say.
pub open spec fn errors(v: Seq<(i64, String, String, i32, Option<String>)>) -> Seq<
    (i64, Seq<char>, Seq<char>, i32, Option<Seq<char>>),
> {
    v.map_values(
        |t: (i64, String, String, i32, Option<String>)| (t.0, t.1@, t.2@, t.3, opt_text(t.4)),
    )
}

fn copy_text(o: &Option<String>) -> (r: Option<String>)
    ensures
        opt_text(r) == opt_text(*o),
{
    match o {
        Some(s) => Some(s.clone()),
        None => None,
    }
}

impl JobStore {
    fn pick_failed(&self) -> (idx: Vec<usize>)
        ensures
            forall|k: int| 0 <= k < idx@.len() ==> (#[trigger] idx@[k]) < self.rows@.len(),
            idx@.map_values(|i: usize| self.jobs()[i as int]) == failed_jobs(self.jobs()),
    {
        let ghost all = self.jobs();
        let ghost p = |j: JobModel| j.failed_ocr is Some;
        let mut idx: Vec<usize> = Vec::new();
        let mut i: usize = 0;
        proof {
            reveal(Seq::filter);
            assert(idx@.map_values(|i: usize| all[i as int]) =~= newest_first(
                all.take(0).filter(p),
            ));
        }
        while i < self.rows.len()
            invariant
                i <= self.rows@.len(),
                all == self.jobs(),
                all.len() == self.rows@.len(),
                p == (|j: JobModel| j.failed_ocr is Some),
                forall|k: int|
                    0 <= k < idx@.len() ==> (#[trigger] idx@[k]) < self.rows@.len()
                        && self.rows@[idx@[k] as int].failed_ocr is Some,
                idx@.map_values(|i: usize| all[i as int]) == newest_first(
                    all.take(i as int).filter(p),
                ),
            decreases self.rows@.len() - i,
        {
            proof {
                reveal(Seq::filter);
                assert(all.take(i + 1).drop_last() =~= all.take(i as int));
                assert(all.take(i + 1).last() == job_model(self.rows@[i as int]));
            }
            if let Some(time) = self.rows[i].failed_ocr {
                let ghost before = idx@.map_values(|i: usize| all[i as int]);
                let ghost raw = idx@;
                let mut at: usize = idx.len();
                assert(before.take(at as int) =~= before);
                while at > 0 && is_older(&self.rows[idx[at - 1]], time)
                    invariant
                        at <= idx@.len(),
                        all == self.jobs(),
                        all.len() == self.rows@.len(),
                        forall|k: int|
                            0 <= k < idx@.len() ==> (#[trigger] idx@[k]) < self.rows@.len(),
                        before == idx@.map_values(|i: usize| all[i as int]),
                        failure_place(before, time as int) == failure_place(
                            before.take(at as int),
                            time as int,
                        ),
                    decreases at,
                {
                    assert(before.take(at as int).last() == job_model(
                        self.rows@[idx@[at - 1] as int],
                    ));
                    assert(before.take(at as int).drop_last() =~= before.take(at - 1));
                    at -= 1;
                }
                proof {
                    if at > 0 {
                        assert(before.take(at as int).last() == job_model(
                            self.rows@[idx@[at - 1] as int],
                        ));
                    }
                    assert(failure_place(before, time as int) == at);
                }
                idx.insert(at, i);
                proof {
                    let sofar = all.take(i as int).filter(p);
                    assert(sofar.push(all[i as int]).drop_last() =~= sofar);
                    assert(idx@ == raw.insert(at as int, i));
                    assert(idx@.map_values(|i: usize| all[i as int]) =~= before.insert(
                        at as int,
                        all[i as int],
                    ));
                }
            }
            i += 1;
        }
        assert(all.take(i as int) =~= all);
        idx
    }

    /// The jobs for which recognition of characters was given up, the newest
    /// failure first.
    pub fn fetch_failed_ocr(&self) -> (r: Vec<(i64, String, String, Option<String>)>)
        ensures
            failures(r@) == failed_jobs(self.jobs()).map_values(
                |j: JobModel| (j.id, j.path, j.checksum, j.ocr_error),
            ),
    {
        let idx = self.pick_failed();
        let ghost picked = idx@.map_values(|i: usize| self.jobs()[i as int]);
        let mut r: Vec<(i64, String, String, Option<String>)> = Vec::new();
        let mut k: usize = 0;
        while k < idx.len()
            invariant
                k <= idx@.len(),
                forall|k: int| 0 <= k < idx@.len() ==> (#[trigger] idx@[k]) < self.rows@.len(),
                r@.len() == k,
                forall|m: int|
                    0 <= m < k ==> {
                        let j = self.jobs()[idx@[m] as int];
                        &&& (#[trigger] r@[m]).0 == j.id
                        &&& r@[m].1@ == j.path
                        &&& r@[m].2@ == j.checksum
                        &&& opt_text(r@[m].3) == j.ocr_error
                    },
            decreases idx@.len() - k,
        {
            let row = &self.rows[idx[k]];
            r.push((row.id, row.path.clone(), row.checksum.clone(), copy_text(&row.ocr_error)));
            k += 1;
        }
        assert(failures(r@) =~= picked.map_values(
            |j: JobModel| (j.id, j.path, j.checksum, j.ocr_error),
        ));
        r
    }

    /// The jobs that failed.
    pub fn fetch_errored(&self) -> (r: Vec<(i64, String, String, i32, Option<String>)>)
        requires
            self.wf(),
        ensures
            errors(r@) == wanted(self.jobs(), Wanted::Status(JobStatus::Error)).map_values(
                |j: JobModel| errored(j),
            ),
    {
        let idx = self.pick(Wanted::Status(JobStatus::Error), i64::MAX);
        let ghost picked = idx@.map_values(|i: usize| self.jobs()[i as int]);
        proof {
            lemma_table_len(self.jobs(), self.last());
            lemma_filter_len(
                self.jobs(),
                |j: JobModel| is_wanted(Wanted::Status(JobStatus::Error), j),
            );
        }
        let mut r: Vec<(i64, String, String, i32, Option<String>)> = Vec::new();
        let mut k: usize = 0;
        while k < idx.len()
            invariant
                k <= idx@.len(),
                forall|k: int| 0 <= k < idx@.len() ==> (#[trigger] idx@[k]) < self.rows@.len(),
                r@.len() == k,
                forall|m: int|
                    0 <= m < k ==> (
                        (#[trigger] r@[m]).0,
                        r@[m].1@,
                        r@[m].2@,
                        r@[m].3,
                        opt_text(r@[m].4),
                    ) == errored(self.jobs()[idx@[m] as int]),
            decreases idx@.len() - k,
        {
            let row = &self.rows[idx[k]];
            let flag: i32 = if row.ocr_flag {
                1
            } else {
                0
            };
            let name = row.status.name();
            r.push((row.id, row.path.clone(), name.to_owned(), flag, copy_text(&row.error)));
            k += 1;
        }
        assert(errors(r@) =~= picked.map_values(|j: JobModel| errored(j)));
        r
    }
}

/// Id, path, name of the status, flag and error of a job.
pub open spec fn errored(j: JobModel) -> (i64, Seq<char>, Seq<char>, i32, Option<Seq<char>>) {
    (
        j.id,
        j.path,
        status_name(j.status),
        if j.ocr_flag {
            1i32
        } else {
            0i32
        },
        j.error,
    )
}

fn is_older(j: &Job, time: i64) -> (b: bool)
    ensures
        b == (given_up(job_model(*j)) < time),
{
    match j.failed_ocr {
        Some(t) => t < time,
        None => 0 < time,
    }
}

// ---------------------------------------------------------------------------
// Laws
// ---------------------------------------------------------------------------

/// A job that was claimed is not claimed again while it is being extracted.
pub proof fn law_claimed_once(jobs: Seq<JobModel>, last: int, limit: int, again: int)
    requires
        table_ok(jobs, last),
    ensures
        forall|a: JobModel, b: JobModel|
            claimed(jobs, limit).contains(a) && claimed(after_claim(jobs, limit), again).contains(b)
                ==> a.id != b.id,
{
    let after = after_claim(jobs, limit);
    assert forall|a: JobModel, b: JobModel|
        claimed(jobs, limit).contains(a) && claimed(after, again).contains(b) implies a.id
        != b.id by {
        lemma_claimed_from(jobs, limit, a);
        lemma_claimed_from(after, again, b);
        let i = choose|i: int| 0 <= i < jobs.len() && #[trigger] jobs[i] == a;
        let k = choose|k: int| 0 <= k < after.len() && #[trigger] after[k] == b;
        assert(after[i].status == JobStatus::Extracting);
        if a.id == b.id {
            assert(after[k].id == jobs[k].id);
            assert(jobs[i].id == jobs[k].id);
            assert(i == k);
        }
    }
}

proof fn lemma_claimed_from(jobs: Seq<JobModel>, limit: int, a: JobModel)
    requires
        claimed(jobs, limit).contains(a),
    ensures
        a.status == JobStatus::Pending,
        exists|i: int| 0 <= i < jobs.len() && #[trigger] jobs[i] == a,
{
    let p = |j: JobModel| is_wanted(Wanted::Status(JobStatus::Pending), j);
    let w = jobs.filter(p);
    let c = claimed(jobs, limit);
    let k = choose|k: int| 0 <= k < c.len() && c[k] == a;
    assert(w[k] == a);
    lemma_filter_from(jobs, p, k);
}

/// What a filter keeps meets its condition and was there before.
pub proof fn lemma_filter_from<T>(s: Seq<T>, p: spec_fn(T) -> bool, k: int)
    requires
        0 <= k < s.filter(p).len(),
    ensures
        p(s.filter(p)[k]),
        exists|i: int| 0 <= i < s.len() && #[trigger] s[i] == s.filter(p)[k],
    decreases s.len(),
{
    reveal(Seq::filter);
    if s.len() > 0 {
        let d = s.drop_last();
        if k < d.filter(p).len() {
            lemma_filter_from(d, p, k);
            let i = choose|i: int| 0 <= i < d.len() && #[trigger] d[i] == d.filter(p)[k];
            assert(s[i] == d[i]);
        } else {
            assert(s[s.len() - 1] == s.filter(p)[k]);
        }
    }
}

/// Jobs that were claimed and never finished are pending again after they were
/// put back.
pub proof fn law_claimed_comes_back(jobs: Seq<JobModel>, limit: int, i: int)
    requires
        0 <= i < jobs.len(),
        claimed(jobs, limit).contains(jobs[i]),
    ensures
        reprocessed(after_claim(jobs, limit))[i] == (JobModel { error: None, ..jobs[i] }),
{
    lemma_claimed_from(jobs, limit, jobs[i]);
}

/// A job for which recognition succeeded needs none, and one that failed for
/// the last of its tries is not tried again.
pub proof fn law_ocr_ends(
    j: JobModel,
    success: bool,
    ocr_error: Option<Seq<char>>,
    max_retries: u32,
    now: i64,
)
    requires
        j.ocr_attempts < i64::MAX,
        success || j.ocr_attempts + 1 >= max_retries,
    ensures
        !is_wanted(Wanted::Ocr(max_retries), ocr_tried(j, success, ocr_error, max_retries, now)),
        success ==> ocr_tried(j, success, ocr_error, max_retries, now).failed_ocr is None,
        !success ==> ocr_tried(j, success, ocr_error, max_retries, now).failed_ocr == Some(now),
{
}

/// Putting a file with the checksum that it has into the table changes
/// nothing, whatever became of its job.
pub proof fn law_upsert_again(t: Table, path: Seq<char>, checksum: Seq<char>)
    requires
        has_path(t.jobs, path),
        job_for(t.jobs, path).checksum == checksum,
    ensures
        upserted(t, path, checksum) == t,
{
}

/// Files keep their jobs: putting files into the table takes none away and
/// changes neither ids nor paths of those that are there.
pub proof fn law_queue_keeps_jobs(t: Table, files: Seq<FileModel>)
    ensures
        t.jobs.len() <= all_queued(t, files).jobs.len(),
        forall|i: int|
            0 <= i < t.jobs.len() ==> (#[trigger] all_queued(t, files).jobs[i]).id == t.jobs[i].id
                && all_queued(t, files).jobs[i].path == t.jobs[i].path,
    decreases files.len(),
{
    if files.len() > 0 {
        let u = all_queued(t, files.drop_last());
        law_queue_keeps_jobs(t, files.drop_last());
        assert forall|i: int| 0 <= i < t.jobs.len() implies (#[trigger] all_queued(
            t,
            files,
        ).jobs[i]).id == t.jobs[i].id && all_queued(t, files).jobs[i].path == t.jobs[i].path by {
            assert(u.jobs[i].id == t.jobs[i].id);
        }
    }
}

/// Whether an index is among others.
spec fn among(idx: Seq<usize>, i: int) -> bool {
    exists|m: int| 0 <= m < idx.len() && #[trigger] idx[m] == i
}

/// Whether items hold an id with its flag set.
pub open spec fn flagged(items: Seq<(i64, bool, Seq<char>)>, id: i64) -> bool {
    exists|k: int| 0 <= k < items.len() && (#[trigger] items[k]).0 == id && items[k].1
}

/// The checksum of the last item for an id.
pub open spec fn last_checksum(items: Seq<(i64, bool, Seq<char>)>, id: i64) -> Option<Seq<char>>
    decreases items.len(),
{
    if items.len() == 0 {
        None
    } else if items.last().0 == id {
        Some(items.last().2)
    } else {
        last_checksum(items.drop_last(), id)
    }
}

/// What items say: an id, a flag and a checksum each.
pub open spec fn done_items(items: Seq<(i64, bool, String)>) -> Seq<(i64, bool, Seq<char>)> {
    items.map_values(|x: (i64, bool, String)| (x.0, x.1, x.2@))
}

/// Whether `items` hold an id with its flag set.
fn is_flagged(items: &[(i64, bool, String)], id: i64) -> (b: bool)
    ensures
        b == flagged(done_items(items@), id),
{
    let ghost all = done_items(items@);
    let mut i: usize = 0;
    while i < items.len()
        invariant
            i <= items@.len(),
            all == done_items(items@),
            forall|k: int| 0 <= k < i ==> !((#[trigger] all[k]).0 == id && all[k].1),
        decreases items@.len() - i,
    {
        assert(all[i as int].0 == items@[i as int].0);
        if items[i].0 == id && items[i].1 {
            return true;
        }
        i += 1;
    }
    false
}

/// The index of the last item for an id.
fn last_item(items: &[(i64, bool, String)], id: i64) -> (r: Option<usize>)
    ensures
        match r {
            Some(k) => k < items@.len() && last_checksum(done_items(items@), id) == Some(
                items@[k as int].2@,
            ),
            None => last_checksum(done_items(items@), id) is None,
        },
{
    let ghost all = done_items(items@);
    let mut i: usize = items.len();
    assert(all.take(i as int) =~= all);
    while i > 0
        invariant
            i <= items@.len(),
            all == done_items(items@),
            last_checksum(all, id) == last_checksum(all.take(i as int), id),
        decreases i,
    {
        i -= 1;
        proof {
            assert(all.take(i + 1).drop_last() =~= all.take(i as int));
            assert(all.take(i + 1).last() == all[i as int]);
            assert(all[i as int].0 == items@[i as int].0);
        }
        if items[i].0 == id {
            return Some(i);
        }
    }
    None
}

/// A job after jobs were marked as done.
pub open spec fn done_by(j: JobModel, items: Seq<(i64, bool, Seq<char>)>) -> JobModel {
    match last_checksum(items, j.id) {
        Some(checksum) => JobModel {
            status: JobStatus::Done,
            ocr_flag: flagged(items, j.id),
            checksum,
            ..j
        },
        None => j,
    }
}

/// The jobs after some were marked as done.
pub open spec fn after_done(
    jobs: Seq<JobModel>,
    items: Seq<(i64, bool, Seq<char>)>,
) -> Seq<JobModel> {
    jobs.map_values(|j: JobModel| done_by(j, items))
}

/// A job after those that were being extracted were put back.
pub open spec fn reprocessed_job(j: JobModel) -> JobModel {
    if j.status == JobStatus::Extracting {
        JobModel { status: JobStatus::Pending, error: None, ..j }
    } else {
        j
    }
}

/// The jobs after those that were being extracted were put back.
pub open spec fn reprocessed(jobs: Seq<JobModel>) -> Seq<JobModel> {
    jobs.map_values(|j: JobModel| reprocessed_job(j))
}

/// A job after recognition of characters was tried. It is given up where it
/// failed for the last of the tries.
pub open spec fn ocr_tried(
    j: JobModel,
    success: bool,
    ocr_error: Option<Seq<char>>,
    max_retries: u32,
    now: i64,
) -> JobModel {
    let attempts = (j.ocr_attempts + 1) as i64;
    if success {
        JobModel { ocr_attempts: attempts, ocr_flag: false, ocr_error: None, failed_ocr: None, ..j }
    } else {
        JobModel {
            ocr_attempts: attempts,
            ocr_error,
            failed_ocr: if attempts >= max_retries {
                Some(now)
            } else {
                None
            },
            ..j
        }
    }
}

/// What ids, paths, checksums and flags say.
pub open spec fn quads(v: Seq<(i64, String, String, bool)>) -> Seq<
    (i64, Seq<char>, Seq<char>, bool),
> {
    v.map_values(|t: (i64, String, String, bool)| (t.0, t.1@, t.2@, t.3))
}

proof fn lemma_filter_len<T>(s: Seq<T>, p: spec_fn(T) -> bool)
    ensures
        s.filter(p).len() <= s.len(),
    decreases s.len(),
{
    reveal(Seq::filter);
    if s.len() > 0 {
        lemma_filter_len(s.drop_last(), p);
    }
}

proof fn lemma_table_len(jobs: Seq<JobModel>, last: int)
    requires
        table_ok(jobs, last),
        last >= 0,
    ensures
        jobs.len() <= last,
    decreases jobs.len(),
{
    if jobs.len() > 0 {
        let d = jobs.drop_last();
        let top = jobs.last().id - 1;
        assert(forall|i: int| 0 <= i < d.len() ==> (#[trigger] d[i]) == jobs[i]);
        assert(table_ok(d, top));
        lemma_table_len(d, top);
    }
}

// ---------------------------------------------------------------------------
// What each operation does to a job
// ---------------------------------------------------------------------------

/// A claim takes the pending jobs that came first, as many as the limit says
/// and no more; they are then being extracted. Nothing else of them changes,
/// and nothing of other jobs.
pub proof fn law_claim(jobs: Seq<JobModel>, last: int, limit: int)
    requires
        table_ok(jobs, last),
    ensures
        ({
            let pending = jobs.filter(|j: JobModel| j.status == JobStatus::Pending);
            let got = claimed(jobs, limit);
            &&& got.len() <= pending.len()
            &&& got == pending.take(got.len() as int)
            &&& limit >= 0 ==> got.len() <= limit
            &&& limit < 0 ==> got.len() == 0
            &&& got.len() < limit ==> got.len() == pending.len()
            &&& after_claim(jobs, limit).len() == jobs.len()
            &&& forall|i: int|
                #![trigger jobs[i]]
                0 <= i < jobs.len() ==> after_claim(jobs, limit)[i] == if got.contains(jobs[i]) {
                    JobModel { status: JobStatus::Extracting, ..jobs[i] }
                } else {
                    jobs[i]
                }
        }),
{
    let a = |j: JobModel| is_wanted(Wanted::Status(JobStatus::Pending), j);
    let b = |j: JobModel| j.status == JobStatus::Pending;
    crate::text::lemma_filter_same(jobs, a, b);
    let pending = jobs.filter(b);
    let got = claimed(jobs, limit);
    assert(pending.take(pending.len() as int) =~= pending);
    assert(got =~= pending.take(got.len() as int));
}

/// The jobs that wait for the recognition of characters are those that are
/// done, are marked for it, and in which it was tried fewer times than allowed.
/// They come in the order of the table.
pub proof fn law_wanted_for_recognition(jobs: Seq<JobModel>, max_retries: u32, limit: int)
    ensures
        ({
            let waiting = jobs.filter(
                |j: JobModel|
                    j.ocr_flag && j.ocr_attempts < max_retries && j.status == JobStatus::Done,
            );
            let got = first_of(wanted(jobs, Wanted::Ocr(max_retries)), limit);
            &&& wanted(jobs, Wanted::Ocr(max_retries)) == waiting
            &&& got.len() <= waiting.len()
            &&& got == waiting.take(got.len() as int)
            &&& limit >= 0 ==> got.len() <= limit
            &&& limit < 0 ==> got.len() == 0
            &&& got.len() < limit ==> got == waiting
        }),
{
    let a = |j: JobModel| is_wanted(Wanted::Ocr(max_retries), j);
    let b = |j: JobModel|
        j.ocr_flag && j.ocr_attempts < max_retries && j.status == JobStatus::Done;
    crate::text::lemma_filter_same(jobs, a, b);
    let waiting = jobs.filter(b);
    let got = first_of(waiting, limit);
    assert(waiting.take(waiting.len() as int) =~= waiting);
    assert(got =~= waiting.take(got.len() as int));
}

/// The jobs with a status come in the order of the table, all of them where
/// the limit allows it.
pub proof fn law_wanted_with_status(jobs: Seq<JobModel>, status: JobStatus, limit: int)
    ensures
        wanted(jobs, Wanted::Status(status)) == jobs.filter(|j: JobModel| j.status == status),
        limit >= wanted(jobs, Wanted::Status(status)).len() ==> first_of(
            wanted(jobs, Wanted::Status(status)),
            limit,
        ) == jobs.filter(|j: JobModel| j.status == status),
        0 <= limit <= wanted(jobs, Wanted::Status(status)).len() ==> first_of(
            wanted(jobs, Wanted::Status(status)),
            limit,
        ) == jobs.filter(|j: JobModel| j.status == status).take(limit),
{
    let a = |j: JobModel| is_wanted(Wanted::Status(status), j);
    let b = |j: JobModel| j.status == status;
    crate::text::lemma_filter_same(jobs, a, b);
    let all = jobs.filter(b);
    assert(all.take(all.len() as int) =~= all);
    assert(all.take(0) =~= Seq::empty());
    if all.len() == 0 {
        assert(all =~= Seq::empty());
    }
}

/// What is handed out of jobs are their ids, paths and checksums, one for one.
pub proof fn law_keys_of_jobs(jobs: Seq<JobModel>, v: Seq<(i64, String, String)>)
    requires
        triples(v) == keys(jobs),
    ensures
        v.len() == jobs.len(),
        forall|k: int|
            0 <= k < jobs.len() ==> (#[trigger] v[k]).0 == jobs[k].id && v[k].1@ == jobs[k].path
                && v[k].2@ == jobs[k].checksum,
{
    assert(triples(v).len() == v.len());
    assert(keys(jobs).len() == jobs.len());
    assert forall|k: int| 0 <= k < jobs.len() implies (#[trigger] v[k]).0 == jobs[k].id && v[k].1@
        == jobs[k].path && v[k].2@ == jobs[k].checksum by {
        assert(triples(v)[k] == (v[k].0, v[k].1@, v[k].2@));
        assert(keys(jobs)[k] == key(jobs[k]));
    }
}

/// A change of the job with an id, or with a path, is a change of that job
/// alone.
pub proof fn law_one_job_changes(
    jobs: Seq<JobModel>,
    id: i64,
    path: Seq<char>,
    f: spec_fn(JobModel) -> JobModel,
    i: int,
)
    requires
        0 <= i < jobs.len(),
    ensures
        with_job(jobs, id, f).len() == jobs.len(),
        jobs[i].id == id ==> with_job(jobs, id, f)[i] == f(jobs[i]),
        jobs[i].id != id ==> with_job(jobs, id, f)[i] == jobs[i],
        with_path(jobs, path, f).len() == jobs.len(),
        jobs[i].path == path ==> with_path(jobs, path, f)[i] == f(jobs[i]),
        jobs[i].path != path ==> with_path(jobs, path, f)[i] == jobs[i],
{
}

/// Whether a job was just added for a path: it is pending, nothing was tried,
/// and nothing is known of it but what is given.
pub open spec fn is_fresh_job(
    j: JobModel,
    id: int,
    path: Seq<char>,
    checksum: Seq<char>,
    modified: Option<u64>,
    size: Option<u64>,
) -> bool {
    &&& j.id == id
    &&& j.path == path
    &&& j.checksum == checksum
    &&& j.status == JobStatus::Pending
    &&& !j.ocr_flag
    &&& j.error is None
    &&& j.ocr_attempts == 0
    &&& j.ocr_error is None
    &&& j.failed_ocr is None
    &&& j.language is None
    &&& j.file_modified == modified
    &&& j.file_size == size
}

/// Whether a job waits again as it did at first: it is pending, without error
/// and without the mark for recognition, and keeps its id, its path, its
/// language and what is known of the recognition.
pub open spec fn is_requeued_job(j: JobModel, before: JobModel) -> bool {
    &&& j.status == JobStatus::Pending
    &&& !j.ocr_flag
    &&& j.error is None
    &&& j.id == before.id
    &&& j.path == before.path
    &&& j.ocr_attempts == before.ocr_attempts
    &&& j.ocr_error == before.ocr_error
    &&& j.failed_ocr == before.failed_ocr
    &&& j.language == before.language
}

proof fn lemma_only_job(jobs: Seq<JobModel>, last: int, i: int)
    requires
        table_ok(jobs, last),
        0 <= i < jobs.len(),
    ensures
        has_path(jobs, jobs[i].path),
        job_for(jobs, jobs[i].path) == jobs[i],
{
    let k = choose|k: int| 0 <= k < jobs.len() && (#[trigger] jobs[k]).path == jobs[i].path;
    assert(jobs[i].path == jobs[i].path);
    if k < i {
        assert(jobs[k].path != jobs[i].path);
    } else if i < k {
        assert(jobs[i].path != jobs[k].path);
    }
}

/// A file with a path that no job has gets a job with the next id behind all
/// others. The job of a file whose checksum changed waits again, with the new
/// checksum; with the same checksum it stays as it is. Other jobs stay.
pub proof fn law_upserted(t: Table, path: Seq<char>, checksum: Seq<char>)
    requires
        table_ok(t.jobs, t.last),
        0 <= t.last < i64::MAX,
    ensures
        ({
            let r = upserted(t, path, checksum);
            &&& forall|i: int|
                0 <= i < t.jobs.len() && t.jobs[i].path != path ==> #[trigger] r.jobs[i]
                    == t.jobs[i]
            &&& forall|i: int|
                0 <= i < t.jobs.len() && t.jobs[i].path == path ==> {
                    let j = #[trigger] r.jobs[i];
                    &&& r.jobs.len() == t.jobs.len()
                    &&& r.last == t.last
                    &&& j.checksum == checksum
                    &&& t.jobs[i].checksum == checksum ==> j == t.jobs[i]
                    &&& t.jobs[i].checksum != checksum ==> is_requeued_job(j, t.jobs[i])
                        && j.file_modified == t.jobs[i].file_modified && j.file_size
                        == t.jobs[i].file_size
                }
            &&& (forall|i: int| 0 <= i < t.jobs.len() ==> (#[trigger] t.jobs[i]).path != path) ==> {
                &&& r.jobs.len() == t.jobs.len() + 1
                &&& r.last == t.last + 1
                &&& is_fresh_job(r.jobs.last(), t.last + 1, path, checksum, None, None)
            }
        }),
{
    let r = upserted(t, path, checksum);
    assert forall|i: int| 0 <= i < t.jobs.len() && t.jobs[i].path == path implies {
        let j = #[trigger] r.jobs[i];
        &&& r.jobs.len() == t.jobs.len()
        &&& r.last == t.last
        &&& j.checksum == checksum
        &&& t.jobs[i].checksum == checksum ==> j == t.jobs[i]
        &&& t.jobs[i].checksum != checksum ==> is_requeued_job(j, t.jobs[i]) && j.file_modified
            == t.jobs[i].file_modified && j.file_size == t.jobs[i].file_size
    } by {
        lemma_only_job(t.jobs, t.last, i);
    }
}

/// Queueing a file makes its job wait again, whatever became of it before, and
/// keeps its checksum; a file without a job gets one with the next id, without
/// a checksum. Where the time and the size of the file are given, the job has
/// them. Other jobs stay.
pub proof fn law_queued(t: Table, f: FileModel)
    requires
        table_ok(t.jobs, t.last),
        0 <= t.last < i64::MAX,
    ensures
        ({
            let r = queued(t, f.0);
            let w = queued_with(t, f);
            &&& forall|i: int|
                #![trigger t.jobs[i]]
                0 <= i < t.jobs.len() && t.jobs[i].path != f.0 ==> r.jobs[i] == t.jobs[i]
                    && w.jobs[i] == t.jobs[i]
            &&& forall|i: int|
                #![trigger t.jobs[i]]
                0 <= i < t.jobs.len() && t.jobs[i].path == f.0 ==> {
                    &&& r.jobs.len() == t.jobs.len() == w.jobs.len()
                    &&& r.last == t.last == w.last
                    &&& is_requeued_job(r.jobs[i], t.jobs[i])
                    &&& r.jobs[i].checksum == t.jobs[i].checksum
                    &&& r.jobs[i].file_modified == t.jobs[i].file_modified
                    &&& r.jobs[i].file_size == t.jobs[i].file_size
                    &&& is_requeued_job(w.jobs[i], t.jobs[i])
                    &&& w.jobs[i].checksum == t.jobs[i].checksum
                    &&& w.jobs[i].file_modified == Some(f.1)
                    &&& w.jobs[i].file_size == Some(f.2)
                }
            &&& (forall|i: int| 0 <= i < t.jobs.len() ==> (#[trigger] t.jobs[i]).path != f.0) ==> {
                &&& r.jobs.len() == t.jobs.len() + 1 == w.jobs.len()
                &&& r.last == t.last + 1 == w.last
                &&& is_fresh_job(r.jobs.last(), t.last + 1, f.0, Seq::empty(), None, None)
                &&& is_fresh_job(
                    w.jobs.last(),
                    t.last + 1,
                    f.0,
                    Seq::empty(),
                    Some(f.1),
                    Some(f.2),
                )
            }
        }),
{
    reveal_strlit("");
    assert(""@ =~= Seq::<char>::empty());
    let r = queued(t, f.0);
    let w = queued_with(t, f);
    assert forall|i: int|
        #![trigger t.jobs[i]]
        0 <= i < t.jobs.len() && t.jobs[i].path == f.0 implies has_path(t.jobs, f.0) by {}
}

/// A batch of jobs that are done changes the jobs with the ids in it and no
/// others: they are done, they have the checksum given last for their id, and
/// they are marked for recognition where some entry for their id says so.
/// Nothing else of them changes.
pub proof fn law_batch_done(
    jobs: Seq<JobModel>,
    items: Seq<(i64, bool, Seq<char>)>,
    i: int,
    k: int,
)
    requires
        0 <= i < jobs.len(),
    ensures
        after_done(jobs, items).len() == jobs.len(),
        (forall|n: int| 0 <= n < items.len() ==> (#[trigger] items[n]).0 != jobs[i].id)
            ==> after_done(jobs, items)[i] == jobs[i],
        0 <= k < items.len() && items[k].0 == jobs[i].id && (forall|n: int|
            k < n < items.len() ==> (#[trigger] items[n]).0 != jobs[i].id) ==> after_done(
            jobs,
            items,
        )[i] == (JobModel {
            status: JobStatus::Done,
            checksum: items[k].2,
            ocr_flag: exists|n: int|
                0 <= n < items.len() && (#[trigger] items[n]).0 == jobs[i].id && items[n].1,
            ..jobs[i]
        }),
{
    lemma_last_checksum(items, jobs[i].id, k);
}

proof fn lemma_last_checksum(items: Seq<(i64, bool, Seq<char>)>, id: i64, k: int)
    ensures
        (forall|n: int| 0 <= n < items.len() ==> (#[trigger] items[n]).0 != id) ==> last_checksum(
            items,
            id,
        ) is None,
        0 <= k < items.len() && items[k].0 == id && (forall|n: int|
            k < n < items.len() ==> (#[trigger] items[n]).0 != id) ==> last_checksum(items, id)
            == Some(items[k].2),
    decreases items.len(),
{
    if items.len() > 0 {
        let d = items.drop_last();
        lemma_last_checksum(d, id, k);
        assert(items[items.len() - 1] == items.last());
        if forall|n: int| 0 <= n < items.len() ==> (#[trigger] items[n]).0 != id {
            assert forall|n: int| 0 <= n < d.len() implies (#[trigger] d[n]).0 != id by {
                assert(items[n] == d[n]);
            }
        }
        if 0 <= k < d.len() && items[k].0 == id && (forall|n: int|
            k < n < items.len() ==> (#[trigger] items[n]).0 != id) {
            assert forall|n: int| k < n < d.len() implies (#[trigger] d[n]).0 != id by {
                assert(items[n] == d[n]);
            }
        }
    }
}

/// After a crash the jobs that were being extracted are pending again, without
/// an error; no other job changes, and nothing else of these does.
pub proof fn law_reprocessed(jobs: Seq<JobModel>, i: int)
    requires
        0 <= i < jobs.len(),
    ensures
        reprocessed(jobs).len() == jobs.len(),
        jobs[i].status != JobStatus::Extracting ==> reprocessed(jobs)[i] == jobs[i],
        jobs[i].status == JobStatus::Extracting ==> reprocessed(jobs)[i].status
            == JobStatus::Pending && reprocessed(jobs)[i].error is None && (JobModel {
            status: jobs[i].status,
            error: jobs[i].error,
            ..reprocessed(jobs)[i]
        }) == jobs[i],
{
}

/// Each try to recognise characters counts as one. One that succeeds takes the
/// mark, the error and the time of failure away. One that fails keeps the mark
/// and has its error, and the time of failure from the last try that is
/// allowed on. Status, path, checksum and what is known of the file stay.
pub proof fn law_recognition_tried(
    j: JobModel,
    success: bool,
    ocr_error: Option<Seq<char>>,
    max_retries: u32,
    now: i64,
)
    requires
        j.ocr_attempts < i64::MAX,
    ensures
        ({
            let r = ocr_tried(j, success, ocr_error, max_retries, now);
            &&& r.ocr_attempts == j.ocr_attempts + 1
            &&& r.ocr_flag == (j.ocr_flag && !success)
            &&& r.ocr_error == if success { None } else { ocr_error }
            &&& r.failed_ocr == if !success && j.ocr_attempts + 1 >= max_retries {
                Some(now)
            } else {
                None
            }
            &&& r.id == j.id && r.path == j.path && r.checksum == j.checksum && r.status
                == j.status && r.error == j.error && r.language == j.language && r.file_modified
                == j.file_modified && r.file_size == j.file_size
        }),
{
}

/// What is told of a file is its path, its time, its size and the status of
/// its job, with zero for what is not known.
pub proof fn law_metadata(j: JobModel)
    ensures
        metadata(j).0 == j.path,
        j.file_modified == Some(metadata(j).1) || (j.file_modified is None && metadata(j).1 == 0),
        j.file_size == Some(metadata(j).2) || (j.file_size is None && metadata(j).2 == 0),
        metadata(j).3 == j.status,
{
}

/// What is told of a job with an error: its id, path and status, one where it
/// is marked for recognition and zero where it is not, and the error.
pub proof fn law_errored(j: JobModel)
    ensures
        errored(j).0 == j.id,
        errored(j).1 == j.path,
        errored(j).2 == status_name(j.status),
        j.ocr_flag <==> errored(j).3 == 1,
        !j.ocr_flag <==> errored(j).3 == 0,
        errored(j).4 == j.error,
{
}

proof fn lemma_failure_place(s: Seq<JobModel>, time: int)
    ensures
        failure_place(s, time) <= s.len(),
        failure_place(s, time) > 0 ==> given_up(s[failure_place(s, time) - 1]) >= time,
        forall|i: int| failure_place(s, time) <= i < s.len() ==> given_up(#[trigger] s[i]) < time,
    decreases s.len(),
{
    if s.len() > 0 && given_up(s.last()) < time {
        let d = s.drop_last();
        lemma_failure_place(d, time);
        assert forall|i: int| failure_place(s, time) <= i < s.len() implies given_up(
            #[trigger] s[i],
        ) < time by {
            if i < d.len() {
                assert(d[i] == s[i]);
            }
        }
    }
}

proof fn lemma_newest_first(s: Seq<JobModel>)
    ensures
        newest_first(s).to_multiset() == s.to_multiset(),
        newest_first(s).len() == s.len(),
        forall|i: int, j: int|
            0 <= i <= j < s.len() ==> given_up(#[trigger] newest_first(s)[i]) >= given_up(
                #[trigger] newest_first(s)[j],
            ),
    decreases s.len(),
{
    if s.len() > 0 {
        let d = s.drop_last();
        lemma_newest_first(d);
        let front = newest_first(d);
        let x = s.last();
        lemma_failure_place(front, given_up(x));
        let at = failure_place(front, given_up(x)) as int;
        let r = front.insert(at, x);
        front.insert_ensures(at, x);
        vstd::seq_lib::to_multiset_insert(front, at, x);
        vstd::seq_lib::to_multiset_build(d, x);
        assert(d.push(x) =~= s);
        assert(r.to_multiset() =~= s.to_multiset());
        assert forall|i: int, j: int| 0 <= i <= j < r.len() implies given_up(#[trigger] r[i])
            >= given_up(#[trigger] r[j]) by {
            let fi = if i < at {
                i
            } else {
                i - 1
            };
            let fj = if j < at {
                j
            } else {
                j - 1
            };
            if i != at {
                assert(r[i] == front[fi]);
            }
            if j != at {
                assert(r[j] == front[fj]);
            }
        }
    }
}

/// The jobs in which recognition was given up are all those that have a time
/// of failure, each once; the one given up last comes first.
pub proof fn law_failed_jobs(jobs: Seq<JobModel>)
    ensures
        failed_jobs(jobs).to_multiset() == jobs.filter(
            |j: JobModel| j.failed_ocr is Some,
        ).to_multiset(),
        forall|i: int, j: int|
            0 <= i <= j < failed_jobs(jobs).len() ==> given_up(#[trigger] failed_jobs(jobs)[i])
                >= given_up(#[trigger] failed_jobs(jobs)[j]),
        forall|j: JobModel|
            j.failed_ocr is Some ==> #[trigger] given_up(j) == j.failed_ocr->0,
{
    lemma_newest_first(jobs.filter(|j: JobModel| j.failed_ocr is Some));
}

/// Whether nothing of a job differs but its status, its mark for recognition
/// and its error.
pub open spec fn is_same_file(a: JobModel, b: JobModel) -> bool {
    &&& a.id == b.id
    &&& a.path == b.path
    &&& a.checksum == b.checksum
    &&& a.ocr_attempts == b.ocr_attempts
    &&& a.ocr_error == b.ocr_error
    &&& a.failed_ocr == b.failed_ocr
    &&& a.language == b.language
    &&& a.file_modified == b.file_modified
    &&& a.file_size == b.file_size
}

/// Marking a job as done, or as extracted, sets its status and its mark for
/// recognition; marking it as failed sets its status and its error. Nothing
/// else of it changes, and nothing of other jobs.
pub proof fn law_marked_jobs()
    ensures
        forall|s: &mut JobStore, id: i64, flag: bool, i: int|
            #![trigger call_ensures(JobStore::mark_done, (s, id, flag), ()), s.jobs()[i]]
            call_ensures(JobStore::mark_done, (s, id, flag), ()) && 0 <= i < s.jobs().len() ==> {
                let j = final(s).jobs()[i];
                &&& final(s).jobs().len() == s.jobs().len()
                &&& s.jobs()[i].id != id ==> j == s.jobs()[i]
                &&& s.jobs()[i].id == id ==> j.status == JobStatus::Done && j.ocr_flag == flag
                    && j.error == s.jobs()[i].error && is_same_file(j, s.jobs()[i])
            },
        forall|s: &mut JobStore, id: i64, flag: bool, i: int|
            #![trigger call_ensures(JobStore::mark_extracted, (s, id, flag), ()), s.jobs()[i]]
            call_ensures(JobStore::mark_extracted, (s, id, flag), ()) && 0 <= i < s.jobs().len()
                ==> {
                let j = final(s).jobs()[i];
                &&& final(s).jobs().len() == s.jobs().len()
                &&& s.jobs()[i].id != id ==> j == s.jobs()[i]
                &&& s.jobs()[i].id == id ==> j.status == JobStatus::Extracted && j.ocr_flag == flag
                    && j.error == s.jobs()[i].error && is_same_file(j, s.jobs()[i])
            },
        forall|s: &mut JobStore, id: i64, message: &str, i: int|
            #![trigger call_ensures(JobStore::mark_error, (s, id, message), ()), s.jobs()[i]]
            call_ensures(JobStore::mark_error, (s, id, message), ()) && 0 <= i < s.jobs().len()
                ==> {
                let j = final(s).jobs()[i];
                &&& final(s).jobs().len() == s.jobs().len()
                &&& s.jobs()[i].id != id ==> j == s.jobs()[i]
                &&& s.jobs()[i].id == id ==> j.status == JobStatus::Error && j.error == Some(
                    message@,
                ) && j.ocr_flag == s.jobs()[i].ocr_flag && is_same_file(j, s.jobs()[i])
            },
{
}

} // verus!
