//! The decisions of the indexer: when a batch is flushed, when the index is
//! committed, and which jobs are then done.
//!
//! The index is committed before jobs are marked as done. A crash between the
//! two makes files be read again; it never loses them.

use vstd::prelude::*;

use crate::extractor::WordPosition;
use crate::indexer::{align_offsets_to_tantivy, placed};
use crate::output::DocumentRecord;
use crate::text::lemma_filter_source;

verus! {

/// A job whose document was added to the index.
#[derive(Debug)]
pub struct DoneJob {
    pub id: i64,
    pub ocr_flag: bool,
    pub checksum: String,
}

/// Whether `job` is the job of `record`.
pub open spec fn is_done_job(job: DoneJob, record: DocumentRecord) -> bool {
    &&& job.id == record.id
    &&& job.ocr_flag == record.ocr_flag
    &&& job.checksum@ == record.checksum@
}

/// The records of a batch that were added.
pub open spec fn added_records(
    batch: Seq<DocumentRecord>,
    added: Seq<bool>,
) -> Seq<DocumentRecord>
    decreases batch.len(),
{
    if batch.len() == 0 {
        Seq::empty()
    } else if added[batch.len() - 1] {
        added_records(batch.drop_last(), added).push(batch.last())
    } else {
        added_records(batch.drop_last(), added)
    }
}

/// The indices of the records of a batch that were added and have word
/// positions.
pub open spec fn aligned_records(batch: Seq<DocumentRecord>, added: Seq<bool>) -> Seq<usize>
    decreases batch.len(),
{
    if batch.len() == 0 {
        Seq::empty()
    } else if added[batch.len() - 1] && batch.last().word_positions@.len() > 0 {
        aligned_records(batch.drop_last(), added).push((batch.len() - 1) as usize)
    } else {
        aligned_records(batch.drop_last(), added)
    }
}

/// Whether `jobs` are the jobs of `records`.
pub open spec fn are_done_jobs(jobs: Seq<DoneJob>, records: Seq<DocumentRecord>) -> bool {
    &&& jobs.len() == records.len()
    &&& forall|i: int| 0 <= i < jobs.len() ==> is_done_job(#[trigger] jobs[i], records[i])
}

/// What follows from the flush of a batch.
pub struct Flushed {
    /// The jobs whose documents were added.
    pub done: Vec<DoneJob>,
    /// The records whose words get their places.
    pub to_align: Vec<usize>,
}

/// Settles a batch of which `added` says what was added to the index. A
/// record that was not added is neither done nor gets places.
pub fn settle_batch(batch: &Vec<DocumentRecord>, added: &Vec<bool>) -> (f: Flushed)
    requires
        added@.len() == batch@.len(),
    ensures
        are_done_jobs(f.done@, added_records(batch@, added@)),
        f.to_align@ == aligned_records(batch@, added@),
{
    let mut done: Vec<DoneJob> = Vec::new();
    let mut to_align: Vec<usize> = Vec::new();
    let mut i: usize = 0;
    assert(batch@.take(0) =~= Seq::empty());
    while i < batch.len()
        invariant
            i <= batch@.len() == added@.len(),
            are_done_jobs(done@, added_records(batch@.take(i as int), added@)),
            to_align@ == aligned_records(batch@.take(i as int), added@),
        decreases batch@.len() - i,
    {
        proof {
            assert(batch@.take(i + 1).drop_last() =~= batch@.take(i as int));
            assert(batch@.take(i + 1).last() == batch@[i as int]);
        }
        if added[i] {
            done.push(
                DoneJob {
                    id: batch[i].id,
                    ocr_flag: batch[i].ocr_flag,
                    checksum: batch[i].checksum.clone(),
                },
            );
            if batch[i].word_positions.len() > 0 {
                to_align.push(i);
            }
        }
        i += 1;
    }
    assert(batch@.take(i as int) =~= batch@);
    Flushed { done, to_align }
}

/// The words of a record that are stored with their places: one place after
/// the other, words without text left out, and nothing at all where no word is
/// left.
pub fn words_to_store<'a>(record: &'a DocumentRecord) -> (r: Option<
    (i64, Vec<(usize, &'a WordPosition)>),
>)
    ensures
        match r {
            Some((id, words)) => {
                let kept = placed(record.word_positions@);
                &&& id == record.id
                &&& words@.len() == kept.len() > 0
                &&& forall|i: int|
                    0 <= i < words@.len() ==> (#[trigger] words@[i]).0 == i && *words@[i].1
                        == kept[i]
            },
            None => placed(record.word_positions@).len() == 0,
        },
{
    let words = align_offsets_to_tantivy(
        record.text.as_str(),
        record.word_positions.as_slice(),
    );
    if words.len() == 0 {
        None
    } else {
        Some((record.id, words))
    }
}

/// What happens to an indexer: jobs are added, or a commit is tried.
pub enum IndexerEvent {
    Added(Seq<DoneJob>),
    Commit(bool),
}

/// The jobs that wait for a commit after an event, where `waiting` waited
/// before it.
pub open spec fn waiting_after(waiting: Seq<DoneJob>, event: IndexerEvent) -> Seq<DoneJob> {
    match event {
        IndexerEvent::Added(jobs) => waiting + jobs,
        IndexerEvent::Commit(true) => Seq::empty(),
        IndexerEvent::Commit(false) => waiting,
    }
}

/// The jobs that an event makes be marked as done.
pub open spec fn marked_by(waiting: Seq<DoneJob>, event: IndexerEvent) -> Seq<DoneJob> {
    match event {
        IndexerEvent::Commit(true) => waiting,
        _ => Seq::empty(),
    }
}

/// The state of the indexer.
pub struct IndexerState {
    /// Records that wait for a flush.
    pub buf: Vec<DocumentRecord>,
    /// Jobs that were added since the last commit.
    pub done: Vec<DoneJob>,
    /// Documents of full batches since the last commit.
    pub doc_count: u64,
    pub batch_size: usize,
    pub commit_interval: u64,
    /// Seconds after which a commit is due.
    pub commit_timeout: u64,
}

/// The nanoseconds of a second.
pub const NANOS_PER_SEC: u128 = 1_000_000_000;

impl IndexerState {
    /// An indexer that has seen nothing.
    pub fn new(batch_size: usize, commit_interval: u64, commit_timeout: u64) -> (s: Self)
        ensures
            s.buf@.len() == 0,
            s.done@.len() == 0,
            s.doc_count == 0,
            s.batch_size == batch_size,
            s.commit_interval == commit_interval,
            s.commit_timeout == commit_timeout,
    {
        IndexerState {
            buf: Vec::new(),
            done: Vec::new(),
            doc_count: 0,
            batch_size,
            commit_interval,
            commit_timeout,
        }
    }

    /// Whether nothing but the buffer differs.
    pub open spec fn same_but_buf(self, other: Self) -> bool {
        &&& self.done == other.done
        &&& self.doc_count == other.doc_count
        &&& self.batch_size == other.batch_size
        &&& self.commit_interval == other.commit_interval
        &&& self.commit_timeout == other.commit_timeout
    }

    /// A record arrived. A full buffer is flushed as one batch.
    pub fn on_record(&mut self, record: DocumentRecord) -> (batch: Option<Vec<DocumentRecord>>)
        ensures
            final(self).same_but_buf(*old(self)),
            match batch {
                Some(b) => {
                    &&& old(self).buf@.len() + 1 >= old(self).batch_size
                    &&& b@ == old(self).buf@.push(record)
                    &&& final(self).buf@.len() == 0
                },
                None => {
                    &&& old(self).buf@.len() + 1 < old(self).batch_size
                    &&& final(self).buf@ == old(self).buf@.push(record)
                },
            },
    {
        self.buf.push(record);
        if self.buf.len() >= self.batch_size {
            let mut batch: Vec<DocumentRecord> = Vec::new();
            std::mem::swap(&mut batch, &mut self.buf);
            Some(batch)
        } else {
            None
        }
    }

    /// A batch of `batch_len` records was flushed, and these jobs were added.
    pub fn on_flushed(&mut self, batch_len: usize, done: Vec<DoneJob>)
        requires
            old(self).doc_count + batch_len <= u64::MAX,
        ensures
            final(self).buf == old(self).buf,
            final(self).done@ == waiting_after(old(self).done@, IndexerEvent::Added(done@)),
            final(self).doc_count == old(self).doc_count + batch_len,
            final(self).batch_size == old(self).batch_size,
            final(self).commit_interval == old(self).commit_interval,
            final(self).commit_timeout == old(self).commit_timeout,
    {
        let mut done = done;
        self.done.append(&mut done);
        self.doc_count = self.doc_count + batch_len as u64;
    }

    /// No more records will come: what waits is flushed.
    pub fn on_end(&mut self) -> (batch: Option<Vec<DocumentRecord>>)
        ensures
            final(self).same_but_buf(*old(self)),
            final(self).buf@.len() == 0,
            match batch {
                Some(b) => old(self).buf@.len() > 0 && b@ == old(self).buf@,
                None => old(self).buf@.len() == 0,
            },
    {
        if self.buf.len() == 0 {
            return None;
        }
        let mut batch: Vec<DocumentRecord> = Vec::new();
        std::mem::swap(&mut batch, &mut self.buf);
        Some(batch)
    }

    /// The last batch was flushed, and these jobs were added.
    pub fn on_last_flushed(&mut self, done: Vec<DoneJob>)
        ensures
            final(self).buf == old(self).buf,
            final(self).done@ == waiting_after(old(self).done@, IndexerEvent::Added(done@)),
            final(self).doc_count == old(self).doc_count,
            final(self).batch_size == old(self).batch_size,
            final(self).commit_interval == old(self).commit_interval,
            final(self).commit_timeout == old(self).commit_timeout,
    {
        let mut done = done;
        self.done.append(&mut done);
    }

    /// Whether it is time to commit, `since_commit` nanoseconds after the last
    /// one: some job is added, and either enough documents came or the last
    /// commit is too long ago.
    pub fn should_commit(&self, since_commit: u128) -> (b: bool)
        ensures
            b <==> self.done@.len() > 0 && (self.doc_count >= self.commit_interval || since_commit
                > self.commit_timeout * NANOS_PER_SEC),
    {
        self.done.len() > 0 && (self.doc_count >= self.commit_interval || since_commit
            > self.commit_timeout as u128 * NANOS_PER_SEC)
    }

    /// A commit was tried. Where it held, all jobs that were added since the
    /// last one are done, and are given back to be marked; where it failed,
    /// they wait for the next.
    pub fn on_commit(&mut self, ok: bool) -> (marked: Vec<DoneJob>)
        ensures
            final(self).buf == old(self).buf,
            final(self).batch_size == old(self).batch_size,
            final(self).commit_interval == old(self).commit_interval,
            final(self).commit_timeout == old(self).commit_timeout,
            final(self).done@ == waiting_after(old(self).done@, IndexerEvent::Commit(ok)),
            marked@ == marked_by(old(self).done@, IndexerEvent::Commit(ok)),
            final(self).doc_count == if ok {
                0
            } else {
                old(self).doc_count
            },
    {
        let mut marked: Vec<DoneJob> = Vec::new();
        if ok {
            std::mem::swap(&mut marked, &mut self.done);
            self.doc_count = 0;
        }
        marked
    }
}

// ---------------------------------------------------------------------------
// Nothing is done before it is committed
// ---------------------------------------------------------------------------

/// The jobs that were added in a history.
pub open spec fn added_in(history: Seq<IndexerEvent>) -> Seq<DoneJob>
    decreases history.len(),
{
    if history.len() == 0 {
        Seq::empty()
    } else {
        match history.last() {
            IndexerEvent::Added(jobs) => added_in(history.drop_last()) + jobs,
            IndexerEvent::Commit(_) => added_in(history.drop_last()),
        }
    }
}

/// The jobs whose documents a crash after a history would not lose: those
/// added before the last commit that held.
pub open spec fn committed_in(history: Seq<IndexerEvent>) -> Seq<DoneJob>
    decreases history.len(),
{
    if history.len() == 0 {
        Seq::empty()
    } else {
        match history.last() {
            IndexerEvent::Commit(true) => added_in(history),
            _ => committed_in(history.drop_last()),
        }
    }
}

/// The jobs that wait and those that were marked after a history.
pub open spec fn run_of(history: Seq<IndexerEvent>) -> (Seq<DoneJob>, Seq<DoneJob>)
    decreases history.len(),
{
    if history.len() == 0 {
        (Seq::empty(), Seq::empty())
    } else {
        let (waiting, marked) = run_of(history.drop_last());
        (waiting_after(waiting, history.last()), marked + marked_by(waiting, history.last()))
    }
}

/// Whatever happens, the jobs marked as done are exactly those whose documents
/// were committed, and no job that was added is forgotten: it is marked, or it
/// waits.
pub proof fn law_done_means_committed(history: Seq<IndexerEvent>)
    ensures
        run_of(history).1 == committed_in(history),
        run_of(history).1 + run_of(history).0 == added_in(history),
    decreases history.len(),
{
    if history.len() > 0 {
        let before = history.drop_last();
        law_done_means_committed(before);
        let (waiting, marked) = run_of(before);
        match history.last() {
            IndexerEvent::Added(jobs) => {
                assert(marked + Seq::<DoneJob>::empty() =~= marked);
                assert(marked + (waiting + jobs) =~= (marked + waiting) + jobs);
            },
            IndexerEvent::Commit(ok) => {
                if ok {
                    assert(marked + waiting + Seq::<DoneJob>::empty() =~= marked + waiting);
                } else {
                    assert(marked + Seq::<DoneJob>::empty() =~= marked);
                }
            },
        }
    } else {
        assert(run_of(history).1 + run_of(history).0 =~= added_in(history));
    }
}

// ---------------------------------------------------------------------------
// Which records are done
// ---------------------------------------------------------------------------

/// How many of the first `n` records of a batch were added.
pub open spec fn added_before(added: Seq<bool>, n: int) -> nat {
    added.take(n).filter(|b: bool| b).len()
}

/// Whether the job at a place has the id, the flag and the checksum of a
/// record.
pub open spec fn stands_for(done: Seq<DoneJob>, n: int, record: DocumentRecord) -> bool {
    &&& 0 <= n < done.len()
    &&& done[n].id == record.id
    &&& done[n].ocr_flag == record.ocr_flag
    &&& done[n].checksum@ == record.checksum@
}

proof fn lemma_added_before(added: Seq<bool>, n: int)
    requires
        0 <= n < added.len(),
    ensures
        added_before(added, n + 1) == added_before(added, n) + if added[n] {
            1nat
        } else {
            0
        },
{
    reveal(Seq::filter);
    assert(added.take(n + 1).drop_last() =~= added.take(n));
}

proof fn lemma_settled(
    batch: Seq<DocumentRecord>,
    added: Seq<bool>,
    done: Seq<DoneJob>,
    to_align: Seq<usize>,
    n: int,
)
    requires
        0 <= n <= batch.len() == added.len() <= usize::MAX,
        are_done_jobs(done, added_records(batch.take(n), added)),
        to_align == aligned_records(batch.take(n), added),
    ensures
        done.len() == added_before(added, n),
        forall|i: int|
            0 <= i < n && added[i] ==> stands_for(
                done,
                added_before(added, i) as int,
                #[trigger] batch[i],
            ),
        forall|k: int|
            0 <= k < to_align.len() ==> 0 <= #[trigger] to_align[k] < n && added[to_align[k] as int]
                && batch[to_align[k] as int].word_positions@.len() > 0,
        forall|k: int, l: int|
            0 <= k < l < to_align.len() ==> #[trigger] to_align[k] < #[trigger] to_align[l],
        forall|i: int|
            #![trigger batch[i]]
            0 <= i < n && added[i] && batch[i].word_positions@.len() > 0 ==> to_align.contains(
                i as usize,
            ),
    decreases n,
{
    if n > 0 {
        let m = n - 1;
        let b = batch.take(n);
        assert(b.drop_last() =~= batch.take(m));
        assert(b.last() == batch[m]);
        lemma_added_before(added, m);
        let d = if added[m] {
            done.drop_last()
        } else {
            done
        };
        let a = aligned_records(batch.take(m), added);
        lemma_settled(batch, added, d, a, m);
        assert forall|i: int|
            #![trigger batch[i]]
            0 <= i < n && added[i] && batch[i].word_positions@.len() > 0 implies to_align.contains(
            i as usize,
        ) by {
            if i < m {
                let k = choose|k: int| 0 <= k < a.len() && a[k] == i as usize;
                assert(to_align[k] == i as usize);
            } else {
                assert(to_align.last() == i as usize);
            }
        }
        if added[m] {
            assert(is_done_job(done[done.len() - 1], batch[m]));
        }
        assert forall|i: int| 0 <= i < n && added[i] implies stands_for(
            done,
            added_before(added, i) as int,
            #[trigger] batch[i],
        ) by {
            if i < m {
                assert(stands_for(d, added_before(added, i) as int, batch[i]));
            }
        }
    } else {
        reveal(Seq::filter);
    }
}

/// Every record of a batch whose flag in `added` is true has a job in `done`
/// with its id, flag and checksum, in the order of the batch, and no other
/// record has one: there are as many jobs as flags that are true. The records
/// whose words get their places are, in order, those that were added and have
/// words.
pub proof fn law_settled_batch(
    batch: Seq<DocumentRecord>,
    added: Seq<bool>,
    done: Seq<DoneJob>,
    to_align: Seq<usize>,
)
    requires
        added.len() == batch.len() <= usize::MAX,
        are_done_jobs(done, added_records(batch, added)),
        to_align == aligned_records(batch, added),
    ensures
        done.len() == added.filter(|b: bool| b).len(),
        forall|i: int|
            0 <= i < batch.len() && added[i] ==> stands_for(
                done,
                added_before(added, i) as int,
                #[trigger] batch[i],
            ),
        forall|k: int|
            0 <= k < to_align.len() ==> 0 <= #[trigger] to_align[k] < batch.len()
                && added[to_align[k] as int] && batch[to_align[k] as int].word_positions@.len() > 0,
        forall|k: int, l: int|
            0 <= k < l < to_align.len() ==> #[trigger] to_align[k] < #[trigger] to_align[l],
        forall|i: int|
            #![trigger batch[i]]
            0 <= i < batch.len() && added[i] && batch[i].word_positions@.len() > 0
                ==> to_align.contains(i as usize),
{
    assert(batch.take(batch.len() as int) =~= batch);
    assert(added.take(added.len() as int) =~= added);
    lemma_settled(batch, added, done, to_align, batch.len() as int);
}

/// No job comes from nowhere: each job of a batch that was settled is that of
/// a record that was added.
pub proof fn law_job_has_a_record(
    batch: Seq<DocumentRecord>,
    added: Seq<bool>,
    done: Seq<DoneJob>,
    n: int,
) -> (i: int)
    requires
        added.len() == batch.len() <= usize::MAX,
        are_done_jobs(done, added_records(batch, added)),
        0 <= n < done.len(),
    ensures
        0 <= i < batch.len(),
        added[i],
        added_before(added, i) == n,
        done[n].id == batch[i].id,
        done[n].ocr_flag == batch[i].ocr_flag,
        done[n].checksum@ == batch[i].checksum@,
{
    law_settled_batch(batch, added, done, aligned_records(batch, added));
    let i = lemma_filter_source(added, |b: bool| b, n);
    assert(stands_for(done, added_before(added, i) as int, batch[i]));
    i
}

/// Two states of the indexer that differ in nothing but the buffer are equal
/// where their buffers are.
pub proof fn law_same_but_buf(a: IndexerState, b: IndexerState)
    requires
        a.same_but_buf(b),
        a.buf == b.buf,
    ensures
        a == b,
{
}

/// A commit is due only where some job waits for it. It is then due from the
/// number of documents on that is set, and also once more time has passed than
/// is set; where it is due it stays due.
pub proof fn law_commit_is_due(state: IndexerState, early: u128, late: u128, a: bool, b: bool)
    requires
        early <= late,
        call_ensures(IndexerState::should_commit, (&state, early), a),
        call_ensures(IndexerState::should_commit, (&state, late), b),
    ensures
        a ==> b,
        a ==> state.done@.len() > 0,
        state.done@.len() > 0 && state.doc_count >= state.commit_interval ==> a,
        state.done@.len() > 0 && early > state.commit_timeout * 1_000_000_000 ==> a,
        state.doc_count < state.commit_interval && early <= state.commit_timeout * 1_000_000_000
            ==> !a,
{
}

/// Records leave the buffer in the order in which they came, and none is lost:
/// a batch and what stays in the buffer are what was there with the record
/// behind it, and at the end all that waits is handed over. A batch is handed
/// over as soon as there are enough records for one.
pub proof fn law_records_in_turn()
    ensures
        forall|s: &mut IndexerState, record: DocumentRecord, b: Option<Vec<DocumentRecord>>|
            #[trigger] call_ensures(IndexerState::on_record, (s, record), b) ==> {
                let batch = match b {
                    Some(v) => v@,
                    None => Seq::empty(),
                };
                &&& batch + final(s).buf@ == s.buf@.push(record)
                &&& b is Some <==> s.buf@.len() + 1 >= s.batch_size
                &&& b is Some ==> final(s).buf@.len() == 0
                &&& final(s).done == s.done
                &&& final(s).doc_count == s.doc_count
            },
        forall|s: &mut IndexerState, b: Option<Vec<DocumentRecord>>| #[trigger]
            call_ensures(IndexerState::on_end, (s,), b) ==> {
                &&& final(s).buf@.len() == 0
                &&& b matches Some(v) ==> v@ == s.buf@
                &&& b is None ==> s.buf@.len() == 0
                &&& final(s).done == s.done
            },
{
    assert forall|s: &mut IndexerState, record: DocumentRecord, b: Option<Vec<DocumentRecord>>|
        #[trigger] call_ensures(IndexerState::on_record, (s, record), b) implies {
        let batch = match b {
            Some(v) => v@,
            None => Seq::empty(),
        };
        &&& batch + final(s).buf@ == s.buf@.push(record)
        &&& b is Some <==> s.buf@.len() + 1 >= s.batch_size
        &&& b is Some ==> final(s).buf@.len() == 0
        &&& final(s).done == s.done
        &&& final(s).doc_count == s.doc_count
    } by {
        let batch = match b {
            Some(v) => v@,
            None => Seq::empty(),
        };
        assert(batch + final(s).buf@ =~= s.buf@.push(record));
    }
}

/// Jobs wait for a commit in the order in which their documents were added. A
/// commit that held hands all of them over to be marked, and none waits any
/// more; one that failed hands over none, and all go on waiting.
pub proof fn law_jobs_wait_for_commit()
    ensures
        forall|s: &mut IndexerState, n: usize, done: Vec<DoneJob>| #[trigger]
            call_ensures(IndexerState::on_flushed, (s, n, done), ()) ==> final(s).done@ == s.done@
                + done@ && final(s).doc_count == s.doc_count + n && final(s).buf == s.buf,
        forall|s: &mut IndexerState, done: Vec<DoneJob>| #[trigger]
            call_ensures(IndexerState::on_last_flushed, (s, done), ()) ==> final(s).done@ == s.done@
                + done@,
        forall|s: &mut IndexerState, marked: Vec<DoneJob>| #[trigger]
            call_ensures(IndexerState::on_commit, (s, true), marked) ==> marked@ == s.done@
                && final(s).done@.len() == 0 && final(s).doc_count == 0,
        forall|s: &mut IndexerState, marked: Vec<DoneJob>| #[trigger]
            call_ensures(IndexerState::on_commit, (s, false), marked) ==> marked@.len() == 0
                && final(s).done@ == s.done@ && final(s).doc_count == s.doc_count,
{
}

/// What `settle_batch` returns: as many jobs as flags are true, each with the
/// id, the flag and the checksum of its record, in the order of the batch, and
/// the records that were added and have words, in order.
pub proof fn law_settle_batch(batch: Vec<DocumentRecord>, added: Vec<bool>, f: Flushed, i: int)
    requires
        added@.len() == batch@.len() <= usize::MAX,
        call_ensures(settle_batch, (&batch, &added), f),
        0 <= i < batch@.len(),
    ensures
        f.done@.len() == added@.filter(|b: bool| b).len(),
        added@[i] ==> stands_for(f.done@, added_before(added@, i) as int, batch@[i]),
        f.to_align@.contains(i as usize) <==> added@[i] && batch@[i].word_positions@.len() > 0,
        forall|k: int, l: int|
            0 <= k < l < f.to_align@.len() ==> #[trigger] f.to_align@[k] < #[trigger] f.to_align@[l],
{
    law_settled_batch(batch@, added@, f.done@, f.to_align@);
    assert(added@[i] ==> stands_for(f.done@, added_before(added@, i) as int, batch@[i]));
    if f.to_align@.contains(i as usize) {
        let k = choose|k: int| 0 <= k < f.to_align@.len() && f.to_align@[k] == i as usize;
        assert(added@[f.to_align@[k] as int]);
    }
    if added@[i] && batch@[i].word_positions@.len() > 0 {
        assert(f.to_align@.contains(i as usize));
    }
}

} // verus!
