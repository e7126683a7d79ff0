//! The decisions of a whole run, and of the recognition of text from images.

use std::collections::HashSet;
use vstd::prelude::*;

use crate::scanner::jobs::{
    first_of, keys, ocr_tried, triples, wanted, with_job, JobModel, JobStore, Wanted,
};
use crate::text::{decimal, join, push_decimal, texts};

verus! {

broadcast use vstd::std_specs::hash::group_hash_axioms;

// ---------------------------------------------------------------------------
// The run
// ---------------------------------------------------------------------------

/// Documents between two reports of progress.
pub const PROGRESS_STEP: u64 = 50;

/// How a run starts.
#[derive(Clone, Copy, PartialEq, Eq, Structural, Debug)]
pub enum Start {
    /// Nothing is pending.
    NothingToDo,
    /// No worker program is named.
    NoWorker,
    /// The actors are started.
    Go,
}

/// Decides how a run starts: a run without pending jobs ends at once, even
/// without a worker program.
pub fn start_run(pending: i64, worker_path: &Option<String>) -> (s: Start)
    ensures
        s == if pending == 0 {
            Start::NothingToDo
        } else if worker_path is None {
            Start::NoWorker
        } else {
            Start::Go
        },
{
    if pending == 0 {
        Start::NothingToDo
    } else if worker_path.is_none() {
        Start::NoWorker
    } else {
        Start::Go
    }
}

/// The error where no worker program is named.
pub fn no_worker_message() -> (s: &'static str)
    ensures
        s@
            == "worker_path is required: pdf_worker.exe must be deployed alongside the library. Run 'cargo build -p pdf_extractor --bin pdf_worker' to build it."@,
{
    "worker_path is required: pdf_worker.exe must be deployed alongside the library. Run 'cargo build -p pdf_extractor --bin pdf_worker' to build it."
}

/// The error of a run whose index writer could not be created.
pub fn indexer_failed_message() -> (s: &'static str)
    ensures
        s@
            == "Indexer failed to initialize — Tantivy index writer could not be created. Check disk space, permissions, and index integrity."@,
{
    "Indexer failed to initialize — Tantivy index writer could not be created. Check disk space, permissions, and index integrity."
}

/// The progress to report after a record: the number of settled documents, at
/// every step and from the end on.
pub fn progress_due(processed: u64, errored: u64, total: u64) -> (done: Option<u64>)
    requires
        processed + errored <= u64::MAX,
    ensures
        done == if (processed + errored) % PROGRESS_STEP as int == 0 || processed + errored >= total {
            Some((processed + errored) as u64)
        } else {
            None
        },
{
    let done: u64 = processed + errored;
    if done % PROGRESS_STEP == 0 || done >= total {
        Some(done)
    } else {
        None
    }
}

// ---------------------------------------------------------------------------
// The consumer of records
// ---------------------------------------------------------------------------

/// Where the consumer of records stands.
#[derive(Clone, Copy, PartialEq, Eq, Structural, Debug)]
pub enum ConsumerPhase {
    /// It waits for records.
    Receiving,
    /// It has stopped waiting.
    Left,
    /// It takes in what is under way.
    Draining,
    /// The workers are to end; `again` says whether what they still send is
    /// taken in.
    Joining { again: bool },
    /// It takes in what the workers sent before they ended.
    DrainingAgain,
    /// The run is to be shut down.
    Closing,
}

/// What the consumer is told.
#[derive(Clone, Copy, PartialEq, Eq, Structural, Debug)]
pub enum ConsumerEvent {
    /// A record came, and whether the run was cancelled by then.
    Record { cancelled: bool },
    /// No more records will come.
    End,
    /// Whether the run was cancelled.
    Asked { cancelled: bool },
    /// No record is under way.
    Empty,
    /// The workers have ended.
    Joined,
}

/// What the consumer does next.
#[derive(Clone, Copy, PartialEq, Eq, Structural, Debug)]
pub enum ConsumerAction {
    /// Processes the record that came, then waits for the next.
    ProcessThenReceive,
    /// Processes the record that came, then takes the next if there is one.
    ProcessThenTry,
    /// Asks whether the run was cancelled. A record that came is dropped.
    Ask,
    /// Takes a record if there is one.
    Try,
    /// Waits for the workers to end.
    Join,
    /// Shuts the run down.
    Close,
}

/// Whether the consumer can be told this.
pub open spec fn expects(phase: ConsumerPhase, event: ConsumerEvent) -> bool {
    match phase {
        ConsumerPhase::Receiving => event is Record || event is End,
        ConsumerPhase::Left => event is Asked,
        ConsumerPhase::Draining => event is Record || event is Empty,
        ConsumerPhase::Joining { .. } => event is Joined,
        ConsumerPhase::DrainingAgain => event is Record || event is Empty,
        ConsumerPhase::Closing => false,
    }
}

/// What follows on an event.
pub open spec fn consumed(phase: ConsumerPhase, event: ConsumerEvent) -> (
    ConsumerPhase,
    ConsumerAction,
) {
    match (phase, event) {
        (ConsumerPhase::Receiving, ConsumerEvent::Record { cancelled: false }) => (
            ConsumerPhase::Receiving,
            ConsumerAction::ProcessThenReceive,
        ),
        (ConsumerPhase::Receiving, _) => (ConsumerPhase::Left, ConsumerAction::Ask),
        (ConsumerPhase::Left, ConsumerEvent::Asked { cancelled: true }) => (
            ConsumerPhase::Draining,
            ConsumerAction::Try,
        ),
        (ConsumerPhase::Left, _) => (ConsumerPhase::Joining { again: false }, ConsumerAction::Join),
        (ConsumerPhase::Draining, ConsumerEvent::Record { .. }) => (
            ConsumerPhase::Draining,
            ConsumerAction::ProcessThenTry,
        ),
        (ConsumerPhase::Draining, _) => (
            ConsumerPhase::Joining { again: true },
            ConsumerAction::Join,
        ),
        (ConsumerPhase::Joining { again: true }, _) => (
            ConsumerPhase::DrainingAgain,
            ConsumerAction::Try,
        ),
        (ConsumerPhase::Joining { again: false }, _) => (
            ConsumerPhase::Closing,
            ConsumerAction::Close,
        ),
        (ConsumerPhase::DrainingAgain, ConsumerEvent::Record { .. }) => (
            ConsumerPhase::DrainingAgain,
            ConsumerAction::ProcessThenTry,
        ),
        (ConsumerPhase::DrainingAgain, _) => (ConsumerPhase::Closing, ConsumerAction::Close),
        (ConsumerPhase::Closing, _) => (ConsumerPhase::Closing, ConsumerAction::Close),
    }
}

/// The consumer of records.
#[derive(Clone, Copy, PartialEq, Eq, Structural, Debug)]
pub struct Consumer {
    pub phase: ConsumerPhase,
}

impl Consumer {
    /// A consumer that waits for the first record.
    pub fn new() -> (c: Self)
        ensures
            c.phase == ConsumerPhase::Receiving,
    {
        Consumer { phase: ConsumerPhase::Receiving }
    }

    /// Tells the consumer what happened, and gives what it does next.
    pub fn step(&mut self, event: ConsumerEvent) -> (action: ConsumerAction)
        requires
            expects(old(self).phase, event),
        ensures
            (final(self).phase, action) == consumed(old(self).phase, event),
    {
        match self.phase {
            ConsumerPhase::Receiving => {
                if let ConsumerEvent::Record { cancelled } = event {
                    if !cancelled {
                        return ConsumerAction::ProcessThenReceive;
                    }
                }
                self.phase = ConsumerPhase::Left;
                ConsumerAction::Ask
            },
            ConsumerPhase::Left => {
                if let ConsumerEvent::Asked { cancelled } = event {
                    if cancelled {
                        self.phase = ConsumerPhase::Draining;
                        return ConsumerAction::Try;
                    }
                }
                self.phase = ConsumerPhase::Joining { again: false };
                ConsumerAction::Join
            },
            ConsumerPhase::Draining => {
                if let ConsumerEvent::Record { .. } = event {
                    return ConsumerAction::ProcessThenTry;
                }
                self.phase = ConsumerPhase::Joining { again: true };
                ConsumerAction::Join
            },
            ConsumerPhase::Joining { again } => {
                if again {
                    self.phase = ConsumerPhase::DrainingAgain;
                    ConsumerAction::Try
                } else {
                    self.phase = ConsumerPhase::Closing;
                    ConsumerAction::Close
                }
            },
            ConsumerPhase::DrainingAgain => {
                if let ConsumerEvent::Record { .. } = event {
                    return ConsumerAction::ProcessThenTry;
                }
                self.phase = ConsumerPhase::Closing;
                ConsumerAction::Close
            },
            ConsumerPhase::Closing => ConsumerAction::Close,
        }
    }
}

/// The consumer after a history, and how many records it processed.
pub open spec fn consumer_after(history: Seq<ConsumerEvent>) -> (ConsumerPhase, int)
    decreases history.len(),
{
    if history.len() == 0 {
        (ConsumerPhase::Receiving, 0)
    } else {
        let (phase, n) = consumer_after(history.drop_last());
        let (next, action) = consumed(phase, history.last());
        (next, if processes(action) {
            n + 1
        } else {
            n
        })
    }
}

/// Whether a record is processed.
pub open spec fn processes(action: ConsumerAction) -> bool {
    action == ConsumerAction::ProcessThenReceive || action == ConsumerAction::ProcessThenTry
}

/// Whether the consumer expected each event of a history when it came.
pub open spec fn can_happen(history: Seq<ConsumerEvent>) -> bool
    decreases history.len(),
{
    history.len() == 0 || (can_happen(history.drop_last()) && expects(
        consumer_after(history.drop_last()).0,
        history.last(),
    ))
}

/// How many records came in a history.
pub open spec fn records_in(history: Seq<ConsumerEvent>) -> int
    decreases history.len(),
{
    if history.len() == 0 {
        0
    } else {
        records_in(history.drop_last()) + if history.last() is Record {
            1int
        } else {
            0
        }
    }
}

/// Every record that comes is processed, but for one at most: that with which
/// the consumer learns that the run was cancelled.
pub proof fn law_records_processed(history: Seq<ConsumerEvent>)
    requires
        can_happen(history),
    ensures
        consumer_after(history).1 <= records_in(history) <= consumer_after(history).1 + 1,
        (forall|i: int|
            0 <= i < history.len() ==> !(#[trigger] history[i] matches ConsumerEvent::Record {
                cancelled: true,
            })) ==> consumer_after(history).1 == records_in(history),
        consumer_after(history).0 is Receiving ==> consumer_after(history).1 == records_in(history),
    decreases history.len(),
{
    if history.len() > 0 {
        let before = history.drop_last();
        law_records_processed(before);
        if forall|i: int|
            0 <= i < history.len() ==> !(#[trigger] history[i] matches ConsumerEvent::Record {
                cancelled: true,
            }) {
            assert forall|i: int| 0 <= i < before.len() implies !(
            #[trigger] before[i] matches ConsumerEvent::Record { cancelled: true }) by {
                assert(before[i] == history[i]);
            }
            assert(history.last() == history[history.len() - 1]);
        }
    }
}

// ---------------------------------------------------------------------------
// Recognition of text
// ---------------------------------------------------------------------------

/// How many documents are fetched at a time.
pub const OCR_BATCH: i64 = 100;

/// The jobs of a batch, by id, path and checksum, that were not sent, each id
/// once, and the ids sent afterwards.
pub open spec fn fresh(batch: Seq<(i64, Seq<char>, Seq<char>)>, sent: Set<i64>) -> (
    Seq<(i64, Seq<char>, Seq<char>)>,
    Set<i64>,
)
    decreases batch.len(),
{
    if batch.len() == 0 {
        (Seq::empty(), sent)
    } else {
        let (jobs, ids) = fresh(batch.drop_last(), sent);
        if ids.contains(batch.last().0) {
            (jobs, ids)
        } else {
            (jobs.push(batch.last()), ids.insert(batch.last().0))
        }
    }
}

/// Leaves out jobs that were sent, and remembers the others as sent.
pub fn deduplicate_ocr_batch(
    batch: Vec<(i64, String, String)>,
    sent_ids: &mut HashSet<i64>,
) -> (r: Vec<(i64, String, String)>)
    ensures
        (triples(r@), final(sent_ids)@) == fresh(triples(batch@), old(sent_ids)@),
{
    let mut r: Vec<(i64, String, String)> = Vec::new();
    let ghost given = batch@;
    let ghost all = triples(batch@);
    let ghost start = sent_ids@;
    assert(all.take(0) =~= Seq::empty());
    assert(triples(r@) =~= Seq::empty());
    for job in it: batch
        invariant
            it.seq() == given,
            all == triples(given),
            (triples(r@), sent_ids@) == fresh(all.take(it.index()), start),
    {
        let ghost n = it.index();
        let ghost before = r@;
        proof {
            assert(all.take(n + 1).drop_last() =~= all.take(n));
            assert(all.take(n + 1).last() == (job.0, job.1@, job.2@));
        }
        if sent_ids.insert(job.0) {
            r.push(job);
            assert(triples(r@) =~= triples(before).push(all[n]));
        } else {
            assert(sent_ids@ =~= fresh(all.take(n), start).1);
        }
    }
    assert(all.take(all.len() as int) =~= all);
    r
}

/// No job is sent twice: the jobs of a batch have ids that were not sent, each
/// once, and every id of the batch is sent afterwards.
pub proof fn law_sent_once(batch: Seq<(i64, Seq<char>, Seq<char>)>, sent: Set<i64>)
    ensures
        ({
            let (jobs, ids) = fresh(batch, sent);
            &&& forall|i: int, j: int|
                0 <= i < j < jobs.len() ==> (#[trigger] jobs[i]).0 != (#[trigger] jobs[j]).0
            &&& forall|i: int| 0 <= i < jobs.len() ==> !sent.contains((#[trigger] jobs[i]).0)
            &&& forall|i: int| 0 <= i < jobs.len() ==> ids.contains((#[trigger] jobs[i]).0)
            &&& forall|i: int| 0 <= i < batch.len() ==> ids.contains((#[trigger] batch[i]).0)
            &&& sent.subset_of(ids)
        }),
    decreases batch.len(),
{
    if batch.len() > 0 {
        let d = batch.drop_last();
        law_sent_once(d, sent);
        let (jobs, ids) = fresh(d, sent);
        let x = batch.last();
        assert forall|i: int| 0 <= i < batch.len() implies fresh(batch, sent).1.contains(
            (#[trigger] batch[i]).0,
        ) by {
            if i < d.len() {
                assert(d[i] == batch[i]);
            }
        }
    }
}

/// The documents that need recognition, as many as are fetched at a time.
pub open spec fn ocr_batch(jobs: Seq<JobModel>, max_retries: u32) -> Seq<JobModel> {
    first_of(wanted(jobs, Wanted::Ocr(max_retries)), OCR_BATCH as int)
}

/// The next documents to send for recognition: of those that need it, those
/// that were not sent. There are no more where none needs it.
pub fn next_ocr_batch(jobs: &JobStore, sent_ids: &mut HashSet<i64>, max_retries: u32) -> (r: Option<
    Vec<(i64, String, String)>,
>)
    ensures
        match r {
            None => {
                &&& wanted(jobs.jobs(), Wanted::Ocr(max_retries)).len() == 0
                &&& final(sent_ids)@ == old(sent_ids)@
            },
            Some(v) => {
                &&& wanted(jobs.jobs(), Wanted::Ocr(max_retries)).len() > 0
                &&& (triples(v@), final(sent_ids)@) == fresh(
                    keys(ocr_batch(jobs.jobs(), max_retries)),
                    old(sent_ids)@,
                )
            },
        },
{
    let batch = jobs.fetch_ocr_needed(OCR_BATCH, max_retries);
    assert(triples(batch@).len() == batch@.len());
    assert(keys(ocr_batch(jobs.jobs(), max_retries)).len() == ocr_batch(
        jobs.jobs(),
        max_retries,
    ).len());
    if batch.len() == 0 {
        return None;
    }
    Some(deduplicate_ocr_batch(batch, sent_ids))
}

/// What is done with the text that was recognised for a document.
#[derive(Clone, Copy, PartialEq, Eq, Structural, Debug)]
pub enum OcrOutcome {
    /// The run was cancelled.
    Stop,
    /// An attempt without text is noted.
    Failed,
    /// The attempt is noted and the text is indexed.
    Indexed,
}

/// What recognition has done so far.
#[derive(Clone, Copy, PartialEq, Eq, Structural, Debug)]
pub struct OcrTally {
    pub processed: u64,
    pub errored: u64,
}

impl OcrTally {
    /// Nothing yet.
    pub fn new() -> (t: Self)
        ensures
            t.processed == 0,
            t.errored == 0,
    {
        OcrTally { processed: 0, errored: 0 }
    }

    /// A text arrived for a document; an empty one is a failure. The attempt is
    /// recorded with the job, unless the run was cancelled.
    pub fn on_text(
        &mut self,
        jobs: &mut JobStore,
        id: i64,
        text: &str,
        cancelled: bool,
        max_retries: u32,
        now: i64,
    ) -> (o: OcrOutcome)
        requires
            old(self).processed < u64::MAX,
            old(self).errored < u64::MAX,
            old(jobs).wf(),
            forall|i: int|
                0 <= i < old(jobs).jobs().len() && (#[trigger] old(jobs).jobs()[i]).id == id
                    ==> old(jobs).jobs()[i].ocr_attempts < i64::MAX,
        ensures
            final(jobs).wf(),
            final(jobs).last() == old(jobs).last(),
            cancelled ==> {
                &&& o == OcrOutcome::Stop
                &&& *final(self) == *old(self)
                &&& final(jobs).jobs() == old(jobs).jobs()
            },
            !cancelled && text@.len() == 0 ==> {
                &&& o == OcrOutcome::Failed
                &&& final(self).errored == old(self).errored + 1
                &&& final(self).processed == old(self).processed
                &&& final(jobs).jobs() == with_job(
                    old(jobs).jobs(),
                    id,
                    |j: JobModel| ocr_tried(j, false, Some(EMPTY_OCR@), max_retries, now),
                )
            },
            !cancelled && text@.len() > 0 ==> {
                &&& o == OcrOutcome::Indexed
                &&& final(self).processed == old(self).processed + 1
                &&& final(self).errored == old(self).errored
                &&& final(jobs).jobs() == with_job(
                    old(jobs).jobs(),
                    id,
                    |j: JobModel| ocr_tried(j, true, None, max_retries, now),
                )
            },
    {
        if cancelled {
            OcrOutcome::Stop
        } else if text.is_empty() {
            jobs.mark_ocr_attempt(id, false, Some(EMPTY_OCR), max_retries, now);
            self.errored = self.errored + 1;
            OcrOutcome::Failed
        } else {
            jobs.mark_ocr_attempt(id, true, None, max_retries, now);
            self.processed = self.processed + 1;
            OcrOutcome::Indexed
        }
    }
}

/// The note for an attempt without text.
pub const EMPTY_OCR: &'static str = "OCR returned empty text";

// ---------------------------------------------------------------------------
// Pictures of pages
// ---------------------------------------------------------------------------

/// The resolution at which pages are drawn, in points per inch.
pub open spec fn resolution() -> Seq<char> {
    "300"@
}

/// The name of the file for a page, without what says its kind.
pub fn page_file(page: u32) -> (s: String)
    ensures
        s@ == "page-"@ + decimal(page as nat),
{
    let mut s = "page-".to_owned();
    push_decimal(&mut s, page as u64);
    s
}

/// The arguments with which `mutool` draws a page of a document into a file.
pub fn mutool_draw_args(pdf: &str, page: u32, image: &str) -> (v: Vec<String>)
    ensures
        texts(v@) == seq!["draw"@, "-o"@, image@, "-r"@, resolution(), pdf@, decimal(page as nat)],
{
    let mut number = String::new();
    push_decimal(&mut number, page as u64);
    assert(number@ =~= decimal(page as nat));
    let mut v: Vec<String> = Vec::new();
    v.push("draw".to_owned());
    v.push("-o".to_owned());
    v.push(image.to_owned());
    v.push("-r".to_owned());
    v.push("300".to_owned());
    v.push(pdf.to_owned());
    v.push(number);
    assert(texts(v@) =~= seq![
        "draw"@,
        "-o"@,
        image@,
        "-r"@,
        resolution(),
        pdf@,
        decimal(page as nat),
    ]);
    v
}

/// The arguments with which `pdftoppm` draws a page of a document into a file
/// with this name and the ending for its kind.
pub fn pdftoppm_args(pdf: &str, page: u32, stem: &str) -> (v: Vec<String>)
    ensures
        texts(v@) == seq![
            "-r"@,
            resolution(),
            "-gray"@,
            "-f"@,
            decimal(page as nat),
            "-l"@,
            decimal(page as nat),
            "-singlefile"@,
            pdf@,
            stem@,
        ],
{
    let mut number = String::new();
    push_decimal(&mut number, page as u64);
    assert(number@ =~= decimal(page as nat));
    let mut v: Vec<String> = Vec::new();
    v.push("-r".to_owned());
    v.push("300".to_owned());
    v.push("-gray".to_owned());
    v.push("-f".to_owned());
    v.push(number.clone());
    v.push("-l".to_owned());
    v.push(number);
    v.push("-singlefile".to_owned());
    v.push(pdf.to_owned());
    v.push(stem.to_owned());
    assert(texts(v@) =~= seq![
        "-r"@,
        resolution(),
        "-gray"@,
        "-f"@,
        decimal(page as nat),
        "-l"@,
        decimal(page as nat),
        "-singlefile"@,
        pdf@,
        stem@,
    ]);
    v
}

/// The texts of pages with a line break between each two that are not empty.
pub open spec fn pages_text(pages: Seq<Seq<char>>) -> Seq<char>
    decreases pages.len(),
{
    if pages.len() == 0 {
        Seq::empty()
    } else {
        with_page(pages_text(pages.drop_last()), pages.last())
    }
}

/// A text with that of one more page behind it.
pub open spec fn with_page(full: Seq<char>, page: Seq<char>) -> Seq<char> {
    if page.len() == 0 {
        full
    } else if full.len() == 0 {
        page
    } else {
        full.push('\n') + page
    }
}

/// Adds the text of a page.
pub fn append_page(full: &mut String, page: &str)
    ensures
        final(full)@ == with_page(old(full)@, page@),
{
    if !page.is_empty() {
        if !full.as_str().is_empty() {
            full.push('\n');
        }
        full.push_str(page);
    }
    assert(full@ =~= with_page(old(full)@, page@));
}

/// The text of a document from the texts of its pages; none where no page has
/// text. A page that could not be read is given as none.
pub fn document_text(pages: &Vec<Option<String>>) -> (r: Option<String>)
    ensures
        match r {
            Some(t) => t@ == pages_text(readable(pages@)) && t@.len() > 0,
            None => pages_text(readable(pages@)).len() == 0,
        },
{
    let mut full = String::new();
    let mut i: usize = 0;
    assert(pages@.take(0) =~= Seq::empty());
    while i < pages.len()
        invariant
            i <= pages@.len(),
            full@ == pages_text(readable(pages@.take(i as int))),
        decreases pages@.len() - i,
    {
        proof {
            assert(pages@.take(i + 1).drop_last() =~= pages@.take(i as int));
            assert(pages@.take(i + 1).last() == pages@[i as int]);
        }
        if let Some(page) = &pages[i] {
            append_page(&mut full, page.as_str());
            proof {
                let before = readable(pages@.take(i as int));
                assert(before.push(page@).drop_last() =~= before);
            }
        }
        i += 1;
    }
    assert(pages@.take(i as int) =~= pages@);
    if full.as_str().is_empty() {
        None
    } else {
        Some(full)
    }
}

/// The texts of the pages that could be read.
pub open spec fn readable(pages: Seq<Option<String>>) -> Seq<Seq<char>>
    decreases pages.len(),
{
    if pages.len() == 0 {
        Seq::empty()
    } else {
        match pages.last() {
            Some(p) => readable(pages.drop_last()).push(p@),
            None => readable(pages.drop_last()),
        }
    }
}

// ---------------------------------------------------------------------------
// Scratch space
// ---------------------------------------------------------------------------

/// Strings that scratch space may hold room for before it is given back.
pub const SCRATCH_LIMIT: usize = 1_000_000;

/// Strings that scratch space keeps room for.
pub const SCRATCH_KEEP: usize = 64_000;

/// `Vec::capacity`, which rests on the allocator: nothing is said of it.
#[verifier::external_body]
fn room(buf: &Vec<String>) -> (n: usize)
{
    buf.capacity()
}

/// `Vec::shrink_to`: gives room back and leaves the contents alone.
#[verifier::external_body]
fn give_back(buf: &mut Vec<String>, keep: usize)
    ensures
        final(buf)@ == old(buf)@,
{
    buf.shrink_to(keep)
}

/// Ends a use of scratch space: it is emptied, and room beyond a limit is
/// given back.
pub fn release_scratch_buf(buf: &mut Vec<String>)
    ensures
        final(buf)@.len() == 0,
{
    buf.clear();
    if room(buf) > SCRATCH_LIMIT {
        give_back(buf, SCRATCH_KEEP);
    }
}

/// Lends scratch space to `f` and ends the use afterwards.
pub fn with_scratch_buf<R, F: FnOnce(&mut Vec<String>) -> R>(buf: &mut Vec<String>, f: F) -> (r: R)
    requires
        forall|b: &mut Vec<String>| #[trigger] f.requires((b,)),
    ensures
        final(buf)@.len() == 0,
        exists|b: &mut Vec<String>| *b == *old(buf) && #[trigger] f.ensures((b,), r),
{
    let r = f(buf);
    release_scratch_buf(buf);
    r
}

/// Where two batches follow each other, the second sends what neither the
/// first nor anything before it sent; a single job is sent exactly where its id
/// was not sent before. So every id is sent, with the job that comes first, and
/// in the order in which jobs come.
pub proof fn law_sent_in_turn(
    a: Seq<(i64, Seq<char>, Seq<char>)>,
    b: Seq<(i64, Seq<char>, Seq<char>)>,
    one: (i64, Seq<char>, Seq<char>),
    sent: Set<i64>,
)
    ensures
        fresh(a + b, sent).0 == fresh(a, sent).0 + fresh(b, fresh(a, sent).1).0,
        fresh(a + b, sent).1 == fresh(b, fresh(a, sent).1).1,
        sent.contains(one.0) ==> fresh(seq![one], sent).0 == Seq::<
            (i64, Seq<char>, Seq<char>),
        >::empty(),
        !sent.contains(one.0) ==> fresh(seq![one], sent).0 == seq![one],
        fresh(seq![one], sent).1 == sent.insert(one.0),
    decreases b.len(),
{
    reveal_with_fuel(fresh, 2);
    assert(seq![one].drop_last() =~= Seq::empty());
    assert(seq![one].last() == one);
    assert(fresh(seq![one], sent).1 =~= sent.insert(one.0));
    if b.len() == 0 {
        assert(a + b =~= a);
        assert(fresh(a + b, sent).0 =~= fresh(a, sent).0 + fresh(b, fresh(a, sent).1).0);
    } else {
        let d = b.drop_last();
        law_sent_in_turn(a, d, one, sent);
        assert((a + b).drop_last() =~= a + d);
        assert((a + b).last() == b.last());
        assert(fresh(a + b, sent).0 =~= fresh(a, sent).0 + fresh(b, fresh(a, sent).1).0);
    }
}

/// As many records as `n`, of which each came while the run was cancelled, or
/// was not.
pub open spec fn records(n: nat, cancelled: bool) -> Seq<ConsumerEvent> {
    Seq::new(n, |i: int| ConsumerEvent::Record { cancelled })
}

proof fn lemma_one_event(before: Seq<ConsumerEvent>, event: ConsumerEvent)
    ensures
        ({
            let (phase, n) = consumer_after(before);
            let (next, action) = consumed(phase, event);
            consumer_after(before.push(event)) == (next, if processes(action) {
                n + 1
            } else {
                n
            })
        }),
{
    assert(before.push(event).drop_last() =~= before);
    assert(before.push(event).last() == event);
}

proof fn lemma_records_taken(before: Seq<ConsumerEvent>, n: nat, cancelled: bool)
    requires
        consumer_after(before).0 == ConsumerPhase::Draining || consumer_after(before).0
            == ConsumerPhase::DrainingAgain || (consumer_after(before).0 == ConsumerPhase::Receiving
            && !cancelled),
    ensures
        consumer_after(before + records(n, cancelled)).0 == consumer_after(before).0,
        consumer_after(before + records(n, cancelled)).1 == consumer_after(before).1 + n,
    decreases n,
{
    if n == 0 {
        assert(before + records(n, cancelled) =~= before);
    } else {
        let m = (n - 1) as nat;
        lemma_records_taken(before, m, cancelled);
        assert(before + records(n, cancelled) =~= (before + records(m, cancelled)).push(
            ConsumerEvent::Record { cancelled },
        ));
        lemma_one_event(before + records(m, cancelled), ConsumerEvent::Record { cancelled });
    }
}

/// A run that is not cancelled processes every record, waits for the workers
/// and closes.
pub proof fn law_run_to_the_end(n: nat)
    ensures
        consumer_after(
            records(n, false).push(ConsumerEvent::End).push(
                ConsumerEvent::Asked { cancelled: false },
            ).push(ConsumerEvent::Joined),
        ) == (ConsumerPhase::Closing, n as int),
        consumed(
            ConsumerPhase::Left,
            ConsumerEvent::Asked { cancelled: false },
        ).1 == ConsumerAction::Join,
        consumed(
            ConsumerPhase::Joining { again: false },
            ConsumerEvent::Joined,
        ).1 == ConsumerAction::Close,
{
    let none = Seq::<ConsumerEvent>::empty();
    lemma_records_taken(none, n, false);
    assert(none + records(n, false) =~= records(n, false));
    let a = records(n, false);
    lemma_one_event(a, ConsumerEvent::End);
    let b = a.push(ConsumerEvent::End);
    lemma_one_event(b, ConsumerEvent::Asked { cancelled: false });
    let c = b.push(ConsumerEvent::Asked { cancelled: false });
    lemma_one_event(c, ConsumerEvent::Joined);
}

/// A run that is cancelled drops the record at which that is seen. It then
/// processes all that is under way, waits for the workers, processes all that
/// they still sent, and closes only then.
pub proof fn law_cancelled_run(n: nat, m: nat, k: nat, cancelled: bool)
    ensures
        consumer_after(
            (records(n, false).push(ConsumerEvent::Record { cancelled: true }).push(
                ConsumerEvent::Asked { cancelled: true },
            ) + records(m, cancelled)).push(ConsumerEvent::Empty).push(ConsumerEvent::Joined)
                + records(k, cancelled),
        ) == (ConsumerPhase::DrainingAgain, (n + m + k) as int),
        consumed(ConsumerPhase::Draining, ConsumerEvent::Empty).1 == ConsumerAction::Join,
        consumed(ConsumerPhase::DrainingAgain, ConsumerEvent::Empty) == (
            ConsumerPhase::Closing,
            ConsumerAction::Close,
        ),
{
    let none = Seq::<ConsumerEvent>::empty();
    lemma_records_taken(none, n, false);
    assert(none + records(n, false) =~= records(n, false));
    let a = records(n, false);
    lemma_one_event(a, ConsumerEvent::Record { cancelled: true });
    let b = a.push(ConsumerEvent::Record { cancelled: true });
    lemma_one_event(b, ConsumerEvent::Asked { cancelled: true });
    let c = b.push(ConsumerEvent::Asked { cancelled: true });
    lemma_records_taken(c, m, cancelled);
    let d = c + records(m, cancelled);
    lemma_one_event(d, ConsumerEvent::Empty);
    let e = d.push(ConsumerEvent::Empty);
    lemma_one_event(e, ConsumerEvent::Joined);
    lemma_records_taken(e.push(ConsumerEvent::Joined), k, cancelled);
}

/// The text of a document is that of its pages that have text, in their order,
/// with a line break between each two.
pub proof fn law_text_of_pages(pages: Seq<Seq<char>>)
    ensures
        pages_text(pages) == join(
            pages.filter(|p: Seq<char>| p != Seq::<char>::empty()),
            seq!['\n'],
        ),
        pages_text(pages).len() == 0 <==> forall|i: int|
            0 <= i < pages.len() ==> #[trigger] pages[i] == Seq::<char>::empty(),
    decreases pages.len(),
{
    reveal(Seq::filter);
    let keep = |p: Seq<char>| p != Seq::<char>::empty();
    if pages.len() > 0 {
        let d = pages.drop_last();
        let l = pages.last();
        law_text_of_pages(d);
        let front = d.filter(keep);
        assert(l.len() == 0 <==> l == Seq::<char>::empty()) by {
            if l.len() == 0 {
                assert(l =~= Seq::empty());
            }
        }
        assert(pages[pages.len() - 1] == l);
        if l.len() > 0 {
            let all = front.push(l);
            assert(all.drop_last() =~= front);
            assert(all.last() == l);
            if front.len() == 0 {
                assert(pages_text(d).len() == 0);
            } else {
                assert(pages_text(d).len() > 0) by {
                    let i = crate::text::lemma_filter_source(d, keep, 0);
                    assert(d[i] != Seq::<char>::empty());
                }
                assert(pages_text(d).push('\n') + l =~= pages_text(d) + seq!['\n'] + l);
            }
        } else {
            assert(pages.filter(keep) == front);
            if forall|i: int| 0 <= i < d.len() ==> #[trigger] d[i] == Seq::<char>::empty() {
                assert forall|i: int| 0 <= i < pages.len() implies #[trigger] pages[i] == Seq::<
                    char,
                >::empty() by {
                    if i < d.len() {
                        assert(d[i] == pages[i]);
                    }
                }
            }
        }
        if forall|i: int| 0 <= i < pages.len() ==> #[trigger] pages[i] == Seq::<char>::empty() {
            assert forall|i: int| 0 <= i < d.len() implies #[trigger] d[i] == Seq::<
                char,
            >::empty() by {
                assert(pages[i] == d[i]);
            }
        }
    }
}

/// The pages that could be read count with their text, in their order, and no
/// others.
pub proof fn law_readable_pages(pages: Seq<Option<String>>)
    ensures
        readable(pages) == pages.filter(|p: Option<String>| p is Some).map_values(
            |p: Option<String>| p->0@,
        ),
    decreases pages.len(),
{
    reveal(Seq::filter);
    let keep = |p: Option<String>| p is Some;
    let text = |p: Option<String>| p->0@;
    if pages.len() > 0 {
        let d = pages.drop_last();
        law_readable_pages(d);
        if pages.last() is Some {
            assert(d.filter(keep).push(pages.last()).map_values(text) =~= d.filter(keep).map_values(
                text,
            ).push(pages.last()->0@));
        }
    } else {
        assert(pages.filter(keep).map_values(text) =~= Seq::empty());
    }
}

/// Progress is told at every fiftieth file and from the last on, and then with
/// the number of files that were processed or failed.
pub proof fn law_progress_due(processed: u64, errored: u64, total: u64, done: Option<u64>)
    requires
        processed + errored <= u64::MAX,
        call_ensures(progress_due, (processed, errored, total), done),
    ensures
        done matches Some(n) ==> n == processed + errored && (n % 50 == 0 || n >= total),
        done is None ==> processed + errored < total && (processed + errored) % 50 != 0,
{
}

/// A run starts only where something is pending and the worker program is
/// named; without pending files nothing else is asked.
pub proof fn law_start_run(pending: i64, worker_path: Option<String>, s: Start)
    requires
        call_ensures(start_run, (pending, &worker_path), s),
    ensures
        s is NothingToDo <==> pending == 0,
        s is Go ==> worker_path is Some,
        s is NoWorker ==> worker_path is None,
{
}

} // verus!
