//! The conversation with one extraction worker.
//!
//! A worker gets the paths of a whole batch first, then its answers are read
//! one by one. The machine below decides what to do next; the caller does it
//! and says how it went.

use vstd::prelude::*;

use crate::output::DocumentRecord;
use crate::pipeline::distribute::ExtractorTask;
use crate::scanner::jobs::{reprocessed, with_job, JobModel, JobStatus};
use crate::worker_ipc::{into_record, record_of, WorkerFrame};

verus! {

/// Where the conversation stands.
#[derive(Clone, Copy, PartialEq, Eq, Structural, Debug)]
pub enum WorkerPhase {
    /// A batch is to be collected.
    Collecting,
    /// The path of task `next` is to be written.
    Writing { next: usize },
    /// The answer for task `next` is to be read.
    Reading { next: usize },
    /// The record of task `next` is on its way.
    Sending { next: usize },
    /// The conversation has ended.
    Stopped,
}

/// Why the rest of a batch is given up.
#[derive(Clone, Copy, PartialEq, Eq, Structural, Debug)]
pub enum GivenUp {
    Cancelled,
    PipelineDisconnected,
}

/// The message under which a task that was given up is marked.
pub open spec fn given_up_text(g: GivenUp) -> Seq<char> {
    match g {
        GivenUp::Cancelled => "cancelled"@,
        GivenUp::PipelineDisconnected => "pipeline disconnected"@,
    }
}

/// The message under which a task that was given up is marked.
pub fn given_up_message(g: GivenUp) -> (s: &'static str)
    ensures
        s@ == given_up_text(g),
{
    match g {
        GivenUp::Cancelled => "cancelled",
        GivenUp::PipelineDisconnected => "pipeline disconnected",
    }
}

/// How the conversation ends: whether the worker is killed, whether the
/// answers that it still wrote are taken in, and which tasks are marked as
/// failed.
#[derive(Debug)]
pub struct StopPlan {
    pub kill: bool,
    pub drain: bool,
    pub failed: Vec<i64>,
    pub reason: Option<GivenUp>,
}

/// What is to be done next.
#[derive(Debug)]
pub enum WorkerAction {
    /// Collect a batch.
    Collect,
    /// Look whether the run was cancelled.
    Poll,
    /// Hand the path of the task with this index to the worker.
    Write { task: usize },
    /// Read one answer.
    Read,
    /// Send this record on.
    Send(DocumentRecord),
    /// Mark the job as failed with this message, then go on.
    MarkError { id: i64, message: String },
    /// End the conversation.
    Stop(StopPlan),
}

/// The ids of the tasks from `from` on.
pub open spec fn ids_from(batch: Seq<ExtractorTask>, from: int) -> Seq<i64> {
    batch.skip(from).map_values(|t: ExtractorTask| t.id)
}

/// Whether a plan ends the conversation with all tasks from `from` on marked.
pub open spec fn gives_up(
    plan: StopPlan,
    batch: Seq<ExtractorTask>,
    from: int,
    kill: bool,
    reason: GivenUp,
) -> bool {
    &&& plan.kill == kill
    &&& plan.drain
    &&& plan.failed@ == ids_from(batch, from)
    &&& plan.reason == Some(reason)
}

/// Whether a plan ends the conversation and marks no task.
pub open spec fn lets_go(plan: StopPlan, kill: bool, drain: bool) -> bool {
    &&& plan.kill == kill
    &&& plan.drain == drain
    &&& plan.failed@.len() == 0
    &&& plan.reason is None
}

/// What the conversation is told while a batch is in hand.
pub enum WorkerEvent {
    /// Whether the run was cancelled.
    Polled(bool),
    /// Whether a path was written.
    Written(bool),
    /// An answer, `None` where none could be read.
    Answered(Option<WorkerFrame>),
    /// Whether a record was sent on.
    Sent(bool),
}

/// Whether the conversation can be told this.
pub open spec fn awaits(phase: WorkerPhase, event: WorkerEvent) -> bool {
    match phase {
        WorkerPhase::Writing { .. } => event is Polled || event is Written,
        WorkerPhase::Reading { .. } => event is Polled || event is Answered,
        WorkerPhase::Sending { .. } => event is Sent,
        _ => false,
    }
}

/// The phase after the answer for task `next` of `n` was settled.
pub open spec fn next_read(next: int, n: int) -> WorkerPhase {
    if next + 1 < n {
        WorkerPhase::Reading { next: (next + 1) as usize }
    } else {
        WorkerPhase::Collecting
    }
}

/// Where the conversation stands after an event, with `n` tasks in hand.
pub open spec fn moved(phase: WorkerPhase, n: int, event: WorkerEvent) -> WorkerPhase {
    match (phase, event) {
        (_, WorkerEvent::Polled(true)) => WorkerPhase::Stopped,
        (_, WorkerEvent::Polled(false)) => phase,
        (WorkerPhase::Writing { next }, WorkerEvent::Written(true)) => if next + 1 < n {
            WorkerPhase::Writing { next: (next + 1) as usize }
        } else {
            WorkerPhase::Reading { next: 0 }
        },
        (_, WorkerEvent::Written(_)) => WorkerPhase::Stopped,
        (
            WorkerPhase::Reading { next },
            WorkerEvent::Answered(Some(WorkerFrame::Success(_))),
        ) => WorkerPhase::Sending { next },
        (WorkerPhase::Reading { next }, WorkerEvent::Answered(Some(_))) => next_read(next as int, n),
        (_, WorkerEvent::Answered(_)) => WorkerPhase::Stopped,
        (WorkerPhase::Sending { next }, WorkerEvent::Sent(true)) => next_read(next as int, n),
        (_, WorkerEvent::Sent(_)) => WorkerPhase::Stopped,
    }
}

/// The ids of the tasks that an event settles: sent on, or marked as failed.
pub open spec fn settled_by(
    phase: WorkerPhase,
    batch: Seq<ExtractorTask>,
    event: WorkerEvent,
) -> Seq<i64> {
    match (phase, event) {
        (WorkerPhase::Reading { next }, WorkerEvent::Polled(true)) => ids_from(batch, next as int),
        (
            WorkerPhase::Reading { next },
            WorkerEvent::Answered(Some(WorkerFrame::Error { .. })),
        ) => seq![batch[next as int].id],
        (WorkerPhase::Sending { next }, WorkerEvent::Sent(true)) => seq![batch[next as int].id],
        (WorkerPhase::Sending { next }, WorkerEvent::Sent(false)) => ids_from(batch, next as int),
        _ => Seq::empty(),
    }
}

/// The ids of the tasks that an action marks as failed.
pub open spec fn marked_failed(action: WorkerAction) -> Seq<i64> {
    match action {
        WorkerAction::Stop(p) => p.failed@,
        WorkerAction::MarkError { id, .. } => seq![id],
        _ => Seq::empty(),
    }
}

/// The conversation with one worker.
pub struct ExtractionWorker {
    pub batch: Vec<ExtractorTask>,
    pub phase: WorkerPhase,
    pub batch_count: u64,
    pub files_ok: u64,
    pub files_err: u64,
}

impl ExtractionWorker {
    /// Whether the task that is in hand is one of the batch.
    pub open spec fn wf(self) -> bool {
        match self.phase {
            WorkerPhase::Writing { next } => next < self.batch@.len(),
            WorkerPhase::Reading { next } => next < self.batch@.len(),
            WorkerPhase::Sending { next } => next < self.batch@.len(),
            _ => true,
        }
    }

    /// Files settled before the answers of this batch.
    pub open spec fn settled_before(self) -> int {
        self.files_ok + self.files_err - match self.phase {
            WorkerPhase::Reading { next } => next as int,
            WorkerPhase::Sending { next } => next as int,
            WorkerPhase::Collecting => self.batch@.len() as int,
            _ => 0,
        }
    }

    /// A conversation that has not begun.
    pub fn new() -> (w: Self)
        ensures
            w.wf(),
            w.phase == WorkerPhase::Collecting,
            w.batch@.len() == 0,
            w.batch_count == 0,
            w.files_ok == 0,
            w.files_err == 0,
    {
        ExtractionWorker {
            batch: Vec::new(),
            phase: WorkerPhase::Collecting,
            batch_count: 0,
            files_ok: 0,
            files_err: 0,
        }
    }

    /// A batch was collected; an empty one means that there will be no more.
    /// A cancelled run kills the worker before anything is written.
    pub fn on_batch(&mut self, tasks: Vec<ExtractorTask>, cancelled: bool) -> (action: WorkerAction)
        requires
            old(self).wf(),
            old(self).phase == WorkerPhase::Collecting,
            old(self).batch_count < u64::MAX,
        ensures
            final(self).wf(),
            final(self).batch@ == tasks@,
            final(self).batch_count == old(self).batch_count + 1,
            final(self).files_ok == old(self).files_ok,
            final(self).files_err == old(self).files_err,
            tasks@.len() == 0 ==> {
                &&& final(self).phase == WorkerPhase::Stopped
                &&& action matches WorkerAction::Stop(p) && lets_go(p, false, false)
            },
            tasks@.len() > 0 && cancelled ==> {
                &&& final(self).phase == WorkerPhase::Stopped
                &&& action matches WorkerAction::Stop(p) && lets_go(p, true, false)
            },
            tasks@.len() > 0 && !cancelled ==> {
                &&& final(self).phase == (WorkerPhase::Writing { next: 0 })
                &&& action is Poll
            },
    {
        self.batch_count = self.batch_count + 1;
        self.batch = tasks;
        if self.batch.len() == 0 {
            self.phase = WorkerPhase::Stopped;
            WorkerAction::Stop(
                StopPlan { kill: false, drain: false, failed: Vec::new(), reason: None },
            )
        } else if cancelled {
            self.phase = WorkerPhase::Stopped;
            WorkerAction::Stop(
                StopPlan { kill: true, drain: false, failed: Vec::new(), reason: None },
            )
        } else {
            self.phase = WorkerPhase::Writing { next: 0 };
            WorkerAction::Poll
        }
    }

    /// The ids of the tasks from `from` on.
    fn remaining_ids(&self, from: usize) -> (ids: Vec<i64>)
        requires
            from <= self.batch@.len(),
        ensures
            ids@ == ids_from(self.batch@, from as int),
    {
        let mut ids: Vec<i64> = Vec::new();
        let mut i: usize = from;
        while i < self.batch.len()
            invariant
                from <= i <= self.batch@.len(),
                ids@.len() == i - from,
                forall|k: int| 0 <= k < ids@.len() ==> ids@[k] == self.batch@[from + k].id,
            decreases self.batch@.len() - i,
        {
            ids.push(self.batch[i].id);
            i += 1;
        }
        assert(ids@ =~= ids_from(self.batch@, from as int));
        ids
    }

    /// Ends the conversation and gives up the tasks from `from` on.
    fn give_up(&mut self, from: usize, kill: bool, reason: GivenUp) -> (plan: StopPlan)
        requires
            from <= old(self).batch@.len(),
        ensures
            final(self).wf(),
            final(self).phase == WorkerPhase::Stopped,
            final(self).batch == old(self).batch,
            final(self).batch_count == old(self).batch_count,
            final(self).files_ok == old(self).files_ok,
            final(self).files_err == old(self).files_err,
            gives_up(plan, old(self).batch@, from as int, kill, reason),
    {
        let failed = self.remaining_ids(from);
        self.phase = WorkerPhase::Stopped;
        StopPlan { kill, drain: true, failed, reason: Some(reason) }
    }

    /// Whether the run was cancelled is known. A run that is cancelled while
    /// paths are written kills the worker and leaves the tasks as they are;
    /// one that is cancelled while answers are read kills it, takes in what
    /// it wrote, and gives up the tasks without answer.
    pub fn on_poll(&mut self, cancelled: bool) -> (action: WorkerAction)
        requires
            old(self).wf(),
            old(self).phase is Writing || old(self).phase is Reading,
        ensures
            final(self).wf(),
            final(self).batch == old(self).batch,
            final(self).batch_count == old(self).batch_count,
            final(self).files_ok == old(self).files_ok,
            final(self).files_err == old(self).files_err,
            final(self).phase == moved(
                old(self).phase,
                old(self).batch@.len() as int,
                WorkerEvent::Polled(cancelled),
            ),
            marked_failed(action) == settled_by(
                old(self).phase,
                old(self).batch@,
                WorkerEvent::Polled(cancelled),
            ),
            match old(self).phase {
                WorkerPhase::Writing { next } => if cancelled {
                    action matches WorkerAction::Stop(p) && lets_go(p, true, false)
                } else {
                    action == (WorkerAction::Write { task: next })
                },
                WorkerPhase::Reading { next } => if cancelled {
                    action matches WorkerAction::Stop(p) && gives_up(
                        p,
                        old(self).batch@,
                        next as int,
                        true,
                        GivenUp::Cancelled,
                    )
                } else {
                    action is Read
                },
                _ => true,
            },
    {
        match self.phase {
            WorkerPhase::Writing { next } => {
                if cancelled {
                    self.phase = WorkerPhase::Stopped;
                    WorkerAction::Stop(
                        StopPlan { kill: true, drain: false, failed: Vec::new(), reason: None },
                    )
                } else {
                    WorkerAction::Write { task: next }
                }
            },
            WorkerPhase::Reading { next } => {
                if cancelled {
                    WorkerAction::Stop(self.give_up(next, true, GivenUp::Cancelled))
                } else {
                    WorkerAction::Read
                }
            },
            _ => WorkerAction::Poll,
        }
    }

    /// A path was written, or could not be. Where it could not, the worker
    /// has died: what it wrote is taken in, and tasks without answer stay
    /// claimed until the run ends.
    pub fn on_written(&mut self, ok: bool) -> (action: WorkerAction)
        requires
            old(self).wf(),
            old(self).phase is Writing,
        ensures
            final(self).wf(),
            final(self).batch == old(self).batch,
            final(self).batch_count == old(self).batch_count,
            final(self).files_ok == old(self).files_ok,
            final(self).files_err == old(self).files_err,
            final(self).phase == moved(
                old(self).phase,
                old(self).batch@.len() as int,
                WorkerEvent::Written(ok),
            ),
            marked_failed(action) == settled_by(
                old(self).phase,
                old(self).batch@,
                WorkerEvent::Written(ok),
            ),
            !ok ==> (action matches WorkerAction::Stop(p) && lets_go(p, false, true)),
            ok ==> action is Poll,
    {
        if !ok {
            self.phase = WorkerPhase::Stopped;
            return WorkerAction::Stop(
                StopPlan { kill: false, drain: true, failed: Vec::new(), reason: None },
            );
        }
        if let WorkerPhase::Writing { next } = self.phase {
            if next < self.batch.len() - 1 {
                self.phase = WorkerPhase::Writing { next: next + 1 };
            } else {
                self.phase = WorkerPhase::Reading { next: 0 };
            }
        }
        WorkerAction::Poll
    }

    /// Goes to the next answer, or to the next batch.
    fn advance(&mut self, next: usize)
        requires
            next < old(self).batch@.len(),
        ensures
            final(self).wf(),
            final(self).phase == next_read(next as int, old(self).batch@.len() as int),
            final(self).batch == old(self).batch,
            final(self).batch_count == old(self).batch_count,
            final(self).files_ok == old(self).files_ok,
            final(self).files_err == old(self).files_err,
    {
        if next < self.batch.len() - 1 {
            self.phase = WorkerPhase::Reading { next: next + 1 };
        } else {
            self.phase = WorkerPhase::Collecting;
        }
    }

    /// An answer was read, or could not be. A record is sent on under the id
    /// of the task whose turn it is; a failure is marked under it. Where none
    /// could be read, the worker has died: what it wrote is taken in, and
    /// tasks without answer stay claimed until the run ends.
    pub fn on_frame(&mut self, frame: Option<WorkerFrame>) -> (action: WorkerAction)
        requires
            old(self).wf(),
            old(self).phase is Reading,
            old(self).files_err < u64::MAX,
        ensures
            final(self).wf(),
            final(self).batch == old(self).batch,
            final(self).batch_count == old(self).batch_count,
            final(self).files_ok == old(self).files_ok,
            old(self).phase matches WorkerPhase::Reading { next } && match frame {
                None => {
                    &&& final(self).phase == WorkerPhase::Stopped
                    &&& final(self).files_err == old(self).files_err
                    &&& action matches WorkerAction::Stop(p) && lets_go(p, false, true)
                },
                Some(WorkerFrame::Success(wo)) => {
                    &&& final(self).phase == (WorkerPhase::Sending { next })
                    &&& final(self).files_err == old(self).files_err
                    &&& action == WorkerAction::Send(
                        record_of(old(self).batch@[next as int].id, wo),
                    )
                },
                Some(WorkerFrame::Error { path, message }) => {
                    &&& final(self).phase == next_read(next as int, old(self).batch@.len() as int)
                    &&& final(self).files_err == old(self).files_err + 1
                    &&& action == (WorkerAction::MarkError {
                        id: old(self).batch@[next as int].id,
                        message,
                    })
                },
            },
            final(self).phase == moved(
                old(self).phase,
                old(self).batch@.len() as int,
                WorkerEvent::Answered(frame),
            ),
            marked_failed(action) == settled_by(
                old(self).phase,
                old(self).batch@,
                WorkerEvent::Answered(frame),
            ),
            frame is Some ==> final(self).settled_before() == old(self).settled_before(),
    {
        let next = match self.phase {
            WorkerPhase::Reading { next } => next,
            _ => 0,
        };
        match frame {
            None => {
                self.phase = WorkerPhase::Stopped;
                WorkerAction::Stop(
                    StopPlan { kill: false, drain: true, failed: Vec::new(), reason: None },
                )
            },
            Some(WorkerFrame::Success(wo)) => {
                self.phase = WorkerPhase::Sending { next };
                WorkerAction::Send(into_record(self.batch[next].id, wo))
            },
            Some(WorkerFrame::Error { path: _, message }) => {
                let id = self.batch[next].id;
                assert(self.batch.len() <= usize::MAX);
                self.files_err = self.files_err + 1;
                self.advance(next);
                WorkerAction::MarkError { id, message }
            },
        }
    }

    /// A record was sent on, or could not be.
    pub fn on_sent(&mut self, ok: bool) -> (action: WorkerAction)
        requires
            old(self).wf(),
            old(self).phase is Sending,
            old(self).files_ok < u64::MAX,
        ensures
            final(self).wf(),
            final(self).batch == old(self).batch,
            final(self).batch_count == old(self).batch_count,
            final(self).files_err == old(self).files_err,
            final(self).phase == moved(
                old(self).phase,
                old(self).batch@.len() as int,
                WorkerEvent::Sent(ok),
            ),
            !ok ==> marked_failed(action) == settled_by(
                old(self).phase,
                old(self).batch@,
                WorkerEvent::Sent(ok),
            ),
            old(self).phase matches WorkerPhase::Sending { next } && if ok {
                &&& final(self).phase == next_read(next as int, old(self).batch@.len() as int)
                &&& final(self).files_ok == old(self).files_ok + 1
                &&& final(self).settled_before() == old(self).settled_before()
                &&& action == if next + 1 < old(self).batch@.len() {
                    WorkerAction::Poll
                } else {
                    WorkerAction::Collect
                }
            } else {
                &&& final(self).phase == WorkerPhase::Stopped
                &&& final(self).files_ok == old(self).files_ok
                &&& action matches WorkerAction::Stop(p) && gives_up(
                    p,
                    old(self).batch@,
                    next as int,
                    false,
                    GivenUp::PipelineDisconnected,
                )
            },
    {
        let next = match self.phase {
            WorkerPhase::Sending { next } => next,
            _ => 0,
        };
        if !ok {
            return WorkerAction::Stop(self.give_up(next, false, GivenUp::PipelineDisconnected));
        }
        self.files_ok = self.files_ok + 1;
        self.advance(next);
        if next < self.batch.len() - 1 {
            WorkerAction::Poll
        } else {
            WorkerAction::Collect
        }
    }

    /// What is to be done after a failure was marked.
    pub fn on_marked(&self) -> (action: WorkerAction)
        requires
            self.phase is Reading || self.phase is Collecting,
        ensures
            self.phase is Reading ==> action is Poll,
            self.phase is Collecting ==> action is Collect,
    {
        match self.phase {
            WorkerPhase::Collecting => WorkerAction::Collect,
            _ => WorkerAction::Poll,
        }
    }

    /// Counts the failures among the answers that were taken in at the end.
    pub fn on_drained(&mut self, errors: u64)
        requires
            old(self).files_err + errors <= u64::MAX,
        ensures
            final(self).files_err == old(self).files_err + errors,
            final(self).batch == old(self).batch,
            final(self).phase == old(self).phase,
            final(self).batch_count == old(self).batch_count,
            final(self).files_ok == old(self).files_ok,
    {
        self.files_err = self.files_err + errors;
    }
}

// ---------------------------------------------------------------------------
// Every task is settled once
// ---------------------------------------------------------------------------

/// Where the conversation stands after what it was told of a batch, and the
/// ids of the tasks that were settled, in their order.
pub open spec fn conversation(batch: Seq<ExtractorTask>, history: Seq<WorkerEvent>) -> (
    WorkerPhase,
    Seq<i64>,
)
    decreases history.len(),
{
    if history.len() == 0 {
        (WorkerPhase::Writing { next: 0 }, Seq::empty())
    } else {
        let (phase, settled) = conversation(batch, history.drop_last());
        (
            moved(phase, batch.len() as int, history.last()),
            settled + settled_by(phase, batch, history.last()),
        )
    }
}

/// Whether the conversation could be told each event when it came.
pub open spec fn can_be_told(batch: Seq<ExtractorTask>, history: Seq<WorkerEvent>) -> bool
    decreases history.len(),
{
    history.len() == 0 || (can_be_told(batch, history.drop_last()) && awaits(
        conversation(batch, history.drop_last()).0,
        history.last(),
    ))
}

/// The tasks of a batch are settled in their order, each once: those before
/// the one in hand while answers are read, all of them when the batch is over.
/// A conversation that ends has settled all of them, or a beginning of them
/// where the worker died: the rest is then left as it was.
pub proof fn law_tasks_settled_once(batch: Seq<ExtractorTask>, history: Seq<WorkerEvent>)
    requires
        0 < batch.len() <= usize::MAX,
        can_be_told(batch, history),
    ensures
        ({
            let (phase, settled) = conversation(batch, history);
            let ids = ids_from(batch, 0);
            match phase {
                WorkerPhase::Writing { next } => next < batch.len() && settled.len() == 0,
                WorkerPhase::Reading { next } => next < batch.len() && settled == ids.take(
                    next as int,
                ),
                WorkerPhase::Sending { next } => next < batch.len() && settled == ids.take(
                    next as int,
                ),
                WorkerPhase::Collecting => settled == ids,
                WorkerPhase::Stopped => {
                    let before = conversation(batch, history.drop_last());
                    if history.last() is Answered {
                        before.0 matches WorkerPhase::Reading { next } && settled == ids.take(
                            next as int,
                        )
                    } else {
                        settled == ids || settled.len() == 0
                    }
                },
            }
        }),
    decreases history.len(),
{
    let ids = ids_from(batch, 0);
    assert(batch.skip(0) =~= batch);
    if history.len() > 0 {
        law_tasks_settled_once(batch, history.drop_last());
        let (phase, settled) = conversation(batch, history.drop_last());
        let next: int = match phase {
            WorkerPhase::Reading { next } => next as int,
            WorkerPhase::Sending { next } => next as int,
            _ => 0,
        };
        assert(settled + Seq::<i64>::empty() =~= settled);
        assert(ids.take(next) + ids_from(batch, next) =~= ids);
        assert(ids.take(next) + seq![batch[next].id] =~= ids.take(next + 1));
        assert(ids.take(ids.len() as int) =~= ids);
        assert(ids.take(0) =~= Seq::empty());
    } else {
        assert(conversation(batch, history).1 =~= Seq::empty());
    }
}

// ---------------------------------------------------------------------------
// Answers of a worker that died
// ---------------------------------------------------------------------------

/// The id under which a path was handed out: that of the last task with this
/// path.
pub open spec fn id_of(batch: Seq<ExtractorTask>, path: Seq<char>) -> Option<i64>
    decreases batch.len(),
{
    if batch.len() == 0 {
        None
    } else if batch.last().path@ == path {
        Some(batch.last().id)
    } else {
        id_of(batch.drop_last(), path)
    }
}

/// The id under which a path was handed out.
pub fn find_id(batch: &Vec<ExtractorTask>, path: &String) -> (id: Option<i64>)
    ensures
        id == id_of(batch@, path@),
{
    let mut n: usize = batch.len();
    assert(batch@.take(n as int) =~= batch@);
    while n > 0
        invariant
            n <= batch@.len(),
            id_of(batch@, path@) == id_of(batch@.take(n as int), path@),
        decreases n,
    {
        assert(batch@.take(n as int).last() == batch@[n - 1]);
        if batch[n - 1].path == *path {
            return Some(batch[n - 1].id);
        }
        assert(batch@.take(n as int).drop_last() =~= batch@.take(n - 1));
        n -= 1;
    }
    None
}

/// The record that an answer of a worker that died makes be sent on: that of a
/// task with its path.
pub open spec fn forwarded_by(batch: Seq<ExtractorTask>, frame: WorkerFrame) -> Option<
    DocumentRecord,
> {
    match frame {
        WorkerFrame::Success(wo) => match id_of(batch, wo.path@) {
            Some(id) => Some(record_of(id, wo)),
            None => None,
        },
        WorkerFrame::Error { .. } => None,
    }
}

/// The job that an answer of a worker that died makes be marked as failed, and
/// the message.
pub open spec fn failed_by(batch: Seq<ExtractorTask>, frame: WorkerFrame) -> Option<
    (i64, Seq<char>),
> {
    match frame {
        WorkerFrame::Success(_) => None,
        WorkerFrame::Error { path, message } => match id_of(batch, path@) {
            Some(id) => Some((id, message@)),
            None => None,
        },
    }
}

/// Whether an answer is for a task of the batch.
pub open spec fn is_of_batch(batch: Seq<ExtractorTask>, frame: WorkerFrame) -> bool {
    forwarded_by(batch, frame) is Some || failed_by(batch, frame) is Some
}

/// What is done with one answer of a worker that died.
#[derive(Debug)]
pub enum DrainAction {
    /// Send the record on.
    Forward(DocumentRecord),
    /// Mark the job as failed with this message.
    MarkError { id: i64, message: String },
    /// The path is none of the batch.
    Ignore,
}

/// The answers of a worker that died, counted.
pub struct Drained {
    pub ok: u64,
    pub err: u64,
}

impl Drained {
    /// No answer yet.
    pub fn new() -> (d: Self)
        ensures
            d.ok == 0,
            d.err == 0,
    {
        Drained { ok: 0, err: 0 }
    }

    /// Takes in one answer: it goes by the path in it, not by its turn.
    pub fn on_frame(&mut self, batch: &Vec<ExtractorTask>, frame: WorkerFrame) -> (a: DrainAction)
        requires
            old(self).ok < u64::MAX,
            old(self).err < u64::MAX,
        ensures
            match a {
                DrainAction::Forward(record) => {
                    &&& forwarded_by(batch@, frame) == Some(record)
                    &&& final(self).ok == old(self).ok + 1
                    &&& final(self).err == old(self).err
                },
                DrainAction::MarkError { id, message } => {
                    &&& failed_by(batch@, frame) == Some((id, message@))
                    &&& final(self).ok == old(self).ok
                    &&& final(self).err == old(self).err + 1
                },
                DrainAction::Ignore => {
                    &&& !is_of_batch(batch@, frame)
                    &&& *final(self) == *old(self)
                },
            },
    {
        match frame {
            WorkerFrame::Success(wo) => {
                match find_id(batch, &wo.path) {
                    Some(id) => {
                        self.ok = self.ok + 1;
                        DrainAction::Forward(into_record(id, wo))
                    },
                    None => DrainAction::Ignore,
                }
            },
            WorkerFrame::Error { path, message } => {
                match find_id(batch, &path) {
                    Some(id) => {
                        self.err = self.err + 1;
                        DrainAction::MarkError { id, message }
                    },
                    None => DrainAction::Ignore,
                }
            },
        }
    }
}

// ---------------------------------------------------------------------------
// Nothing is lost with a worker
// ---------------------------------------------------------------------------

/// The records that the answers of a worker that died make be sent on.
pub open spec fn all_forwarded(batch: Seq<ExtractorTask>, frames: Seq<WorkerFrame>) -> Seq<
    DocumentRecord,
>
    decreases frames.len(),
{
    if frames.len() == 0 {
        Seq::empty()
    } else {
        let front = all_forwarded(batch, frames.drop_last());
        match forwarded_by(batch, frames.last()) {
            Some(record) => front.push(record),
            None => front,
        }
    }
}

/// The jobs after the answers of a worker that died were taken in.
pub open spec fn after_drain(
    jobs: Seq<JobModel>,
    batch: Seq<ExtractorTask>,
    frames: Seq<WorkerFrame>,
) -> Seq<JobModel>
    decreases frames.len(),
{
    if frames.len() == 0 {
        jobs
    } else {
        let front = after_drain(jobs, batch, frames.drop_last());
        match failed_by(batch, frames.last()) {
            Some((id, message)) => with_job(
                front,
                id,
                |j: JobModel| JobModel { status: JobStatus::Error, error: Some(message), ..j },
            ),
            None => front,
        }
    }
}

/// A job stays as it was unless an answer of the worker that died says that it
/// failed. One that was being extracted is then pending after the run, so that
/// it is done again.
pub proof fn law_crash_leaves_the_rest(
    jobs: Seq<JobModel>,
    batch: Seq<ExtractorTask>,
    frames: Seq<WorkerFrame>,
    i: int,
)
    requires
        0 <= i < jobs.len(),
        forall|k: int|
            0 <= k < frames.len() ==> (failed_by(batch, #[trigger] frames[k]) matches Some(f)
                ==> f.0 != jobs[i].id),
    ensures
        after_drain(jobs, batch, frames).len() == jobs.len(),
        after_drain(jobs, batch, frames)[i] == jobs[i],
        jobs[i].status == JobStatus::Extracting ==> reprocessed(
            after_drain(jobs, batch, frames),
        )[i] == (JobModel { status: JobStatus::Pending, error: None, ..jobs[i] }),
    decreases frames.len(),
{
    if frames.len() > 0 {
        let front = frames.drop_last();
        assert forall|k: int| 0 <= k < front.len() implies (failed_by(
            batch,
            #[trigger] front[k],
        ) matches Some(f) ==> f.0 != jobs[i].id) by {
            assert(front[k] == frames[k]);
        }
        law_crash_leaves_the_rest(jobs, batch, front, i);
        assert(frames[frames.len() - 1] == frames.last());
    }
}

/// Each record among the answers of a worker that died, whose path is one of
/// the batch, is sent on once and marks no job.
pub proof fn law_recovered_once(batch: Seq<ExtractorTask>, frames: Seq<WorkerFrame>)
    ensures
        all_forwarded(batch, frames) == frames.filter(
            |f: WorkerFrame| forwarded_by(batch, f) is Some,
        ).map_values(|f: WorkerFrame| forwarded_by(batch, f)->0),
        forall|k: int|
            0 <= k < frames.len() && forwarded_by(batch, #[trigger] frames[k]) is Some
                ==> failed_by(batch, frames[k]) is None,
    decreases frames.len(),
{
    reveal(Seq::filter);
    let p = |f: WorkerFrame| forwarded_by(batch, f) is Some;
    let show = |f: WorkerFrame| forwarded_by(batch, f)->0;
    if frames.len() > 0 {
        let front = frames.drop_last();
        law_recovered_once(batch, front);
        if p(frames.last()) {
            assert(front.filter(p).push(frames.last()).map_values(show) =~= front.filter(
                p,
            ).map_values(show).push(show(frames.last())));
        }
    } else {
        assert(all_forwarded(batch, frames) =~= frames.filter(p).map_values(show));
    }
}

/// Giving up a batch asks for the rest to be taken in, marks every task from
/// the one in hand on, in order, and says why.
pub proof fn law_gives_up(
    plan: StopPlan,
    batch: Seq<ExtractorTask>,
    from: int,
    kill: bool,
    reason: GivenUp,
)
    requires
        gives_up(plan, batch, from, kill, reason),
        0 <= from <= batch.len(),
    ensures
        plan.kill == kill,
        plan.drain,
        plan.reason == Some(reason),
        plan.failed@.len() == batch.len() - from,
        forall|i: int|
            0 <= i < plan.failed@.len() ==> #[trigger] plan.failed@[i] == batch[from + i].id,
{
}

/// Letting a batch go marks no task and gives no reason.
pub proof fn law_lets_go(plan: StopPlan, kill: bool, drain: bool)
    requires
        lets_go(plan, kill, drain),
    ensures
        plan.kill == kill,
        plan.drain == drain,
        plan.failed@ == Seq::<i64>::empty(),
        plan.reason is None,
{
    assert(plan.failed@ =~= Seq::empty());
}

/// The id of a path is that of the last task with this path; a path that no
/// task has has none.
pub proof fn law_id_of_path(batch: Seq<ExtractorTask>, path: Seq<char>)
    ensures
        match id_of(batch, path) {
            Some(id) => exists|i: int|
                0 <= i < batch.len() && (#[trigger] batch[i]).path@ == path && batch[i].id == id && (
                forall|k: int| i < k < batch.len() ==> (#[trigger] batch[k]).path@ != path),
            None => forall|i: int| 0 <= i < batch.len() ==> (#[trigger] batch[i]).path@ != path,
        },
    decreases batch.len(),
{
    if batch.len() > 0 {
        if batch.last().path@ == path {
            assert(batch[batch.len() - 1].path@ == path);
        } else {
            let d = batch.drop_last();
            law_id_of_path(d, path);
            if let Some(id) = id_of(d, path) {
                let i = choose|i: int|
                    0 <= i < d.len() && (#[trigger] d[i]).path@ == path && d[i].id == id && (forall|
                        k: int,
                    |
                        i < k < d.len() ==> (#[trigger] d[k]).path@ != path);
                assert(batch[i] == d[i]);
                assert forall|k: int| i < k < batch.len() implies (#[trigger] batch[k]).path@
                    != path by {
                    if k < d.len() {
                        assert(d[k] == batch[k]);
                    }
                }
            } else {
                assert forall|i: int| 0 <= i < batch.len() implies (#[trigger] batch[i]).path@
                    != path by {
                    if i < d.len() {
                        assert(d[i] == batch[i]);
                    }
                }
            }
        }
    }
}

/// What is still answered after a batch was given up counts for the task with
/// its path: a success is sent on as the record of that task, an error marks
/// that task with its message, and an answer for a path of no task is ignored.
pub proof fn law_late_answers(batch: Seq<ExtractorTask>, frame: WorkerFrame)
    ensures
        match frame {
            WorkerFrame::Success(wo) => {
                &&& failed_by(batch, frame) is None
                &&& forwarded_by(batch, frame) is Some <==> exists|i: int|
                    0 <= i < batch.len() && (#[trigger] batch[i]).path@ == wo.path@
                &&& forwarded_by(batch, frame) matches Some(r) ==> id_of(batch, wo.path@) == Some(
                    r.id,
                ) && r.path@ == wo.path@ && r.text@ == wo.text@ && r.checksum@ == wo.checksum@
                    && r.ocr_flag == wo.ocr_flag && r.word_positions@ == wo.word_positions@
            },
            WorkerFrame::Error { path, message } => {
                &&& forwarded_by(batch, frame) is None
                &&& failed_by(batch, frame) is Some <==> exists|i: int|
                    0 <= i < batch.len() && (#[trigger] batch[i]).path@ == path@
                &&& failed_by(batch, frame) matches Some(f) ==> id_of(batch, path@) == Some(f.0)
                    && f.1 == message@
            },
        },
{
    match frame {
        WorkerFrame::Success(wo) => {
            law_id_of_path(batch, wo.path@);
        },
        WorkerFrame::Error { path, message } => {
            law_id_of_path(batch, path@);
        },
    }
}

} // verus!
