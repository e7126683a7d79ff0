//! Distribution of claimed jobs over extraction workers.
//!
//! Jobs are handed out largest first, each to the worker with the least to do
//! among those whose batch is not full. What does not fit waits in a reserve
//! for the next round.

use vstd::multiset::Multiset;
use vstd::prelude::*;

use crate::pipeline::config::BATCH_SIZE;

verus! {

/// A job that was claimed for extraction, with the size of its file.
pub struct PendingJob {
    pub id: i64,
    pub path: String,
    pub checksum: String,
    pub size: i64,
}

/// One document for an extraction worker.
pub struct ExtractorTask {
    pub id: i64,
    pub path: String,
    pub checksum: String,
}

/// The task that a job becomes.
pub open spec fn task_of(job: PendingJob) -> ExtractorTask {
    ExtractorTask { id: job.id, path: job.path, checksum: job.checksum }
}

// ---------------------------------------------------------------------------
// Largest first
// ---------------------------------------------------------------------------

/// Where `job` goes in a sequence ordered by falling size: behind all that are
/// at least as large.
pub open spec fn place(s: Seq<PendingJob>, size: i64) -> nat
    decreases s.len(),
{
    if s.len() == 0 {
        0
    } else if s.last().size >= size {
        s.len()
    } else {
        place(s.drop_last(), size)
    }
}

/// The jobs ordered by falling size, jobs of one size in their given order.
pub open spec fn largest_first(s: Seq<PendingJob>) -> Seq<PendingJob>
    decreases s.len(),
{
    if s.len() == 0 {
        s
    } else {
        let front = largest_first(s.drop_last());
        front.insert(place(front, s.last().size) as int, s.last())
    }
}

/// Whether sizes never rise.
pub open spec fn sizes_fall(s: Seq<PendingJob>) -> bool {
    forall|i: int, j: int| 0 <= i <= j < s.len() ==> s[i].size >= s[j].size
}

proof fn lemma_place(s: Seq<PendingJob>, size: i64)
    requires
        sizes_fall(s),
    ensures
        place(s, size) <= s.len(),
        forall|i: int| 0 <= i < place(s, size) ==> s[i].size >= size,
        forall|i: int| place(s, size) <= i < s.len() ==> s[i].size < size,
    decreases s.len(),
{
    if s.len() > 0 && s.last().size < size {
        let d = s.drop_last();
        lemma_place(d, size);
        assert(forall|i: int| 0 <= i < d.len() ==> d[i] == s[i]);
    }
}

/// Ordering by size loses and adds no job, and leaves sizes falling.
pub proof fn law_largest_first(s: Seq<PendingJob>)
    ensures
        largest_first(s).len() == s.len(),
        sizes_fall(largest_first(s)),
        largest_first(s).to_multiset() == s.to_multiset(),
    decreases s.len(),
{
    if s.len() > 0 {
        let d = s.drop_last();
        law_largest_first(d);
        let front = largest_first(d);
        lemma_place(front, s.last().size);
        let at = place(front, s.last().size) as int;
        let r = front.insert(at, s.last());
        front.insert_ensures(at, s.last());
        vstd::seq_lib::to_multiset_insert(front, at, s.last());
        vstd::seq_lib::to_multiset_build(d, s.last());
        assert(d.push(s.last()) =~= s);
        assert(r.to_multiset() =~= s.to_multiset());
        assert forall|i: int, j: int| 0 <= i <= j < r.len() implies r[i].size >= r[j].size by {
            let fi = if i < at { i } else { i - 1 };
            let fj = if j < at { j } else { j - 1 };
            if i != at {
                assert(r[i] == front[fi]);
            }
            if j != at {
                assert(r[j] == front[fj]);
            }
        }
    }
}

/// Jobs of one size keep their given order.
pub proof fn law_largest_first_stable(s: Seq<PendingJob>, size: i64)
    ensures
        largest_first(s).filter(|j: PendingJob| j.size == size) == s.filter(
            |j: PendingJob| j.size == size,
        ),
    decreases s.len(),
{
    let same = |j: PendingJob| j.size == size;
    if s.len() > 0 {
        let d = s.drop_last();
        law_largest_first(d);
        law_largest_first_stable(d, size);
        let front = largest_first(d);
        let x = s.last();
        lemma_place(front, x.size);
        let at = place(front, x.size) as int;
        let a = front.take(at);
        let b = front.skip(at);
        assert(front =~= a + b);
        assert(front.insert(at, x) =~= a.push(x) + b);
        Seq::filter_distributes_over_add(a, b, same);
        Seq::filter_distributes_over_add(a.push(x), b, same);
        assert(a.push(x).drop_last() =~= a);
        assert(s.filter(same) == if same(x) {
            d.filter(same).push(x)
        } else {
            d.filter(same)
        }) by {
            reveal(Seq::filter);
        }
        assert(a.push(x).filter(same) == if same(x) {
            a.filter(same).push(x)
        } else {
            a.filter(same)
        }) by {
            reveal(Seq::filter);
        }
        if same(x) {
            assert forall|i: int| 0 <= i < b.len() implies !same(#[trigger] b[i]) by {
                assert(b[i] == front[at + i]);
            }
            assert(b.filter(same) =~= Seq::empty()) by {
                b.lemma_all_neg_filter_empty(same);
            }
            assert((a.filter(same) + b.filter(same)).push(x) =~= a.filter(same).push(x) + b.filter(
                same,
            ));
        }
    }
}

/// Orders jobs by falling size.
pub fn order_by_size(jobs: Vec<PendingJob>) -> (sorted: Vec<PendingJob>)
    ensures
        sorted@ == largest_first(jobs@),
{
    let ghost given = jobs@;
    let mut rest = jobs;
    let mut sorted: Vec<PendingJob> = Vec::new();
    let mut reversed: Vec<PendingJob> = Vec::new();
    while rest.len() > 0
        invariant
            rest@.len() + reversed@.len() == given.len(),
            rest@ == given.take(rest@.len() as int),
            forall|i: int| 0 <= i < reversed@.len() ==> reversed@[i] == given[given.len() - 1 - i],
        decreases rest@.len(),
    {
        let x = rest.pop().unwrap();
        reversed.push(x);
    }
    while reversed.len() > 0
        invariant
            sorted@.len() + reversed@.len() == given.len(),
            sorted@ == largest_first(given.take(sorted@.len() as int)),
            forall|i: int| 0 <= i < reversed@.len() ==> reversed@[i] == given[given.len() - 1 - i],
        decreases reversed@.len(),
    {
        let ghost done = sorted@.len() as int;
        let x = reversed.pop().unwrap();
        assert(x == given[done]);
        let mut at: usize = sorted.len();
        assert(sorted@.take(at as int) =~= sorted@);
        while at > 0 && sorted[at - 1].size < x.size
            invariant
                at <= sorted@.len(),
                place(sorted@, x.size) == place(sorted@.take(at as int), x.size),
            decreases at,
        {
            assert(sorted@.take(at as int).drop_last() =~= sorted@.take(at - 1));
            at -= 1;
        }
        assert(place(sorted@, x.size) == at);
        let ghost before = sorted@;
        sorted.insert(at, x);
        proof {
            assert(given.take(done + 1).drop_last() =~= given.take(done));
            assert(sorted@ == before.insert(at as int, x));
        }
    }
    assert(given.take(given.len() as int) =~= given);
    sorted
}

// ---------------------------------------------------------------------------
// Least loaded worker next
// ---------------------------------------------------------------------------

/// The sum of the sizes of a batch.
pub open spec fn load(batch: Seq<PendingJob>) -> int
    decreases batch.len(),
{
    if batch.len() == 0 {
        0
    } else {
        load(batch.drop_last()) + batch.last().size
    }
}

/// Whether batch `a` is strictly lighter than batch `b`: by load, then by
/// number of jobs.
pub open spec fn lighter(a: Seq<PendingJob>, b: Seq<PendingJob>) -> bool {
    load(a) < load(b) || (load(a) == load(b) && a.len() < b.len())
}

/// The first of the lightest batches that are not full, among the first `n`;
/// `n` itself stands for none.
pub open spec fn lightest(batches: Seq<Seq<PendingJob>>, n: nat) -> nat
    decreases n,
{
    if n == 0 {
        0
    } else {
        let best = lightest(batches, (n - 1) as nat);
        let last = (n - 1) as int;
        if batches[last].len() >= BATCH_SIZE {
            if best == n - 1 {
                n
            } else {
                best
            }
        } else if best == n - 1 || lighter(batches[last], batches[best as int]) {
            last as nat
        } else {
            best
        }
    }
}

/// The batches after the first `k` jobs were handed out to `workers` workers.
pub open spec fn handed_out(jobs: Seq<PendingJob>, workers: nat, k: nat) -> Seq<Seq<PendingJob>>
    decreases k,
{
    if k == 0 {
        Seq::new(workers, |w: int| Seq::<PendingJob>::empty())
    } else {
        let before = handed_out(jobs, workers, (k - 1) as nat);
        let w = lightest(before, workers) as int;
        before.update(w, before[w].push(jobs[k - 1]))
    }
}

/// How many jobs one round hands out.
pub open spec fn round_size(workers: nat, jobs: nat) -> nat {
    if jobs < workers * BATCH_SIZE {
        jobs
    } else {
        (workers * BATCH_SIZE) as nat
    }
}

/// The number of jobs in all batches.
pub open spec fn total_len(batches: Seq<Seq<PendingJob>>) -> nat
    decreases batches.len(),
{
    if batches.len() == 0 {
        0
    } else {
        total_len(batches.drop_last()) + batches.last().len()
    }
}

/// The jobs of all batches.
pub open spec fn bag(batches: Seq<Seq<PendingJob>>) -> Multiset<PendingJob>
    decreases batches.len(),
{
    if batches.len() == 0 {
        Multiset::empty()
    } else {
        bag(batches.drop_last()).add(batches.last().to_multiset())
    }
}

proof fn lemma_lightest(batches: Seq<Seq<PendingJob>>, n: nat)
    requires
        n <= batches.len(),
    ensures
        lightest(batches, n) <= n,
        lightest(batches, n) == n <==> (forall|i: int|
            0 <= i < n ==> (#[trigger] batches[i]).len() >= BATCH_SIZE),
        lightest(batches, n) < n ==> {
            let w = lightest(batches, n) as int;
            &&& batches[w].len() < BATCH_SIZE
            &&& forall|i: int|
                0 <= i < n && (#[trigger] batches[i]).len() < BATCH_SIZE ==> !lighter(
                    batches[i],
                    batches[w],
                )
        },
    decreases n,
{
    if n > 0 {
        lemma_lightest(batches, (n - 1) as nat);
        let best = lightest(batches, (n - 1) as nat);
        if best == n - 1 {
            assert(forall|i: int| 0 <= i < n - 1 ==> (#[trigger] batches[i]).len() >= BATCH_SIZE);
        } else {
            assert(batches[best as int].len() < BATCH_SIZE);
        }
    }
}

proof fn lemma_total_len_update(batches: Seq<Seq<PendingJob>>, w: int, job: PendingJob)
    requires
        0 <= w < batches.len(),
    ensures
        total_len(batches.update(w, batches[w].push(job))) == total_len(batches) + 1,
        bag(batches.update(w, batches[w].push(job))) == bag(batches).insert(job),
    decreases batches.len(),
{
    let after = batches.update(w, batches[w].push(job));
    let last = batches.len() - 1;
    if w == last {
        assert(after.drop_last() =~= batches.drop_last());
        vstd::seq_lib::to_multiset_build(batches[w], job);
        assert(bag(after) =~= bag(batches).insert(job));
    } else {
        assert(after.drop_last() =~= batches.drop_last().update(
            w,
            batches.drop_last()[w].push(job),
        ));
        lemma_total_len_update(batches.drop_last(), w, job);
        assert(bag(after) =~= bag(batches).insert(job));
    }
}

proof fn lemma_total_len_full(batches: Seq<Seq<PendingJob>>)
    requires
        forall|i: int| 0 <= i < batches.len() ==> (#[trigger] batches[i]).len() >= BATCH_SIZE,
    ensures
        total_len(batches) >= batches.len() * BATCH_SIZE,
    decreases batches.len(),
{
    if batches.len() > 0 {
        let d = batches.drop_last();
        assert forall|i: int| 0 <= i < d.len() implies (#[trigger] d[i]).len() >= BATCH_SIZE by {
            assert(d[i] == batches[i]);
        }
        lemma_total_len_full(d);
        assert(batches.last() == batches[batches.len() - 1]);
        assert((d.len() + 1) * BATCH_SIZE == d.len() * BATCH_SIZE + BATCH_SIZE)
            by (nonlinear_arith);
    }
}

proof fn lemma_empty_batches(batches: Seq<Seq<PendingJob>>)
    requires
        forall|i: int| 0 <= i < batches.len() ==> (#[trigger] batches[i]).len() == 0,
    ensures
        total_len(batches) == 0,
        bag(batches) == Multiset::<PendingJob>::empty(),
    decreases batches.len(),
{
    if batches.len() > 0 {
        let d = batches.drop_last();
        assert forall|i: int| 0 <= i < d.len() implies (#[trigger] d[i]).len() == 0 by {
            assert(d[i] == batches[i]);
        }
        lemma_empty_batches(d);
        assert(batches.last() == batches[batches.len() - 1]);
        broadcast use vstd::seq_lib::group_to_multiset_ensures;
        assert(batches.last() =~= Seq::empty());
        assert(bag(batches) =~= Multiset::empty());
    }
}

/// Handing out jobs: as many batches as workers, none above the limit, and
/// each of the first `k` jobs in exactly one batch.
pub proof fn law_handed_out(jobs: Seq<PendingJob>, workers: nat, k: nat)
    requires
        k <= round_size(workers, jobs.len()),
    ensures
        handed_out(jobs, workers, k).len() == workers,
        forall|w: int|
            0 <= w < workers ==> (#[trigger] handed_out(jobs, workers, k)[w]).len() <= BATCH_SIZE,
        total_len(handed_out(jobs, workers, k)) == k,
        bag(handed_out(jobs, workers, k)) == jobs.take(k as int).to_multiset(),
        k < workers * BATCH_SIZE ==> lightest(handed_out(jobs, workers, k), workers) < workers,
    decreases k,
{
    let now = handed_out(jobs, workers, k);
    if k == 0 {
        lemma_empty_batches(now);
        broadcast use vstd::seq_lib::group_to_multiset_ensures;
        assert(jobs.take(0) =~= Seq::empty());
        assert(bag(now) =~= jobs.take(0).to_multiset());
    } else {
        let before = handed_out(jobs, workers, (k - 1) as nat);
        law_handed_out(jobs, workers, (k - 1) as nat);
        lemma_lightest(before, workers);
        let w = lightest(before, workers) as int;
        lemma_total_len_update(before, w, jobs[k - 1]);
        vstd::seq_lib::to_multiset_build(jobs.take(k - 1), jobs[k - 1]);
        assert(jobs.take(k - 1).push(jobs[k - 1]) =~= jobs.take(k as int));
    }
    lemma_lightest(now, workers);
    if k < workers * BATCH_SIZE && lightest(now, workers) == workers {
        lemma_total_len_full(now);
    }
}

/// The spread stays within the largest file: no worker has more to do than a
/// worker whose batch is not full, by more than the size of the largest job.
pub proof fn law_spread(jobs: Seq<PendingJob>, workers: nat, k: nat, largest: i64)
    requires
        k <= round_size(workers, jobs.len()),
        forall|i: int| 0 <= i < jobs.len() ==> 0 <= (#[trigger] jobs[i]).size <= largest,
        0 <= largest,
    ensures
        forall|a: int, b: int|
            0 <= a < workers && 0 <= b < workers && (#[trigger] handed_out(
                jobs,
                workers,
                k,
            )[b]).len() < BATCH_SIZE ==> load(#[trigger] handed_out(jobs, workers, k)[a]) <= load(
                handed_out(jobs, workers, k)[b],
            ) + largest,
    decreases k,
{
    if k > 0 {
        let before = handed_out(jobs, workers, (k - 1) as nat);
        let now = handed_out(jobs, workers, k);
        law_spread(jobs, workers, (k - 1) as nat, largest);
        law_handed_out(jobs, workers, (k - 1) as nat);
        lemma_lightest(before, workers);
        let w = lightest(before, workers) as int;
        let x = jobs[k - 1];
        assert(before[w].push(x).drop_last() =~= before[w]);
        assert(load(now[w]) == load(before[w]) + x.size);
        assert forall|a: int, b: int|
            0 <= a < workers && 0 <= b < workers && (#[trigger] now[b]).len()
                < BATCH_SIZE implies load(#[trigger] now[a]) <= load(now[b]) + largest by {
            if b != w {
                assert(now[b] == before[b]);
            }
            if a != w {
                assert(now[a] == before[a]);
            }
            assert(before[b].len() < BATCH_SIZE);
            assert(!lighter(before[b], before[w]));
        }
    }
}

// ---------------------------------------------------------------------------
// One round
// ---------------------------------------------------------------------------

/// What one round takes from the reserve, and how many jobs it claims.
pub struct ClaimPlan {
    pub take: usize,
    pub ask: Option<i64>,
}

/// What one round hands to the workers, and what it leaves in reserve.
pub struct ScanRound {
    pub batches: Vec<Vec<ExtractorTask>>,
    pub reserved: Vec<PendingJob>,
    pub from_reserve: usize,
}

/// Jobs taken from a reserve of `reserved` jobs.
pub open spec fn taken(workers: nat, reserved: nat) -> nat {
    round_size(workers, reserved)
}

/// Plans a round: the reserve is used up first; what is missing to a full
/// round is claimed, with enough to fill the reserve again.
pub fn plan_claim(workers: usize, reserved: usize, reserve_size: usize) -> (plan: ClaimPlan)
    requires
        workers * BATCH_SIZE + reserve_size <= i64::MAX,
        workers * BATCH_SIZE + reserve_size <= usize::MAX,
    ensures
        plan.take == taken(workers as nat, reserved as nat),
        plan.ask == if reserved < workers * BATCH_SIZE {
            Some((workers * BATCH_SIZE - reserved + reserve_size) as i64)
        } else {
            None
        },
{
    let full: usize = workers * BATCH_SIZE;
    if reserved < full {
        ClaimPlan { take: reserved, ask: Some((full - reserved + reserve_size) as i64) }
    } else {
        ClaimPlan { take: full, ask: None }
    }
}

/// The jobs that a round sees, in the order in which it hands them out.
pub open spec fn round_jobs(
    workers: nat,
    reserved: Seq<PendingJob>,
    claimed: Seq<PendingJob>,
) -> Seq<PendingJob> {
    largest_first(reserved.take(taken(workers, reserved.len()) as int) + claimed)
}

/// The jobs that the workers get in a round.
pub open spec fn round_batches(
    workers: nat,
    reserved: Seq<PendingJob>,
    claimed: Seq<PendingJob>,
) -> Seq<Seq<PendingJob>> {
    let jobs = round_jobs(workers, reserved, claimed);
    let n = round_size(workers, jobs.len());
    handed_out(jobs.take(n as int), workers, n)
}

/// The jobs in reserve after a round.
pub open spec fn round_reserve(
    workers: nat,
    reserved: Seq<PendingJob>,
    claimed: Seq<PendingJob>,
) -> Seq<PendingJob> {
    let jobs = round_jobs(workers, reserved, claimed);
    reserved.skip(taken(workers, reserved.len()) as int) + jobs.skip(
        round_size(workers, jobs.len()) as int,
    )
}

/// The index of the worker that gets the next job.
fn pick_worker(
    loads: &Vec<i128>,
    batches: &Vec<Vec<ExtractorTask>>,
    Ghost(model): Ghost<Seq<Seq<PendingJob>>>,
) -> (w: usize)
    requires
        loads.len() == batches.len() == model.len(),
        forall|i: int| 0 <= i < model.len() ==> (#[trigger] loads@[i]) == load(model[i]),
        forall|i: int| 0 <= i < model.len() ==> (#[trigger] batches@[i])@.len() == model[i].len(),
    ensures
        w == lightest(model, model.len()),
{
    let mut best: usize = 0;
    let mut n: usize = 0;
    while n < loads.len()
        invariant
            n <= loads.len() == batches.len() == model.len(),
            best == lightest(model, n as nat),
            best <= n,
            forall|i: int| 0 <= i < model.len() ==> (#[trigger] loads@[i]) == load(model[i]),
            forall|i: int|
                0 <= i < model.len() ==> (#[trigger] batches@[i])@.len() == model[i].len(),
        decreases loads.len() - n,
    {
        assert(batches@[n as int]@.len() == model[n as int].len());
        if batches[n].len() >= BATCH_SIZE {
            if best == n {
                best = n + 1;
            }
        } else if best == n || loads[n] < loads[best] || (loads[n] == loads[best]
            && batches[n].len() < batches[best].len()) {
            best = n;
        }
        n += 1;
    }
    best
}

/// Hands out `jobs`, in their order, to `workers` workers.
fn hand_out(jobs: Vec<PendingJob>, workers: usize) -> (batches: Vec<Vec<ExtractorTask>>)
    requires
        jobs@.len() <= workers * BATCH_SIZE,
    ensures
        batches.len() == workers,
        forall|w: int|
            0 <= w < workers ==> (#[trigger] batches@[w])@ == handed_out(
                jobs@,
                workers as nat,
                jobs@.len(),
            )[w].map_values(|j: PendingJob| task_of(j)),
{
    let mut batches: Vec<Vec<ExtractorTask>> = Vec::new();
    let mut loads: Vec<i128> = Vec::new();
    let mut i: usize = 0;
    while i < workers
        invariant
            i <= workers,
            batches@.len() == i,
            loads@.len() == i,
            forall|w: int| 0 <= w < i ==> (#[trigger] batches@[w])@.len() == 0,
            forall|w: int| 0 <= w < i ==> (#[trigger] loads@[w]) == 0,
        decreases workers - i,
    {
        batches.push(Vec::new());
        loads.push(0);
        i += 1;
    }
    let ghost task = |j: PendingJob| task_of(j);
    proof {
        let start = handed_out(jobs@, workers as nat, 0);
        assert forall|w: int| 0 <= w < workers implies (#[trigger] batches@[w])@
            == start[w].map_values(task) by {
            assert(batches@[w]@ =~= start[w].map_values(task));
        }
    }
    for job in it: jobs
        invariant
            it.seq() == jobs@,
            jobs@.len() <= workers * BATCH_SIZE,
            batches@.len() == workers,
            loads@.len() == workers,
            task == (|j: PendingJob| task_of(j)),
            forall|w: int|
                0 <= w < workers ==> (#[trigger] batches@[w])@ == handed_out(
                    jobs@,
                    workers as nat,
                    it.index() as nat,
                )[w].map_values(task),
            forall|w: int|
                0 <= w < workers ==> (#[trigger] loads@[w]) == load(
                    handed_out(jobs@, workers as nat, it.index() as nat)[w],
                ),
            forall|w: int|
                0 <= w < workers ==> i64::MIN * batches@[w]@.len() <= (#[trigger] loads@[w])
                    <= i64::MAX * batches@[w]@.len(),
    {
        let ghost k = it.index() as nat;
        let ghost before = handed_out(jobs@, workers as nat, k);
        proof {
            law_handed_out(jobs@, workers as nat, k);
            lemma_lightest(before, workers as nat);
            assert forall|w: int| 0 <= w < workers implies (#[trigger] batches@[w])@.len()
                == before[w].len() by {
                assert(batches@[w]@ == before[w].map_values(task));
            }
        }
        let w = pick_worker(&loads, &batches, Ghost(before));
        let size: i64 = job.size;
        assert(batches@[w as int]@ == before[w as int].map_values(task));
        assert(loads@[w as int] == load(before[w as int]));
        proof {
            let n = batches@[w as int]@.len() as int;
            assert(i64::MIN * 30 <= i64::MIN * n) by (nonlinear_arith)
                requires
                    0 <= n <= 30,
            ;
            assert(i64::MAX * n <= i64::MAX * 30) by (nonlinear_arith)
                requires
                    0 <= n <= 30,
            ;
            assert(i64::MIN * (n + 1) == i64::MIN * n + i64::MIN) by (nonlinear_arith);
            assert(i64::MAX * (n + 1) == i64::MAX * n + i64::MAX) by (nonlinear_arith);
        }
        let new_load: i128 = loads[w] + size as i128;
        loads.set(w, new_load);
        let ghost old_batches = batches@;
        let t = ExtractorTask { id: job.id, path: job.path, checksum: job.checksum };
        batches[w].push(t);
        proof {
            let after = handed_out(jobs@, workers as nat, k + 1);
            assert(after == before.update(w as int, before[w as int].push(job)));
            assert(before[w as int].push(job).drop_last() =~= before[w as int]);
            assert forall|v: int| 0 <= v < workers implies (#[trigger] batches@[v])@
                == after[v].map_values(task) by {
                if v == w {
                    assert(batches@[v]@ =~= after[v].map_values(task));
                } else {
                    assert(batches@[v] == old_batches[v]);
                }
            }
            assert forall|v: int| 0 <= v < workers implies (#[trigger] loads@[v]) == load(
                after[v],
            ) by {
                if v != w {
                    assert(after[v] == before[v]);
                }
            }
        }
    }
    batches
}

/// Runs one round over `workers` workers. There is none where neither the
/// reserve nor the claim holds a job.
pub fn scan_round(
    workers: usize,
    reserved: Vec<PendingJob>,
    claimed: Vec<PendingJob>,
) -> (round: Option<ScanRound>)
    requires
        workers * BATCH_SIZE <= usize::MAX,
    ensures
        round is None <==> round_jobs(workers as nat, reserved@, claimed@).len() == 0,
        round matches Some(r) ==> {
            &&& r.batches.len() == workers
            &&& forall|w: int|
                0 <= w < workers ==> (#[trigger] r.batches@[w])@ == round_batches(
                    workers as nat,
                    reserved@,
                    claimed@,
                )[w].map_values(|j: PendingJob| task_of(j))
            &&& r.reserved@ == round_reserve(workers as nat, reserved@, claimed@)
            &&& r.from_reserve == taken(workers as nat, reserved@.len())
        },
{
    let full: usize = workers * BATCH_SIZE;
    let take = if reserved.len() < full {
        reserved.len()
    } else {
        full
    };
    let ghost held = reserved@;
    let ghost new = claimed@;
    let mut all = reserved;
    let mut rest = all.split_off(take);
    let mut claimed = claimed;
    all.append(&mut claimed);
    proof {
        assert(rest@ =~= held.skip(take as int));
        assert(all@ =~= held.take(take as int) + new);
        law_largest_first(all@);
    }
    if all.len() == 0 {
        return None;
    }
    let mut jobs = order_by_size(all);
    let end = if full < jobs.len() {
        full
    } else {
        jobs.len()
    };
    let ghost ordered = jobs@;
    let mut left_over = jobs.split_off(end);
    proof {
        assert(left_over@ =~= ordered.skip(end as int));
        assert(jobs@ =~= ordered.take(end as int));
    }
    rest.append(&mut left_over);
    let batches = hand_out(jobs, workers);
    Some(ScanRound { batches, reserved: rest, from_reserve: take })
}

/// No job is lost in a round: what came in from the reserve and the claim is
/// what the workers got together with what is in reserve afterwards.
pub proof fn law_round_keeps_jobs(
    workers: nat,
    reserved: Seq<PendingJob>,
    claimed: Seq<PendingJob>,
)
    ensures
        bag(round_batches(workers, reserved, claimed)).add(
            round_reserve(workers, reserved, claimed).to_multiset(),
        ) == reserved.to_multiset().add(claimed.to_multiset()),
{
    broadcast use vstd::seq_lib::group_to_multiset_ensures;

    let t = taken(workers, reserved.len()) as int;
    let seen = reserved.take(t) + claimed;
    let jobs = round_jobs(workers, reserved, claimed);
    let n = round_size(workers, jobs.len());
    law_largest_first(seen);
    law_handed_out(jobs.take(n as int), workers, n);
    assert(jobs.take(n as int).take(n as int) =~= jobs.take(n as int));
    vstd::seq_lib::lemma_multiset_commutative(reserved.take(t), claimed);
    vstd::seq_lib::lemma_multiset_commutative(reserved.take(t), reserved.skip(t));
    vstd::seq_lib::lemma_multiset_commutative(jobs.take(n as int), jobs.skip(n as int));
    vstd::seq_lib::lemma_multiset_commutative(reserved.skip(t), jobs.skip(n as int));
    assert(reserved.take(t) + reserved.skip(t) =~= reserved);
    assert(jobs.take(n as int) + jobs.skip(n as int) =~= jobs);
    let left = reserved.skip(t) + jobs.skip(n as int);
    let h = jobs.take(n as int).to_multiset();
    let l = jobs.skip(n as int).to_multiset();
    let a = reserved.take(t).to_multiset();
    let r = reserved.skip(t).to_multiset();
    let c = claimed.to_multiset();
    assert(bag(handed_out(jobs.take(n as int), workers, n)) == h);
    assert(h.add(l) == a.add(c));
    assert(left.to_multiset() == r.add(l));
    assert(reserved.to_multiset() == a.add(r));
    assert(h.add(r.add(l)) =~= h.add(l).add(r));
    assert(a.add(r).add(c) =~= a.add(c).add(r));
}

/// The jobs in reserve after rounds, one for each claim, that began without a
/// reserve.
pub open spec fn reserve_after(workers: nat, claims: Seq<Seq<PendingJob>>) -> Seq<PendingJob>
    decreases claims.len(),
{
    if claims.len() == 0 {
        Seq::empty()
    } else {
        round_reserve(workers, reserve_after(workers, claims.drop_last()), claims.last())
    }
}

/// The jobs that the workers got in rounds.
pub open spec fn handed_in(workers: nat, claims: Seq<Seq<PendingJob>>) -> Multiset<PendingJob>
    decreases claims.len(),
{
    if claims.len() == 0 {
        Multiset::empty()
    } else {
        let front = claims.drop_last();
        handed_in(workers, front).add(
            bag(round_batches(workers, reserve_after(workers, front), claims.last())),
        )
    }
}

/// Whether a scan ends with the last of its claims: that round has no jobs.
pub open spec fn scan_ends(workers: nat, claims: Seq<Seq<PendingJob>>) -> bool {
    &&& claims.len() > 0
    &&& round_jobs(
        workers,
        reserve_after(workers, claims.drop_last()),
        claims.last(),
    ).len() == 0
}

/// No job is lost over the rounds of a scan: what was claimed is what the
/// workers got together with what is in reserve.
pub proof fn law_scan_keeps_jobs(workers: nat, claims: Seq<Seq<PendingJob>>)
    ensures
        handed_in(workers, claims).add(reserve_after(workers, claims).to_multiset()) == bag(
            claims,
        ),
    decreases claims.len(),
{
    broadcast use vstd::seq_lib::group_to_multiset_ensures;

    if claims.len() == 0 {
        assert(handed_in(workers, claims).add(reserve_after(workers, claims).to_multiset())
            =~= bag(claims));
    } else {
        let front = claims.drop_last();
        let r = reserve_after(workers, front);
        let c = claims.last();
        law_scan_keeps_jobs(workers, front);
        law_round_keeps_jobs(workers, r, c);
        let h = handed_in(workers, front);
        let b = bag(round_batches(workers, r, c));
        let l = round_reserve(workers, r, c).to_multiset();
        assert(h.add(b).add(l) =~= h.add(b.add(l)));
        assert(h.add(r.to_multiset().add(c.to_multiset())) =~= h.add(r.to_multiset()).add(
            c.to_multiset(),
        ));
    }
}

/// A scan with workers ends with no job in reserve: the workers got all that was
/// claimed.
pub proof fn law_scan_hands_out_all(workers: nat, claims: Seq<Seq<PendingJob>>)
    requires
        workers > 0,
        scan_ends(workers, claims),
    ensures
        reserve_after(workers, claims).len() == 0,
        handed_in(workers, claims) == bag(claims),
{
    broadcast use vstd::seq_lib::group_to_multiset_ensures;

    let r = reserve_after(workers, claims.drop_last());
    let t = taken(workers, r.len()) as int;
    law_scan_keeps_jobs(workers, claims);
    law_largest_first(r.take(t) + claims.last());
    assert(workers * BATCH_SIZE > 0);
    assert(t == 0);
    assert(reserve_after(workers, claims) =~= Seq::empty());
    assert(handed_in(workers, claims).add(Seq::<PendingJob>::empty().to_multiset())
        =~= handed_in(workers, claims));
}

/// A task names its job: it has the id, the path and the checksum of the job.
pub proof fn law_task_names_job(job: PendingJob)
    ensures
        task_of(job).id == job.id,
        task_of(job).path@ == job.path@,
        task_of(job).checksum@ == job.checksum@,
{
}

/// A round hands out all its jobs, or as many as fill the batches of all
/// workers where there are more.
pub proof fn law_round_size(workers: nat, jobs: nat)
    ensures
        round_size(workers, jobs) <= jobs,
        round_size(workers, jobs) <= workers * BATCH_SIZE,
        round_size(workers, jobs) == jobs || round_size(workers, jobs) == workers * BATCH_SIZE,
        taken(workers, jobs) == round_size(workers, jobs),
{
}

/// What a round keeps back of its jobs is no larger than what it hands out;
/// what it did not take from the reserve stays there, before what is kept back.
pub proof fn law_round_takes_largest(
    workers: nat,
    reserved: Seq<PendingJob>,
    claimed: Seq<PendingJob>,
)
    ensures
        ({
            let jobs = round_jobs(workers, reserved, claimed);
            let n = round_size(workers, jobs.len()) as int;
            let t = taken(workers, reserved.len()) as int;
            &&& bag(round_batches(workers, reserved, claimed)) == jobs.take(n).to_multiset()
            &&& jobs.to_multiset() == (reserved.take(t) + claimed).to_multiset()
            &&& forall|i: int, k: int|
                #![trigger jobs[i], jobs[k]]
                0 <= i < n <= k < jobs.len() ==> jobs[i].size >= jobs[k].size
            &&& round_reserve(workers, reserved, claimed) == reserved.skip(t) + jobs.skip(n)
        }),
{
    let t = taken(workers, reserved.len()) as int;
    let jobs = round_jobs(workers, reserved, claimed);
    let n = round_size(workers, jobs.len());
    law_largest_first(reserved.take(t) + claimed);
    assert(jobs.take(n as int).take(n as int) =~= jobs.take(n as int));
    assert(round_size(workers, jobs.take(n as int).len()) == n);
    law_handed_out(jobs.take(n as int), workers, n);
}

/// Together with what it has in reserve, a round claims enough to fill the
/// batches of all workers and the reserve; where the reserve alone fills the
/// batches, nothing is claimed.
pub proof fn law_plan_claim(
    workers: usize,
    reserved: usize,
    reserve_size: usize,
    plan: ClaimPlan,
)
    requires
        workers * BATCH_SIZE + reserve_size <= i64::MAX,
        workers * BATCH_SIZE + reserve_size <= usize::MAX,
        call_ensures(plan_claim, (workers, reserved, reserve_size), plan),
    ensures
        plan.take <= reserved,
        plan.take <= workers * BATCH_SIZE,
        match plan.ask {
            None => plan.take == workers * BATCH_SIZE,
            Some(n) => plan.take == reserved && reserved + n == workers * BATCH_SIZE + reserve_size,
        },
        plan.ask is None <==> reserved >= workers * BATCH_SIZE,
{
}

} // verus!
