//! Settings of the extraction pipeline.

use vstd::prelude::*;

verus! {

/// Capacity of a record queue where none is set.
pub const DEFAULT_CHANNEL_CAPACITY: usize = 256;

/// The most jobs that one worker gets in one round.
pub const BATCH_SIZE: usize = 30;

/// Documents per flush where none is set.
pub const DEFAULT_INDEXER_BATCH_SIZE: usize = 500;

/// Documents between two commits where none is set.
pub const DEFAULT_COMMIT_INTERVAL: u64 = 5000;

/// Seconds between two commits where none is set.
pub const DEFAULT_COMMIT_TIMEOUT_SECS: u64 = 30;

/// Reserved jobs per worker.
pub const RESERVOIR_FACTOR: usize = 4;

/// The most jobs held in reserve.
pub const MAX_RESERVOIR: usize = 200;

/// `num_cpus::get`: the number of logical processors, which the crate
/// documents to be at least one. It depends on the machine, so nothing more
/// is said of it.
#[verifier::external_body]
pub(crate) fn available_cores() -> (n: usize)
    ensures
        n >= 1,
{
    num_cpus::get()
}

/// What the user may set; `None` stands for the default.
pub struct PipelineConfig {
    /// Extraction workers.
    pub num_extract_workers: Option<usize>,
    /// Threads of the index writer.
    pub num_indexer_threads: Option<usize>,
    /// Documents per flush.
    pub indexer_batch_size: Option<usize>,
    /// Documents between two commits.
    pub commit_interval: Option<u64>,
    /// Seconds between two commits.
    pub commit_timeout: Option<u64>,
    /// Capacity of the record queues.
    pub channel_capacity: Option<usize>,
    /// Path of the worker program.
    pub worker_path: Option<String>,
}

impl Default for PipelineConfig {
    fn default() -> (r: Self)
        ensures
            r.num_extract_workers is None,
            r.num_indexer_threads is None,
            r.indexer_batch_size is None,
            r.commit_interval is None,
            r.commit_timeout is None,
            r.channel_capacity is None,
            r.worker_path is None,
    {
        PipelineConfig {
            num_extract_workers: None,
            num_indexer_threads: None,
            indexer_batch_size: None,
            commit_interval: None,
            commit_timeout: None,
            channel_capacity: None,
            worker_path: None,
        }
    }
}

/// A value that the user set, raised to one, or the default.
pub open spec fn positive_or(set: Option<int>, default: int) -> int {
    match set {
        Some(v) => if v < 1 {
            1
        } else {
            v
        },
        None => default,
    }
}

/// An optional machine integer as a mathematical one.
pub open spec fn opt_int(o: Option<usize>) -> Option<int> {
    match o {
        Some(v) => Some(v as int),
        None => None,
    }
}

/// An optional machine integer as a mathematical one.
pub open spec fn opt_int64(o: Option<u64>) -> Option<int> {
    match o {
        Some(v) => Some(v as int),
        None => None,
    }
}

/// Extraction workers on a machine with `cores` processors where none are
/// set: two processors stay free, and at most eight workers run.
pub open spec fn default_workers(cores: int) -> int {
    if cores <= 3 {
        1
    } else if cores >= 10 {
        8
    } else {
        cores - 2
    }
}

/// Index writer threads where none are set.
pub open spec fn default_indexer_threads(cores: int) -> int {
    if cores < 4 {
        cores
    } else {
        4
    }
}

/// Text recognition workers where none are set: `cores / 2 - 1`, held between
/// one and two.
pub open spec fn default_ocr_workers(cores: int) -> int {
    if cores / 2 - 1 >= 2 {
        2
    } else {
        1
    }
}

impl PipelineConfig {
    /// Extraction workers on a machine with `cores` processors.
    pub fn extract_workers_on(&self, cores: usize) -> (n: usize)
        ensures
            n == positive_or(opt_int(self.num_extract_workers), default_workers(cores as int)),
    {
        match self.num_extract_workers {
            Some(v) => if v < 1 {
                1
            } else {
                v
            },
            None => {
                let spare = cores.saturating_sub(2);
                if spare < 1 {
                    1
                } else if spare > 8 {
                    8
                } else {
                    spare
                }
            },
        }
    }

    /// Extraction workers on this machine.
    pub fn extract_workers(&self) -> (n: usize)
        ensures
            exists|cores: int|
                cores >= 1 && n == positive_or(
                    opt_int(self.num_extract_workers),
                    #[trigger] default_workers(cores),
                ),
            self.num_extract_workers is Some ==> n == positive_or(
                opt_int(self.num_extract_workers),
                1,
            ),
            self.num_extract_workers is None ==> 1 <= n <= 8,
    {
        let cores = available_cores();
        let n = self.extract_workers_on(cores);
        assert(n == positive_or(opt_int(self.num_extract_workers), default_workers(cores as int)));
        n
    }

    /// Documents per flush.
    pub fn indexer_batch(&self) -> (n: usize)
        ensures
            n == positive_or(
                opt_int(self.indexer_batch_size),
                DEFAULT_INDEXER_BATCH_SIZE as int,
            ),
    {
        match self.indexer_batch_size {
            Some(v) => if v == 0 {
                1
            } else {
                v
            },
            None => DEFAULT_INDEXER_BATCH_SIZE,
        }
    }

    /// Documents between two commits.
    pub fn commit_int(&self) -> (n: u64)
        ensures
            n == positive_or(opt_int64(self.commit_interval), DEFAULT_COMMIT_INTERVAL as int),
    {
        match self.commit_interval {
            Some(v) => if v == 0 {
                1
            } else {
                v
            },
            None => DEFAULT_COMMIT_INTERVAL,
        }
    }

    /// Seconds between two commits.
    pub fn commit_to(&self) -> (n: u64)
        ensures
            n == positive_or(opt_int64(self.commit_timeout), DEFAULT_COMMIT_TIMEOUT_SECS as int),
    {
        match self.commit_timeout {
            Some(v) => if v == 0 {
                1
            } else {
                v
            },
            None => DEFAULT_COMMIT_TIMEOUT_SECS,
        }
    }

    /// Capacity of the record queues.
    pub fn channel_cap(&self) -> (n: usize)
        ensures
            n == positive_or(opt_int(self.channel_capacity), DEFAULT_CHANNEL_CAPACITY as int),
    {
        match self.channel_capacity {
            Some(v) => if v == 0 {
                1
            } else {
                v
            },
            None => DEFAULT_CHANNEL_CAPACITY,
        }
    }

    /// Index writer threads on a machine with `cores` processors.
    pub fn indexer_threads_on(&self, cores: usize) -> (n: usize)
        ensures
            n == positive_or(
                opt_int(self.num_indexer_threads),
                default_indexer_threads(cores as int),
            ),
    {
        match self.num_indexer_threads {
            Some(v) => if v < 1 {
                1
            } else {
                v
            },
            None => if cores < 4 {
                cores
            } else {
                4
            },
        }
    }

    /// Index writer threads on this machine.
    pub fn indexer_threads(&self) -> (n: usize)
        ensures
            self.num_indexer_threads is Some ==> n == positive_or(
                opt_int(self.num_indexer_threads),
                1,
            ),
            self.num_indexer_threads is None ==> 1 <= n <= 4,
    {
        let cores = available_cores();
        self.indexer_threads_on(cores)
    }

    /// Jobs held in reserve where `workers` workers run.
    pub fn reservoir_size_for(workers: usize) -> (n: usize)
        ensures
            n == if workers * RESERVOIR_FACTOR < MAX_RESERVOIR {
                workers * RESERVOIR_FACTOR
            } else {
                MAX_RESERVOIR as int
            },
    {
        if workers < MAX_RESERVOIR / RESERVOIR_FACTOR {
            workers * RESERVOIR_FACTOR
        } else {
            MAX_RESERVOIR
        }
    }

    /// Jobs held in reserve.
    pub fn reservoir_size(&self) -> (n: usize)
        ensures
            self.num_extract_workers matches Some(w) ==> n == {
                let workers = positive_or(Some(w as int), 1);
                if workers * RESERVOIR_FACTOR < MAX_RESERVOIR {
                    workers * RESERVOIR_FACTOR
                } else {
                    MAX_RESERVOIR as int
                }
            },
            self.num_extract_workers is None ==> 4 <= n <= 32 && n % 4 == 0,
    {
        let workers = self.extract_workers();
        PipelineConfig::reservoir_size_for(workers)
    }
}

/// Text recognition workers on a machine with `cores` processors.
pub fn resolve_ocr_workers_on(override_val: Option<usize>, cores: usize) -> (n: usize)
    ensures
        n == positive_or(opt_int(override_val), default_ocr_workers(cores as int)),
{
    match override_val {
        Some(v) => if v < 1 {
            1
        } else {
            v
        },
        None => {
            let half = cores / 2;
            if half >= 3 {
                2
            } else {
                1
            }
        },
    }
}

/// Text recognition workers on this machine.
pub fn resolve_ocr_workers(override_val: Option<usize>) -> (n: usize)
    ensures
        override_val is Some ==> n == positive_or(opt_int(override_val), 1),
        override_val is None ==> 1 <= n <= 2,
{
    let cores = available_cores();
    resolve_ocr_workers_on(override_val, cores)
}

/// Threads that align word positions on a machine with `cores` processors:
/// half of them, held between one and four.
pub fn align_threads_on(cores: usize) -> (n: usize)
    ensures
        n == if cores / 2 < 1 {
            1
        } else if cores / 2 > 4 {
            4
        } else {
            (cores / 2) as int
        },
{
    let half = cores / 2;
    if half < 1 {
        1
    } else if half > 4 {
        4
    } else {
        half
    }
}

/// A number that is set counts as it is set, but at least as one; otherwise the
/// default counts.
pub proof fn law_positive_or(set: Option<int>, default: int)
    ensures
        set matches Some(v) ==> positive_or(set, default) >= 1 && positive_or(set, default) >= v && (
        v >= 1 ==> positive_or(set, default) == v),
        set matches Some(v) ==> v < 1 ==> positive_or(set, default) == 1,
        set is None ==> positive_or(set, default) == default,
{
}

/// By default two cores are left to others; there are at least one and at most
/// eight workers.
pub proof fn law_default_workers(cores: int)
    ensures
        1 <= default_workers(cores) <= 8,
        1 <= cores - 2 <= 8 ==> default_workers(cores) == cores - 2,
        cores - 2 < 1 ==> default_workers(cores) == 1,
        cores - 2 > 8 ==> default_workers(cores) == 8,
{
}

/// By default the index is written by as many threads as there are cores, and
/// by at most four.
pub proof fn law_default_indexer_threads(cores: int)
    ensures
        default_indexer_threads(cores) <= 4,
        default_indexer_threads(cores) <= cores,
        default_indexer_threads(cores) == cores || default_indexer_threads(cores) == 4,
{
}

/// By default characters are recognised by one worker less than half of the
/// cores, by at least one and at most two.
pub proof fn law_default_ocr_workers(cores: int)
    requires
        cores >= 0,
    ensures
        1 <= default_ocr_workers(cores) <= 2,
        1 <= cores / 2 - 1 <= 2 ==> default_ocr_workers(cores) == cores / 2 - 1,
        cores < 4 ==> default_ocr_workers(cores) == 1,
        cores >= 6 ==> default_ocr_workers(cores) == 2,
{
}

} // verus!
