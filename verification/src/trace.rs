//! The log model: per-task records grouped into runs, and their validation.

use vstd::prelude::*;

verus! {

/// A task's identity is its index in the owning run's task sequence;
/// identifier 0 is the run's root task.
pub type TaskId = usize;

/// Monotonic time, in abstract trace units.
pub type TimeStamp = u64;

/// Caps that keep every layout computation inside `u64` coordinates.
/// A run beyond them is rejected with `TraceError::RunTooLarge`.
pub const MAX_TASKS: usize = 0x10_0000;

/// Largest admissible thread count of a run.
pub const MAX_THREADS: usize = 0x10_0000;

/// Largest admissible timestamp of a run.
pub const MAX_TIME: u64 = 0x100_0000_0000;

/// One executed unit of work, recorded by the (external) instrumentation.
pub struct TaskLog {
    /// Index of the worker thread that executed the task.
    pub thread_id: usize,
    /// When the task started.
    pub start_time: TimeStamp,
    /// When the task ended; never before `start_time` in a valid run.
    pub end_time: TimeStamp,
    /// Identifiers of the logical successor tasks that this one forks.
    pub children: Vec<TaskId>,
    /// Optional work account: (work-type tag, work amount), used for
    /// throughput-based coloring.
    pub work: Option<(u64, u32)>,
}

/// One captured execution: its tasks and the number of worker threads.
pub struct RunLog {
    /// All task records of the run; a task's identifier is its index here.
    pub tasks_logs: Vec<TaskLog>,
    /// Number of worker threads active during the run.
    pub threads_number: usize,
}

/// Why a run was rejected.  Reconstruction and layout either produce a
/// complete, consistent result or fail with one of these; there is no
/// partial output.
#[derive(Clone, Copy, Debug, PartialEq, Eq, Structural)]
pub enum TraceError {
    /// The run holds no task at all.
    EmptyRun,
    /// Task count, thread count or a timestamp lies beyond the documented caps.
    RunTooLarge,
    /// A task ends before it starts.
    ReversedTask,
    /// A task names an executing thread outside `0..threads_number`.
    UnknownThread,
    /// A task lists a child identifier that is no task of the run.
    UnknownChild,
    /// A work-tagged task has zero duration, so its speed is undefined.
    /// Policy: such a run is rejected rather than given a made-up speed.
    ZeroDurationWork,
    /// A task is never claimed by any parent processed before it.
    TaskNotClaimed,
    /// A fork names a child that is already claimed by another branch.
    ForkConflict,
    /// Two branches join on a task, but the joining branch records no fork
    /// to return to.
    JoinWithoutFork,
    /// Reconstruction left a sequence with no blocks: the recorded joins
    /// are inconsistent with the recorded forks.
    EmptyBranch,
    /// A computed dimension or coordinate exceeds the coordinate range.
    LayoutOverflow,
}

/// What a single task record must satisfy, inside a run of `n` tasks and
/// `threads` worker threads.
pub open spec fn valid_task(t: TaskLog, n: int, threads: int) -> bool {
    &&& t.start_time <= t.end_time
    &&& t.end_time <= MAX_TIME
    &&& (t.thread_id as int) < threads
    &&& forall|j: int| 0 <= j < t.children@.len() ==> (t.children@[j] as int) < n
    &&& (t.work is Some ==> t.start_time < t.end_time)
}

/// What a whole run must satisfy before reconstruction may start.
pub open spec fn valid_run(r: RunLog) -> bool {
    &&& 1 <= r.tasks_logs@.len() <= MAX_TASKS
    &&& r.threads_number <= MAX_THREADS
    &&& forall|i: int|
        0 <= i < r.tasks_logs@.len() ==> valid_task(
            #[trigger] r.tasks_logs@[i],
            r.tasks_logs@.len() as int,
            r.threads_number as int,
        )
}

/// The first reason a single task record is rejected, if any.
pub open spec fn task_fault(t: TaskLog, n: int, threads: int) -> Option<TraceError> {
    if t.end_time < t.start_time {
        Some(TraceError::ReversedTask)
    } else if t.end_time > MAX_TIME {
        Some(TraceError::RunTooLarge)
    } else if t.thread_id as int >= threads {
        Some(TraceError::UnknownThread)
    } else if exists|j: int| 0 <= j < t.children@.len() && (t.children@[j] as int) >= n {
        Some(TraceError::UnknownChild)
    } else if t.work is Some && t.start_time == t.end_time {
        Some(TraceError::ZeroDurationWork)
    } else {
        None
    }
}

/// Checks one task record; returns its first fault, if any.
fn check_task(t: &TaskLog, n: usize, threads: usize) -> (res: Option<TraceError>)
    ensures
        res == task_fault(*t, n as int, threads as int),
        res is None <==> valid_task(*t, n as int, threads as int),
{
    if t.end_time < t.start_time {
        Some(TraceError::ReversedTask)
    } else if t.end_time > MAX_TIME {
        Some(TraceError::RunTooLarge)
    } else if t.thread_id >= threads {
        Some(TraceError::UnknownThread)
    } else {
        let mut j: usize = 0;
        while j < t.children.len()
            invariant
                0 <= j <= t.children@.len(),
                t.start_time <= t.end_time,
                t.end_time <= MAX_TIME,
                (t.thread_id as int) < threads,
                forall|k: int| 0 <= k < j ==> (t.children@[k] as int) < n,
            decreases t.children@.len() - j,
        {
            if t.children[j] >= n {
                proof {
                    let jj = j as int;
                    assert(0 <= jj < t.children@.len() && (t.children@[jj] as int) >= n);
                    assert(exists|x: int| 0 <= x < t.children@.len() && (t.children@[x] as int) >= n);
                }
                return Some(TraceError::UnknownChild);
            }
            j += 1;
        }
        if t.work.is_some() && t.start_time == t.end_time {
            Some(TraceError::ZeroDurationWork)
        } else {
            None
        }
    }
}

/// Checks a run against the log model: at least one task, counts and
/// timestamps under the caps, every child identifier a task of the run,
/// every thread index under the run's thread count, and no work tag on a
/// zero-duration task.
///
/// Faults are reported in record order: the run-level checks first, then
/// the first fault of the first faulty task.
pub fn validate_run(r: &RunLog) -> (res: Result<(), TraceError>)
    ensures
        res is Ok <==> valid_run(*r),
        r.tasks_logs@.len() == 0 ==> res == Err::<(), TraceError>(TraceError::EmptyRun),
        r.tasks_logs@.len() > MAX_TASKS || (r.tasks_logs@.len() > 0 && r.threads_number
            > MAX_THREADS) ==> res == Err::<(), TraceError>(TraceError::RunTooLarge),
        res is Err && 1 <= r.tasks_logs@.len() <= MAX_TASKS && r.threads_number <= MAX_THREADS
            ==> exists|i: int|
            0 <= i < r.tasks_logs@.len() && #[trigger] task_fault(
                r.tasks_logs@[i],
                r.tasks_logs@.len() as int,
                r.threads_number as int,
            ) == Some(res->Err_0) && forall|k: int|
                0 <= k < i ==> task_fault(
                    #[trigger] r.tasks_logs@[k],
                    r.tasks_logs@.len() as int,
                    r.threads_number as int,
                ) is None,
{
    let n = r.tasks_logs.len();
    if n == 0 {
        return Err(TraceError::EmptyRun);
    }
    if n > MAX_TASKS || r.threads_number > MAX_THREADS {
        return Err(TraceError::RunTooLarge);
    }
    let mut i: usize = 0;
    while i < n
        invariant
            0 <= i <= n,
            n == r.tasks_logs@.len(),
            1 <= n <= MAX_TASKS,
            r.threads_number <= MAX_THREADS,
            forall|k: int|
                0 <= k < i ==> valid_task(
                    #[trigger] r.tasks_logs@[k],
                    n as int,
                    r.threads_number as int,
                ),
            forall|k: int|
                0 <= k < i ==> task_fault(
                    #[trigger] r.tasks_logs@[k],
                    n as int,
                    r.threads_number as int,
                ) is None,
        decreases n - i,
    {
        match check_task(&r.tasks_logs[i], n, r.threads_number) {
            Some(e) => {
                assert(!valid_task(r.tasks_logs@[i as int], n as int, r.threads_number as int));
                return Err(e);
            },
            None => {},
        }
        i += 1;
    }
    Ok(())
}

} // verus!
