//! Thread pools: where the server runs the jobs that serve its connections.

use vstd::prelude::*;
use crate::error::{KvStoreError, Result};

verus! {

/// An abstraction of a thread pool.
pub trait ThreadPool: Sized {
    /// Returns a new thread pool with the given number of workers.
    fn new(threads: u32) -> (pool: Result<Self>);

    /// Spawns the given job on the thread pool. The job must be one that can
    /// be run.
    fn spawn<F>(&self, job: F) where F: FnOnce() + Send + 'static
        requires
            job.requires(()),
    ;
}

/// Where a worker of a shared-queue pool stands.
#[derive(Debug, Clone, Copy, PartialEq, Eq, Structural)]
pub enum WorkerState {
    /// It waits for the queue to hand it a job.
    Waiting,
    /// It runs a job.
    Running,
    /// It has left its loop.
    Stopped,
}

/// What happens to a worker.
#[derive(Debug, Clone, Copy, PartialEq, Eq, Structural)]
pub enum WorkerEvent {
    /// The queue handed it a job.
    JobReceived,
    /// The queue is closed: the pool dropped its sending side.
    QueueClosed,
    /// The job it ran came back.
    JobReturned,
    /// The job it ran panicked.
    JobPanicked,
}

/// What a worker does next.
#[derive(Debug, Clone, Copy, PartialEq, Eq, Structural)]
pub enum WorkerAction {
    /// Take the next job from the queue.
    Receive,
    /// Run the job inside a panic boundary.
    Run,
    /// Log the panic of the job, then take the next job from the queue.
    LogAndReceive,
    /// Leave the loop.
    Exit,
}

/// The state that a worker is in after an event, and what it does next.
///
/// Only a closed queue stops a worker. A job that panics leaves it waiting
/// for the next job, as a job that returns does.
pub open spec fn spec_worker_step(state: WorkerState, event: WorkerEvent) -> (
    WorkerState,
    WorkerAction,
) {
    match (state, event) {
        (WorkerState::Stopped, _) => (WorkerState::Stopped, WorkerAction::Exit),
        (_, WorkerEvent::QueueClosed) => (WorkerState::Stopped, WorkerAction::Exit),
        (WorkerState::Waiting, WorkerEvent::JobReceived) => (
            WorkerState::Running,
            WorkerAction::Run,
        ),
        (WorkerState::Running, WorkerEvent::JobReturned) => (
            WorkerState::Waiting,
            WorkerAction::Receive,
        ),
        (WorkerState::Running, WorkerEvent::JobPanicked) => (
            WorkerState::Waiting,
            WorkerAction::LogAndReceive,
        ),
        (WorkerState::Waiting, _) => (WorkerState::Waiting, WorkerAction::Receive),
        (WorkerState::Running, WorkerEvent::JobReceived) => (
            WorkerState::Running,
            WorkerAction::Run,
        ),
    }
}

/// Decides what a worker does after an event.
pub fn worker_step(state: WorkerState, event: WorkerEvent) -> (next: (WorkerState, WorkerAction))
    ensures
        next == spec_worker_step(state, event),
{
    match state {
        WorkerState::Stopped => (WorkerState::Stopped, WorkerAction::Exit),
        WorkerState::Waiting => match event {
            WorkerEvent::QueueClosed => (WorkerState::Stopped, WorkerAction::Exit),
            WorkerEvent::JobReceived => (WorkerState::Running, WorkerAction::Run),
            _ => (WorkerState::Waiting, WorkerAction::Receive),
        },
        WorkerState::Running => match event {
            WorkerEvent::QueueClosed => (WorkerState::Stopped, WorkerAction::Exit),
            WorkerEvent::JobReturned => (WorkerState::Waiting, WorkerAction::Receive),
            WorkerEvent::JobPanicked => (WorkerState::Waiting, WorkerAction::LogAndReceive),
            WorkerEvent::JobReceived => (WorkerState::Running, WorkerAction::Run),
        },
    }
}

/// The state of a worker after a run of events.
pub open spec fn worker_after(state: WorkerState, events: Seq<WorkerEvent>) -> WorkerState
    decreases events.len(),
{
    if events.len() == 0 {
        state
    } else {
        spec_worker_step(worker_after(state, events.drop_last()), events.last()).0
    }
}

/// Panic isolation: as long as the queue is not closed, a worker that has
/// not stopped does not stop, however many of its jobs panic; and after a
/// job that panicked it waits for the next one.
pub proof fn lemma_panics_stop_no_worker(state: WorkerState, events: Seq<WorkerEvent>)
    requires
        state != WorkerState::Stopped,
        forall|i: int| 0 <= i < events.len() ==> events[i] != WorkerEvent::QueueClosed,
    ensures
        worker_after(state, events) != WorkerState::Stopped,
        spec_worker_step(WorkerState::Running, WorkerEvent::JobPanicked).0
            == WorkerState::Waiting,
    decreases events.len(),
{
    if events.len() > 0 {
        assert forall|i: int| 0 <= i < events.drop_last().len() implies events.drop_last()[i]
            != WorkerEvent::QueueClosed by {
            assert(events.drop_last()[i] == events[i]);
        }
        lemma_panics_stop_no_worker(state, events.drop_last());
        assert(events.last() == events[events.len() - 1]);
    }
}

/// Adapter for the rayon thread pool. What it holds is rayon's pool, of
/// which nothing is known here but the number of its workers.
#[verifier::external_body]
pub struct RayonThreadPool {
    pool: ::rayon::ThreadPool,
}

/// The number of worker threads that the pool was started with.
pub uninterp spec fn pool_workers(pool: RayonThreadPool) -> nat;

/// Calls `rayon::ThreadPoolBuilder::build` for a pool of `threads` workers,
/// with a panic handler that does nothing, so that a job that panics does
/// not take the process down with it.
///
/// The contract claims what rayon's source shows of a pool that comes back:
/// a number of workers above 0 is taken as it is, but for rayon's own upper
/// limit, which is no less than 255. Of the number 0, for which rayon asks
/// the machine, nothing is claimed, nor of whether the pool can be started:
/// `None` stands for the error that the builder reports when it cannot.
#[verifier::external_body]
fn build_pool(threads: usize) -> (pool: Option<RayonThreadPool>)
    ensures
        pool matches Some(p) ==> (threads > 0 ==> 0 < pool_workers(p) <= threads),
        pool matches Some(p) ==> (0 < threads <= 255 ==> pool_workers(p) == threads),
{
    match ::rayon::ThreadPoolBuilder::new().num_threads(threads).panic_handler(|_| {}).build() {
        Ok(pool) => Some(RayonThreadPool { pool }),
        Err(_) => None,
    }
}

/// Calls `rayon::ThreadPool::current_num_threads`: the number of workers of
/// the pool, which is the number that it was started with.
#[verifier::external_body]
fn count_workers(pool: &RayonThreadPool) -> (count: usize)
    ensures
        count == pool_workers(*pool),
{
    pool.pool.current_num_threads()
}

/// Calls `rayon::ThreadPool::spawn`, which hands the job to the pool and
/// returns without waiting for it.
#[verifier::external_body]
fn spawn_in_pool<F>(pool: &RayonThreadPool, job: F) where F: FnOnce() + Send + 'static
    requires
        job.requires(()),
{
    pool.pool.spawn(job)
}

/// What `new` makes of what the builder gave: the pool, or `GenericFailure`
/// where there is none.
pub fn started_pool(built: Option<RayonThreadPool>) -> (pool: Result<RayonThreadPool>)
    ensures
        pool == match built {
            Some(p) => Ok::<RayonThreadPool, KvStoreError>(p),
            None => Err::<RayonThreadPool, KvStoreError>(KvStoreError::GenericFailure),
        },
{
    match built {
        Some(p) => Ok(p),
        None => Err(KvStoreError::GenericFailure),
    }
}

impl RayonThreadPool {
    /// The number of workers of the pool.
    pub fn workers(&self) -> (count: usize)
        ensures
            count == pool_workers(*self),
    {
        count_workers(self)
    }
}

impl ThreadPool for RayonThreadPool {
    /// Asks rayon for a pool with the given number of workers.
    ///
    /// A pool that comes back has that number of workers if the number is
    /// between 1 and 255, and otherwise at least one and no more than were
    /// asked for, unless 0 were asked for, which leaves the number to
    /// rayon. Where rayon cannot start the pool, the result is
    /// `GenericFailure`.
    fn new(threads: u32) -> (pool: Result<Self>)
        ensures
            pool matches Ok(p) ==> (threads > 0 ==> 0 < pool_workers(p) <= threads),
            pool matches Ok(p) ==> (0 < threads <= 255 ==> pool_workers(p) == threads),
            pool matches Err(e) ==> e == KvStoreError::GenericFailure,
    {
        started_pool(build_pool(threads as usize))
    }

    /// Spawns the given job on the pool.
    fn spawn<F>(&self, job: F) where F: FnOnce() + Send + 'static {
        spawn_in_pool(self, job)
    }
}

} // verus!
