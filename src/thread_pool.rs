use vstd::prelude::*;

use crate::error::Result;

verus! {

/// A pool of worker threads that run submitted jobs.
pub trait ThreadPool: Sized {
    /// A pool of `size` workers.
    fn new(size: usize) -> Result<Self>;

    /// Queues `job` to run on one of the workers.
    fn execute<F: FnOnce() + Send + 'static>(&self, job: F) -> Result<()>;
}

/// What travels on the pool's channels: a job for a worker, the news that
/// the worker reporting as `id` died while running one, or the order to stop.
pub enum Message<J> {
    Dead(usize),
    Work(J),
    Terminate,
}

/// What a worker does with the message it received: run the job, or stop
/// (on `Terminate`, and on a `Dead` that reached it by mistake).
pub fn worker_step<J>(msg: Message<J>) -> (r: Option<J>)
    ensures
        match msg {
            Message::Work(j) => r == Some(j),
            _ => r is None,
        },
{
    match msg {
        Message::Work(job) => Some(job),
        _ => None,
    }
}

/// What the supervisor does with a message.
#[derive(Debug, Clone, Copy, PartialEq, Eq)]
pub enum SupervisorAction {
    /// Start a replacement worker in slot `slot`, reporting as `id`.
    Revive { slot: usize, id: usize },
    /// Nothing.
    Ignore,
    /// Stop supervising.
    Stop,
}

/// The supervisor's record of the pool: for each of its `size` slots, the
/// id under which the worker there reports its death.
pub struct Supervisor {
    size: usize,
    workers: Vec<usize>,
}

impl Supervisor {
    pub closed spec fn spec_size(self) -> usize {
        self.size
    }

    /// The ids of the workers, slot by slot.
    pub closed spec fn spec_workers(self) -> Seq<usize> {
        self.workers@
    }

    /// One worker per slot.
    pub open spec fn wf(self) -> bool {
        self.spec_workers().len() == self.spec_size()
    }

    /// The record of a fresh pool: worker `i` in slot `i`.
    pub fn new(size: usize) -> (r: Supervisor)
        ensures
            r.wf(),
            r.spec_size() == size,
            forall|i: int| 0 <= i < size ==> r.spec_workers()[i] == i,
    {
        let mut workers: Vec<usize> = Vec::new();
        let mut i: usize = 0;
        while i < size
            invariant
                0 <= i <= size,
                workers@.len() == i,
                forall|j: int| 0 <= j < i ==> workers@[j] == j,
            decreases size - i,
        {
            workers.push(i);
            i += 1;
        }
        Supervisor { size, workers }
    }

    pub fn size(&self) -> (r: usize)
        ensures
            r == self.spec_size(),
    {
        self.size
    }

    /// The number of workers the pool has.
    pub fn worker_count(&self) -> (r: usize)
        ensures
            r == self.spec_workers().len(),
    {
        self.workers.len()
    }

    /// Takes in a message of the supervisor's channel. The death of the
    /// worker reporting as `id` puts a replacement, reporting as `id` too,
    /// into slot `id % size`, so that the pool keeps its size; `Terminate`
    /// stops the supervisor; a job sent here by mistake is ignored.
    pub fn on_message<J>(&mut self, msg: &Message<J>) -> (r: SupervisorAction)
        requires
            old(self).wf(),
        ensures
            final(self).wf(),
            final(self).spec_size() == old(self).spec_size(),
            match *msg {
                Message::Dead(id) => if old(self).spec_size() == 0 {
                    r == SupervisorAction::Ignore && final(self).spec_workers() == old(
                        self,
                    ).spec_workers()
                } else {
                    &&& r == SupervisorAction::Revive { slot: (id % old(self).spec_size()) as usize, id }
                    &&& final(self).spec_workers() == old(self).spec_workers().update(
                        (id % old(self).spec_size()) as int,
                        id,
                    )
                },
                Message::Work(_) => r == SupervisorAction::Ignore && final(self).spec_workers()
                    == old(self).spec_workers(),
                Message::Terminate => r == SupervisorAction::Stop && final(self).spec_workers()
                    == old(self).spec_workers(),
            },
    {
        match msg {
            Message::Dead(id) => {
                if self.size == 0 {
                    SupervisorAction::Ignore
                } else {
                    let slot = *id % self.size;
                    self.workers.set(slot, *id);
                    SupervisorAction::Revive { slot, id: *id }
                }
            },
            Message::Work(_) => SupervisorAction::Ignore,
            Message::Terminate => SupervisorAction::Stop,
        }
    }
}

} // verus!
