//! The hand-over protocol between the workers of a pool and the single
//! consumer that writes their results.
//!
//! Every worker takes cell indices from a queue that was filled before the
//! pool started. An empty queue means that no work is left: the worker then
//! sends one sentinel and stops. The consumer counts the sentinels, closes
//! the intake when every worker has sent its own, and goes on writing what is
//! still on the way. The threads, the queue and the channel belong to the
//! caller; this module decides what to do with what they deliver.
use vstd::prelude::*;

verus! {

/// What a worker does after looking into the queue.
#[derive(Clone, Copy, Debug, PartialEq, Eq, Structural)]
pub enum WorkerStep {
    /// Infer this cell and send the result.
    Run(usize),
    /// Send the sentinel and stop.
    Signal,
}

/// What arrives at the consumer.
#[derive(Clone, Copy, Debug, PartialEq, Eq, Structural)]
pub enum Message {
    /// The result of one cell.
    Result,
    /// A worker found the queue empty.
    Sentinel,
}

/// What the consumer does with a message.
#[derive(Clone, Copy, Debug, PartialEq, Eq, Structural)]
pub enum Action {
    /// Write the result and advance the progress count.
    Write,
    /// A worker has finished; others are still running.
    Count,
    /// The last worker has finished: close the intake, then drain the channel.
    CloseIntake,
    /// A sentinel after the intake was closed: nothing to do.
    Discard,
}

/// The consumer's count of the workers that have finished.
pub struct Consumer {
    workers: usize,
    finished: usize,
}

/// The consumer as the contracts see it.
pub struct ConsumerState {
    pub workers: nat,
    pub finished: nat,
}

impl ConsumerState {
    /// The intake is closed: every worker has sent its sentinel.
    pub open spec fn draining(self) -> bool {
        self.finished == self.workers
    }

    /// No more workers have finished than there are.
    pub open spec fn wf(self) -> bool {
        self.finished <= self.workers
    }

    /// The state after `m`.
    pub open spec fn next(self, m: Message) -> ConsumerState {
        if m == Message::Sentinel && !self.draining() {
            ConsumerState { workers: self.workers, finished: self.finished + 1 }
        } else {
            self
        }
    }

    /// What is done with `m`.
    pub open spec fn action(self, m: Message) -> Action {
        match m {
            Message::Result => Action::Write,
            Message::Sentinel => if self.draining() {
                Action::Discard
            } else if self.finished + 1 == self.workers {
                Action::CloseIntake
            } else {
                Action::Count
            },
        }
    }

    /// The state after all of `ms`, first message first.
    pub open spec fn after(self, ms: Seq<Message>) -> ConsumerState
        decreases ms.len(),
    {
        if ms.len() == 0 {
            self
        } else {
            self.after(ms.drop_last()).next(ms.last())
        }
    }
}

/// The number of sentinels among `ms`.
pub open spec fn sentinels(ms: Seq<Message>) -> nat
    decreases ms.len(),
{
    if ms.len() == 0 {
        0
    } else {
        sentinels(ms.drop_last()) + if ms.last() == Message::Sentinel {
            1nat
        } else {
            0nat
        }
    }
}

/// The number of results among `ms`.
pub open spec fn results(ms: Seq<Message>) -> nat
    decreases ms.len(),
{
    if ms.len() == 0 {
        0
    } else {
        results(ms.drop_last()) + if ms.last() == Message::Result {
            1nat
        } else {
            0nat
        }
    }
}

/// The number of results written while `ms` arrives at a consumer in state
/// `c`.
pub open spec fn written(c: ConsumerState, ms: Seq<Message>) -> nat
    decreases ms.len(),
{
    if ms.len() == 0 {
        0
    } else {
        written(c, ms.drop_last()) + if c.after(ms.drop_last()).action(ms.last())
            == Action::Write {
            1nat
        } else {
            0nat
        }
    }
}

impl View for Consumer {
    type V = ConsumerState;

    closed spec fn view(&self) -> ConsumerState {
        ConsumerState { workers: self.workers as nat, finished: self.finished as nat }
    }
}

impl Consumer {
    #[verifier::type_invariant]
    spec fn inv(self) -> bool {
        self.finished <= self.workers
    }

    /// A consumer for a pool of `workers` workers. With no worker there is
    /// no sentinel to wait for: the intake is closed from the start.
    pub fn new(workers: usize) -> (r: Consumer)
        ensures
            r@ == (ConsumerState { workers: workers as nat, finished: 0 }),
            r@.wf(),
    {
        Consumer { workers, finished: 0 }
    }

    /// The number of workers of the pool.
    pub fn workers(&self) -> (r: usize)
        ensures
            r == self@.workers,
    {
        self.workers
    }

    /// The number of workers whose sentinel has been counted.
    pub fn finished(&self) -> (r: usize)
        ensures
            r == self@.finished,
            self@.wf(),
    {
        proof {
            use_type_invariant(self);
        }
        self.finished
    }

    /// Every worker has sent its sentinel.
    pub fn is_draining(&self) -> (r: bool)
        ensures
            r == self@.draining(),
    {
        self.finished == self.workers
    }

    /// Takes one message off the channel and says what to do with it.
    pub fn receive(&mut self, m: Message) -> (r: Action)
        ensures
            final(self)@ == old(self)@.next(m),
            r == old(self)@.action(m),
            final(self)@.wf(),
    {
        proof {
            use_type_invariant(&*self);
        }
        match m {
            Message::Result => Action::Write,
            Message::Sentinel => {
                if self.finished == self.workers {
                    Action::Discard
                } else {
                    self.finished = self.finished + 1;
                    if self.finished == self.workers {
                        Action::CloseIntake
                    } else {
                        Action::Count
                    }
                }
            },
        }
    }
}

/// What a worker does with what the queue gave it.
pub fn worker_step(job: Option<usize>) -> (r: WorkerStep)
    ensures
        r == match job {
            Some(cell) => WorkerStep::Run(cell),
            None => WorkerStep::Signal,
        },
{
    match job {
        Some(cell) => WorkerStep::Run(cell),
        None => WorkerStep::Signal,
    }
}

/// The jobs of a chromosome: every cell index once, in rising order.
pub fn job_list(num_cells: usize) -> (r: Vec<usize>)
    ensures
        r@ == Seq::new(num_cells as nat, |i: int| i as usize),
{
    let mut jobs: Vec<usize> = Vec::new();
    let mut i: usize = 0;
    while i < num_cells
        invariant
            i <= num_cells,
            jobs@ == Seq::new(i as nat, |k: int| k as usize),
        decreases num_cells - i,
    {
        jobs.push(i);
        assert(jobs@ =~= Seq::new((i + 1) as nat, |k: int| k as usize));
        i += 1;
    }
    jobs
}

/// Completion is detected exactly: after any run of messages the consumer
/// has counted every sentinel up to the number of workers and none beyond,
/// so the intake is closed if and only if as many sentinels have arrived as
/// there are workers.
pub proof fn lemma_completion_exact(workers: nat, ms: Seq<Message>)
    ensures
        ({
            let end = (ConsumerState { workers, finished: 0 }).after(ms);
            &&& end.workers == workers
            &&& end.finished == if sentinels(ms) <= workers {
                sentinels(ms)
            } else {
                workers
            }
            &&& end.draining() <==> sentinels(ms) >= workers
        }),
    decreases ms.len(),
{
    if ms.len() > 0 {
        lemma_completion_exact(workers, ms.drop_last());
    }
}

/// No result is lost: every result that arrives is written, before the
/// intake is closed and after.
pub proof fn lemma_every_result_written(c: ConsumerState, ms: Seq<Message>)
    ensures
        written(c, ms) == results(ms),
    decreases ms.len(),
{
    if ms.len() > 0 {
        lemma_every_result_written(c, ms.drop_last());
    }
}

} // verus!
