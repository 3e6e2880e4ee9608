//! The worker pool as a whole: a model of the queue, the workers, the
//! bounded channel and the consumer, and what holds of every run.
//!
//! The queue is filled with the jobs before the pool starts. A worker that
//! is idle looks into the queue: it takes the first job, or, if the queue
//! is empty, prepares to signal. It then sends what it has to send, the
//! result of its job or the sentinel, as soon as the channel has room;
//! after the sentinel it has left. The consumer takes the messages off the
//! channel in the order of their arrival and handles each as
//! `Consumer::receive` says. Any interleaving of these steps is a run.
//!
//! In every run the channel never holds more messages than there are
//! workers, no job is lost or done twice, no sentinel arrives after the
//! intake was closed, and when the consumer has closed the intake and the
//! channel is empty, every job has been written exactly once.
use crate::scheduler::Action;
use crate::scheduler::ConsumerState;
use crate::scheduler::Message;
use crate::scheduler::WorkerStep;
use vstd::multiset::group_multiset_axioms;
use vstd::multiset::Multiset;
use vstd::prelude::*;
use vstd::seq_lib::to_multiset_build;
use vstd::seq_lib::to_multiset_len;
use vstd::seq_lib::to_multiset_remove;

verus! {

/// Where a worker stands.
pub enum WorkerState {
    /// About to look into the queue.
    Idle,
    /// About to send: the result of the job it ran, or the sentinel.
    Sending(WorkerStep),
    /// Gone, after its sentinel.
    Left,
}

/// The pool at one moment.
pub struct Pool {
    /// The jobs that the queue was filled with.
    pub jobs: Seq<usize>,
    /// The jobs that no worker has taken yet.
    pub queue: Seq<usize>,
    pub workers: Seq<WorkerState>,
    /// The messages on their way, oldest first: the cell of a result, or
    /// nothing for a sentinel.
    pub channel: Seq<Option<usize>>,
    /// The most messages that the channel holds: one per worker.
    pub capacity: nat,
    pub consumer: ConsumerState,
    /// The cells whose results have been written, in the order of writing.
    pub written: Seq<usize>,
}

/// What the consumer is told when `m` arrives.
pub open spec fn message_of(m: Option<usize>) -> Message {
    match m {
        Some(_) => Message::Result,
        None => Message::Sentinel,
    }
}

/// What an idle worker does on a queue `queue`.
pub open spec fn step_on(queue: Seq<usize>) -> WorkerStep {
    if queue.len() > 0 {
        WorkerStep::Run(queue[0])
    } else {
        WorkerStep::Signal
    }
}

/// The pool before its first step.
pub open spec fn starts(p: Pool) -> bool {
    &&& p.queue == p.jobs
    &&& forall|w: int| 0 <= w < p.workers.len() ==> p.workers[w] == WorkerState::Idle
    &&& p.channel.len() == 0
    &&& p.capacity == p.workers.len()
    &&& p.consumer == (ConsumerState { workers: p.workers.len(), finished: 0 })
    &&& p.written.len() == 0
}

/// Worker `w` looks into the queue.
pub open spec fn takes(p: Pool, q: Pool, w: int) -> bool {
    &&& 0 <= w < p.workers.len()
    &&& p.workers[w] == WorkerState::Idle
    &&& q == (Pool {
        queue: if p.queue.len() > 0 {
            p.queue.drop_first()
        } else {
            p.queue
        },
        workers: p.workers.update(w, WorkerState::Sending(step_on(p.queue))),
        ..p
    })
}

/// Worker `w` sends what it has to send; the channel has room for it.
pub open spec fn sends(p: Pool, q: Pool, w: int) -> bool {
    &&& 0 <= w < p.workers.len()
    &&& p.channel.len() < p.capacity
    &&& match p.workers[w] {
        WorkerState::Sending(WorkerStep::Run(cell)) => q == (Pool {
            workers: p.workers.update(w, WorkerState::Idle),
            channel: p.channel.push(Some(cell)),
            ..p
        }),
        WorkerState::Sending(WorkerStep::Signal) => q == (Pool {
            workers: p.workers.update(w, WorkerState::Left),
            channel: p.channel.push(None),
            ..p
        }),
        _ => false,
    }
}

/// The consumer takes the oldest message off the channel.
pub open spec fn receives(p: Pool, q: Pool) -> bool {
    &&& p.channel.len() > 0
    &&& q == (Pool {
        channel: p.channel.drop_first(),
        consumer: p.consumer.next(message_of(p.channel[0])),
        written: match p.channel[0] {
            Some(cell) => if p.consumer.action(Message::Result) == Action::Write {
                p.written.push(cell)
            } else {
                p.written
            },
            None => p.written,
        },
        ..p
    })
}

/// One step of the pool.
pub open spec fn steps(p: Pool, q: Pool) -> bool {
    ||| exists|w: int| takes(p, q, w)
    ||| exists|w: int| sends(p, q, w)
    ||| receives(p, q)
}

/// The cells of the results among `channel`.
pub open spec fn results_in(channel: Seq<Option<usize>>) -> Multiset<usize>
    decreases channel.len(),
{
    if channel.len() == 0 {
        Multiset::empty()
    } else {
        match channel.last() {
            Some(cell) => results_in(channel.drop_last()).insert(cell),
            None => results_in(channel.drop_last()),
        }
    }
}

/// The number of sentinels among `channel`.
pub open spec fn sentinels_in(channel: Seq<Option<usize>>) -> nat
    decreases channel.len(),
{
    if channel.len() == 0 {
        0
    } else {
        sentinels_in(channel.drop_last()) + if channel.last() is None {
            1nat
        } else {
            0nat
        }
    }
}

/// The job that a worker holds.
pub open spec fn job_of(w: WorkerState) -> Multiset<usize> {
    match w {
        WorkerState::Sending(WorkerStep::Run(cell)) => Multiset::singleton(cell),
        _ => Multiset::empty(),
    }
}

/// The jobs that the workers hold.
pub open spec fn held(workers: Seq<WorkerState>) -> Multiset<usize>
    decreases workers.len(),
{
    if workers.len() == 0 {
        Multiset::empty()
    } else {
        held(workers.drop_last()).add(job_of(workers.last()))
    }
}

/// The number of workers that have not left.
pub open spec fn staying(workers: Seq<WorkerState>) -> nat
    decreases workers.len(),
{
    if workers.len() == 0 {
        0
    } else {
        staying(workers.drop_last()) + if workers.last() == WorkerState::Left {
            0nat
        } else {
            1nat
        }
    }
}

/// What holds of the pool at every moment of every run.
pub open spec fn sound(p: Pool) -> bool {
    &&& p.channel.len() <= p.capacity
    &&& p.capacity == p.workers.len()
    &&& p.consumer.workers == p.workers.len()
    &&& p.consumer.finished + sentinels_in(p.channel) + staying(p.workers) == p.workers.len()
    &&& p.queue.to_multiset().add(held(p.workers)).add(results_in(p.channel)).add(
        p.written.to_multiset(),
    ) == p.jobs.to_multiset()
    &&& p.queue.len() > 0 ==> forall|w: int|
        0 <= w < p.workers.len() ==> (#[trigger] p.workers[w]) != WorkerState::Left
            && p.workers[w] != WorkerState::Sending(WorkerStep::Signal)
}

/// The run is over: the consumer has closed the intake and drained the
/// channel.
pub open spec fn over(p: Pool) -> bool {
    p.consumer.draining() && p.channel.len() == 0
}

proof fn lemma_held_update(workers: Seq<WorkerState>, i: int, s: WorkerState)
    requires
        0 <= i < workers.len(),
    ensures
        held(workers.update(i, s)).add(job_of(workers[i])) =~= held(workers).add(job_of(s)),
        staying(workers.update(i, s)) + (if workers[i] == WorkerState::Left {
            0nat
        } else {
            1nat
        }) == staying(workers) + (if s == WorkerState::Left {
            0nat
        } else {
            1nat
        }),
    decreases workers.len(),
{
    broadcast use group_multiset_axioms;

    let head = workers.drop_last();
    let next = workers.update(i, s);
    if i == workers.len() - 1 {
        assert(next.drop_last() =~= head);
        assert(next.last() == s);
        assert(held(next) == held(head).add(job_of(s)));
        assert(held(workers) == held(head).add(job_of(workers[i])));
    } else {
        lemma_held_update(head, i, s);
        assert(next.drop_last() =~= head.update(i, s));
        assert(next.last() == workers.last());
        assert(head[i] == workers[i]);
        assert(held(next) == held(head.update(i, s)).add(job_of(workers.last())));
        assert(held(workers) == held(head).add(job_of(workers.last())));
        assert forall|v: usize|
            held(next).add(job_of(workers[i])).count(v) == held(workers).add(job_of(s)).count(
                v,
            ) by {
            assert(held(head.update(i, s)).add(job_of(workers[i])).count(v) == held(head).add(
                job_of(s),
            ).count(v));
        }
    }
}

proof fn lemma_channel_front(channel: Seq<Option<usize>>)
    requires
        channel.len() > 0,
    ensures
        results_in(channel) =~= match channel[0] {
            Some(cell) => results_in(channel.drop_first()).insert(cell),
            None => results_in(channel.drop_first()),
        },
        sentinels_in(channel) == sentinels_in(channel.drop_first()) + if channel[0] is None {
            1nat
        } else {
            0nat
        },
    decreases channel.len(),
{
    broadcast use group_multiset_axioms;

    if channel.len() == 1 {
        assert(channel.drop_last() =~= channel.drop_first());
        assert(channel.drop_first().len() == 0);
    } else {
        lemma_channel_front(channel.drop_last());
        assert(channel.drop_first().drop_last() =~= channel.drop_last().drop_first());
        assert(channel.drop_first().last() == channel.last());
    }
}

proof fn lemma_all_idle(workers: Seq<WorkerState>)
    requires
        forall|w: int| 0 <= w < workers.len() ==> workers[w] == WorkerState::Idle,
    ensures
        held(workers) =~= Multiset::<usize>::empty(),
        staying(workers) == workers.len(),
    decreases workers.len(),
{
    broadcast use group_multiset_axioms;

    if workers.len() > 0 {
        lemma_all_idle(workers.drop_last());
    }
}

proof fn lemma_all_left(workers: Seq<WorkerState>)
    requires
        staying(workers) == 0,
    ensures
        held(workers) =~= Multiset::<usize>::empty(),
    decreases workers.len(),
{
    broadcast use group_multiset_axioms;

    if workers.len() > 0 {
        lemma_all_left(workers.drop_last());
    }
}

/// The pool is sound before its first step.
pub proof fn lemma_starts_sound(p: Pool)
    requires
        starts(p),
    ensures
        sound(p),
{
    broadcast use group_multiset_axioms;

    lemma_all_idle(p.workers);
    to_multiset_len(p.written);
    assert(p.written.to_multiset() =~= Multiset::<usize>::empty());
    assert(p.queue.to_multiset().add(held(p.workers)).add(results_in(p.channel)).add(
        p.written.to_multiset(),
    ) =~= p.jobs.to_multiset());
}

/// Every step keeps the pool sound.
pub proof fn lemma_step_sound(p: Pool, q: Pool)
    requires
        sound(p),
        steps(p, q),
    ensures
        sound(q),
{
    broadcast use group_multiset_axioms;

    let before = p.queue.to_multiset().add(held(p.workers)).add(results_in(p.channel)).add(
        p.written.to_multiset(),
    );
    let after = q.queue.to_multiset().add(held(q.workers)).add(results_in(q.channel)).add(
        q.written.to_multiset(),
    );
    if exists|w: int| takes(p, q, w) {
        let w = choose|w: int| takes(p, q, w);
        let s = WorkerState::Sending(step_on(p.queue));
        lemma_held_update(p.workers, w, s);
        if p.queue.len() > 0 {
            to_multiset_remove(p.queue, 0);
            assert(p.queue.remove(0) =~= p.queue.drop_first());
            assert(p.queue.to_multiset().count(p.queue[0]) > 0) by {
                assert(p.queue.contains(p.queue[0]));
                vstd::seq_lib::to_multiset_contains(p.queue, p.queue[0]);
            }
            assert(job_of(s) =~= Multiset::singleton(p.queue[0]));
        } else {
            assert(job_of(s) =~= Multiset::<usize>::empty());
        }
        assert(job_of(p.workers[w]) =~= Multiset::<usize>::empty());
        assert forall|v: usize| after.count(v) == before.count(v) by {
            assert(held(q.workers).add(job_of(p.workers[w])).count(v) == held(p.workers).add(
                job_of(s),
            ).count(v));
        }
        assert(after =~= before);
        assert forall|x: int| 0 <= x < q.workers.len() && q.queue.len() > 0 implies (
        #[trigger] q.workers[x]) != WorkerState::Left && q.workers[x] != WorkerState::Sending(
            WorkerStep::Signal,
        ) by {
            assert(p.queue.len() > 0);
            if x != w {
                assert(q.workers[x] == p.workers[x]);
            }
        }
    } else if exists|w: int| sends(p, q, w) {
        let w = choose|w: int| sends(p, q, w);
        match p.workers[w] {
            WorkerState::Sending(WorkerStep::Run(cell)) => {
                lemma_held_update(p.workers, w, WorkerState::Idle);
                assert(q.channel.drop_last() =~= p.channel);
                assert(q.channel.last() == Some(cell));
                assert(job_of(WorkerState::Idle) =~= Multiset::<usize>::empty());
                assert(job_of(p.workers[w]) =~= Multiset::singleton(cell));
                assert forall|v: usize| after.count(v) == before.count(v) by {
                    assert(held(q.workers).add(job_of(p.workers[w])).count(v) == held(
                        p.workers,
                    ).add(job_of(WorkerState::Idle)).count(v));
                }
                assert(after =~= before);
            },
            WorkerState::Sending(WorkerStep::Signal) => {
                lemma_held_update(p.workers, w, WorkerState::Left);
                assert(q.channel.drop_last() =~= p.channel);
                assert(q.channel.last() == None::<usize>);
                assert(job_of(WorkerState::Left) =~= Multiset::<usize>::empty());
                assert(job_of(p.workers[w]) =~= Multiset::<usize>::empty());
                assert forall|v: usize| after.count(v) == before.count(v) by {
                    assert(held(q.workers).add(job_of(p.workers[w])).count(v) == held(
                        p.workers,
                    ).add(job_of(WorkerState::Left)).count(v));
                }
                assert(after =~= before);
                assert(p.queue.len() == 0);
            },
            _ => {},
        }
        assert forall|x: int| 0 <= x < q.workers.len() && q.queue.len() > 0 implies (
        #[trigger] q.workers[x]) != WorkerState::Left && q.workers[x] != WorkerState::Sending(
            WorkerStep::Signal,
        ) by {
            if x != w {
                assert(q.workers[x] == p.workers[x]);
            }
        }
    } else {
        lemma_channel_front(p.channel);
        match p.channel[0] {
            Some(cell) => {
                to_multiset_build(p.written, cell);
                assert(after =~= before);
            },
            None => {
                assert(after =~= before);
            },
        }
    }
}

/// When the run of a pool with at least one worker is over, every job has
/// been written exactly once, and every worker has left.
pub proof fn lemma_over_all_written(p: Pool)
    requires
        sound(p),
        over(p),
        p.workers.len() > 0,
    ensures
        p.written.to_multiset() =~= p.jobs.to_multiset(),
        p.queue.len() == 0,
        forall|w: int| 0 <= w < p.workers.len() ==> p.workers[w] == WorkerState::Left,
{
    broadcast use group_multiset_axioms;

    assert(sentinels_in(p.channel) == 0);
    assert(staying(p.workers) == 0);
    lemma_all_left(p.workers);
    lemma_none_staying(p.workers);
    if p.queue.len() > 0 {
        if p.workers.len() > 0 {
            assert(p.workers[0] == WorkerState::Left);
        }
    }
    assert(results_in(p.channel) =~= Multiset::<usize>::empty());
    if p.queue.len() == 0 {
        to_multiset_len(p.queue);
        assert(p.queue.to_multiset() =~= Multiset::<usize>::empty());
    }
}

/// A sentinel never arrives after the intake was closed: while a sentinel
/// is on its way, the consumer is still waiting for one.
pub proof fn lemma_no_late_sentinel(p: Pool)
    requires
        sound(p),
        p.channel.len() > 0,
        p.channel[0] is None,
    ensures
        !p.consumer.draining(),
        p.consumer.action(Message::Sentinel) != Action::Discard,
{
    lemma_channel_front(p.channel);
}

proof fn lemma_none_staying(workers: Seq<WorkerState>)
    requires
        staying(workers) == 0,
    ensures
        forall|w: int| 0 <= w < workers.len() ==> workers[w] == WorkerState::Left,
    decreases workers.len(),
{
    if workers.len() > 0 {
        lemma_none_staying(workers.drop_last());
        assert forall|w: int| 0 <= w < workers.len() implies workers[w] == WorkerState::Left by {
            if w < workers.len() - 1 {
                assert(workers.drop_last()[w] == workers[w]);
            }
        }
    }
}

} // verus!
