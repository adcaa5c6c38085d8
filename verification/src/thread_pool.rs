//! A model of the fixed-size worker pool and its drain protocol.
//!
//! A pool of `size` workers consumes messages from one shared FIFO queue:
//! jobs, identified here by plain numbers (the work itself is performed by
//! whoever runs the pool's loop), and termination markers. Shutdown sends
//! exactly one marker per worker; a worker that takes a marker stops, one
//! that takes a job executes it to completion. The drain-completion signal
//! is raised only when every worker has stopped, and then every job ever
//! submitted has been executed: no job is silently dropped. Submitting
//! after shutdown began is ruled out, as the dispatcher checks the stop
//! signal before dispatching.

use vstd::prelude::*;

verus! {

/// One message in the pool's queue.
#[derive(Clone, Copy, Debug, PartialEq, Eq, Structural)]
pub enum Message {
    /// A job to execute, by its identifier.
    NewJob(u64),
    /// A termination marker: the worker that takes it stops.
    Terminate,
}

/// The jobs in a queue, in order, markers left out.
pub open spec fn queue_jobs(q: Seq<Message>) -> Seq<u64>
    decreases q.len(),
{
    if q.len() == 0 {
        Seq::empty()
    } else {
        match q[0] {
            Message::NewJob(j) => seq![j] + queue_jobs(q.drop_first()),
            Message::Terminate => queue_jobs(q.drop_first()),
        }
    }
}

/// How many termination markers a queue holds.
pub open spec fn term_count(q: Seq<Message>) -> int
    decreases q.len(),
{
    if q.len() == 0 {
        0
    } else {
        (match q[0] {
            Message::NewJob(j) => 0int,
            Message::Terminate => 1int,
        }) + term_count(q.drop_first())
    }
}

/// Termination markers sit behind all jobs: once one is queued, nothing
/// else is.
pub open spec fn terms_last(q: Seq<Message>) -> bool {
    forall|i: int, j: int|
        0 <= i < j < q.len() && (#[trigger] q[i]) is Terminate ==> (#[trigger] q[j]) is Terminate
}

/// A queue with no markers has none anywhere, and conversely.
proof fn lemma_term_count_zero(q: Seq<Message>)
    ensures
        term_count(q) == 0 <==> (forall|i: int| 0 <= i < q.len() ==> !((#[trigger] q[i]) is Terminate)),
        term_count(q) >= 0,
    decreases q.len(),
{
    if q.len() > 0 {
        lemma_term_count_zero(q.drop_first());
        assert(forall|i: int| 1 <= i < q.len() ==> q.drop_first()[i - 1] == q[i]);
    }
}

/// Appending a message appends its job, or raises the marker count.
proof fn lemma_queue_snoc(q: Seq<Message>, m: Message)
    ensures
        queue_jobs(q.push(m)) == (match m {
            Message::NewJob(j) => queue_jobs(q).push(j),
            Message::Terminate => queue_jobs(q),
        }),
        term_count(q.push(m)) == term_count(q) + (match m {
            Message::NewJob(j) => 0int,
            Message::Terminate => 1int,
        }),
    decreases q.len(),
{
    reveal_with_fuel(queue_jobs, 2);
    reveal_with_fuel(term_count, 2);
    if q.len() == 0 {
        assert(q.push(m)[0] == m);
        assert(q.push(m).drop_first() =~= Seq::<Message>::empty());
        match m {
            Message::NewJob(j) => {
                assert(queue_jobs(q.push(m)) =~= queue_jobs(q).push(j));
            },
            Message::Terminate => {},
        }
    } else {
        assert(q.push(m)[0] == q[0]);
        assert(q.push(m).drop_first() =~= q.drop_first().push(m));
        lemma_queue_snoc(q.drop_first(), m);
        match (q[0], m) {
            (Message::NewJob(j0), Message::NewJob(j)) => {
                assert(queue_jobs(q.push(m)) =~= queue_jobs(q).push(j));
            },
            _ => {},
        }
    }
}

/// The pool's state as specifications see it.
pub struct PoolView {
    /// Messages not yet taken by a worker, front first.
    pub queue: Seq<Message>,
    /// Workers that have not yet taken a termination marker.
    pub active: nat,
    /// The number of workers the pool was built with.
    pub size: nat,
    /// Whether shutdown has begun.
    pub stopping: bool,
    /// Jobs executed to completion, in execution order.
    pub executed: Seq<u64>,
    /// Every job ever submitted, in submission order.
    pub submitted: Seq<u64>,
}

/// The fixed-size worker pool, modelled one message-taking step at a time.
pub struct ThreadPool {
    size: usize,
    active: usize,
    stopping: bool,
    queue: Vec<Message>,
    executed: Vec<u64>,
    submitted: Ghost<Seq<u64>>,
}

impl ThreadPool {
    /// The pool as specifications see it.
    pub closed spec fn view(&self) -> PoolView {
        PoolView {
            queue: self.queue@,
            active: self.active as nat,
            size: self.size as nat,
            stopping: self.stopping,
            executed: self.executed@,
            submitted: self.submitted@,
        }
    }

    /// The pool's invariant. Before shutdown all workers run and no marker
    /// is queued; during shutdown the queue holds exactly one marker per
    /// worker still running, behind all jobs. Executed jobs followed by
    /// queued jobs are exactly the submitted jobs, in order.
    pub open spec fn wf(&self) -> bool {
        &&& self@.size > 0
        &&& self@.active <= self@.size
        &&& terms_last(self@.queue)
        &&& (if self@.stopping {
            term_count(self@.queue) == self@.active && (self@.queue.len() > 0 ==> term_count(
                self@.queue,
            ) > 0)
        } else {
            term_count(self@.queue) == 0 && self@.active == self@.size
        })
        &&& self@.executed + queue_jobs(self@.queue) == self@.submitted
    }

    /// Builds a pool of `size` workers; a pool of none cannot be built.
    pub fn new(size: usize) -> (r: Option<ThreadPool>)
        ensures
            r is Some <==> size > 0,
            r matches Some(p) ==> p.wf() && p@.size == size && p@.active == size && !p@.stopping
                && p@.queue == Seq::<Message>::empty() && p@.executed == Seq::<u64>::empty()
                && p@.submitted == Seq::<u64>::empty(),
    {
        if size > 0 {
            let p = ThreadPool {
                size,
                active: size,
                stopping: false,
                queue: Vec::new(),
                executed: Vec::new(),
                submitted: Ghost(Seq::empty()),
            };
            proof {
                assert(p@.queue =~= Seq::<Message>::empty());
                assert(p@.executed + queue_jobs(p@.queue) =~= p@.submitted);
            }
            Some(p)
        } else {
            None
        }
    }

    /// How many workers the pool was built with.
    pub fn worker_count(&self) -> (r: usize)
        ensures
            r == self@.size,
    {
        self.size
    }

    /// The jobs executed so far, in execution order.
    pub fn executed_jobs(&self) -> (r: &Vec<u64>)
        ensures
            r@ == self@.executed,
    {
        &self.executed
    }

    /// How many messages wait in the queue.
    pub fn pending(&self) -> (r: usize)
        ensures
            r == self@.queue.len(),
    {
        self.queue.len()
    }

    /// Submits a job. Only the dispatcher calls this, and only before it
    /// has observed a stop request.
    pub fn run(&mut self, job: u64)
        requires
            old(self).wf(),
            !old(self)@.stopping,
        ensures
            final(self).wf(),
            final(self)@ == (PoolView {
                queue: old(self)@.queue.push(Message::NewJob(job)),
                submitted: old(self)@.submitted.push(job),
                ..old(self)@
            }),
    {
        proof {
            lemma_queue_snoc(self@.queue, Message::NewJob(job));
            lemma_term_count_zero(self@.queue);
            lemma_term_count_zero(self@.queue.push(Message::NewJob(job)));
            assert(self@.executed + queue_jobs(self@.queue).push(job) =~= self@.submitted.push(
                job,
            ));
        }
        self.queue.push(Message::NewJob(job));
        proof {
            self.submitted@ = self.submitted@.push(job);
        }
    }

    /// Begins shutdown: sends exactly one termination marker per worker.
    /// No job may be submitted from here on.
    pub fn begin_shutdown(&mut self)
        requires
            old(self).wf(),
            !old(self)@.stopping,
        ensures
            final(self).wf(),
            final(self)@.stopping,
            final(self)@.active == old(self)@.active,
            final(self)@.size == old(self)@.size,
            final(self)@.executed == old(self)@.executed,
            final(self)@.submitted == old(self)@.submitted,
            queue_jobs(final(self)@.queue) == queue_jobs(old(self)@.queue),
    {
        let ghost q0 = self@.queue;
        let n = self.size;
        let mut k: usize = 0;
        proof {
            lemma_term_count_zero(q0);
        }
        while k < n
            invariant
                n == self@.size,
                k <= n,
                self@.size == old(self)@.size,
                self@.active == old(self)@.active,
                self@.executed == old(self)@.executed,
                self@.submitted == old(self)@.submitted,
                !self@.stopping,
                old(self).wf(),
                q0 == old(self)@.queue,
                term_count(q0) == 0,
                queue_jobs(self@.queue) == queue_jobs(q0),
                term_count(self@.queue) == k,
                terms_last(self@.queue),
                self@.queue.len() == q0.len() + k,
                self@.executed + queue_jobs(self@.queue) == self@.submitted,
                forall|i: int|
                    0 <= i < self@.queue.len() ==> ((#[trigger] self@.queue[i]) is Terminate <==> i
                        >= q0.len()),
            decreases n - k,
        {
            proof {
                lemma_queue_snoc(self@.queue, Message::Terminate);
            }
            let ghost qk = self@.queue;
            self.queue.push(Message::Terminate);
            proof {
                assert(forall|i: int|
                    0 <= i < qk.len() ==> (#[trigger] self@.queue[i]) == qk[i]);
                assert(self@.queue[qk.len() as int] is Terminate);
            }
            k += 1;
        }
        self.stopping = true;
        proof {
            lemma_term_count_zero(self@.queue);
            if self@.queue.len() > 0 {
                assert(self@.active == self@.size > 0);
            }
        }
    }

    /// One worker takes the next message: `None` when the queue is empty
    /// (the worker keeps waiting), `Some(Some(job))` when it executed a
    /// job, `Some(None)` when it took a termination marker and stopped.
    pub fn worker_step(&mut self) -> (r: Option<Option<u64>>)
        requires
            old(self).wf(),
        ensures
            final(self).wf(),
            final(self)@.size == old(self)@.size,
            final(self)@.stopping == old(self)@.stopping,
            final(self)@.submitted == old(self)@.submitted,
            match r {
                None => final(self)@ == old(self)@ && old(self)@.queue.len() == 0,
                Some(Some(job)) => old(self)@.queue.len() > 0 && old(self)@.queue[0]
                    == Message::NewJob(job) && final(self)@.queue == old(self)@.queue.drop_first()
                    && final(self)@.executed == old(self)@.executed.push(job) && final(self)@.active
                    == old(self)@.active,
                Some(None) => old(self)@.queue.len() > 0 && old(self)@.queue[0]
                    == Message::Terminate && final(self)@.queue == old(self)@.queue.drop_first()
                    && final(self)@.executed == old(self)@.executed && final(self)@.active == old(
                    self,
                )@.active - 1,
            },
    {
        if self.queue.len() == 0 {
            return None;
        }
        let ghost q0 = self@.queue;
        let m = self.queue.remove(0);
        proof {
            assert(self@.queue =~= q0.drop_first());
        }
        match m {
            Message::NewJob(job) => {
                proof {
                    assert(queue_jobs(q0) == seq![job] + queue_jobs(q0.drop_first()));
                    if self@.stopping {
                        lemma_term_count_zero(q0.drop_first());
                        if q0.drop_first().len() > 0 && term_count(q0.drop_first()) == 0 {
                            assert(term_count(q0) == 0);
                            assert(false);
                        }
                    }
                    assert(forall|i: int, j: int|
                        0 <= i < j < q0.drop_first().len() ==> (#[trigger] q0.drop_first()[i], #[trigger] q0.drop_first()[j]) == (q0[i + 1], q0[j + 1]));
                    assert(self@.executed.push(job) + queue_jobs(q0.drop_first())
                        =~= self@.executed + (seq![job] + queue_jobs(q0.drop_first())));
                }
                self.executed.push(job);
                Some(Some(job))
            },
            Message::Terminate => {
                proof {
                    lemma_term_count_zero(q0);
                    assert(term_count(q0) > 0);
                    assert(self@.stopping);
                    assert(self@.active > 0);
                    assert(forall|i: int, j: int|
                        0 <= i < j < q0.drop_first().len() ==> (#[trigger] q0.drop_first()[i], #[trigger] q0.drop_first()[j]) == (q0[i + 1], q0[j + 1]));
                    assert(forall|i: int|
                        0 <= i < q0.drop_first().len() ==> (#[trigger] q0.drop_first()[i])
                            == q0[i + 1]);
                    assert(forall|i: int|
                        0 <= i < q0.drop_first().len() ==> (#[trigger] q0.drop_first()[i]) is Terminate);
                    lemma_all_terms(q0.drop_first());
                    assert(queue_jobs(q0) == queue_jobs(q0.drop_first()));
                }
                self.active = self.active - 1;
                Some(None)
            },
        }
    }

    /// Whether the pool has drained: shutdown begun and every worker
    /// stopped. When it has, every submitted job has been executed.
    pub fn is_drained(&self) -> (r: bool)
        requires
            self.wf(),
        ensures
            r == (self@.stopping && self@.active == 0),
            r ==> self@.executed == self@.submitted,
    {
        let r = self.stopping && self.active == 0;
        proof {
            if r {
                lemma_drained_all_executed(self);
            }
        }
        r
    }
}

/// A queue of nothing but termination markers carries no jobs, and as many
/// markers as messages.
proof fn lemma_all_terms(q: Seq<Message>)
    requires
        forall|i: int| 0 <= i < q.len() ==> (#[trigger] q[i]) is Terminate,
    ensures
        queue_jobs(q) == Seq::<u64>::empty(),
        term_count(q) == q.len(),
    decreases q.len(),
{
    if q.len() > 0 {
        assert(forall|i: int|
            0 <= i < q.drop_first().len() ==> (#[trigger] q.drop_first()[i]) == q[i + 1]);
        lemma_all_terms(q.drop_first());
    }
}

/// Once the pool reports drained, no job has been dropped: what was
/// executed is exactly what was submitted, in submission order, and the
/// queue is empty.
pub proof fn lemma_drained_all_executed(p: &ThreadPool)
    requires
        p.wf(),
        p@.stopping,
        p@.active == 0,
    ensures
        p@.queue == Seq::<Message>::empty(),
        p@.executed == p@.submitted,
{
    lemma_term_count_zero(p@.queue);
    if p@.queue.len() > 0 {
        assert(term_count(p@.queue) > 0);
        assert(false);
    }
    assert(p@.queue =~= Seq::<Message>::empty());
    assert(p@.executed + queue_jobs(p@.queue) =~= p@.executed);
}

} // verus!
