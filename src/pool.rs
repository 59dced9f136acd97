//! The queue that a pool of workers pulls its tasks from.
//!
//! The dispatching thread adds every task, then closes the queue. Each
//! worker pulls until told to exit. Shutting down stops all pulls of new
//! tasks at once; tasks already pulled run to their end, and those still
//! queued are dropped.
use std::collections::VecDeque;
use vstd::prelude::*;

verus! {

/// What a worker does next.
pub enum Pull<T> {
    /// A task for the worker to run.
    Task(T),
    /// No task yet, but more may come: wait.
    Wait,
    /// Stop: the pool is shut down, or every task has been handed out.
    Exit,
}

pub struct WorkQueue<T> {
    pending: VecDeque<T>,
    stopped: bool,
    closed: bool,
    /// Every task added, in order.
    submitted: Ghost<Seq<T>>,
    /// Every task handed out, in order.
    pulled: Ghost<Seq<T>>,
    /// The tasks dropped at shutdown without being handed out.
    discarded: Ghost<Seq<T>>,
}

impl<T> WorkQueue<T> {
    pub closed spec fn submitted(&self) -> Seq<T> {
        self.submitted@
    }

    pub closed spec fn pulled(&self) -> Seq<T> {
        self.pulled@
    }

    pub closed spec fn discarded(&self) -> Seq<T> {
        self.discarded@
    }

    pub closed spec fn pending(&self) -> Seq<T> {
        self.pending@
    }

    pub closed spec fn is_stopped(&self) -> bool {
        self.stopped
    }

    pub closed spec fn is_closed(&self) -> bool {
        self.closed
    }

    /// Each task handed out, in order, then each dropped at shutdown, then
    /// each still queued: together, every task added. Once shut down, the
    /// queue holds nothing.
    pub closed spec fn consistent(&self) -> bool {
        &&& self.submitted@ == self.pulled@ + self.discarded@ + self.pending@
        &&& self.stopped ==> self.pending@.len() == 0
        &&& !self.stopped ==> self.discarded@.len() == 0
    }

    /// An empty queue, open for tasks.
    pub fn new() -> (r: WorkQueue<T>)
        ensures
            r.consistent(),
            r.submitted() == Seq::<T>::empty(),
            r.pulled() == Seq::<T>::empty(),
            r.discarded() == Seq::<T>::empty(),
            r.pending() == Seq::<T>::empty(),
            !r.is_stopped(),
            !r.is_closed(),
    {
        let r = WorkQueue {
            pending: VecDeque::new(),
            stopped: false,
            closed: false,
            submitted: Ghost(Seq::empty()),
            pulled: Ghost(Seq::empty()),
            discarded: Ghost(Seq::empty()),
        };
        assert(r.pulled@ + r.discarded@ + r.pending@ =~= Seq::<T>::empty());
        r
    }

    /// Adds a task at the back of the queue; after a shutdown it is
    /// dropped at once.
    pub fn execute(&mut self, task: T)
        requires
            old(self).consistent(),
        ensures
            final(self).consistent(),
            final(self).submitted() == old(self).submitted().push(task),
            final(self).pulled() == old(self).pulled(),
            old(self).is_stopped() ==> final(self).pending() == old(self).pending()
                && final(self).discarded() == old(self).discarded().push(task),
            !old(self).is_stopped() ==> final(self).pending() == old(self).pending().push(task)
                && final(self).discarded() == old(self).discarded(),
            final(self).is_stopped() == old(self).is_stopped(),
            final(self).is_closed() == old(self).is_closed(),
    {
        let ghost t = task;
        self.submitted = Ghost(self.submitted@.push(t));
        if self.stopped {
            self.discarded = Ghost(self.discarded@.push(t));
        } else {
            self.pending.push_back(task);
        }
        assert(self.pulled@ + self.discarded@ + self.pending@ =~= self.submitted@);
    }

    /// No task will be added any more: workers exit once the queue runs
    /// empty.
    pub fn close(&mut self)
        ensures
            final(self).consistent() == old(self).consistent(),
            final(self).submitted() == old(self).submitted(),
            final(self).pending() == old(self).pending(),
            final(self).pulled() == old(self).pulled(),
            final(self).discarded() == old(self).discarded(),
            final(self).is_stopped() == old(self).is_stopped(),
            final(self).is_closed(),
    {
        self.closed = true;
    }

    /// Stops handing out tasks. What is still queued leaves the queue
    /// without being run, and is given back to be dropped.
    pub fn shutdown(&mut self) -> (r: VecDeque<T>)
        requires
            old(self).consistent(),
        ensures
            final(self).consistent(),
            r@ == old(self).pending(),
            final(self).submitted() == old(self).submitted(),
            final(self).pending() == Seq::<T>::empty(),
            final(self).pulled() == old(self).pulled(),
            final(self).discarded() == old(self).discarded() + old(self).pending(),
            final(self).is_stopped(),
            final(self).is_closed() == old(self).is_closed(),
    {
        let mut rest: VecDeque<T> = VecDeque::new();
        std::mem::swap(&mut rest, &mut self.pending);
        self.discarded = Ghost(self.discarded@ + rest@);
        self.stopped = true;
        assert(self.pulled@ + self.discarded@ + self.pending@ =~= self.submitted@);
        rest
    }

    /// What a worker does next. A task is handed out only while the pool
    /// runs: the one at the front, which then leaves the queue. After a
    /// shutdown, or once the queue is closed and empty, every pull says
    /// exit.
    pub fn pull(&mut self) -> (r: Pull<T>)
        requires
            old(self).consistent(),
        ensures
            final(self).consistent(),
            final(self).submitted() == old(self).submitted(),
            final(self).is_stopped() == old(self).is_stopped(),
            final(self).is_closed() == old(self).is_closed(),
            final(self).discarded() == old(self).discarded(),
            old(self).is_stopped() ==> r is Exit && final(self).pending() == old(self).pending()
                && final(self).pulled() == old(self).pulled(),
            !old(self).is_stopped() && old(self).pending().len() > 0 ==> r == Pull::Task(
                old(self).pending()[0],
            ) && final(self).pending() == old(self).pending().drop_first() && final(self).pulled()
                == old(self).pulled().push(old(self).pending()[0]),
            !old(self).is_stopped() && old(self).pending().len() == 0 ==> final(self).pending()
                == old(self).pending() && final(self).pulled() == old(self).pulled() && (if old(
                self,
            ).is_closed() {
                r is Exit
            } else {
                r is Wait
            }),
    {
        if self.stopped {
            return Pull::Exit;
        }
        match self.pending.pop_front() {
            Some(task) => {
                let ghost t = task;
                self.pulled = Ghost(self.pulled@.push(t));
                assert(self.pulled@ + self.discarded@ + self.pending@ =~= self.submitted@);
                assert(old(self).pending@.drop_first() =~= self.pending@);
                Pull::Task(task)
            },
            None => if self.closed {
                Pull::Exit
            } else {
                Pull::Wait
            },
        }
    }
}


/// Tasks leave the queue in the order they came, each at most once: those
/// handed out so far are the first ones added; with those dropped at
/// shutdown and those still queued they make up all that was added. After
/// a shutdown nothing is left to hand out.
pub proof fn lemma_pulled_prefix<T>(q: &WorkQueue<T>)
    requires
        q.consistent(),
    ensures
        q.pulled() == q.submitted().take(q.pulled().len() as int),
        q.pulled().len() + q.discarded().len() + q.pending().len() == q.submitted().len(),
        q.is_stopped() ==> q.pending().len() == 0,
{
    assert(q.submitted() == q.pulled() + q.discarded() + q.pending());
    assert(q.submitted().take(q.pulled().len() as int) =~= q.pulled());
}

} // verus!
