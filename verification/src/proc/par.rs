//! The queue that parallel workers take their command lines from.

use std::collections::VecDeque;
use vstd::prelude::*;
use crate::invoker::preview::DetachedPreview;

verus! {

/// The command lines that wait for a worker, oldest first, and whether
/// more may still come.
#[derive(Debug)]
pub struct QueueState {
    queue: VecDeque<DetachedPreview>,
    done: bool,
}

/// What a worker does next.
#[derive(Debug)]
pub enum Step {
    /// Run this command line, then come back.
    Run(DetachedPreview),
    /// Nothing waits, but more may come: sleep until woken, then come back.
    Wait,
    /// Nothing waits and nothing more will come: stop.
    Exit,
}

impl QueueState {
    /// The command lines that wait, oldest first.
    pub closed spec fn jobs(&self) -> Seq<DetachedPreview> {
        self.queue@
    }

    /// Whether no more command lines will come.
    pub closed spec fn done(&self) -> bool {
        self.done
    }

    /// An empty queue that is still open.
    pub fn new() -> (s: QueueState)
        ensures
            s.jobs() == Seq::<DetachedPreview>::empty(),
            !s.done(),
    {
        QueueState { queue: VecDeque::new(), done: false }
    }

    /// Puts a command line at the back of the queue.
    pub fn submit(&mut self, job: DetachedPreview)
        ensures
            final(self).jobs() == old(self).jobs().push(job),
            final(self).done() == old(self).done(),
    {
        self.queue.push_back(job);
    }

    /// Closes the queue: what waits is still handed out, nothing more
    /// will come.
    pub fn finish(&mut self)
        ensures
            final(self).jobs() == old(self).jobs(),
            final(self).done(),
    {
        self.done = true;
    }

    /// How many command lines wait.
    pub fn waiting(&self) -> (n: usize)
        ensures
            n == self.jobs().len(),
    {
        self.queue.len()
    }

    /// What the worker that asks does next. The oldest waiting command
    /// line is taken from the queue and handed to it; with none waiting
    /// the worker stops if the queue is closed and sleeps if it is not.
    pub fn next(&mut self) -> (step: Step)
        ensures
            final(self).done() == old(self).done(),
            match step {
                Step::Run(job) => {
                    &&& old(self).jobs().len() > 0
                    &&& job == old(self).jobs()[0]
                    &&& final(self).jobs() == old(self).jobs().subrange(
                        1,
                        old(self).jobs().len() as int,
                    )
                },
                Step::Wait => {
                    &&& old(self).jobs().len() == 0
                    &&& !old(self).done()
                    &&& final(self).jobs() == old(self).jobs()
                },
                Step::Exit => {
                    &&& old(self).jobs().len() == 0
                    &&& old(self).done()
                    &&& final(self).jobs() == old(self).jobs()
                },
            },
    {
        match self.queue.pop_front() {
            Some(job) => Step::Run(job),
            None => {
                if self.done {
                    Step::Exit
                } else {
                    Step::Wait
                }
            },
        }
    }

    /// Hands out every command line that waits, oldest first, to a single
    /// worker: each one once, and the queue is empty afterwards.
    pub fn drain(&mut self) -> (out: Vec<DetachedPreview>)
        ensures
            out@ == old(self).jobs(),
            final(self).jobs() == Seq::<DetachedPreview>::empty(),
            final(self).done() == old(self).done(),
    {
        let mut out: Vec<DetachedPreview> = Vec::new();
        loop
            invariant
                out@ + self.jobs() == old(self).jobs(),
                self.done() == old(self).done(),
            ensures
                out@ == old(self).jobs(),
                self.jobs() == Seq::<DetachedPreview>::empty(),
                self.done() == old(self).done(),
            decreases self.jobs().len(),
        {
            let ghost before = self.jobs();
            let ghost had = out@;
            match self.next() {
                Step::Run(job) => {
                    out.push(job);
                    proof {
                        assert(out@ + self.jobs() =~= had + before);
                    }
                },
                _ => {
                    proof {
                        assert(out@ + self.jobs() =~= out@);
                        assert(self.jobs() =~= Seq::<DetachedPreview>::empty());
                    }
                    break ;
                },
            }
        }
        out
    }
}

} // verus!
