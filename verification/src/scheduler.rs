use vstd::prelude::*;

verus! {

/// What the runner of the pool is to do next.
#[derive(Clone, Copy, Debug, PartialEq, Eq, Structural)]
pub enum Action {
    /// Hand the task with this index to a free worker.
    Dispatch(usize),
    /// Every worker is busy, or every task is handed out and some still run:
    /// wait until one of them finishes.
    Wait,
    /// Every task has finished: the barrier is passed.
    Done,
}

/// The book-keeping of a pool of workers that runs a list of tasks, each
/// once, with no more than `budget` of them at a time.
#[derive(Clone, Copy, Debug, PartialEq, Eq, Structural)]
pub struct Scheduler {
    budget: usize,
    total: usize,
    dispatched: usize,
    finished: usize,
}

impl Scheduler {
    /// How many tasks may run at a time.
    pub closed spec fn budget_spec(&self) -> nat {
        self.budget as nat
    }

    /// How many tasks there are.
    pub closed spec fn total_spec(&self) -> nat {
        self.total as nat
    }

    /// How many tasks were handed out so far: those with an index below this.
    pub closed spec fn dispatched_spec(&self) -> nat {
        self.dispatched as nat
    }

    /// How many tasks have finished.
    pub closed spec fn finished_spec(&self) -> nat {
        self.finished as nat
    }

    /// How many tasks are running now.
    pub open spec fn running_spec(&self) -> int {
        self.dispatched_spec() - self.finished_spec()
    }

    /// What holds of a scheduler at all times: at least one worker; nothing
    /// finished that was not handed out, nothing handed out that is not a
    /// task; and never more tasks running than the budget allows.
    pub open spec fn wf(&self) -> bool {
        &&& self.budget_spec() >= 1
        &&& self.finished_spec() <= self.dispatched_spec() <= self.total_spec()
        &&& self.running_spec() <= self.budget_spec()
    }

    /// What `poll` answers in this state.
    pub open spec fn next_action(&self) -> Action {
        if self.dispatched_spec() < self.total_spec() && self.running_spec() < self.budget_spec() {
            Action::Dispatch(self.dispatched_spec() as usize)
        } else if self.running_spec() > 0 {
            Action::Wait
        } else {
            Action::Done
        }
    }

    /// A scheduler for `total` tasks and `budget` workers, with nothing
    /// handed out yet; none where there would be no worker.
    pub fn new(total: usize, budget: usize) -> (r: Option<Scheduler>)
        ensures
            r is Some <==> budget >= 1,
            r is Some ==> {
                let s = r->0;
                &&& s.wf()
                &&& s.total_spec() == total
                &&& s.budget_spec() == budget
                &&& s.dispatched_spec() == 0
                &&& s.finished_spec() == 0
            },
    {
        if budget == 0 {
            None
        } else {
            Some(Scheduler { budget, total, dispatched: 0, finished: 0 })
        }
    }

    /// How many tasks are running now.
    pub fn running(&self) -> (r: usize)
        requires
            self.wf(),
        ensures
            r == self.running_spec(),
    {
        self.dispatched - self.finished
    }

    /// How many tasks have finished.
    pub fn finished(&self) -> (r: usize)
        ensures
            r == self.finished_spec(),
    {
        self.finished
    }

    /// Decides the next action. Where a worker is free and a task is left,
    /// the next task in order is handed out and counted as running.
    pub fn poll(&mut self) -> (action: Action)
        requires
            old(self).wf(),
        ensures
            final(self).wf(),
            action == old(self).next_action(),
            final(self).total_spec() == old(self).total_spec(),
            final(self).budget_spec() == old(self).budget_spec(),
            final(self).finished_spec() == old(self).finished_spec(),
            final(self).dispatched_spec() == old(self).dispatched_spec() + (if action
                is Dispatch {
                1nat
            } else {
                0nat
            }),
    {
        let running: usize = self.dispatched - self.finished;
        if self.dispatched < self.total && running < self.budget {
            let index: usize = self.dispatched;
            self.dispatched = self.dispatched + 1;
            Action::Dispatch(index)
        } else if running > 0 {
            Action::Wait
        } else {
            Action::Done
        }
    }

    /// Takes note that one of the running tasks has finished, however it ended.
    pub fn task_finished(&mut self)
        requires
            old(self).wf(),
            old(self).running_spec() > 0,
        ensures
            final(self).wf(),
            final(self).total_spec() == old(self).total_spec(),
            final(self).budget_spec() == old(self).budget_spec(),
            final(self).dispatched_spec() == old(self).dispatched_spec(),
            final(self).finished_spec() == old(self).finished_spec() + 1,
    {
        self.finished = self.finished + 1;
    }

    /// The barrier: the scheduler says `Done` exactly when every task was
    /// handed out and has finished.
    pub proof fn lemma_done_is_barrier(&self)
        requires
            self.wf(),
        ensures
            self.next_action() is Done <==> self.finished_spec() == self.total_spec(),
    {
    }

    /// The scheduler never waits for nothing: it says `Wait` only while some
    /// task runs, so each wait ends with a task that finishes.
    pub proof fn lemma_wait_has_running(&self)
        requires
            self.wf(),
        ensures
            self.next_action() is Wait ==> self.running_spec() > 0,
            self.next_action() is Wait ==> self.running_spec() == self.budget_spec()
                || self.dispatched_spec() == self.total_spec(),
    {
    }

    /// A task is handed out only to a free worker, and it is the first task
    /// not handed out before.
    pub proof fn lemma_dispatch_in_order(&self)
        requires
            self.wf(),
        ensures
            self.next_action() is Dispatch ==> {
                &&& self.next_action()->Dispatch_0 == self.dispatched_spec()
                &&& self.dispatched_spec() < self.total_spec()
                &&& self.running_spec() < self.budget_spec()
            },
    {
    }
}

} // verus!
