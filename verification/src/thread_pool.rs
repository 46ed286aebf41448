use vstd::prelude::*;

verus! {

/// Worker Status: what a worker reports to the mux.
#[derive(Clone, Copy, PartialEq, Eq, Structural, Debug)]
pub enum WorkerStatus {
    /// The worker has stopped.
    Term,
    /// The worker waits for a job.
    Idle,
}

/// Worker Report: a status report from worker `id`.
#[derive(Clone, Copy, PartialEq, Eq, Structural, Debug)]
pub struct WorkerReport {
    pub id: usize,
    pub status: WorkerStatus,
}

/// Mux Action: what the mux of a thread pool does next.
#[derive(Clone, Copy, PartialEq, Eq, Structural, Debug)]
pub enum MuxAction {
    /// Wait for the next worker report.
    AwaitReport,
    /// Wait for the next queued signal (a job, or the request to terminate).
    AwaitSignal,
    /// Hand the job just received to worker `id`.
    RunJob(usize),
    /// Ask every worker to stop.
    TerminateWorkers,
    /// Report that every worker has stopped.
    Finish,
}

/// The phase of a mux.
#[derive(Clone, Copy, PartialEq, Eq, Structural, Debug)]
pub enum MuxPhase {
    /// Jobs are handed to idle workers.
    Dispatching,
    /// Termination was requested; the given number of workers have stopped.
    Draining(usize),
}

/// Worker Mux: the decisions of the dispatcher of a thread pool of `size` workers: it tracks
/// the idle workers, hands each job to the most recently idle one, and on termination waits for
/// every worker to stop.
pub struct WorkerMux {
    idle: Vec<usize>,
    size: usize,
    phase: MuxPhase,
}

impl WorkerMux {
    /// The idle workers, most recently idle last.
    pub closed spec fn idle_workers(&self) -> Seq<usize> {
        self.idle@
    }

    /// The number of workers.
    pub closed spec fn workers(&self) -> usize {
        self.size
    }

    /// The phase of the mux.
    pub closed spec fn phase(&self) -> MuxPhase {
        self.phase
    }

    /// The action the mux takes in its current state.
    pub open spec fn spec_next_action(&self) -> MuxAction {
        match self.phase() {
            MuxPhase::Dispatching => if self.idle_workers().len() == 0 {
                MuxAction::AwaitReport
            } else {
                MuxAction::AwaitSignal
            },
            MuxPhase::Draining(t) => if t < self.workers() {
                MuxAction::AwaitReport
            } else {
                MuxAction::Finish
            },
        }
    }

    /// Returns a mux of `size` workers, none of them idle yet.
    pub fn new(size: usize) -> (m: Self)
        ensures
            m.idle_workers() == Seq::<usize>::empty(),
            m.workers() == size,
            m.phase() == MuxPhase::Dispatching,
    {
        WorkerMux { idle: Vec::new(), size, phase: MuxPhase::Dispatching }
    }

    /// Returns the action the mux takes in its current state.
    pub fn next_action(&self) -> (a: MuxAction)
        ensures
            a == self.spec_next_action(),
    {
        match self.phase {
            MuxPhase::Dispatching => if self.idle.len() == 0 {
                MuxAction::AwaitReport
            } else {
                MuxAction::AwaitSignal
            },
            MuxPhase::Draining(t) => if t < self.size {
                MuxAction::AwaitReport
            } else {
                MuxAction::Finish
            },
        }
    }

    /// Takes in a worker report: while dispatching, an idle worker becomes available; while
    /// draining, a stopped worker is counted.
    pub fn on_report(&mut self, report: WorkerReport)
        ensures
            final(self).workers() == old(self).workers(),
            match (old(self).phase(), report.status) {
                (MuxPhase::Dispatching, WorkerStatus::Idle) => final(self).idle_workers()
                    == old(self).idle_workers().push(report.id) && final(self).phase()
                    == old(self).phase(),
                (MuxPhase::Draining(t), WorkerStatus::Term) => final(self).phase() == MuxPhase::Draining(
                    if t < usize::MAX { (t + 1) as usize } else { t },
                ) && final(self).idle_workers() == old(self).idle_workers(),
                _ => final(self).idle_workers() == old(self).idle_workers() && final(self).phase()
                    == old(self).phase(),
            },
    {
        match (self.phase, report.status) {
            (MuxPhase::Dispatching, WorkerStatus::Idle) => {
                self.idle.push(report.id);
            },
            (MuxPhase::Draining(t), WorkerStatus::Term) => {
                if t < usize::MAX {
                    self.phase = MuxPhase::Draining(t + 1);
                }
            },
            _ => {},
        }
    }

    /// Takes in the next queued signal, received while dispatching with some worker idle: a
    /// job goes to the most recently idle worker; a termination request stops every worker.
    pub fn on_signal(&mut self, is_job: bool) -> (a: MuxAction)
        requires
            old(self).phase() == MuxPhase::Dispatching,
            old(self).idle_workers().len() > 0,
        ensures
            final(self).workers() == old(self).workers(),
            is_job ==> a == MuxAction::RunJob(old(self).idle_workers().last()) && final(self).idle_workers()
                == old(self).idle_workers().drop_last() && final(self).phase() == MuxPhase::Dispatching,
            !is_job ==> a == MuxAction::TerminateWorkers && final(self).phase() == MuxPhase::Draining(0)
                && final(self).idle_workers() == old(self).idle_workers(),
    {
        if is_job {
            let id = match self.idle.pop() {
                Some(id) => id,
                None => 0,
            };
            MuxAction::RunJob(id)
        } else {
            self.phase = MuxPhase::Draining(0);
            MuxAction::TerminateWorkers
        }
    }
}

/// A job is only ever handed to a worker that reported idle since it was last given a job:
/// the worker chosen by `on_signal` is one of the idle workers, and is no longer idle after.
pub proof fn law_job_goes_to_idle_worker(idle: Seq<usize>, chosen: usize, after: Seq<usize>)
    requires
        idle.len() > 0,
        chosen == idle.last(),
        after == idle.drop_last(),
    ensures
        idle.contains(chosen),
        after.len() + 1 == idle.len(),
        after.push(chosen) == idle,
{
    assert(idle[idle.len() - 1] == chosen);
    assert(after.push(chosen) =~= idle);
}

} // verus!
