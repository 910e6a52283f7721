use vstd::prelude::*;

verus! {

/// Where a worker of the pool stands.
#[derive(PartialEq, Eq, Structural, Clone, Copy, Debug)]
pub enum WorkerState {
    Idle,
    Busy,
    Terminated,
}

/// What the pool hands a worker: a task to run, or the signal to stop.
pub enum WorkerMessage<T> {
    Task(T),
    Terminate,
}

/// The decisions of one worker: it runs tasks one at a time, stops on the
/// terminate signal, and stops for good after a failed task.
pub struct Worker {
    pub id: u32,
    pub state: WorkerState,
    pub failed: bool,
}

impl Worker {
    pub fn new(id: u32) -> (r: Worker)
        ensures
            r.id == id,
            r.state == WorkerState::Idle,
            !r.failed,
    {
        Worker { id, state: WorkerState::Idle, failed: false }
    }

    /// Takes a message; returns whether its task is to be run now.
    pub fn receive<T>(&mut self, msg: &WorkerMessage<T>) -> (run: bool)
        requires
            old(self).state == WorkerState::Idle,
        ensures
            final(self).id == old(self).id,
            final(self).failed == old(self).failed,
            msg is Task ==> run && final(self).state == WorkerState::Busy,
            msg is Terminate ==> !run && final(self).state == WorkerState::Terminated,
    {
        match msg {
            WorkerMessage::Task(_) => {
                self.state = WorkerState::Busy;
                true
            },
            WorkerMessage::Terminate => {
                self.state = WorkerState::Terminated;
                false
            },
        }
    }

    /// Records how the running task ended; returns whether the worker takes more work.
    pub fn finish(&mut self, ok: bool) -> (keep_going: bool)
        requires
            old(self).state == WorkerState::Busy,
        ensures
            final(self).id == old(self).id,
            keep_going == ok,
            ok ==> final(self).state == WorkerState::Idle && final(self).failed == old(self).failed,
            !ok ==> final(self).state == WorkerState::Terminated && final(self).failed,
    {
        if ok {
            self.state = WorkerState::Idle;
        } else {
            self.state = WorkerState::Terminated;
            self.failed = true;
        }
        ok
    }

    pub fn is_terminated(&self) -> (r: bool)
        ensures
            r == (self.state == WorkerState::Terminated),
    {
        self.state == WorkerState::Terminated
    }

    pub fn is_busy(&self) -> (r: bool)
        ensures
            r == (self.state == WorkerState::Busy),
    {
        self.state == WorkerState::Busy
    }
}

/// The number of busy workers.
pub open spec fn running(ws: Seq<WorkerState>) -> nat
    decreases ws.len(),
{
    if ws.len() == 0 {
        0
    } else {
        running(ws.drop_last()) + if ws.last() == WorkerState::Busy {
            1nat
        } else {
            0nat
        }
    }
}

/// No more workers are busy than there are workers.
pub proof fn lemma_running_bounded(ws: Seq<WorkerState>)
    ensures
        running(ws) <= ws.len(),
    decreases ws.len(),
{
    if ws.len() > 0 {
        lemma_running_bounded(ws.drop_last());
    }
}

/// Changing one worker's state changes the count by that worker's part alone.
pub proof fn lemma_running_update(ws: Seq<WorkerState>, i: int, s: WorkerState)
    requires
        0 <= i < ws.len(),
    ensures
        running(ws.update(i, s)) + (if ws[i] == WorkerState::Busy { 1nat } else { 0nat }) == running(ws)
            + (if s == WorkerState::Busy { 1nat } else { 0nat }),
    decreases ws.len(),
{
    if i < ws.len() - 1 {
        assert(ws.update(i, s).drop_last() =~= ws.drop_last().update(i, s));
        lemma_running_update(ws.drop_last(), i, s);
    } else {
        assert(ws.update(i, s).drop_last() =~= ws.drop_last());
    }
}

/// Why the pool refused a task.
#[derive(PartialEq, Eq, Structural, Clone, Copy, Debug)]
pub enum PoolError {
    /// Tasks were submitted after shutdown began.
    Closed,
}

/// The dispatch decisions of a fixed-size pool: a task is handed to an idle
/// worker or waits, and shutdown happens once.
pub struct PoolState {
    pub workers: Vec<WorkerState>,
    pub is_terminated: bool,
}

impl PoolState {
    /// A pool of `size` idle workers.
    pub fn new(size: usize) -> (r: PoolState)
        requires
            size >= 1,
        ensures
            r.workers@.len() == size,
            forall|i: int| 0 <= i < size ==> r.workers@[i] == WorkerState::Idle,
            !r.is_terminated,
            running(r.workers@) == 0,
    {
        let mut workers: Vec<WorkerState> = Vec::new();
        let mut i: usize = 0;
        while i < size
            invariant
                i <= size,
                workers@.len() == i,
                forall|j: int| 0 <= j < i ==> workers@[j] == WorkerState::Idle,
                running(workers@) == 0,
            decreases size - i,
        {
            let ghost before = workers@;
            workers.push(WorkerState::Idle);
            assert(workers@.drop_last() =~= before);
            i = i + 1;
        }
        PoolState { workers, is_terminated: false }
    }

    pub fn size(&self) -> (r: usize)
        ensures
            r == self.workers@.len(),
    {
        self.workers.len()
    }

    /// Hands a task to the first idle worker, if any; `Ok(None)` means the
    /// submitter must wait until a worker is free.
    pub fn dispatch(&mut self) -> (r: Result<Option<usize>, PoolError>)
        ensures
            old(self).is_terminated ==> r == Err::<Option<usize>, PoolError>(PoolError::Closed)
                && *final(self) == *old(self),
            !old(self).is_terminated ==> r is Ok,
            final(self).is_terminated == old(self).is_terminated,
            final(self).workers@.len() == old(self).workers@.len(),
            r matches Ok(Some(i)) ==> i < old(self).workers@.len() && old(self).workers@[i as int]
                == WorkerState::Idle && final(self).workers@ == old(self).workers@.update(
                i as int,
                WorkerState::Busy,
            ) && running(final(self).workers@) == running(old(self).workers@) + 1,
            r matches Ok(None) ==> *final(self) == *old(self) && forall|j: int|
                0 <= j < old(self).workers@.len() ==> old(self).workers@[j] != WorkerState::Idle,
            running(final(self).workers@) <= final(self).workers@.len(),
    {
        proof {
            lemma_running_bounded(self.workers@);
        }
        if self.is_terminated {
            return Err(PoolError::Closed);
        }
        let mut i: usize = 0;
        while i < self.workers.len()
            invariant
                i <= self.workers@.len(),
                *self == *old(self),
                !old(self).is_terminated,
                forall|j: int| 0 <= j < i ==> self.workers@[j] != WorkerState::Idle,
            decreases self.workers@.len() - i,
        {
            if self.workers[i] == WorkerState::Idle {
                proof {
                    lemma_running_update(self.workers@, i as int, WorkerState::Busy);
                }
                self.workers.set(i, WorkerState::Busy);
                proof {
                    lemma_running_bounded(self.workers@);
                }
                return Ok(Some(i));
            }
            i = i + 1;
        }
        Ok(None)
    }

    /// Records that worker `i` finished its task: idle again on success,
    /// stopped for good on failure.
    pub fn task_finished(&mut self, i: usize, ok: bool)
        requires
            i < old(self).workers@.len(),
            old(self).workers@[i as int] == WorkerState::Busy,
        ensures
            final(self).is_terminated == old(self).is_terminated,
            final(self).workers@ == old(self).workers@.update(
                i as int,
                if ok {
                    WorkerState::Idle
                } else {
                    WorkerState::Terminated
                },
            ),
            running(final(self).workers@) + 1 == running(old(self).workers@),
    {
        let s = if ok {
            WorkerState::Idle
        } else {
            WorkerState::Terminated
        };
        proof {
            lemma_running_update(self.workers@, i as int, s);
        }
        self.workers.set(i, s);
    }

    /// Whether some worker can still take work, now or once it is free.
    pub fn has_live_worker(&self) -> (r: bool)
        ensures
            r == exists|j: int|
                0 <= j < self.workers@.len() && self.workers@[j] != WorkerState::Terminated,
    {
        let mut i: usize = 0;
        while i < self.workers.len()
            invariant
                i <= self.workers@.len(),
                forall|j: int| 0 <= j < i ==> self.workers@[j] == WorkerState::Terminated,
            decreases self.workers@.len() - i,
        {
            if self.workers[i] != WorkerState::Terminated {
                return true;
            }
            i = i + 1;
        }
        false
    }

    /// Begins shutdown; returns whether the stop signals are to be sent now,
    /// which is so only the first time.
    pub fn close(&mut self) -> (send: bool)
        ensures
            send == !old(self).is_terminated,
            final(self).is_terminated,
            final(self).workers@ == old(self).workers@,
    {
        if self.is_terminated {
            return false;
        }
        self.is_terminated = true;
        true
    }

    /// Records that every worker has stopped.
    pub fn all_stopped(&mut self)
        ensures
            final(self).is_terminated == old(self).is_terminated,
            final(self).workers@.len() == old(self).workers@.len(),
            forall|j: int|
                0 <= j < final(self).workers@.len() ==> final(self).workers@[j]
                    == WorkerState::Terminated,
            running(final(self).workers@) == 0,
    {
        let n = self.workers.len();
        let mut i: usize = 0;
        while i < n
            invariant
                n == self.workers@.len(),
                n == old(self).workers@.len(),
                i <= n,
                self.is_terminated == old(self).is_terminated,
                forall|j: int| 0 <= j < i ==> self.workers@[j] == WorkerState::Terminated,
            decreases n - i,
        {
            self.workers.set(i, WorkerState::Terminated);
            i = i + 1;
        }
        proof {
            lemma_no_busy(self.workers@);
        }
    }
}

proof fn lemma_no_busy(ws: Seq<WorkerState>)
    requires
        forall|j: int| 0 <= j < ws.len() ==> ws[j] == WorkerState::Terminated,
    ensures
        running(ws) == 0,
    decreases ws.len(),
{
    if ws.len() > 0 {
        lemma_no_busy(ws.drop_last());
    }
}

} // verus!
