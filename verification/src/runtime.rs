//! The worker runtime that receives and sends off the simulation thread:
//! its lifecycle, the decisions its workers and its park barrier make, the
//! slot that keeps the first worker panic, and the one-tick lag buffer of
//! the send worker.

use vstd::prelude::*;

verus! {

/// Lifecycle of the worker runtime.
#[derive(Clone, Copy, PartialEq, Eq, Debug, Structural)]
pub enum RuntimeState {
    /// Built; the handles wait in their slots and no worker runs yet.
    Armed,
    /// Both workers run.
    Running,
    /// Shut down.
    Stopped,
}

/// The state a stored state code stands for: 0 is armed, 1 running, any
/// other code stopped.
pub open spec fn state_of(code: u8) -> RuntimeState {
    if code == 0 {
        RuntimeState::Armed
    } else if code == 1 {
        RuntimeState::Running
    } else {
        RuntimeState::Stopped
    }
}

impl RuntimeState {
    /// The code a state is stored as.
    pub open spec fn spec_code(self) -> u8 {
        match self {
            RuntimeState::Armed => 0,
            RuntimeState::Running => 1,
            RuntimeState::Stopped => 2,
        }
    }

    /// The code this state is stored as.
    pub fn code(&self) -> (r: u8)
        ensures
            r == self.spec_code(),
            state_of(r) == *self,
    {
        match self {
            RuntimeState::Armed => 0,
            RuntimeState::Running => 1,
            RuntimeState::Stopped => 2,
        }
    }

    /// The state stored as `code`.
    pub fn from_code(code: u8) -> (r: RuntimeState)
        ensures
            r == state_of(code),
    {
        if code == 0 {
            RuntimeState::Armed
        } else if code == 1 {
            RuntimeState::Running
        } else {
            RuntimeState::Stopped
        }
    }
}

impl RuntimeState {
    /// Whether parking and unparking act in this state: only while the
    /// workers run (before they are spawned and after shutdown both are
    /// no-ops).
    pub fn controls_workers(&self) -> (r: bool)
        ensures
            r == (*self == RuntimeState::Running),
    {
        match self {
            RuntimeState::Running => true,
            _ => false,
        }
    }
}

/// Whether the main thread may stop waiting for the workers to park:
/// `parked` of `expected` workers sit at their checkpoint and `finished`
/// of the others have ended (panicked or returned), and a finished worker
/// never parks.
pub fn park_barrier_done(parked: u32, finished: u32, expected: u32) -> (r: bool)
    ensures
        r == (parked + finished >= expected),
{
    parked as u64 + finished as u64 >= expected as u64
}

/// Whether the main thread may stop waiting for parked workers to leave
/// their checkpoint: none is left there, or every one still counted has
/// finished and will never leave it.
pub fn unpark_barrier_done(parked: u32, finished: u32) -> (r: bool)
    ensures
        r == (parked == 0 || finished >= parked),
{
    parked == 0 || finished >= parked
}

/// What a worker does after passing its park checkpoint.
#[derive(Clone, Copy, PartialEq, Eq, Debug, Structural)]
pub enum WorkerStep {
    /// Shutdown was signalled: the worker returns.
    Exit,
    /// A park was requested meanwhile: straight back to the checkpoint,
    /// without starting any work.
    Checkpoint,
    /// Claim the handle and do one round of work.
    Work,
}

/// The step a worker takes at the top of its loop, given whether shutdown
/// was signalled and whether a park is requested.
pub open spec fn worker_step_spec(shutdown: bool, park_requested: bool) -> WorkerStep {
    if shutdown {
        WorkerStep::Exit
    } else if park_requested {
        WorkerStep::Checkpoint
    } else {
        WorkerStep::Work
    }
}

/// Decides a worker's next step; shutdown wins over a park request.
pub fn worker_step(shutdown: bool, park_requested: bool) -> (r: WorkerStep)
    ensures
        r == worker_step_spec(shutdown, park_requested),
{
    if shutdown {
        WorkerStep::Exit
    } else if park_requested {
        WorkerStep::Checkpoint
    } else {
        WorkerStep::Work
    }
}

/// Keeps the payload of the first worker that panicked; later panics do
/// not replace it.
pub struct PanicSlot<P> {
    payload: Option<P>,
}

/// What a slot holds after a panic with `p` is offered to it.
pub open spec fn slot_after_set<P>(held: Option<P>, p: P) -> Option<P> {
    match held {
        Some(first) => Some(first),
        None => Some(p),
    }
}

/// What a slot holds after each payload of `ps` is offered to it in turn.
pub open spec fn slot_after_all<P>(held: Option<P>, ps: Seq<P>) -> Option<P>
    decreases ps.len(),
{
    if ps.len() == 0 {
        held
    } else {
        slot_after_set(slot_after_all(held, ps.drop_last()), ps.last())
    }
}

impl<P> PanicSlot<P> {
    /// The payload held, if any.
    pub closed spec fn held(&self) -> Option<P> {
        self.payload
    }

    /// An empty slot.
    pub fn new() -> (r: Self)
        ensures
            r.held() is None,
    {
        PanicSlot { payload: None }
    }

    /// Offers the payload of a panic; it is kept only if none is held yet.
    pub fn set(&mut self, payload: P)
        ensures
            final(self).held() == slot_after_set(old(self).held(), payload),
    {
        if self.payload.is_none() {
            self.payload = Some(payload);
        }
    }

    /// Takes the payload out, leaving the slot empty.
    pub fn take(&mut self) -> (r: Option<P>)
        ensures
            r == old(self).held(),
            final(self).held() is None,
    {
        self.payload.take()
    }
}

/// Of the panics offered to an empty slot, the first is the one it keeps,
/// however many follow.
pub proof fn lemma_first_panic_wins<P>(ps: Seq<P>)
    requires
        ps.len() > 0,
    ensures
        slot_after_all(None, ps) == Some(ps[0]),
    decreases ps.len(),
{
    if ps.len() > 1 {
        lemma_first_panic_wins(ps.drop_last());
        assert(ps.drop_last()[0] == ps[0]);
    } else {
        assert(ps.drop_last().len() == 0);
        assert(slot_after_all(None::<P>, ps.drop_last()) is None);
        assert(ps.last() == ps[0]);
    }
}

/// The slot a snapshot passes through from the simulation to the send
/// worker: a snapshot published before the previous one was taken replaces
/// it, so the latest wins.
pub struct SnapshotSlot<T> {
    slot: Option<T>,
}

impl<T> SnapshotSlot<T> {
    /// The snapshot waiting, if any.
    pub closed spec fn held(&self) -> Option<T> {
        self.slot
    }

    /// An empty slot.
    pub fn new() -> (r: Self)
        ensures
            r.held() is None,
    {
        SnapshotSlot { slot: None }
    }

    /// Publishes `snapshot`, replacing any not yet taken.
    pub fn send(&mut self, snapshot: T)
        ensures
            final(self).held() == Some(snapshot),
    {
        self.slot = Some(snapshot);
    }

    /// Whether a snapshot waits to be taken.
    pub fn has_pending(&self) -> (r: bool)
        ensures
            r == self.held() is Some,
    {
        self.slot.is_some()
    }

    /// Takes the waiting snapshot, if any, leaving the slot empty.
    pub fn take_latest(&mut self) -> (r: Option<T>)
        ensures
            r == old(self).held(),
            final(self).held() is None,
    {
        self.slot.take()
    }
}

/// The send worker's one-tick lag: the job published on one cycle is sent
/// on the next, so the worker always transmits a frozen job.
pub struct SendLag<T> {
    held_job: Option<T>,
}

/// A job that may be absent, as a sequence of zero or one jobs.
pub open spec fn opt_seq<T>(o: Option<T>) -> Seq<T> {
    match o {
        Some(x) => seq![x],
        None => Seq::empty(),
    }
}

/// The jobs present in a run of cycles, in order.
pub open spec fn somes<T>(s: Seq<Option<T>>) -> Seq<T>
    decreases s.len(),
{
    if s.len() == 0 {
        Seq::empty()
    } else {
        somes(s.drop_last()) + opt_seq(s.last())
    }
}

/// The job held after cycles publishing `inputs`, starting from `held`.
pub open spec fn lag_held<T>(held: Option<T>, inputs: Seq<Option<T>>) -> Option<T> {
    if inputs.len() == 0 {
        held
    } else {
        inputs.last()
    }
}

/// What each of the cycles publishing `inputs` sends, starting from `held`.
pub open spec fn lag_sent<T>(held: Option<T>, inputs: Seq<Option<T>>) -> Seq<Option<T>>
    decreases inputs.len(),
{
    if inputs.len() == 0 {
        Seq::empty()
    } else {
        lag_sent(held, inputs.drop_last()).push(lag_held(held, inputs.drop_last()))
    }
}

impl<T> SendLag<T> {
    /// The job buffered for the next cycle, if any.
    pub closed spec fn held(&self) -> Option<T> {
        self.held_job
    }

    /// An empty buffer: the first cycle sends nothing.
    pub fn new() -> (r: Self)
        ensures
            r.held() is None,
    {
        SendLag { held_job: None }
    }

    /// One cycle: buffers the job published now (if any) and hands back
    /// the one buffered on the previous cycle, to send now. With nothing
    /// published, the buffer is flushed.
    pub fn advance(&mut self, latest: Option<T>) -> (r: Option<T>)
        ensures
            r == old(self).held(),
            final(self).held() == latest,
    {
        let previous = self.held_job.take();
        self.held_job = latest;
        previous
    }
}

/// The jobs of two runs of cycles, one after the other, are the jobs of
/// the first followed by those of the second.
pub proof fn lemma_somes_append<T>(a: Seq<Option<T>>, b: Seq<Option<T>>)
    ensures
        somes(a + b) == somes(a) + somes(b),
    decreases b.len(),
{
    if b.len() == 0 {
        assert(a + b =~= a);
        assert(somes(b) =~= Seq::<T>::empty());
        assert(somes(a) + somes(b) =~= somes(a));
    } else {
        lemma_somes_append(a, b.drop_last());
        assert((a + b).drop_last() =~= a + b.drop_last());
        assert((a + b).last() == b.last());
        assert(somes(a + b) =~= somes(a) + somes(b));
    }
}

/// The lag loses and repeats nothing: over any run of cycles, each cycle
/// sends what was published on the cycle before (the first sends what was
/// held at the start), and the jobs sent, followed by the one still held,
/// are the job held at the start followed by every job published, in
/// order.
pub proof fn lemma_lag_loses_nothing<T>(held: Option<T>, inputs: Seq<Option<T>>)
    ensures
        lag_sent(held, inputs).len() == inputs.len(),
        forall|i: int|
            0 <= i < inputs.len() ==> #[trigger] lag_sent(held, inputs)[i] == (seq![held] + inputs)[i],
        somes(lag_sent(held, inputs)) + opt_seq(lag_held(held, inputs)) == opt_seq(held) + somes(inputs),
    decreases inputs.len(),
{
    if inputs.len() == 0 {
        assert(somes(inputs) =~= Seq::<T>::empty());
        assert(somes(lag_sent(held, inputs)) =~= Seq::<T>::empty());
        assert(somes(lag_sent(held, inputs)) + opt_seq(held) =~= opt_seq(held) + somes(inputs));
    } else {
        let prev = inputs.drop_last();
        lemma_lag_loses_nothing(held, prev);
        let sent = lag_sent(held, inputs);
        assert(sent == lag_sent(held, prev).push(lag_held(held, prev)));
        assert forall|i: int| 0 <= i < inputs.len() implies #[trigger] sent[i] == (seq![held] + inputs)[i] by {
            if i < prev.len() {
                assert(sent[i] == lag_sent(held, prev)[i]);
                assert((seq![held] + prev)[i] == (seq![held] + inputs)[i]);
            } else {
                if prev.len() > 0 {
                    assert(lag_held(held, prev) == prev.last());
                    assert((seq![held] + inputs)[i] == inputs[i - 1]);
                }
            }
        }
        // the sent jobs grow by the job held before this cycle
        assert(lag_sent(held, inputs).drop_last() =~= lag_sent(held, prev));
        assert(somes(sent) == somes(lag_sent(held, prev)) + opt_seq(lag_held(held, prev)));
        // what was published grows by this cycle's job
        assert(somes(inputs) == somes(prev) + opt_seq(inputs.last()));
        assert(lag_held(held, inputs) == inputs.last());
        assert(somes(sent) + opt_seq(lag_held(held, inputs))
            =~= opt_seq(held) + somes(inputs));
    }
}

} // verus!
