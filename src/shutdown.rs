use vstd::prelude::*;

verus! {

/// The server's lifecycle.
#[derive(Clone, Copy, Debug, PartialEq, Eq, Structural)]
pub enum Phase {
    Running,
    Draining,
    Stopped,
}

/// The coordinator as a value: the phase and the connections still open.
pub struct CoordView {
    pub phase: Phase,
    pub in_flight: nat,
}

/// What can happen to the coordinator.
#[derive(Clone, Copy, Debug, PartialEq, Eq, Structural)]
pub enum CoordOp {
    /// The listener asks whether it may take a new connection.
    Accept,
    /// An accepted connection closed.
    Close,
    /// The shutdown signal arrived.
    Signal,
    /// The drain deadline passed.
    Deadline,
}

/// The largest number of connections open at once.
pub const MAX_IN_FLIGHT: u64 = 0xffff_ffff_ffff_ffff;

/// A new connection is taken only while running, and below the limit.
pub open spec fn spec_accept(v: CoordView) -> (CoordView, bool) {
    if v.phase == Phase::Running && v.in_flight < MAX_IN_FLIGHT {
        (CoordView { phase: v.phase, in_flight: v.in_flight + 1 }, true)
    } else {
        (v, false)
    }
}

/// A connection closed; the last one to close while draining stops the server.
pub open spec fn spec_close(v: CoordView) -> CoordView {
    if v.in_flight == 0 {
        v
    } else if v.phase == Phase::Draining && v.in_flight == 1 {
        CoordView { phase: Phase::Stopped, in_flight: 0 }
    } else {
        CoordView { phase: v.phase, in_flight: (v.in_flight - 1) as nat }
    }
}

/// The signal moves a running server to draining, or straight to stopped
/// when nothing is open.
pub open spec fn spec_signal(v: CoordView) -> CoordView {
    if v.phase == Phase::Running {
        if v.in_flight == 0 {
            CoordView { phase: Phase::Stopped, in_flight: 0 }
        } else {
            CoordView { phase: Phase::Draining, in_flight: v.in_flight }
        }
    } else {
        v
    }
}

/// At the drain deadline every connection still open is closed by force, and
/// the server stops; the second component is how many were closed so.
pub open spec fn spec_deadline(v: CoordView) -> (CoordView, nat) {
    if v.phase == Phase::Draining {
        (CoordView { phase: Phase::Stopped, in_flight: 0 }, v.in_flight)
    } else {
        (v, 0)
    }
}

/// One operation: the new state, the connections accepted and those closed
/// by force.
pub open spec fn step_op(v: CoordView, op: CoordOp) -> (CoordView, nat, nat) {
    match op {
        CoordOp::Accept => {
            let (w, ok) = spec_accept(v);
            (w, if ok {
                1
            } else {
                0
            }, 0)
        },
        CoordOp::Close => (spec_close(v), 0, 0),
        CoordOp::Signal => (spec_signal(v), 0, 0),
        CoordOp::Deadline => {
            let (w, forced) = spec_deadline(v);
            (w, 0, forced)
        },
    }
}

/// A run of operations: the final state, and the totals of accepted and of
/// forcibly closed connections.
pub open spec fn run_ops(v: CoordView, ops: Seq<CoordOp>) -> (CoordView, nat, nat)
    decreases ops.len(),
{
    if ops.len() == 0 {
        (v, 0, 0)
    } else {
        let (w, a, f) = run_ops(v, ops.drop_last());
        let (x, a2, f2) = step_op(w, ops.last());
        (x, a + a2, f + f2)
    }
}

/// After the shutdown signal the server never runs again and accepts no
/// connection, whatever follows.
pub proof fn lemma_no_accept_after_signal(v: CoordView, ops: Seq<CoordOp>)
    ensures
        run_ops(spec_signal(v), ops).0.phase != Phase::Running,
        run_ops(spec_signal(v), ops).1 == 0,
    decreases ops.len(),
{
    if ops.len() > 0 {
        lemma_no_accept_after_signal(v, ops.drop_last());
    }
}

/// Until the drain deadline, no connection is closed by force: those in
/// flight run to completion.
pub proof fn lemma_no_force_before_deadline(v: CoordView, ops: Seq<CoordOp>)
    requires
        forall|i: int| 0 <= i < ops.len() ==> ops[i] != CoordOp::Deadline,
    ensures
        run_ops(v, ops).2 == 0,
    decreases ops.len(),
{
    if ops.len() > 0 {
        lemma_no_force_before_deadline(v, ops.drop_last());
    }
}

/// At the drain deadline every connection still open is closed by force and
/// the server is stopped.
pub proof fn lemma_deadline_stops(v: CoordView)
    requires
        v.phase == Phase::Draining,
    ensures
        spec_deadline(v).0 == (CoordView { phase: Phase::Stopped, in_flight: 0 }),
        spec_deadline(v).1 == v.in_flight,
{
}

/// The process-wide shutdown coordinator.
pub struct Coordinator {
    phase: Phase,
    in_flight: u64,
}

impl View for Coordinator {
    type V = CoordView;

    closed spec fn view(&self) -> CoordView {
        CoordView { phase: self.phase, in_flight: self.in_flight as nat }
    }
}

impl Coordinator {
    /// A running coordinator with nothing open.
    pub fn new() -> (r: Coordinator)
        ensures
            r@ == (CoordView { phase: Phase::Running, in_flight: 0 }),
    {
        Coordinator { phase: Phase::Running, in_flight: 0 }
    }

    /// The current phase.
    pub fn phase(&self) -> (r: Phase)
        ensures
            r == self@.phase,
    {
        self.phase
    }

    /// The connections accepted and not yet closed.
    pub fn in_flight(&self) -> (r: u64)
        ensures
            r == self@.in_flight,
    {
        self.in_flight
    }

    /// Whether the listener may hand over a new connection; if so, it is
    /// counted as open.
    pub fn try_accept(&mut self) -> (ok: bool)
        ensures
            (final(self)@, ok) == spec_accept(old(self)@),
    {
        if self.phase == Phase::Running && self.in_flight < MAX_IN_FLIGHT {
            self.in_flight = self.in_flight + 1;
            true
        } else {
            false
        }
    }

    /// Records that a connection closed.
    pub fn connection_closed(&mut self)
        ensures
            final(self)@ == spec_close(old(self)@),
    {
        if self.in_flight == 0 {
            return ;
        }
        if self.phase == Phase::Draining && self.in_flight == 1 {
            self.phase = Phase::Stopped;
            self.in_flight = 0;
        } else {
            self.in_flight = self.in_flight - 1;
        }
    }

    /// Takes the shutdown signal.
    pub fn signal(&mut self)
        ensures
            final(self)@ == spec_signal(old(self)@),
    {
        if self.phase == Phase::Running {
            if self.in_flight == 0 {
                self.phase = Phase::Stopped;
            } else {
                self.phase = Phase::Draining;
            }
        }
    }

    /// The drain deadline passed: returns how many connections are to be
    /// closed by force.
    pub fn deadline_passed(&mut self) -> (forced: u64)
        ensures
            (final(self)@, forced as nat) == spec_deadline(old(self)@),
    {
        if self.phase == Phase::Draining {
            let forced = self.in_flight;
            self.phase = Phase::Stopped;
            self.in_flight = 0;
            forced
        } else {
            0
        }
    }

    /// Applies one operation; says whether a connection was accepted and how
    /// many are to be closed by force.
    pub fn apply(&mut self, op: CoordOp) -> (r: (bool, u64))
        ensures
            final(self)@ == step_op(old(self)@, op).0,
            (if r.0 {
                1nat
            } else {
                0nat
            }) == step_op(old(self)@, op).1,
            r.1 as nat == step_op(old(self)@, op).2,
    {
        match op {
            CoordOp::Accept => (self.try_accept(), 0),
            CoordOp::Close => {
                self.connection_closed();
                (false, 0)
            },
            CoordOp::Signal => {
                self.signal();
                (false, 0)
            },
            CoordOp::Deadline => (false, self.deadline_passed()),
        }
    }
}

} // verus!
