use vstd::prelude::*;

verus! {

/// Where one connection stands in its read, dispatch, write cycle.
#[derive(Clone, Copy, Debug, PartialEq, Eq, Structural)]
pub enum ConnState {
    Accepting,
    Reading,
    Dispatching,
    Writing,
    Closed,
}

/// What happened on a connection.
#[derive(Clone, Copy, Debug, PartialEq, Eq, Structural)]
pub enum ConnEvent {
    /// The listener handed the connection over.
    Accepted,
    /// A complete request was read.
    RequestRead,
    /// Reading failed or the framing was malformed.
    ReadFailed,
    /// The peer closed its side between requests.
    PeerClosed,
    /// The dispatcher produced the response.
    ResponseReady,
    /// The per-request deadline passed during dispatch.
    TimedOut,
    /// The response was written in full.
    Written,
    /// Writing the response failed.
    WriteFailed,
    /// The drain deadline passed: the connection is closed by force.
    ForceClose,
}

/// What the connection's task does next.
#[derive(Clone, Copy, Debug, PartialEq, Eq, Structural)]
pub enum ConnAction {
    Read,
    Dispatch,
    Write,
    Close,
    Ignore,
}

/// A connection as a value: its state, the requests read and the responses
/// written on it.
pub struct ConnView {
    pub state: ConnState,
    pub read: nat,
    pub served: nat,
}

/// The state machine of one connection.
pub open spec fn transition(s: ConnState, e: ConnEvent) -> (ConnState, ConnAction) {
    if s == ConnState::Closed {
        (ConnState::Closed, ConnAction::Ignore)
    } else if e == ConnEvent::ForceClose {
        (ConnState::Closed, ConnAction::Close)
    } else {
        match s {
            ConnState::Accepting => match e {
                ConnEvent::Accepted => (ConnState::Reading, ConnAction::Read),
                _ => (s, ConnAction::Ignore),
            },
            ConnState::Reading => match e {
                ConnEvent::RequestRead => (ConnState::Dispatching, ConnAction::Dispatch),
                ConnEvent::ReadFailed => (ConnState::Closed, ConnAction::Close),
                ConnEvent::PeerClosed => (ConnState::Closed, ConnAction::Close),
                _ => (s, ConnAction::Ignore),
            },
            ConnState::Dispatching => match e {
                ConnEvent::ResponseReady => (ConnState::Writing, ConnAction::Write),
                ConnEvent::TimedOut => (ConnState::Closed, ConnAction::Close),
                _ => (s, ConnAction::Ignore),
            },
            ConnState::Writing => match e {
                ConnEvent::Written => (ConnState::Reading, ConnAction::Read),
                ConnEvent::WriteFailed => (ConnState::Closed, ConnAction::Close),
                _ => (s, ConnAction::Ignore),
            },
            ConnState::Closed => (s, ConnAction::Ignore),
        }
    }
}

/// A request is read on this step.
pub open spec fn reads_request(s: ConnState, e: ConnEvent) -> bool {
    s == ConnState::Reading && e == ConnEvent::RequestRead
}

/// A response is written in full on this step.
pub open spec fn completes_response(s: ConnState, e: ConnEvent) -> bool {
    s == ConnState::Writing && e == ConnEvent::Written
}

/// One step of a connection, with its counts.
pub open spec fn next(v: ConnView, e: ConnEvent) -> (ConnView, ConnAction) {
    let (s, a) = transition(v.state, e);
    (
        ConnView {
            state: s,
            read: if reads_request(v.state, e) {
                v.read + 1
            } else {
                v.read
            },
            served: if completes_response(v.state, e) {
                v.served + 1
            } else {
                v.served
            },
        },
        a,
    )
}

/// No response is written twice or without a request: a request is
/// outstanding while it is dispatched or its response written, and none is
/// while the connection waits for the next one. A connection closed in the
/// middle leaves its request unanswered.
pub open spec fn accounted(v: ConnView) -> bool {
    &&& v.served <= v.read <= v.served + 1
    &&& (v.state == ConnState::Dispatching || v.state == ConnState::Writing) ==> v.read
        == v.served + 1
    &&& (v.state == ConnState::Accepting || v.state == ConnState::Reading) ==> v.read
        == v.served
}

/// A connection just handed over by the listener.
pub open spec fn fresh() -> ConnView {
    ConnView { state: ConnState::Accepting, read: 0, served: 0 }
}

/// Every step keeps the count of responses in step with the count of requests.
pub proof fn lemma_step_accounted(v: ConnView, e: ConnEvent)
    requires
        accounted(v),
    ensures
        accounted(next(v, e).0),
{
}

/// A connection's own task: the state, with the counts in machine integers.
pub struct Connection {
    pub state: ConnState,
    pub read: u64,
    pub served: u64,
}

impl View for Connection {
    type V = ConnView;

    open spec fn view(&self) -> ConnView {
        ConnView { state: self.state, read: self.read as nat, served: self.served as nat }
    }
}

impl Connection {
    /// A connection in the accepting state, with nothing read.
    pub fn new() -> (r: Connection)
        ensures
            r@ == fresh(),
    {
        Connection { state: ConnState::Accepting, read: 0, served: 0 }
    }

    /// Takes one event and says what to do next.
    pub fn step(&mut self, e: ConnEvent) -> (a: ConnAction)
        requires
            accounted(old(self)@),
            reads_request(old(self).state, e) ==> old(self).read < u64::MAX,
        ensures
            (final(self)@, a) == next(old(self)@, e),
            accounted(final(self)@),
    {
        let s = self.state;
        let (t, a) = match s {
            ConnState::Closed => (ConnState::Closed, ConnAction::Ignore),
            _ => match e {
                ConnEvent::ForceClose => (ConnState::Closed, ConnAction::Close),
                _ => match s {
                    ConnState::Accepting => match e {
                        ConnEvent::Accepted => (ConnState::Reading, ConnAction::Read),
                        _ => (s, ConnAction::Ignore),
                    },
                    ConnState::Reading => match e {
                        ConnEvent::RequestRead => (ConnState::Dispatching, ConnAction::Dispatch),
                        ConnEvent::ReadFailed => (ConnState::Closed, ConnAction::Close),
                        ConnEvent::PeerClosed => (ConnState::Closed, ConnAction::Close),
                        _ => (s, ConnAction::Ignore),
                    },
                    ConnState::Dispatching => match e {
                        ConnEvent::ResponseReady => (ConnState::Writing, ConnAction::Write),
                        ConnEvent::TimedOut => (ConnState::Closed, ConnAction::Close),
                        _ => (s, ConnAction::Ignore),
                    },
                    ConnState::Writing => match e {
                        ConnEvent::Written => (ConnState::Reading, ConnAction::Read),
                        ConnEvent::WriteFailed => (ConnState::Closed, ConnAction::Close),
                        _ => (s, ConnAction::Ignore),
                    },
                    ConnState::Closed => (s, ConnAction::Ignore),
                },
            },
        };
        if s == ConnState::Reading && e == ConnEvent::RequestRead {
            self.read = self.read + 1;
        }
        if s == ConnState::Writing && e == ConnEvent::Written {
            self.served = self.served + 1;
        }
        self.state = t;
        proof {
            lemma_step_accounted(old(self)@, e);
        }
        a
    }

    /// The connection is closed and takes no more events.
    pub fn is_closed(&self) -> (r: bool)
        ensures
            r == (self.state == ConnState::Closed),
    {
        self.state == ConnState::Closed
    }
}

/// The state a connection reaches from `v` through `evs`, in order.
pub open spec fn run(v: ConnView, evs: Seq<ConnEvent>) -> ConnView
    decreases evs.len(),
{
    if evs.len() == 0 {
        v
    } else {
        next(run(v, evs.drop_last()), evs.last()).0
    }
}

/// The events of connection `k` in an interleaving of the events of all
/// connections, each tagged with its connection's index.
pub open spec fn events_of(trace: Seq<(int, ConnEvent)>, k: int) -> Seq<ConnEvent>
    decreases trace.len(),
{
    if trace.len() == 0 {
        Seq::empty()
    } else {
        let rest = events_of(trace.drop_last(), k);
        if trace.last().0 == k {
            rest.push(trace.last().1)
        } else {
            rest
        }
    }
}

/// The states of all connections after an interleaving: each event steps
/// its own connection and no other.
pub open spec fn run_all(table: Seq<ConnView>, trace: Seq<(int, ConnEvent)>) -> Seq<ConnView>
    decreases trace.len(),
{
    if trace.len() == 0 {
        table
    } else {
        let t = run_all(table, trace.drop_last());
        let k = trace.last().0;
        if 0 <= k < t.len() {
            t.update(k, next(t[k], trace.last().1).0)
        } else {
            t
        }
    }
}

/// A connection that sends one request and hangs up when it has the answer.
pub open spec fn one_request_exchange() -> Seq<ConnEvent> {
    seq![
        ConnEvent::Accepted,
        ConnEvent::RequestRead,
        ConnEvent::ResponseReady,
        ConnEvent::Written,
        ConnEvent::PeerClosed,
    ]
}

/// Connections are isolated: whatever the interleaving, each connection ends
/// where its own events alone would take it.
pub proof fn lemma_interleaving_isolated(table: Seq<ConnView>, trace: Seq<(int, ConnEvent)>, k: int)
    requires
        0 <= k < table.len(),
    ensures
        run_all(table, trace).len() == table.len(),
        run_all(table, trace)[k] == run(table[k], events_of(trace, k)),
    decreases trace.len(),
{
    if trace.len() > 0 {
        let rest = trace.drop_last();
        lemma_interleaving_isolated(table, rest, k);
        let j = trace.last().0;
        if j == k {
            let evs = events_of(rest, k).push(trace.last().1);
            assert(evs.drop_last() =~= events_of(rest, k));
        } else if 0 <= j < table.len() {
            lemma_interleaving_isolated(table, rest, j);
        }
    }
}

/// Any number of connections, each sending one request, in any interleaving:
/// every one of them gets exactly one response and ends closed.
pub proof fn lemma_each_connection_answered_once(table: Seq<ConnView>, trace: Seq<(int, ConnEvent)>)
    requires
        forall|k: int| 0 <= k < table.len() ==> table[k] == fresh(),
        forall|k: int| 0 <= k < table.len() ==> events_of(trace, k) == one_request_exchange(),
    ensures
        run_all(table, trace).len() == table.len(),
        forall|k: int|
            0 <= k < table.len() ==> (#[trigger] run_all(table, trace)[k]).served == 1
                && run_all(table, trace)[k].read == 1 && run_all(table, trace)[k].state
                == ConnState::Closed,
{
    assert forall|k: int| 0 <= k < table.len() implies (#[trigger] run_all(table, trace)[k]).served
        == 1 && run_all(table, trace)[k].read == 1 && run_all(table, trace)[k].state
        == ConnState::Closed by {
        lemma_interleaving_isolated(table, trace, k);
        lemma_one_request_exchange();
    }
    if table.len() > 0 {
        lemma_interleaving_isolated(table, trace, 0);
    } else {
        lemma_run_all_len(table, trace);
    }
}

proof fn lemma_run_all_len(table: Seq<ConnView>, trace: Seq<(int, ConnEvent)>)
    ensures
        run_all(table, trace).len() == table.len(),
    decreases trace.len(),
{
    if trace.len() > 0 {
        lemma_run_all_len(table, trace.drop_last());
    }
}

/// One request on a fresh connection yields one response, then the close.
pub proof fn lemma_one_request_exchange()
    ensures
        run(fresh(), one_request_exchange()) == (ConnView {
            state: ConnState::Closed,
            read: 1,
            served: 1,
        }),
{
    let evs = one_request_exchange();
    assert(evs.drop_last().drop_last().drop_last().drop_last().drop_last() =~= Seq::<
        ConnEvent,
    >::empty());
    reveal_with_fuel(run, 6);
}

/// A failed handler does not end the connection: once its response (the
/// server error) is written, the connection reads the next request.
pub proof fn lemma_failure_keeps_connection(v: ConnView)
    requires
        v.state == ConnState::Dispatching,
    ensures
        run(v, seq![ConnEvent::ResponseReady, ConnEvent::Written]) == (ConnView {
            state: ConnState::Reading,
            read: v.read,
            served: v.served + 1,
        }),
{
    let evs = seq![ConnEvent::ResponseReady, ConnEvent::Written];
    assert(evs.drop_last().drop_last() =~= Seq::<ConnEvent>::empty());
    reveal_with_fuel(run, 3);
}

/// The connections of a server, by index.
pub struct ConnectionTable {
    conns: Vec<Connection>,
}

impl View for ConnectionTable {
    type V = Seq<ConnView>;

    closed spec fn view(&self) -> Seq<ConnView> {
        self.conns@.map_values(|c: Connection| c@)
    }
}

impl ConnectionTable {
    /// The invariant: every connection's counts are in step.
    pub open spec fn wf(&self) -> bool {
        forall|k: int| 0 <= k < self@.len() ==> accounted(#[trigger] self@[k])
    }

    /// A table with no connections.
    pub fn new() -> (r: ConnectionTable)
        ensures
            r@ == Seq::<ConnView>::empty(),
            r.wf(),
    {
        let r = ConnectionTable { conns: Vec::new() };
        assert(r@ =~= Seq::<ConnView>::empty());
        r
    }

    /// The number of connections ever accepted.
    pub fn len(&self) -> (r: usize)
        ensures
            r == self@.len(),
    {
        self.conns.len()
    }

    /// Adds a freshly accepted connection and returns its index.
    pub fn open(&mut self) -> (id: usize)
        requires
            old(self).wf(),
        ensures
            final(self)@ == old(self)@.push(fresh()),
            id == old(self)@.len(),
            final(self).wf(),
    {
        let id = self.conns.len();
        self.conns.push(Connection::new());
        assert(self@ =~= old(self)@.push(fresh()));
        id
    }

    /// Steps connection `id` with one event; no other connection changes.
    pub fn apply(&mut self, id: usize, e: ConnEvent) -> (a: ConnAction)
        requires
            old(self).wf(),
            id < old(self)@.len(),
            reads_request(old(self)@[id as int].state, e) ==> old(self)@[id as int].read
                < u64::MAX,
        ensures
            final(self)@ == old(self)@.update(id as int, next(old(self)@[id as int], e).0),
            a == next(old(self)@[id as int], e).1,
            final(self).wf(),
    {
        let mut c = Connection { state: self.conns[id].state, read: self.conns[id].read, served: self.conns[id].served };
        assert(c@ == old(self)@[id as int]);
        let a = c.step(e);
        self.conns.set(id, c);
        assert(self@ =~= old(self)@.update(id as int, next(old(self)@[id as int], e).0));
        a
    }

    /// The state of connection `id`.
    pub fn state(&self, id: usize) -> (r: ConnState)
        requires
            id < self@.len(),
        ensures
            r == self@[id as int].state,
    {
        self.conns[id].state
    }
}

} // verus!
