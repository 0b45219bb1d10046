use crate::ledger::{summarizes, LedgerSummary, RecvLog};
use crate::message::{Message, MsgKind, Origin};
use vstd::prelude::*;

verus! {

/// What the server learned in one window of waiting; `A` is a peer's address.
pub enum ServerEvent<A> {
    /// No datagram came within the timeout.
    Timeout,
    /// The socket reported an error on receive.
    RecvFailed,
    /// A datagram came that did not decode as a message.
    Malformed,
    /// A datagram came from the peer and decoded as this message.
    Received(Message, A),
}

/// What the server has to do after an event.
pub enum ServerAction<A> {
    /// Nothing this cycle.
    Idle,
    /// Send the message to the peer.
    Send(Message, A),
    /// End the session: leave the loop, sending nothing more.
    Exit,
}

/// The last reply with the peer it went to, where one was sent, and whether the session
/// has ended.
pub struct ServerState<A> {
    pub last: Option<(Message, A)>,
    pub finished: bool,
}

/// The reply to a data request numbered `no`.
pub open spec fn reply_to(no: u32) -> Message {
    Message::data_spec(no, 0, Origin::Server)
}

/// The server's state and action after an event.
pub open spec fn server_next<A>(st: ServerState<A>, ev: ServerEvent<A>) -> (ServerState<A>, ServerAction<A>) {
    match ev {
        ServerEvent::Timeout => match st.last {
            Some((m, a)) => if m.kind == MsgKind::Data {
                let again = Message { retry: (m.retry + 1) as u32, ..m };
                (ServerState { last: Some((again, a)), ..st }, ServerAction::Send(again, a))
            } else {
                (st, ServerAction::Idle)
            },
            None => (st, ServerAction::Idle),
        },
        ServerEvent::Received(m, a) => if m.kind == MsgKind::Data {
            (ServerState { last: Some((reply_to(m.no), a)), ..st }, ServerAction::Send(reply_to(m.no), a))
        } else {
            (ServerState { finished: true, ..st }, ServerAction::Exit)
        },
        _ => (st, ServerAction::Idle),
    }
}

/// The server's state after `k` timeout windows in a row.
pub open spec fn after_timeouts<A>(st: ServerState<A>, k: nat) -> ServerState<A>
    decreases k,
{
    if k == 0 {
        st
    } else {
        server_next(after_timeouts(st, (k - 1) as nat), ServerEvent::Timeout).0
    }
}

/// The actions of the server while it takes in the events in order; events that come
/// after the session ended are not taken in.
pub open spec fn server_trace<A>(st: ServerState<A>, evs: Seq<ServerEvent<A>>) -> Seq<ServerAction<A>>
    decreases evs.len(),
{
    if evs.len() == 0 || st.finished {
        Seq::empty()
    } else {
        let (t, act) = server_next(st, evs[0]);
        seq![act] + server_trace(t, evs.drop_first())
    }
}

proof fn lemma_after_timeouts<A>(st: ServerState<A>, m: Message, a: A, i: nat)
    requires
        st.last == Some((m, a)),
        m.kind == MsgKind::Data,
        m.retry + i <= u32::MAX,
    ensures
        after_timeouts(st, i) == (ServerState {
            last: Some((Message { retry: (m.retry + i) as u32, ..m }, a)),
            ..st
        }),
    decreases i,
{
    if i > 0 {
        lemma_after_timeouts(st, m, a, (i - 1) as nat);
    } else {
        assert(Message { retry: (m.retry + i) as u32, ..m } == m);
    }
}

/// Idempotent retransmission: after the server sent reply `m` to peer `a`, each of `k`
/// silent windows in a row resends that same reply to the same peer, its retry count one
/// above the one before.
pub proof fn lemma_retransmit<A>(st: ServerState<A>, m: Message, a: A, k: nat)
    requires
        st.last == Some((m, a)),
        m.kind == MsgKind::Data,
        m.retry + k <= u32::MAX,
    ensures
        forall|i: nat|
            i < k ==> #[trigger] server_next(after_timeouts(st, i), ServerEvent::Timeout).1
                == ServerAction::Send(Message { retry: (m.retry + i + 1) as u32, ..m }, a),
        after_timeouts(st, k).last == Some((Message { retry: (m.retry + k) as u32, ..m }, a)),
{
    assert forall|i: nat|
        i < k implies #[trigger] server_next(after_timeouts(st, i), ServerEvent::Timeout).1
            == ServerAction::Send(Message { retry: (m.retry + i + 1) as u32, ..m }, a) by {
        lemma_after_timeouts(st, m, a, i);
    }
    lemma_after_timeouts(st, m, a, k);
}

/// Termination: a finalization message ends the session with one exit, and nothing is
/// sent after it, whatever comes next.
pub proof fn lemma_fin_exits<A>(st: ServerState<A>, m: Message, a: A, rest: Seq<ServerEvent<A>>)
    requires
        !st.finished,
        m.kind == MsgKind::Fin,
    ensures
        server_trace(st, seq![ServerEvent::Received(m, a)] + rest) == seq![ServerAction::<A>::Exit],
{
    let evs = seq![ServerEvent::Received(m, a)] + rest;
    let t = server_next(st, evs[0]).0;
    assert(evs.drop_first() =~= rest);
    assert(t.finished);
    assert(server_trace(t, rest) =~= Seq::<ServerAction<A>>::empty());
    assert(server_trace(st, evs) =~= seq![ServerAction::<A>::Exit]);
}

/// A retransmission after a timeout can count one more retry without overflow.
pub open spec fn can_retransmit<A>(st: ServerState<A>) -> bool {
    match st.last {
        Some((m, _)) => m.retry < u32::MAX,
        None => true,
    }
}

/// The number that the event has the ledger record: that of any data message received.
pub open spec fn server_observed<A>(ev: ServerEvent<A>) -> Option<u32> {
    match ev {
        ServerEvent::Received(m, _) => if m.kind == MsgKind::Data {
            Some(m.no)
        } else {
            None
        },
        _ => None,
    }
}

/// What the server has to do after an event, and the ledger's summary where the event
/// made it record a number.
pub struct ServerStep<A> {
    pub action: ServerAction<A>,
    pub summary: Option<LedgerSummary>,
}

/// The server side of the protocol: it echoes each data request, answers silence with a
/// retransmission of its last reply, and ends the session on a finalization message.
pub struct Server<A> {
    pub state: ServerState<A>,
    pub log: RecvLog,
}

impl<A: Copy> Server<A> {
    /// A server that has sent nothing yet, with an empty ledger.
    pub fn new() -> (s: Server<A>)
        ensures
            s.state.last is None,
            !s.state.finished,
            s.log.seen() == Set::<u32>::empty(),
            s.log.name() == "SERVER-RECV"@,
    {
        proof {
            reveal_strlit("SERVER-RECV");
        }
        Server { state: ServerState { last: None, finished: false }, log: RecvLog::new("SERVER-RECV") }
    }

    /// Takes in what came of one window of waiting and says what to send, if anything.
    pub fn handle(&mut self, ev: ServerEvent<A>) -> (step: ServerStep<A>)
        requires
            !old(self).state.finished,
            ev is Timeout ==> can_retransmit(old(self).state),
        ensures
            (final(self).state, step.action) == server_next(old(self).state, ev),
            final(self).log.name() == old(self).log.name(),
            match server_observed(ev) {
                Some(n) => {
                    &&& final(self).log.seen() == old(self).log.seen().insert(n)
                    &&& step.summary matches Some(r)
                    &&& summarizes(r, final(self).log.name(), final(self).log.seen())
                },
                None => final(self).log.seen() == old(self).log.seen() && step.summary is None,
            },
    {
        match ev {
            ServerEvent::Timeout => match self.state.last {
                Some((m, a)) => {
                    if m.kind == MsgKind::Data {
                        let again = Message { retry: m.retry + 1, ..m };
                        self.state.last = Some((again, a));
                        ServerStep { action: ServerAction::Send(again, a), summary: None }
                    } else {
                        ServerStep { action: ServerAction::Idle, summary: None }
                    }
                },
                None => ServerStep { action: ServerAction::Idle, summary: None },
            },
            ServerEvent::Received(m, a) => {
                if m.kind == MsgKind::Data {
                    let summary = self.log.record(m.no);
                    let reply = Message::data(m.no, 0, Origin::Server);
                    self.state.last = Some((reply, a));
                    ServerStep { action: ServerAction::Send(reply, a), summary: Some(summary) }
                } else {
                    self.state.finished = true;
                    ServerStep { action: ServerAction::Exit, summary: None }
                }
            },
            _ => ServerStep { action: ServerAction::Idle, summary: None },
        }
    }
}

} // verus!
