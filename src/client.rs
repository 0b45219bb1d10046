use crate::ledger::{summarizes, LedgerSummary, RecvLog};
use crate::message::{Message, MsgKind, Origin};
use vstd::prelude::*;

verus! {

/// The sequence number of the first exchange.
pub const FIRST_NO: u32 = 1;

/// The sequence number of the last exchange, after which the client finalizes.
pub const LAST_NO: u32 = 100;

/// What the client learned while it waited for a reply.
pub enum ClientEvent {
    /// No datagram came within the timeout.
    Timeout,
    /// The socket reported an error on receive.
    RecvFailed,
    /// A datagram came that did not decode as a message.
    Malformed,
    /// A datagram came and decoded as this message.
    Reply(Message),
}

/// Where the client stands: awaiting the reply to `no` (sent `retry` times before), or
/// terminated once `terminated` is set.
#[derive(Debug, Clone, Copy, PartialEq, Eq, Structural)]
pub struct ClientState {
    pub no: u32,
    pub retry: u32,
    pub terminated: bool,
}

impl ClientState {
    /// The sequence number stays within the exchanges of a session.
    pub open spec fn wf(self) -> bool {
        FIRST_NO <= self.no <= LAST_NO
    }
}

/// The awaited acknowledgement of `no`: a data reply from the server with that number.
pub open spec fn acknowledges(m: Message, no: u32) -> bool {
    m.kind == MsgKind::Data && m.from == Origin::Server && m.no == no
}

/// The event is the acknowledgement of `no`.
pub open spec fn event_acknowledges(ev: ClientEvent, no: u32) -> bool {
    match ev {
        ClientEvent::Reply(m) => acknowledges(m, no),
        _ => false,
    }
}

/// The client's state after an event, from a state that awaits a reply.
pub open spec fn client_next(s: ClientState, ev: ClientEvent) -> ClientState {
    if event_acknowledges(ev, s.no) {
        if s.no == LAST_NO {
            ClientState { terminated: true, ..s }
        } else {
            ClientState { no: (s.no + 1) as u32, retry: 0, terminated: false }
        }
    } else {
        ClientState { retry: (s.retry + 1) as u32, ..s }
    }
}

/// The state after the client took in the events in order; events that come after it
/// terminated are not taken in.
pub open spec fn client_run(s: ClientState, evs: Seq<ClientEvent>) -> ClientState
    decreases evs.len(),
{
    if evs.len() == 0 || s.terminated {
        s
    } else {
        client_run(client_next(s, evs[0]), evs.drop_first())
    }
}

/// The kinds of the messages that the client sends while it takes in the events: the
/// request before each event, and the finalization message where an event ends the session.
pub open spec fn client_trace(s: ClientState, evs: Seq<ClientEvent>) -> Seq<MsgKind>
    decreases evs.len(),
{
    if evs.len() == 0 || s.terminated {
        Seq::empty()
    } else {
        let t = client_next(s, evs[0]);
        let sent = if t.terminated {
            seq![MsgKind::Data, MsgKind::Fin]
        } else {
            seq![MsgKind::Data]
        };
        sent + client_trace(t, evs.drop_first())
    }
}

/// Lockstep: one event moves the client at most one number on, and only where it is a
/// data reply from the server with the current number; any other event leaves the number
/// as it was and the session open.
pub proof fn lemma_lockstep(s: ClientState, ev: ClientEvent)
    requires
        s.wf(),
        !s.terminated,
    ensures
        client_next(s, ev).wf(),
        client_next(s, ev).no == s.no || (client_next(s, ev).no == s.no + 1 && event_acknowledges(
            ev,
            s.no,
        )),
        !event_acknowledges(ev, s.no) ==> client_next(s, ev).no == s.no && !client_next(
            s,
            ev,
        ).terminated,
        client_next(s, ev).terminated ==> s.no == LAST_NO && event_acknowledges(ev, LAST_NO),
{
}

/// Over any run, the client sends the finalization message at most once, as the last
/// message of the run, with no data message after it; and it sends it exactly when the run
/// ends the session, which takes the acknowledgement of the last number.
pub proof fn lemma_single_fin(s: ClientState, evs: Seq<ClientEvent>)
    requires
        s.wf(),
        !s.terminated,
    ensures
        forall|i: int|
            0 <= i < client_trace(s, evs).len() && #[trigger] client_trace(s, evs)[i]
                == MsgKind::Fin ==> i == client_trace(s, evs).len() - 1,
        client_run(s, evs).terminated <==> (client_trace(s, evs).len() > 0 && client_trace(
            s,
            evs,
        ).last() == MsgKind::Fin),
    decreases evs.len(),
{
    if evs.len() > 0 {
        let t = client_next(s, evs[0]);
        let rest = evs.drop_first();
        lemma_lockstep(s, evs[0]);
        if t.terminated {
            assert(client_trace(t, rest) =~= Seq::<MsgKind>::empty());
            assert(client_run(t, rest) == t);
            assert(client_run(s, evs) == client_run(t, rest));
            assert(client_trace(s, evs) =~= seq![MsgKind::Data, MsgKind::Fin]);
        } else {
            lemma_single_fin(t, rest);
            let tr = client_trace(t, rest);
            assert(client_trace(s, evs) =~= seq![MsgKind::Data] + tr);
            assert(client_run(s, evs) == client_run(t, rest));
            assert forall|i: int|
                0 <= i < client_trace(s, evs).len() && #[trigger] client_trace(s, evs)[i]
                    == MsgKind::Fin implies i == client_trace(s, evs).len() - 1 by {
                assert(i > 0);
                assert(client_trace(s, evs)[i] == tr[i - 1]);
            }
            if tr.len() > 0 {
                assert(client_trace(s, evs).last() == tr.last());
            }
        }
    }
}

/// The number that the event has the ledger record: that of any data message received.
pub open spec fn observed(ev: ClientEvent) -> Option<u32> {
    match ev {
        ClientEvent::Reply(m) => if m.kind == MsgKind::Data {
            Some(m.no)
        } else {
            None
        },
        _ => None,
    }
}

/// What the client has to do after an event.
pub struct ClientStep {
    /// The ledger's summary, where the event made it record a number.
    pub summary: Option<LedgerSummary>,
    /// The finalization message to send, where the exchanges are complete.
    pub fin: Option<Message>,
}

/// The client side of the protocol: one request in flight, retransmitted until it is
/// acknowledged, then the next, and a finalization message after the last.
pub struct Client {
    pub state: ClientState,
    pub log: RecvLog,
}

impl Client {
    /// A client that awaits the reply to the first exchange, with an empty ledger.
    pub fn new() -> (c: Client)
        ensures
            c.state == (ClientState { no: FIRST_NO, retry: 0, terminated: false }),
            c.log.seen() == Set::<u32>::empty(),
            c.log.name() == "CLIENT"@,
    {
        proof {
            reveal_strlit("CLIENT");
        }
        Client {
            state: ClientState { no: FIRST_NO, retry: 0, terminated: false },
            log: RecvLog::new("CLIENT"),
        }
    }

    /// The request to send now: the current sequence number and retry count.
    pub fn request(&self) -> (m: Message)
        requires
            !self.state.terminated,
        ensures
            m == Message::data_spec(self.state.no, self.state.retry, Origin::Client),
    {
        Message::data(self.state.no, self.state.retry, Origin::Client)
    }

    /// Takes in what came of the wait for a reply. Every data message received is recorded
    /// in the ledger; the acknowledgement of the current number advances to the next one,
    /// or, after the last, ends the session with a finalization message; anything else
    /// counts one more retry of the current number.
    pub fn handle(&mut self, ev: ClientEvent) -> (step: ClientStep)
        requires
            old(self).state.wf(),
            !old(self).state.terminated,
            old(self).state.retry < u32::MAX,
        ensures
            final(self).state == client_next(old(self).state, ev),
            final(self).state.wf(),
            final(self).log.name() == old(self).log.name(),
            match observed(ev) {
                Some(n) => {
                    &&& final(self).log.seen() == old(self).log.seen().insert(n)
                    &&& step.summary matches Some(r)
                    &&& summarizes(r, final(self).log.name(), final(self).log.seen())
                },
                None => final(self).log.seen() == old(self).log.seen() && step.summary is None,
            },
            step.fin == (if final(self).state.terminated {
                Some(Message::fin_spec(Origin::Client))
            } else {
                None
            }),
    {
        let mut summary: Option<LedgerSummary> = None;
        let mut fin: Option<Message> = None;
        let acked = match ev {
            ClientEvent::Reply(m) => {
                if m.kind == MsgKind::Data {
                    summary = Some(self.log.record(m.no));
                }
                m.kind == MsgKind::Data && m.from == Origin::Server && m.no == self.state.no
            },
            _ => false,
        };
        if acked {
            if self.state.no == LAST_NO {
                self.state.terminated = true;
                fin = Some(Message::fin(Origin::Client));
            } else {
                self.state = ClientState { no: self.state.no + 1, retry: 0, terminated: false };
            }
        } else {
            self.state.retry = self.state.retry + 1;
        }
        ClientStep { summary, fin }
    }
}

} // verus!
