use vstd::prelude::*;

verus! {

/// What a message stands for: an ordinary exchange, or the end of the session.
#[derive(Debug, Clone, Copy, PartialEq, Eq, Structural)]
pub enum MsgKind {
    Data,
    Fin,
}

/// The role of the endpoint that sent a message.
#[derive(Debug, Clone, Copy, PartialEq, Eq, Structural)]
pub enum Origin {
    Client,
    Server,
}

/// The one message of the protocol.
#[derive(Debug, Clone, Copy, PartialEq, Eq, Structural)]
pub struct Message {
    pub no: u32,
    pub retry: u32,
    pub from: Origin,
    pub kind: MsgKind,
}

/// The sequence number that every finalization message carries.
pub const FIN_NO: u32 = 0;

/// The kind that a decoded message takes when its input names none.
pub fn default_kind() -> (k: MsgKind)
    ensures
        k == MsgKind::Data,
{
    MsgKind::Data
}

impl Message {
    /// An ordinary request or reply.
    pub open spec fn data_spec(no: u32, retry: u32, from: Origin) -> Message {
        Message { no, retry, from, kind: MsgKind::Data }
    }

    /// The finalization message of the given sender.
    pub open spec fn fin_spec(from: Origin) -> Message {
        Message { no: FIN_NO, retry: 0, from, kind: MsgKind::Fin }
    }

    /// An ordinary request or reply.
    #[verifier::when_used_as_spec(data_spec)]
    pub fn data(no: u32, retry: u32, from: Origin) -> (m: Message)
        ensures
            m == Message::data_spec(no, retry, from),
    {
        Message { no, retry, from, kind: MsgKind::Data }
    }

    /// The finalization message of the given sender: sequence 0, first send.
    #[verifier::when_used_as_spec(fin_spec)]
    pub fn fin(from: Origin) -> (m: Message)
        ensures
            m == Message::fin_spec(from),
    {
        Message { no: FIN_NO, retry: 0, from, kind: MsgKind::Fin }
    }

    /// A message as decoded from its fields, where the kind may be absent: an absent
    /// kind is taken as the default one.
    pub fn from_fields(no: u32, retry: u32, from: Origin, kind: Option<MsgKind>) -> (m: Message)
        ensures
            m.no == no,
            m.retry == retry,
            m.from == from,
            m.kind == match kind {
                Some(k) => k,
                None => MsgKind::Data,
            },
    {
        let k = match kind {
            Some(k) => k,
            None => default_kind(),
        };
        Message { no, retry, from, kind: k }
    }
}

} // verus!
