use lockstep_udp::message::{Message, MsgKind, Origin};
use lockstep_udp::server::{Server, ServerAction, ServerEvent};

fn sent(a: &ServerAction<u16>) -> Option<(Message, u16)> {
    match a {
        ServerAction::Send(m, p) => Some((*m, *p)),
        _ => None,
    }
}

#[test]
fn silence_before_any_reply_does_nothing() {
    let mut s: Server<u16> = Server::new();
    let step = s.handle(ServerEvent::Timeout);
    assert!(matches!(step.action, ServerAction::Idle));
    assert!(s.state.last.is_none());
}

#[test]
fn echoes_data_with_retry_zero() {
    let mut s: Server<u16> = Server::new();
    let step = s.handle(ServerEvent::Received(Message::data(5, 3, Origin::Client), 9));
    assert_eq!(
        sent(&step.action),
        Some((Message { no: 5, retry: 0, from: Origin::Server, kind: MsgKind::Data }, 9))
    );
    let summary = step.summary.unwrap();
    assert_eq!(summary.label, "SERVER-RECV");
    assert_eq!(summary.ranges, "5");
}

#[test]
fn silence_retransmits_last_reply_to_same_peer() {
    let mut s: Server<u16> = Server::new();
    s.handle(ServerEvent::Received(Message::data(8, 0, Origin::Client), 77));
    s.handle(ServerEvent::Received(Message::data(9, 0, Origin::Client), 78));
    for k in 1..=4u32 {
        let step = s.handle(ServerEvent::Timeout);
        assert_eq!(
            sent(&step.action),
            Some((Message { no: 9, retry: k, from: Origin::Server, kind: MsgKind::Data }, 78))
        );
    }
}

#[test]
fn errors_and_malformed_input_change_nothing() {
    let mut s: Server<u16> = Server::new();
    s.handle(ServerEvent::Received(Message::data(1, 0, Origin::Client), 5));
    assert!(matches!(s.handle(ServerEvent::Malformed).action, ServerAction::Idle));
    assert!(matches!(s.handle(ServerEvent::RecvFailed).action, ServerAction::Idle));
    let step = s.handle(ServerEvent::Timeout);
    assert_eq!(sent(&step.action).unwrap().0.retry, 1);
}

#[test]
fn fin_ends_the_session() {
    let mut s: Server<u16> = Server::new();
    s.handle(ServerEvent::Received(Message::data(100, 0, Origin::Client), 5));
    let step = s.handle(ServerEvent::Received(Message::fin(Origin::Client), 5));
    assert!(matches!(step.action, ServerAction::Exit));
    assert!(step.summary.is_none());
    assert!(s.state.finished);
    assert_eq!(s.log.build_ranges_summary(), "100");
}
