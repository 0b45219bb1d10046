use lockstep_udp::client::{Client, ClientEvent, ClientState, LAST_NO};
use lockstep_udp::message::{default_kind, Message, MsgKind, Origin};
use lockstep_udp::server::{Server, ServerAction, ServerEvent};

fn ack(no: u32) -> ClientEvent {
    ClientEvent::Reply(Message::data(no, 0, Origin::Server))
}

#[test]
fn client_starts_at_first_number() {
    let c = Client::new();
    assert_eq!(c.state, ClientState { no: 1, retry: 0, terminated: false });
    assert_eq!(
        c.request(),
        Message { no: 1, retry: 0, from: Origin::Client, kind: MsgKind::Data }
    );
}

#[test]
fn failures_count_retries_without_advancing() {
    let mut c = Client::new();
    assert!(c.handle(ClientEvent::Timeout).fin.is_none());
    c.handle(ClientEvent::RecvFailed);
    c.handle(ClientEvent::Malformed);
    assert_eq!(c.state, ClientState { no: 1, retry: 3, terminated: false });
    assert_eq!(c.request().retry, 3);
}

#[test]
fn mismatched_replies_never_advance() {
    let mut c = Client::new();
    let wrong_no = c.handle(ack(2));
    assert!(wrong_no.summary.is_some());
    c.handle(ClientEvent::Reply(Message::data(1, 0, Origin::Client)));
    let fin = c.handle(ClientEvent::Reply(Message::fin(Origin::Server)));
    assert!(fin.summary.is_none());
    assert_eq!(c.state, ClientState { no: 1, retry: 3, terminated: false });
    // Every data message was recorded, matching or not.
    assert_eq!(c.log.build_ranges_summary(), "1-2");
}

#[test]
fn acknowledgement_advances_and_resets_retry() {
    let mut c = Client::new();
    c.handle(ClientEvent::Timeout);
    let step = c.handle(ack(1));
    assert!(step.fin.is_none());
    assert_eq!(step.summary.unwrap().ranges, "1");
    assert_eq!(c.state, ClientState { no: 2, retry: 0, terminated: false });
}

#[test]
fn full_run_sends_one_fin_after_last_ack() {
    let mut c = Client::new();
    let mut fins = 0;
    let mut requests = 0;
    while !c.state.terminated {
        let req = c.request();
        assert_eq!(req.kind, MsgKind::Data);
        requests += 1;
        let no = req.no;
        c.handle(ClientEvent::Timeout);
        let step = c.handle(ack(no));
        if let Some(f) = step.fin {
            assert_eq!(no, LAST_NO);
            assert_eq!(f, Message { no: 0, retry: 0, from: Origin::Client, kind: MsgKind::Fin });
            fins += 1;
        }
    }
    assert_eq!(fins, 1);
    assert_eq!(requests, 100);
    assert_eq!(c.state.no, 100);
    assert_eq!(c.log.build_ranges_summary(), "1-100");
}

#[test]
fn missing_kind_decodes_as_data() {
    let m = Message::from_fields(7, 2, Origin::Server, None);
    assert_eq!(m.kind, MsgKind::Data);
    assert_eq!(default_kind(), MsgKind::Data);
    let f = Message::from_fields(0, 0, Origin::Client, Some(MsgKind::Fin));
    assert_eq!(f, Message::fin(Origin::Client));
}

#[test]
fn end_to_end_first_exchange() {
    let mut c = Client::new();
    let mut s: Server<u16> = Server::new();
    let req = c.request();
    assert_eq!(req, Message { no: 1, retry: 0, from: Origin::Client, kind: MsgKind::Data });
    let step = s.handle(ServerEvent::Received(req, 4000));
    let reply = match step.action {
        ServerAction::Send(m, peer) => {
            assert_eq!(peer, 4000);
            m
        }
        _ => panic!("the server must reply"),
    };
    assert_eq!(reply, Message { no: 1, retry: 0, from: Origin::Server, kind: MsgKind::Data });
    let cstep = c.handle(ClientEvent::Reply(reply));
    assert_eq!(cstep.summary.unwrap().ranges, "1");
    assert_eq!(c.log.build_ranges_summary(), "1");
    assert_eq!(c.state.no, 2);
}
