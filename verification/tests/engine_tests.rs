use litep2p::request_response::{
    resolve_outbound, select_source, DialOptions, EngineAction, EngineError, EngineInput,
    EventSource, RaceOutcome, RequestResponseError, RequestResponseEvent, RequestResponseProtocol,
    SendOutcome, SubstreamHandle, TransportReply,
};
use litep2p::request_response::DEFAULT_REQUEST_TIMEOUT_MS;
use litep2p::types::{PeerId, ProtocolName};

fn engine() -> RequestResponseProtocol {
    RequestResponseProtocol::new(
        ProtocolName::from_static_str("/test/1"),
        DEFAULT_REQUEST_TIMEOUT_MS,
        0,
    )
}

fn peer(tag: u8) -> PeerId {
    PeerId::from_bytes([tag; 32])
}

#[test]
fn happy_path_request() {
    let mut e = engine();
    let p = peer(1);
    let evs = e.on_connection_established(&p, None).unwrap();
    assert!(evs.is_empty());
    assert!(e.is_connected(&p));

    let id = e.next_request_id();
    let evs = e.on_send_request(
        p,
        id,
        vec![0xAA],
        DialOptions::Reject,
        TransportReply::Opened(Some(7)),
    );
    assert!(evs.is_empty());

    let start = e.on_outbound_substream(p, 7, SubstreamHandle { token: 1 }).unwrap();
    assert_eq!(start.request_id, id);
    assert_eq!(start.request, vec![0xAA]);
    assert_eq!(start.timeout_ms, 5000);
    assert_eq!(start.substream.token, 1);

    let evs = e.on_substream_event(&p, id, Ok(vec![0xBB])).unwrap();
    assert_eq!(evs.len(), 1);
    match &evs[0] {
        RequestResponseEvent::ResponseReceived { peer: q, request_id, response } => {
            assert!(q.same(&p));
            assert_eq!(*request_id, id);
            assert_eq!(response, &vec![0xBB]);
        },
        _ => panic!("expected a response"),
    }

    // the id is spent: a second resolution for it is a state mismatch and
    // emits nothing
    let r = e.on_substream_event(&p, id, Ok(vec![0xCC]));
    assert_eq!(r.unwrap_err(), EngineError::InvalidState);
}

#[test]
fn timeout_request() {
    let mut e = engine();
    let p = peer(2);
    e.on_connection_established(&p, None).unwrap();
    let id = e.next_request_id();
    let evs = e.on_send_request(
        p,
        id,
        vec![1],
        DialOptions::Reject,
        TransportReply::Opened(Some(9)),
    );
    assert!(evs.is_empty());
    e.on_outbound_substream(p, 9, SubstreamHandle { token: 2 }).unwrap();

    // the remote never sends: the request future resolves with the timer
    let outcome = resolve_outbound(SendOutcome::Sent, RaceOutcome::TimedOut);
    assert_eq!(outcome, Err(RequestResponseError::Timeout));
    let evs = e.on_substream_event(&p, id, outcome).unwrap();
    assert_eq!(evs.len(), 1);
    match &evs[0] {
        RequestResponseEvent::RequestFailed { request_id, error, .. } => {
            assert_eq!(*request_id, id);
            assert_eq!(*error, RequestResponseError::Timeout);
        },
        _ => panic!("expected a failure"),
    }
}

#[test]
fn cancel_before_response() {
    let mut e = engine();
    let p = peer(3);
    e.on_connection_established(&p, None).unwrap();
    let id = e.next_request_id();
    e.on_send_request(p, id, vec![5], DialOptions::Reject, TransportReply::Opened(Some(4)));
    e.on_outbound_substream(p, 4, SubstreamHandle { token: 3 }).unwrap();

    // the first cancel takes the token out; further cancels find none
    let signal = e.on_cancel_request(id);
    assert!(signal.is_some());
    assert_eq!(signal.unwrap().request_id, id);
    assert!(e.on_cancel_request(id).is_none());
    assert!(e.on_cancel_request(id).is_none());

    let outcome = resolve_outbound(SendOutcome::Sent, RaceOutcome::Canceled);
    assert_eq!(outcome, Err(RequestResponseError::Canceled));
    let evs = e.on_substream_event(&p, id, outcome).unwrap();
    assert_eq!(evs.len(), 1);
    match &evs[0] {
        RequestResponseEvent::RequestFailed { request_id, error, .. } => {
            assert_eq!(*request_id, id);
            assert_eq!(*error, RequestResponseError::Canceled);
        },
        _ => panic!("expected a failure"),
    }
}

#[test]
fn dial_failure() {
    let mut e = engine();
    let p = peer(4);
    assert!(!e.is_connected(&p));
    let id = e.next_request_id();
    let evs = e.on_send_request(p, id, vec![], DialOptions::Dial, TransportReply::Dialed(true));
    assert!(evs.is_empty());
    assert!(e.has_pending_dial(&p));

    let evs = e.on_dial_failure(&p);
    assert_eq!(evs.len(), 1);
    match &evs[0] {
        RequestResponseEvent::RequestFailed { request_id, error, .. } => {
            assert_eq!(*request_id, id);
            assert_eq!(*error, RequestResponseError::Rejected);
        },
        _ => panic!("expected a failure"),
    }
    // the dial table is empty afterwards
    assert!(!e.has_pending_dial(&p));
    assert!(e.on_dial_failure(&p).is_empty());
}

#[test]
fn connection_drop_with_inflight_request() {
    let mut e = engine();
    let p = peer(5);
    e.on_connection_established(&p, None).unwrap();
    let id = e.next_request_id();
    e.on_send_request(p, id, vec![9], DialOptions::Reject, TransportReply::Opened(Some(11)));

    let evs = e.on_connection_closed(&p).unwrap();
    assert_eq!(evs.len(), 1);
    match &evs[0] {
        RequestResponseEvent::RequestFailed { request_id, error, .. } => {
            assert_eq!(*request_id, id);
            assert_eq!(*error, RequestResponseError::Rejected);
        },
        _ => panic!("expected a failure"),
    }
    assert!(!e.is_connected(&p));
    // the open-failure that may still arrive for the dead request emits
    // nothing further: its terminal event was already reported
    let evs = e.on_substream_open_failure(11).unwrap();
    assert!(evs.is_empty());
}

#[test]
fn inbound_request_and_response() {
    let mut e = engine();
    let p = peer(6);
    e.on_connection_established(&p, None).unwrap();

    let k = e.on_inbound_substream(&p, None, SubstreamHandle { token: 42 }).unwrap();
    let (evs, dropped) = e.on_inbound_request(&p, k, Ok(vec![0x01])).unwrap();
    assert!(dropped.is_none());
    assert_eq!(evs.len(), 1);
    match &evs[0] {
        RequestResponseEvent::RequestReceived { peer: q, fallback, request_id, request } => {
            assert!(q.same(&p));
            assert!(fallback.is_none());
            assert_eq!(*request_id, k);
            assert_eq!(request, &vec![0x01]);
        },
        _ => panic!("expected an inbound request"),
    }

    let send = e.on_send_response(k, vec![0x02]).unwrap();
    assert_eq!(send.substream.token, 42);
    assert_eq!(send.response, vec![0x02]);
    // the request is settled: answering again is an error
    assert_eq!(e.on_send_response(k, vec![0x03]).unwrap_err(), EngineError::NoPendingRequest);
}

#[test]
fn inbound_request_rejected() {
    let mut e = engine();
    let p = peer(7);
    e.on_connection_established(&p, None).unwrap();
    let k = e.on_inbound_substream(&p, None, SubstreamHandle { token: 13 }).unwrap();
    let taken = e.on_reject_request(k);
    assert!(taken.is_none(), "no response is pending before the first frame");
    let (evs, dropped) = e.on_inbound_request(&p, k, Ok(vec![0x07])).unwrap();
    assert_eq!(evs.len(), 1);
    assert!(dropped.is_none());
    let taken = e.on_reject_request(k).unwrap();
    assert_eq!(taken.token, 13);
}

#[test]
fn inbound_read_failure_drops_substream() {
    let mut e = engine();
    let p = peer(8);
    e.on_connection_established(&p, None).unwrap();
    let k = e.on_inbound_substream(&p, None, SubstreamHandle { token: 77 }).unwrap();
    let (evs, dropped) = e.on_inbound_request(&p, k, Err(())).unwrap();
    assert!(evs.is_empty());
    assert_eq!(dropped.unwrap().token, 77);
}

#[test]
fn send_request_not_connected() {
    let mut e = engine();
    let p = peer(9);
    let id = e.next_request_id();
    let evs = e.on_send_request(p, id, vec![1, 2], DialOptions::Reject, TransportReply::NoCall);
    assert_eq!(evs.len(), 1);
    match &evs[0] {
        RequestResponseEvent::RequestFailed { request_id, error, .. } => {
            assert_eq!(*request_id, id);
            assert_eq!(*error, RequestResponseError::NotConnected);
        },
        _ => panic!("expected a failure"),
    }
}

#[test]
fn send_request_dial_refused() {
    let mut e = engine();
    let p = peer(10);
    let id = e.next_request_id();
    let evs = e.on_send_request(p, id, vec![], DialOptions::Dial, TransportReply::Dialed(false));
    assert_eq!(evs.len(), 1);
    match &evs[0] {
        RequestResponseEvent::RequestFailed { error, .. } => {
            assert_eq!(*error, RequestResponseError::Rejected);
        },
        _ => panic!("expected a failure"),
    }
}

#[test]
fn send_request_open_refused() {
    let mut e = engine();
    let p = peer(11);
    e.on_connection_established(&p, None).unwrap();
    let id = e.next_request_id();
    let evs = e.on_send_request(p, id, vec![], DialOptions::Reject, TransportReply::Opened(None));
    assert_eq!(evs.len(), 1);
    match &evs[0] {
        RequestResponseEvent::RequestFailed { error, .. } => {
            assert_eq!(*error, RequestResponseError::Rejected);
        },
        _ => panic!("expected a failure"),
    }
}

#[test]
fn dial_resolves_on_connection() {
    let mut e = engine();
    let p = peer(12);
    let id = e.next_request_id();
    e.on_send_request(p, id, vec![3], DialOptions::Dial, TransportReply::Dialed(true));
    assert!(e.has_pending_dial(&p));
    let evs = e.on_connection_established(&p, Some(Some(21))).unwrap();
    assert!(evs.is_empty());
    assert!(!e.has_pending_dial(&p));
    let start = e.on_outbound_substream(p, 21, SubstreamHandle { token: 5 }).unwrap();
    assert_eq!(start.request_id, id);
    assert_eq!(start.request, vec![3]);
}

#[test]
fn dial_resolves_but_open_fails() {
    let mut e = engine();
    let p = peer(13);
    let id = e.next_request_id();
    e.on_send_request(p, id, vec![], DialOptions::Dial, TransportReply::Dialed(true));
    let evs = e.on_connection_established(&p, Some(None)).unwrap();
    assert_eq!(evs.len(), 1);
    match &evs[0] {
        RequestResponseEvent::RequestFailed { request_id, error, .. } => {
            assert_eq!(*request_id, id);
            assert_eq!(*error, RequestResponseError::Rejected);
        },
        _ => panic!("expected a failure"),
    }
    // the peer is connected even though the early open failed
    assert!(e.is_connected(&p));
}

#[test]
fn duplicate_connection_is_an_error() {
    let mut e = engine();
    let p = peer(14);
    e.on_connection_established(&p, None).unwrap();
    assert_eq!(
        e.on_connection_established(&p, None).unwrap_err(),
        EngineError::PeerAlreadyExists
    );
    assert_eq!(e.on_connection_closed(&p).unwrap().len(), 0);
    assert_eq!(e.on_connection_closed(&p).unwrap_err(), EngineError::PeerDoesntExist);
}

#[test]
fn step_dispatches_like_the_loop() {
    let mut e = engine();
    let p = peer(15);
    let out = e.step(EngineInput::ConnectionEstablished { peer: p, open_result: None });
    assert!(out.events.is_empty() && out.action.is_none() && out.error.is_none());

    let out = e.step(EngineInput::InboundSubstream {
        peer: p,
        fallback: None,
        substream: SubstreamHandle { token: 8 },
    });
    assert!(out.error.is_none());

    let out = e.step(EngineInput::InboundRequest { peer: p, request_id: 0, request: Ok(vec![6]) });
    assert_eq!(out.events.len(), 1);
    let out = e.step(EngineInput::SendResponse { request_id: 0, response: vec![7] });
    match out.action {
        Some(EngineAction::SendResponseFrame(send)) => {
            assert_eq!(send.substream.token, 8);
            assert_eq!(send.response, vec![7]);
        },
        _ => panic!("expected a response-frame action"),
    }

    let out = e.step(EngineInput::ConnectionClosed { peer: p });
    assert!(out.error.is_none());
    assert!(!e.is_connected(&p));
}

#[test]
fn outbound_resolution_table() {
    assert_eq!(
        resolve_outbound(SendOutcome::TooLarge, RaceOutcome::TimedOut),
        Err(RequestResponseError::TooLargePayload)
    );
    assert_eq!(
        resolve_outbound(SendOutcome::Failed, RaceOutcome::TimedOut),
        Err(RequestResponseError::NotConnected)
    );
    assert_eq!(
        resolve_outbound(SendOutcome::Sent, RaceOutcome::Frame(Some(Ok(vec![1, 2])))),
        Ok(vec![1, 2])
    );
    assert_eq!(
        resolve_outbound(SendOutcome::Sent, RaceOutcome::Frame(Some(Err(())))),
        Err(RequestResponseError::Rejected)
    );
    assert_eq!(
        resolve_outbound(SendOutcome::Sent, RaceOutcome::Frame(None)),
        Err(RequestResponseError::Rejected)
    );
}

#[test]
fn source_priority_is_biased() {
    assert_eq!(select_source(true, true, true, true), Some(EventSource::Transport));
    assert_eq!(select_source(false, true, true, true), Some(EventSource::InflightResults));
    assert_eq!(select_source(false, false, true, true), Some(EventSource::InboundFrames));
    assert_eq!(select_source(false, false, false, true), Some(EventSource::Commands));
    assert_eq!(select_source(false, false, false, false), None);
}
