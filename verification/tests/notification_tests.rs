use litep2p::notification::{
    select_connection_source, Connection, ConnectionAction, ConnectionInput, ConnectionSource,
    NotifyProtocol,
};
use litep2p::types::PeerId;

fn peer() -> PeerId {
    PeerId::from_bytes([0x50; 32])
}

#[test]
fn notification_round_trip() {
    let mut c = Connection::new(peer());

    // the user pushed [0x10]; the task wrote it to the outbound substream
    let action = c.step(ConnectionInput::AsyncNotification {
        notification: Some(vec![0x10]),
        send_ok: true,
    });
    assert!(action.is_none());

    // the remote wrote [0x20]; it is buffered, then delivered when the
    // user event channel grants a permit
    let action = c.step(ConnectionInput::InboundFrame(Some(Ok(vec![0x20]))));
    assert!(action.is_none());
    let action = c.step(ConnectionInput::DeliveryPermit { available: true });
    match action {
        Some(ConnectionAction::Deliver { peer: p, notification }) => {
            assert!(p.same(&peer()));
            assert_eq!(notification, vec![0x20]);
        },
        _ => panic!("expected a delivery"),
    }

    // shutdown closes both substreams without telling the protocol handler
    let action = c.step(ConnectionInput::Shutdown);
    match action {
        Some(ConnectionAction::CloseBoth { notify }) => {
            assert_eq!(notify, NotifyProtocol::No);
        },
        _ => panic!("expected a close"),
    }
}

#[test]
fn failed_send_closes_and_notifies() {
    let mut c = Connection::new(peer());
    let action = c.step(ConnectionInput::SyncNotification {
        notification: Some(vec![1]),
        send_ok: false,
    });
    match action {
        Some(ConnectionAction::CloseBoth { notify }) => {
            assert_eq!(notify, NotifyProtocol::Yes);
        },
        _ => panic!("expected a close"),
    }
}

#[test]
fn closed_queue_closes_and_notifies() {
    let mut c = Connection::new(peer());
    let action = c.step(ConnectionInput::AsyncNotification { notification: None, send_ok: false });
    match action {
        Some(ConnectionAction::CloseBoth { notify }) => {
            assert_eq!(notify, NotifyProtocol::Yes);
        },
        _ => panic!("expected a close"),
    }
}

#[test]
fn inbound_close_notifies() {
    let mut c = Connection::new(peer());
    let action = c.step(ConnectionInput::InboundFrame(None));
    match action {
        Some(ConnectionAction::CloseBoth { notify }) => {
            assert_eq!(notify, NotifyProtocol::Yes);
        },
        _ => panic!("expected a close"),
    }
}

#[test]
fn outbound_close_notifies() {
    let mut c = Connection::new(peer());
    assert!(c.step(ConnectionInput::OutboundFrame(Some(vec![0]))).is_none());
    let action = c.step(ConnectionInput::OutboundFrame(None));
    match action {
        Some(ConnectionAction::CloseBoth { notify }) => {
            assert_eq!(notify, NotifyProtocol::Yes);
        },
        _ => panic!("expected a close"),
    }
}

#[test]
fn refused_permit_keeps_the_notification() {
    let mut c = Connection::new(peer());
    assert!(c.step(ConnectionInput::InboundFrame(Some(Ok(vec![0x33])))).is_none());
    assert!(c.step(ConnectionInput::DeliveryPermit { available: false }).is_none());
    let action = c.step(ConnectionInput::DeliveryPermit { available: true });
    match action {
        Some(ConnectionAction::Deliver { notification, .. }) => {
            assert_eq!(notification, vec![0x33]);
        },
        _ => panic!("expected a delivery"),
    }
}

#[test]
fn backpressure_guards_the_inbound_read() {
    // the loop's select never reads a new inbound frame while one is
    // buffered, and never polls delivery while none is
    assert_eq!(
        select_connection_source(true, false, false, false, true, true, true),
        Some(ConnectionSource::Delivery)
    );
    assert_eq!(
        select_connection_source(false, false, false, false, true, true, true),
        Some(ConnectionSource::Inbound)
    );
    assert_eq!(
        select_connection_source(true, false, false, false, true, true, true),
        Some(ConnectionSource::Delivery)
    );
    assert_eq!(
        select_connection_source(true, false, true, false, true, true, true),
        Some(ConnectionSource::AsyncQueue)
    );
    assert_eq!(
        select_connection_source(false, false, true, false, false, true, true),
        Some(ConnectionSource::AsyncQueue)
    );
    assert_eq!(
        select_connection_source(true, false, false, true, true, false, true),
        Some(ConnectionSource::SyncQueue)
    );
    assert_eq!(
        select_connection_source(false, false, false, false, false, false, true),
        Some(ConnectionSource::Outbound)
    );
    assert_eq!(select_connection_source(false, false, false, false, false, false, false), None);
}

#[test]
fn shutdown_has_highest_priority() {
    assert_eq!(
        select_connection_source(false, true, true, true, true, true, true),
        Some(ConnectionSource::Shutdown)
    );
}
