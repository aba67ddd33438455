//! Notification connection driver.
//!
//! One `Connection` drives a bidirectional notification exchange with a
//! single peer over a pair of substreams. Its loop multiplexes six event
//! sources with a fixed bias; the decisions live here as a state machine,
//! while the surrounding task owns the substreams and mailboxes, performs
//! the sends, and feeds every observation back in as a plain value.

use vstd::prelude::*;
use crate::types::PeerId;

verus! {

/// Whether the protocol handler is told that the connection closed. When
/// the handler itself asked for the shutdown it is not told again.
#[derive(Clone, Copy, Debug, PartialEq, Eq, Structural)]
pub enum NotifyProtocol {
    /// Tell the protocol handler.
    Yes,
    /// Stay silent; the handler initiated the close.
    No,
}

/// The lifecycle of a connection: it runs until exactly one exit path
/// closes it.
#[derive(Clone, Copy, Debug, PartialEq, Eq, Structural)]
pub enum ConnectionPhase {
    /// The event loop is live.
    Running,
    /// Both substreams were closed; `NotifyProtocol::Yes` if the protocol
    /// handler was additionally signalled.
    Closed(NotifyProtocol),
}

/// One observation fed to the driver. Sends of user notifications happen
/// before the driver is consulted — the driver's part is only the decision
/// that follows — so their outcome travels with the input.
pub enum ConnectionInput {
    /// The protocol handler signalled shutdown.
    Shutdown,
    /// The asynchronous user queue yielded (`None`: the queue closed); if a
    /// notification arrived, `send_ok` reports whether writing it to the
    /// outbound substream succeeded.
    AsyncNotification { notification: Option<Vec<u8>>, send_ok: bool },
    /// The synchronous user queue yielded; handled exactly like the
    /// asynchronous one.
    SyncNotification { notification: Option<Vec<u8>>, send_ok: bool },
    /// The user event channel granted (or refused) a delivery permit for
    /// the buffered notification. Polled only while one is buffered.
    DeliveryPermit { available: bool },
    /// The inbound substream yielded a frame, a read error, or closed.
    /// Polled only while no notification is buffered.
    InboundFrame(Option<Result<Vec<u8>, ()>>),
    /// The outbound substream was polled: it never legitimately yields
    /// data, but `None` reveals that the remote closed it.
    OutboundFrame(Option<Vec<u8>>),
}

/// What the driver asks the surrounding task to do.
pub enum ConnectionAction {
    /// Hand the notification to the user through the reserved permit.
    Deliver { peer: PeerId, notification: Vec<u8> },
    /// Close both substreams, report the stream closed to the user, and —
    /// for `NotifyProtocol::Yes` — tell the protocol handler.
    CloseBoth { notify: NotifyProtocol },
}

/// Driver state for one notification connection to `peer`.
pub struct Connection {
    /// The remote peer.
    pub peer: PeerId,
    /// The single buffered inbound notification, held until the user event
    /// channel has capacity. At most one frame is ever buffered: this is
    /// the backpressure bound.
    pub next_notification: Option<Vec<u8>>,
    /// Where the connection stands in its lifecycle.
    pub phase: ConnectionPhase,
}

impl Connection {
    /// The event loop is still live.
    pub open spec fn is_running(self) -> bool {
        self.phase == ConnectionPhase::Running
    }

    /// The guards the loop's biased select keeps: delivery is only polled
    /// with a buffered notification, the inbound substream only without
    /// one.
    pub open spec fn input_ok(self, input: ConnectionInput) -> bool {
        match input {
            ConnectionInput::DeliveryPermit { .. } => self.next_notification is Some,
            ConnectionInput::InboundFrame(_) => self.next_notification is None,
            _ => true,
        }
    }

    /// The state and action one step produces, as a function of the
    /// pre-state and the input: the shutdown signal closes without telling
    /// the protocol handler; a closed user queue, a failed send, a closed
    /// or failing inbound read, and a remote-closed outbound substream all
    /// close and tell it; a granted permit delivers the buffered
    /// notification; a received frame is buffered; everything else is kept
    /// running unchanged.
    pub open spec fn spec_step(self, input: ConnectionInput) -> (Connection, Option<
        ConnectionAction,
    >) {
        match input {
            ConnectionInput::Shutdown => self.spec_close(NotifyProtocol::No),
            ConnectionInput::AsyncNotification { notification, send_ok } => {
                if notification is Some && send_ok {
                    (self, None)
                } else {
                    self.spec_close(NotifyProtocol::Yes)
                }
            },
            ConnectionInput::SyncNotification { notification, send_ok } => {
                if notification is Some && send_ok {
                    (self, None)
                } else {
                    self.spec_close(NotifyProtocol::Yes)
                }
            },
            ConnectionInput::DeliveryPermit { available } => {
                if available {
                    (
                        (Connection { next_notification: None, ..self }),
                        Some(
                            (ConnectionAction::Deliver {
                                peer: self.peer,
                                notification: self.next_notification->Some_0,
                            }),
                        ),
                    )
                } else {
                    (self, None)
                }
            },
            ConnectionInput::InboundFrame(frame) => {
                match frame {
                    Some(Ok(notification)) => (
                        (Connection { next_notification: Some(notification), ..self }),
                        None,
                    ),
                    _ => self.spec_close(NotifyProtocol::Yes),
                }
            },
            ConnectionInput::OutboundFrame(frame) => {
                if frame is Some {
                    (self, None)
                } else {
                    self.spec_close(NotifyProtocol::Yes)
                }
            },
        }
    }

    /// The closing transition: the phase records whether the protocol
    /// handler is told, and the task is asked to close both substreams.
    pub open spec fn spec_close(self, notify: NotifyProtocol) -> (Connection, Option<
        ConnectionAction,
    >) {
        (
            (Connection { phase: ConnectionPhase::Closed(notify), ..self }),
            Some((ConnectionAction::CloseBoth { notify })),
        )
    }

    /// Create the driver state for a fresh connection to `peer`; the
    /// shutdown channel, the substreams and the mailboxes stay with the
    /// surrounding task.
    pub fn new(peer: PeerId) -> (r: Self)
        ensures
            r.peer == peer,
            r.next_notification is None,
            r.is_running(),
    {
        Connection { peer, next_notification: None, phase: ConnectionPhase::Running }
    }

    /// Connection closed, clean up state: record how the connection ended
    /// and ask the task to close both substreams and report to the user.
    pub fn close_connection(&mut self, notify: NotifyProtocol) -> (r: ConnectionAction)
        ensures
            (*final(self), Some(r)) == old(self).spec_close(notify),
    {
        self.phase = ConnectionPhase::Closed(notify);
        ConnectionAction::CloseBoth { notify }
    }

    /// Drive the connection by one observation. See [`Self::spec_step`]
    /// for the exact decision table.
    pub fn step(&mut self, input: ConnectionInput) -> (r: Option<ConnectionAction>)
        requires
            old(self).is_running(),
            old(self).input_ok(input),
        ensures
            (*final(self), r) == old(self).spec_step(input),
            final(self).peer == old(self).peer,
            final(self).next_notification is Some ==> (final(self).next_notification == old(
                self,
            ).next_notification || (input matches ConnectionInput::InboundFrame(Some(Ok(_))))),
    {
        match input {
            ConnectionInput::Shutdown => Some(self.close_connection(NotifyProtocol::No)),
            ConnectionInput::AsyncNotification { notification, send_ok } => {
                if notification.is_some() && send_ok {
                    None
                } else {
                    Some(self.close_connection(NotifyProtocol::Yes))
                }
            },
            ConnectionInput::SyncNotification { notification, send_ok } => {
                if notification.is_some() && send_ok {
                    None
                } else {
                    Some(self.close_connection(NotifyProtocol::Yes))
                }
            },
            ConnectionInput::DeliveryPermit { available } => {
                if available {
                    let notification = match self.next_notification.take() {
                        Some(notification) => notification,
                        None => {
                            proof {
                                assert(false);
                            }
                            Vec::new()
                        },
                    };
                    Some(ConnectionAction::Deliver { peer: self.peer, notification })
                } else {
                    None
                }
            },
            ConnectionInput::InboundFrame(frame) => {
                match frame {
                    Some(Ok(notification)) => {
                        self.next_notification = Some(notification);
                        None
                    },
                    _ => Some(self.close_connection(NotifyProtocol::Yes)),
                }
            },
            ConnectionInput::OutboundFrame(frame) => {
                if frame.is_some() {
                    None
                } else {
                    Some(self.close_connection(NotifyProtocol::Yes))
                }
            },
        }
    }
}

/// The sources the connection loop draws from, in descending priority.
#[derive(Clone, Copy, Debug, PartialEq, Eq, Structural)]
pub enum ConnectionSource {
    /// The shutdown signal.
    Shutdown,
    /// The asynchronous user queue.
    AsyncQueue,
    /// The synchronous user queue.
    SyncQueue,
    /// Delivery of the buffered notification to the user.
    Delivery,
    /// The inbound substream.
    Inbound,
    /// The outbound substream (watched only for closure).
    Outbound,
}

/// Pick the source the connection loop serves next: the highest-priority
/// ready one, where delivery is eligible only while a notification is
/// buffered, and the inbound substream only while none is — the
/// backpressure guard.
pub fn select_connection_source(
    buffered: bool,
    shutdown_ready: bool,
    async_ready: bool,
    sync_ready: bool,
    delivery_ready: bool,
    inbound_ready: bool,
    outbound_ready: bool,
) -> (r: Option<ConnectionSource>)
    ensures
        r == (if shutdown_ready {
            Some(ConnectionSource::Shutdown)
        } else if async_ready {
            Some(ConnectionSource::AsyncQueue)
        } else if sync_ready {
            Some(ConnectionSource::SyncQueue)
        } else if buffered && delivery_ready {
            Some(ConnectionSource::Delivery)
        } else if !buffered && inbound_ready {
            Some(ConnectionSource::Inbound)
        } else if outbound_ready {
            Some(ConnectionSource::Outbound)
        } else {
            None::<ConnectionSource>
        }),
{
    if shutdown_ready {
        Some(ConnectionSource::Shutdown)
    } else if async_ready {
        Some(ConnectionSource::AsyncQueue)
    } else if sync_ready {
        Some(ConnectionSource::SyncQueue)
    } else if buffered && delivery_ready {
        Some(ConnectionSource::Delivery)
    } else if !buffered && inbound_ready {
        Some(ConnectionSource::Inbound)
    } else if outbound_ready {
        Some(ConnectionSource::Outbound)
    } else {
        None
    }
}

/// Notification backpressure: the driver holds at most one undelivered
/// inbound frame. A new frame is accepted only through an `InboundFrame`
/// input, which the loop guards on an empty buffer; a buffered frame
/// leaves only by delivery; and no step ever holds a second frame while
/// one is buffered.
pub proof fn lemma_notification_backpressure(s: Connection, input: ConnectionInput)
    requires
        s.is_running(),
        s.input_ok(input),
    ensures
        s.spec_step(input).0.next_notification is Some ==> (s.next_notification is None || (
        s.spec_step(input).0.next_notification == s.next_notification)),
        (s.next_notification is Some && s.spec_step(input).0.next_notification
            == s.next_notification) ==> !(input matches ConnectionInput::InboundFrame(_)),
{
}

} // verus!
