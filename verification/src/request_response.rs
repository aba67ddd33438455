//! Request-response protocol engine.
//!
//! The engine is a state machine: every transport event, substream outcome and
//! user command is handed to it as a plain value, and it answers with the user
//! events to emit and the actions the surrounding task must perform (open or
//! close a substream, start a request future, signal a cancellation). All
//! bookkeeping tables live here; the asynchronous loop that feeds the engine
//! lives outside the crate.

use vstd::prelude::*;
use crate::store::{IdMap, IdSet, PeerMap};
use crate::types::{PeerId, ProtocolName, RequestId, SubstreamId};

verus! {

/// Default timeout for outbound requests, in milliseconds.
pub const DEFAULT_REQUEST_TIMEOUT_MS: u64 = 5000;

/// What to do when a request targets a peer that is not connected.
#[derive(Clone, Copy, Debug, PartialEq, Eq, Structural)]
pub enum DialOptions {
    /// Fail the request with `NotConnected`.
    Reject,
    /// Dial the peer and send the request once the connection is up.
    Dial,
}

/// The transport's answer to the one non-blocking call that a send-request
/// may demand of the surrounding task before it hands the command to the
/// engine.
#[derive(Clone, Copy, Debug, PartialEq, Eq, Structural)]
pub enum TransportReply {
    /// No transport call was needed (peer disconnected, dialing refused).
    NoCall,
    /// `dial` was called; `true` if it was accepted.
    Dialed(bool),
    /// `open_substream` was called; the id it assigned, if it was accepted.
    Opened(Option<SubstreamId>),
}

/// Terminal failure reported for an outbound request.
#[derive(Clone, Copy, Debug, PartialEq, Eq, Structural)]
pub enum RequestResponseError {
    /// The peer was not connected and dialing was not allowed, or the request
    /// frame could not be written.
    NotConnected,
    /// Dialing, substream opening, or the exchange itself was refused.
    Rejected,
    /// The configured timer elapsed before a response frame arrived.
    Timeout,
    /// The user canceled the request before it resolved.
    Canceled,
    /// The substream refused the request frame for size reasons.
    TooLargePayload,
}

/// Event emitted to the user protocol.
#[derive(Debug)]
pub enum RequestResponseEvent {
    /// An inbound request arrived and awaits a response or a rejection.
    RequestReceived {
        peer: PeerId,
        fallback: Option<ProtocolName>,
        request_id: RequestId,
        request: Vec<u8>,
    },
    /// An outbound request resolved with a response.
    ResponseReceived { peer: PeerId, request_id: RequestId, response: Vec<u8> },
    /// An outbound request resolved with a failure.
    RequestFailed { peer: PeerId, request_id: RequestId, error: RequestResponseError },
}

impl RequestResponseEvent {
    /// Whether this event is the terminal report of an outbound request.
    pub open spec fn is_terminal(&self) -> bool {
        match self {
            RequestResponseEvent::RequestReceived { .. } => false,
            RequestResponseEvent::ResponseReceived { .. } => true,
            RequestResponseEvent::RequestFailed { .. } => true,
        }
    }

    /// The request id the event speaks of.
    pub open spec fn spec_request_id(&self) -> RequestId {
        match self {
            RequestResponseEvent::RequestReceived { request_id, .. } => *request_id,
            RequestResponseEvent::ResponseReceived { request_id, .. } => *request_id,
            RequestResponseEvent::RequestFailed { request_id, .. } => *request_id,
        }
    }

    /// The request id the event speaks of.
    pub fn request_id(&self) -> (r: RequestId)
        ensures
            r == self.spec_request_id(),
    {
        match self {
            RequestResponseEvent::RequestReceived { request_id, .. } => *request_id,
            RequestResponseEvent::ResponseReceived { request_id, .. } => *request_id,
            RequestResponseEvent::RequestFailed { request_id, .. } => *request_id,
        }
    }
}

/// An outbound request while it waits for a dial or a substream.
#[derive(Debug)]
pub struct RequestContext {
    /// Target peer.
    pub peer: PeerId,
    /// Identifier of the request.
    pub request_id: RequestId,
    /// The request payload.
    pub request: Vec<u8>,
}

impl RequestContext {
    /// Create a new [`RequestContext`].
    pub fn new(peer: PeerId, request_id: RequestId, request: Vec<u8>) -> (r: Self)
        ensures
            r.peer == peer,
            r.request_id == request_id,
            r.request == request,
    {
        RequestContext { peer, request_id, request }
    }
}

/// Per-peer bookkeeping while the peer is connected.
pub struct PeerContext {
    /// Identifiers of in-flight outbound requests to this peer.
    pub active: IdSet,
    /// Identifiers of inbound requests still awaiting their first frame,
    /// with the fallback protocol name each was negotiated under.
    pub active_inbound: IdMap<Option<ProtocolName>>,
}

impl PeerContext {
    /// Both tables are well formed.
    pub open spec fn wf(&self) -> bool {
        self.active.wf() && self.active_inbound.wf()
    }

    /// Create a new [`PeerContext`].
    pub fn new() -> (r: Self)
        ensures
            r.wf(),
            r.active@ == Seq::<u64>::empty(),
            r.active_inbound@ == Map::<u64, Option<ProtocolName>>::empty(),
    {
        PeerContext { active: IdSet::new(), active_inbound: IdMap::new() }
    }
}

/// Token standing for one substream owned by the engine. The surrounding task
/// keeps the real substream under the same token; the token is not cloneable,
/// so each substream lives in exactly one table slot.
#[derive(Debug)]
pub struct SubstreamHandle {
    /// Token value assigned by the surrounding task.
    pub token: u64,
}

/// An inbound substream awaiting its first frame.
#[derive(Debug)]
pub struct InboundRequest {
    /// The remote peer that opened the substream.
    pub peer: PeerId,
    /// The substream itself.
    pub substream: SubstreamHandle,
}

/// Everything the surrounding task needs to drive one outbound exchange:
/// write the request frame on the substream, then race the response against
/// the timeout and the cancellation token recorded under `request_id`, and
/// report the outcome through the substream-event handler.
#[derive(Debug)]
pub struct RequestStart {
    /// The peer the exchange is with.
    pub peer: PeerId,
    /// Identifier of the request.
    pub request_id: RequestId,
    /// The request payload to frame.
    pub request: Vec<u8>,
    /// The freshly opened outbound substream.
    pub substream: SubstreamHandle,
    /// Timeout for the exchange, in milliseconds.
    pub timeout_ms: u64,
}

/// Instruction to signal the cancellation token of an in-flight request.
#[derive(Debug)]
pub struct CancelSignal {
    /// The request whose future should resolve as canceled.
    pub request_id: RequestId,
}

/// Instruction to write a response frame on a substream and then drop it;
/// if the write fails the substream is closed and nothing is reported.
#[derive(Debug)]
pub struct ResponseSend {
    /// The substream held for the inbound request.
    pub substream: SubstreamHandle,
    /// The response payload to frame.
    pub response: Vec<u8>,
}

/// One input to the engine's event loop: a transport event, the resolution
/// of an in-flight exchange, the first frame of an inbound request, or a
/// user command. Where handling an input demands a non-blocking transport
/// call, the call's reply travels with the input.
#[allow(inconsistent_fields)]
pub enum EngineInput {
    /// The transport connected to `peer`; if a dial was pending for it, the
    /// caller already asked for a substream and reports the outcome.
    ConnectionEstablished { peer: PeerId, open_result: Option<Option<SubstreamId>> },
    /// The transport lost the connection to `peer`.
    ConnectionClosed { peer: PeerId },
    /// The remote opened a substream towards us.
    InboundSubstream { peer: PeerId, fallback: Option<ProtocolName>, substream: SubstreamHandle },
    /// Our requested outbound substream opened.
    OutboundSubstream { peer: PeerId, substream_id: SubstreamId, substream: SubstreamHandle },
    /// Our requested outbound substream could not be opened.
    SubstreamOpenFailure { substream_id: SubstreamId },
    /// A dial for `peer` failed.
    DialFailure { peer: PeerId },
    /// An in-flight outbound exchange resolved.
    SubstreamEvent {
        peer: PeerId,
        request_id: RequestId,
        message: Result<Vec<u8>, RequestResponseError>,
    },
    /// The first frame of an inbound request arrived, or its read failed.
    InboundRequest { peer: PeerId, request_id: RequestId, request: Result<Vec<u8>, ()> },
    /// User command: send a request.
    SendRequest {
        peer: PeerId,
        request_id: RequestId,
        request: Vec<u8>,
        dial_options: DialOptions,
        reply: TransportReply,
    },
    /// User command: answer an inbound request.
    SendResponse { request_id: RequestId, response: Vec<u8> },
    /// User command: reject an inbound request.
    RejectRequest { request_id: RequestId },
    /// User command: cancel an outbound request.
    CancelRequest { request_id: RequestId },
}

/// Work one step asks of the surrounding task.
#[derive(Debug)]
pub enum EngineAction {
    /// Spawn the future that drives one outbound exchange.
    StartRequest(RequestStart),
    /// Write a response frame; close the substream if the write fails.
    SendResponseFrame(ResponseSend),
    /// Close this substream.
    CloseSubstream(SubstreamHandle),
    /// Drop this substream without further ado.
    DropSubstream(SubstreamHandle),
    /// Fire the cancellation token of an in-flight exchange.
    SignalCancel(CancelSignal),
}

/// What one step of the engine produced.
pub struct StepOutput {
    /// Events to forward to the user protocol, in order.
    pub events: Vec<RequestResponseEvent>,
    /// At most one action for the surrounding task.
    pub action: Option<EngineAction>,
    /// A state mismatch, reported after the input was processed.
    pub error: Option<EngineError>,
}

/// State-mismatch errors; they are reported to the caller and leave the
/// observable state unchanged (except where noted on the handler).
#[derive(Clone, Copy, Debug, PartialEq, Eq, Structural)]
pub enum EngineError {
    /// A connection-established event for a peer that is already connected.
    PeerAlreadyExists,
    /// An event names a peer that is not connected.
    PeerDoesntExist,
    /// An event names a request or substream the engine does not know.
    InvalidState,
    /// A response was supplied for a request that is not pending.
    NoPendingRequest,
}

/// The event sources the engine's loop draws from, in descending priority.
/// User commands rank last because they act on state derived from network
/// events: serving the network first keeps the engine's view current.
#[derive(Clone, Copy, Debug, PartialEq, Eq, Structural)]
pub enum EventSource {
    /// Transport service events.
    Transport,
    /// Resolutions of in-flight request futures.
    InflightResults,
    /// First frames of inbound requests.
    InboundFrames,
    /// Commands from the user handle.
    Commands,
}

/// Pick the event source to serve next: the highest-priority one that is
/// ready, in the fixed order transport, in-flight results, inbound first
/// frames, user commands.
pub fn select_source(
    transport_ready: bool,
    inflight_ready: bool,
    inbound_ready: bool,
    command_ready: bool,
) -> (r: Option<EventSource>)
    ensures
        r == (if transport_ready {
            Some(EventSource::Transport)
        } else if inflight_ready {
            Some(EventSource::InflightResults)
        } else if inbound_ready {
            Some(EventSource::InboundFrames)
        } else if command_ready {
            Some(EventSource::Commands)
        } else {
            None::<EventSource>
        }),
{
    if transport_ready {
        Some(EventSource::Transport)
    } else if inflight_ready {
        Some(EventSource::InflightResults)
    } else if inbound_ready {
        Some(EventSource::InboundFrames)
    } else if command_ready {
        Some(EventSource::Commands)
    } else {
        None
    }
}

/// How writing the request frame went, as the surrounding task observed it.
#[derive(Clone, Copy, Debug, PartialEq, Eq, Structural)]
pub enum SendOutcome {
    /// The frame was written.
    Sent,
    /// The substream refused the frame for size reasons.
    TooLarge,
    /// The write failed for any other reason.
    Failed,
}

/// Which of the three concurrent sources resolved first after the request
/// frame was written.
#[derive(Debug)]
pub enum RaceOutcome {
    /// The cancellation token fired.
    Canceled,
    /// The timer elapsed.
    TimedOut,
    /// The substream yielded: a frame, a read error, or an orderly close.
    Frame(Option<Result<Vec<u8>, ()>>),
}

/// The outcome an in-flight request future reports, as a function of how
/// the send went and, if it was sent, which source won the race: a refused
/// frame is `TooLargePayload`, any other send failure `NotConnected`;
/// then cancellation beats the timer beats the substream, a received frame
/// is the response, and an error or orderly close without data is
/// `Rejected`.
pub open spec fn spec_resolve_outbound(send: SendOutcome, race: RaceOutcome) -> Result<
    Vec<u8>,
    RequestResponseError,
> {
    match send {
        SendOutcome::TooLarge => Err(RequestResponseError::TooLargePayload),
        SendOutcome::Failed => Err(RequestResponseError::NotConnected),
        SendOutcome::Sent => match race {
            RaceOutcome::Canceled => Err(RequestResponseError::Canceled),
            RaceOutcome::TimedOut => Err(RequestResponseError::Timeout),
            RaceOutcome::Frame(Some(Ok(response))) => Ok(response),
            RaceOutcome::Frame(_) => Err(RequestResponseError::Rejected),
        },
    }
}

/// Decide what an in-flight request future yields; see
/// [`spec_resolve_outbound`] for the exact table.
pub fn resolve_outbound(send: SendOutcome, race: RaceOutcome) -> (r: Result<
    Vec<u8>,
    RequestResponseError,
>)
    ensures
        r == spec_resolve_outbound(send, race),
{
    match send {
        SendOutcome::TooLarge => Err(RequestResponseError::TooLargePayload),
        SendOutcome::Failed => Err(RequestResponseError::NotConnected),
        SendOutcome::Sent => match race {
            RaceOutcome::Canceled => Err(RequestResponseError::Canceled),
            RaceOutcome::TimedOut => Err(RequestResponseError::Timeout),
            RaceOutcome::Frame(Some(Ok(response))) => Ok(response),
            RaceOutcome::Frame(Some(Err(_))) => Err(RequestResponseError::Rejected),
            RaceOutcome::Frame(None) => Err(RequestResponseError::Rejected),
        },
    }
}

/// Ids for which `evs` holds a terminal event.
pub open spec fn terminal_ids(evs: Seq<RequestResponseEvent>) -> Set<RequestId> {
    Set::new(
        |id: RequestId|
            exists|i: int|
                0 <= i < evs.len() && #[trigger] evs[i].is_terminal() && evs[i].spec_request_id()
                    == id,
    )
}

/// One engine step accounts for its terminal events: each is for an id not
/// already terminated, no two are for the same id, and afterwards exactly
/// those ids are recorded as terminated.
pub open spec fn step_accounted(
    t0: Set<RequestId>,
    evs: Seq<RequestResponseEvent>,
    t1: Set<RequestId>,
) -> bool {
    &&& forall|i: int|
        0 <= i < evs.len() && #[trigger] evs[i].is_terminal() ==> !t0.contains(
            evs[i].spec_request_id(),
        )
    &&& forall|i: int, j: int|
        0 <= i < j < evs.len() && evs[i].is_terminal() && evs[j].is_terminal()
            ==> (#[trigger] evs[i].spec_request_id()) != (#[trigger] evs[j].spec_request_id())
    &&& t1 == t0.union(terminal_ids(evs))
}

/// A batch without terminal events leaves the terminated set alone.
pub proof fn lemma_step_accounted_no_terminal(t: Set<RequestId>, evs: Seq<RequestResponseEvent>)
    requires
        forall|i: int| 0 <= i < evs.len() ==> !(#[trigger] evs[i].is_terminal()),
    ensures
        step_accounted(t, evs, t),
{
    assert(t.union(terminal_ids(evs)) =~= t);
}

/// A batch whose only terminal event is for a fresh id adds exactly that id.
pub proof fn lemma_step_accounted_single(
    t: Set<RequestId>,
    evs: Seq<RequestResponseEvent>,
    id: RequestId,
)
    requires
        !t.contains(id),
        evs.len() == 1,
        evs[0].is_terminal(),
        evs[0].spec_request_id() == id,
    ensures
        step_accounted(t, evs, t.insert(id)),
{
    assert(terminal_ids(evs).contains(id));
    assert(t.insert(id) =~= t.union(terminal_ids(evs)));
}

/// The request-response protocol engine.
pub struct RequestResponseProtocol {
    /// The protocol this engine serves.
    pub protocol: ProtocolName,
    /// Timeout for outbound requests, in milliseconds.
    pub timeout_ms: u64,
    /// Next ephemeral request id; all ids ever handed out are below it.
    pub next_request_id: u64,
    /// Connected peers; an entry exists iff the transport reported the peer
    /// connected.
    pub peers: PeerMap<PeerContext>,
    /// Requests waiting for a dial to resolve, at most one per peer.
    pub pending_dials: PeerMap<RequestContext>,
    /// Requests whose outbound substream was requested but has not opened,
    /// keyed by the id the transport assigned to the open operation.
    pub pending_outbound: IdMap<RequestContext>,
    /// Substreams of inbound requests held until the user responds or
    /// rejects, keyed by request id.
    pub pending_outbound_responses: IdMap<SubstreamHandle>,
    /// Request ids whose in-flight future still holds a live cancellation
    /// receiver.
    pub pending_outbound_cancels: IdSet,
    /// Inbound substreams awaiting their first frame, keyed by request id.
    pub pending_inbound_requests: IdMap<InboundRequest>,
    /// Ids for which a terminal event has been emitted.
    pub terminated: Ghost<Set<RequestId>>,
    /// Ids that have ever been submitted as requests or allocated to inbound
    /// substreams.
    pub used: Ghost<Set<RequestId>>,
}

impl RequestResponseProtocol {
    /// Ids of requests waiting on a dial.
    pub open spec fn dial_ids(self) -> Set<RequestId> {
        Set::new(
            |id: RequestId|
                exists|p: Seq<u8>|
                    #[trigger] self.pending_dials@.dom().contains(p) && self.pending_dials@[p].request_id
                        == id,
        )
    }

    /// Ids of requests in some connected peer's active set.
    pub open spec fn active_ids(self) -> Set<RequestId> {
        Set::new(
            |id: RequestId|
                exists|p: Seq<u8>|
                    #[trigger] self.peers@.dom().contains(p) && self.peers@[p].active@.contains(id),
        )
    }

    /// Ids of outbound requests that still owe a terminal event.
    pub open spec fn live_ids(self) -> Set<RequestId> {
        self.dial_ids().union(self.active_ids())
    }

    /// Ids currently tied to the inbound-request path.
    pub open spec fn inbound_ids(self) -> Set<RequestId> {
        Set::new(
            |id: RequestId|
                self.pending_inbound_requests@.dom().contains(id)
                    || self.pending_outbound_responses@.dom().contains(id) || exists|p: Seq<u8>|
                    #[trigger] self.peers@.dom().contains(p) && self.peers@[p].active_inbound@.dom().contains(
                        id,
                    ),
        )
    }

    /// Well-formedness of the whole engine state.
    pub open spec fn wf(self) -> bool {
        &&& self.peers.wf()
        &&& forall|p: Seq<u8>|
            #[trigger] self.peers@.dom().contains(p) ==> self.peers@[p].wf()
        &&& self.pending_dials.wf()
        &&& self.pending_outbound.wf()
        &&& self.pending_outbound_responses.wf()
        &&& self.pending_outbound_cancels.wf()
        &&& self.pending_inbound_requests.wf()
        &&& self.pending_dials@.dom().disjoint(self.peers@.dom())
        &&& self.pending_outbound_responses@.dom().disjoint(self.pending_inbound_requests@.dom())
        &&& forall|p: Seq<u8>|
            #[trigger] self.pending_dials@.dom().contains(p) ==> self.pending_dials@[p].peer@ == p
        &&& forall|p: Seq<u8>, q: Seq<u8>|
            self.pending_dials@.dom().contains(p) && self.pending_dials@.dom().contains(q) && p
                != q ==> (#[trigger] self.pending_dials@[p].request_id)
                != (#[trigger] self.pending_dials@[q].request_id)
        &&& forall|p: Seq<u8>, q: Seq<u8>, id: RequestId|
            self.pending_dials@.dom().contains(p) && self.peers@.dom().contains(q)
                && #[trigger] self.peers@[q].active@.contains(id) ==> id
                != (#[trigger] self.pending_dials@[p].request_id)
        &&& forall|p: Seq<u8>, q: Seq<u8>, id: RequestId|
            self.peers@.dom().contains(p) && self.peers@.dom().contains(q) && p != q
                && (#[trigger] self.peers@[p].active@.contains(id)) ==> !(
            #[trigger] self.peers@[q].active@.contains(id))
        &&& self.live_ids().disjoint(self.terminated@)
        &&& forall|id: RequestId| self.live_ids().contains(id) ==> #[trigger] self.used@.contains(id)
        &&& forall|id: RequestId|
            self.terminated@.contains(id) ==> #[trigger] self.used@.contains(id)
        &&& forall|id: RequestId|
            self.inbound_ids().contains(id) ==> #[trigger] self.used@.contains(id)
        &&& forall|id: RequestId|
            self.pending_outbound_cancels@.contains(id) ==> #[trigger] self.used@.contains(id)
        &&& forall|sid: SubstreamId|
            #[trigger] self.pending_outbound@.dom().contains(sid) ==> self.used@.contains(
                self.pending_outbound@[sid].request_id,
            )
        &&& forall|id: RequestId|
            #[trigger] self.used@.contains(id) ==> id < self.next_request_id
    }

    /// Create a new engine for `protocol`. `next_request_id` is the starting
    /// value of the shared request-id counter.
    pub fn new(protocol: ProtocolName, timeout_ms: u64, next_request_id: u64) -> (r: Self)
        ensures
            r.wf(),
            r.protocol == protocol,
            r.timeout_ms == timeout_ms,
            r.next_request_id == next_request_id,
            r.peers@ == Map::<Seq<u8>, PeerContext>::empty(),
            r.pending_dials@ == Map::<Seq<u8>, RequestContext>::empty(),
            r.pending_outbound@ == Map::<u64, RequestContext>::empty(),
            r.pending_outbound_responses@ == Map::<u64, SubstreamHandle>::empty(),
            r.pending_outbound_cancels@ == Seq::<u64>::empty(),
            r.pending_inbound_requests@ == Map::<u64, InboundRequest>::empty(),
            r.terminated@ == Set::<RequestId>::empty(),
            r.used@ == Set::<RequestId>::empty(),
    {
        let r = RequestResponseProtocol {
            protocol,
            timeout_ms,
            next_request_id,
            peers: PeerMap::new(),
            pending_dials: PeerMap::new(),
            pending_outbound: IdMap::new(),
            pending_outbound_responses: IdMap::new(),
            pending_outbound_cancels: IdSet::new(),
            pending_inbound_requests: IdMap::new(),
            terminated: Ghost(Set::empty()),
            used: Ghost(Set::empty()),
        };
        proof {
            assert(r.live_ids() =~= Set::<RequestId>::empty());
        }
        r
    }

    /// Whether the transport currently reports `peer` connected.
    pub fn is_connected(&self, peer: &PeerId) -> (r: bool)
        ensures
            r == self.peers@.dom().contains(peer@),
    {
        self.peers.contains_key(peer)
    }

    /// Whether a dial initiated for a request to `peer` is still unresolved.
    pub fn has_pending_dial(&self, peer: &PeerId) -> (r: bool)
        ensures
            r == self.pending_dials@.dom().contains(peer@),
    {
        self.pending_dials.contains_key(peer)
    }

    /// Draw the next ephemeral request id.
    pub fn next_request_id(&mut self) -> (r: RequestId)
        requires
            old(self).next_request_id < u64::MAX,
        ensures
            r == old(self).next_request_id,
            final(self).next_request_id == old(self).next_request_id + 1,
            (*final(self) == (RequestResponseProtocol {
                next_request_id: (old(self).next_request_id + 1) as u64,
                ..*old(self)
            })),
            old(self).wf() ==> final(self).wf(),
            old(self).wf() ==> !final(self).used@.contains(r),
    {
        let id = self.next_request_id;
        self.next_request_id = self.next_request_id + 1;
        id
    }

    /// The peer map is the same in `a` and `b`.
    pub open spec fn same_peers(a: Self, b: Self) -> bool {
        a.peers@ == b.peers@
    }

    /// The pending-dial table is the same in `a` and `b`.
    pub open spec fn same_dials(a: Self, b: Self) -> bool {
        a.pending_dials@ == b.pending_dials@
    }

    /// The pending-outbound table is the same in `a` and `b`.
    pub open spec fn same_outbound(a: Self, b: Self) -> bool {
        a.pending_outbound@ == b.pending_outbound@
    }

    /// The pending-response table is the same in `a` and `b`.
    pub open spec fn same_responses(a: Self, b: Self) -> bool {
        a.pending_outbound_responses@ == b.pending_outbound_responses@
    }

    /// The cancellation set is the same in `a` and `b`.
    pub open spec fn same_cancels(a: Self, b: Self) -> bool {
        a.pending_outbound_cancels@ == b.pending_outbound_cancels@
    }

    /// The inbound-request table is the same in `a` and `b`.
    pub open spec fn same_inbound(a: Self, b: Self) -> bool {
        a.pending_inbound_requests@ == b.pending_inbound_requests@
    }

    /// Configuration, counter and id accounting are the same in `a` and `b`.
    pub open spec fn same_config(a: Self, b: Self) -> bool {
        &&& a.protocol == b.protocol
        &&& a.timeout_ms == b.timeout_ms
        &&& a.next_request_id == b.next_request_id
        &&& a.used@ == b.used@
    }

    /// The terminated-id record is the same in `a` and `b`.
    pub open spec fn same_terminated(a: Self, b: Self) -> bool {
        a.terminated@ == b.terminated@
    }

    /// Every observable part of the state is the same in `a` and `b`.
    pub open spec fn same_state(a: Self, b: Self) -> bool {
        &&& Self::same_peers(a, b)
        &&& Self::same_dials(a, b)
        &&& Self::same_outbound(a, b)
        &&& Self::same_responses(a, b)
        &&& Self::same_cancels(a, b)
        &&& Self::same_inbound(a, b)
        &&& Self::same_config(a, b)
        &&& Self::same_terminated(a, b)
    }

    /// Cancel an outbound request. If its future still holds a live
    /// cancellation token the token is taken out and handed back so the
    /// surrounding task can fire it; otherwise the request has already
    /// resolved or never existed, and the call silently succeeds.
    pub fn on_cancel_request(&mut self, request_id: RequestId) -> (r: Option<CancelSignal>)
        requires
            old(self).wf(),
        ensures
            final(self).wf(),
            r is Some <==> old(self).pending_outbound_cancels@.contains(request_id),
            (r matches Some(c) ==> c.request_id == request_id),
            !final(self).pending_outbound_cancels@.contains(request_id),
            forall|x: RequestId|
                x != request_id ==> final(self).pending_outbound_cancels@.contains(x) == old(
                    self,
                ).pending_outbound_cancels@.contains(x),
            Self::same_peers(*old(self), *final(self)),
            Self::same_dials(*old(self), *final(self)),
            Self::same_outbound(*old(self), *final(self)),
            Self::same_responses(*old(self), *final(self)),
            Self::same_inbound(*old(self), *final(self)),
            Self::same_config(*old(self), *final(self)),
            Self::same_terminated(*old(self), *final(self)),
    {
        let was_present = self.pending_outbound_cancels.remove(request_id);
        proof {
            assert(self.live_ids() =~= old(self).live_ids());
            assert(self.inbound_ids() =~= old(self).inbound_ids());
        }
        if was_present {
            Some(CancelSignal { request_id })
        } else {
            None
        }
    }

    /// Send a response for the inbound request `request_id`. On success the
    /// substream held for it is handed back with the payload; if the request
    /// is not pending the payload is dropped and an error returned.
    pub fn on_send_response(&mut self, request_id: RequestId, response: Vec<u8>) -> (r: Result<
        ResponseSend,
        EngineError,
    >)
        requires
            old(self).wf(),
        ensures
            final(self).wf(),
            final(self).pending_outbound_responses@ == old(
                self,
            ).pending_outbound_responses@.remove(request_id),
            (match r {
                Ok(send) => {
                    &&& old(self).pending_outbound_responses@.dom().contains(request_id)
                    &&& send.substream == old(self).pending_outbound_responses@[request_id]
                    &&& send.response == response
                },
                Err(e) => {
                    &&& e == EngineError::NoPendingRequest
                    &&& !old(self).pending_outbound_responses@.dom().contains(request_id)
                },
            }),
            Self::same_peers(*old(self), *final(self)),
            Self::same_dials(*old(self), *final(self)),
            Self::same_outbound(*old(self), *final(self)),
            Self::same_cancels(*old(self), *final(self)),
            Self::same_inbound(*old(self), *final(self)),
            Self::same_config(*old(self), *final(self)),
            Self::same_terminated(*old(self), *final(self)),
    {
        let taken = self.pending_outbound_responses.remove(request_id);
        proof {
            assert(self.live_ids() =~= old(self).live_ids());
            assert forall|id: RequestId| self.inbound_ids().contains(id) implies old(
                self,
            ).inbound_ids().contains(id) by {}
        }
        match taken {
            Some(substream) => Ok(ResponseSend { substream, response }),
            None => Err(EngineError::NoPendingRequest),
        }
    }

    /// Reject the inbound request `request_id`: its substream is taken out of
    /// the engine and handed back to be closed. Rejecting an unknown request
    /// silently succeeds.
    pub fn on_reject_request(&mut self, request_id: RequestId) -> (r: Option<SubstreamHandle>)
        requires
            old(self).wf(),
        ensures
            final(self).wf(),
            final(self).pending_outbound_responses@ == old(
                self,
            ).pending_outbound_responses@.remove(request_id),
            r is Some <==> old(self).pending_outbound_responses@.dom().contains(request_id),
            (r matches Some(s) ==> s == old(self).pending_outbound_responses@[request_id]),
            Self::same_peers(*old(self), *final(self)),
            Self::same_dials(*old(self), *final(self)),
            Self::same_outbound(*old(self), *final(self)),
            Self::same_cancels(*old(self), *final(self)),
            Self::same_inbound(*old(self), *final(self)),
            Self::same_config(*old(self), *final(self)),
            Self::same_terminated(*old(self), *final(self)),
    {
        let taken = self.pending_outbound_responses.remove(request_id);
        proof {
            assert(self.live_ids() =~= old(self).live_ids());
            assert forall|id: RequestId| self.inbound_ids().contains(id) implies old(
                self,
            ).inbound_ids().contains(id) by {}
        }
        taken
    }

    /// The transport failed to dial `peer`. If a request was waiting on the
    /// dial it fails with `Rejected`; otherwise nothing happens.
    pub fn on_dial_failure(&mut self, peer: &PeerId) -> (evs: Vec<RequestResponseEvent>)
        requires
            old(self).wf(),
        ensures
            final(self).wf(),
            final(self).pending_dials@ == old(self).pending_dials@.remove(peer@),
            (if old(self).pending_dials@.dom().contains(peer@) {
                &&& evs@.len() == 1
                &&& evs@[0] == (RequestResponseEvent::RequestFailed {
                    peer: old(self).pending_dials@[peer@].peer,
                    request_id: old(self).pending_dials@[peer@].request_id,
                    error: RequestResponseError::Rejected,
                })
                &&& final(self).terminated@ == old(self).terminated@.insert(
                    old(self).pending_dials@[peer@].request_id,
                )
            } else {
                evs@.len() == 0 && Self::same_terminated(*old(self), *final(self))
            }),
            step_accounted(old(self).terminated@, evs@, final(self).terminated@),
            Self::same_peers(*old(self), *final(self)),
            Self::same_outbound(*old(self), *final(self)),
            Self::same_responses(*old(self), *final(self)),
            Self::same_cancels(*old(self), *final(self)),
            Self::same_inbound(*old(self), *final(self)),
            Self::same_config(*old(self), *final(self)),
    {
        let taken = self.pending_dials.remove(peer);
        match taken {
            Some(context) => {
                let request_id = context.request_id;
                proof {
                    self.terminated@ = old(self).terminated@.insert(request_id);
                }
                let mut evs: Vec<RequestResponseEvent> = Vec::new();
                evs.push(
                    RequestResponseEvent::RequestFailed {
                        peer: context.peer,
                        request_id,
                        error: RequestResponseError::Rejected,
                    },
                );
                proof {
                    let pre = *old(self);
                    let post = *self;
                    assert(pre.dial_ids().contains(request_id));
                    assert(!pre.terminated@.contains(request_id));
                    lemma_step_accounted_single(pre.terminated@, evs@, request_id);
                    assert forall|id: RequestId| post.live_ids().contains(id) implies pre.live_ids().contains(
                        id,
                    ) && id != request_id by {
                        if post.dial_ids().contains(id) {
                            let q = choose|q: Seq<u8>|
                                #[trigger] post.pending_dials@.dom().contains(q)
                                    && post.pending_dials@[q].request_id == id;
                            assert(pre.pending_dials@.dom().contains(q));
                            assert(q != peer@);
                            assert(pre.dial_ids().contains(id));
                        } else {
                            let q = choose|q: Seq<u8>|
                                #[trigger] post.peers@.dom().contains(q)
                                    && post.peers@[q].active@.contains(id);
                            assert(pre.peers@.dom().contains(q));
                            assert(pre.active_ids().contains(id));
                        }
                    }
                    assert(post.live_ids().disjoint(post.terminated@));
                    assert(post.inbound_ids() =~= pre.inbound_ids());
                }
                evs
            },
            None => {
                proof {
                    assert(self.pending_dials@ =~= old(self).pending_dials@);
                    assert(self.live_ids() =~= old(self).live_ids());
                    assert(self.inbound_ids() =~= old(self).inbound_ids());
                    lemma_step_accounted_no_terminal(
                        old(self).terminated@,
                        Seq::<RequestResponseEvent>::empty(),
                    );
                }
                let evs: Vec<RequestResponseEvent> = Vec::new();
                evs
            },
        }
    }

    /// The transport could not open the outbound substream it had assigned
    /// `substream_id` to. The request waiting on it fails with `Rejected`,
    /// unless its peer already disconnected, in which case the failure was
    /// reported when the connection closed and nothing is emitted now.
    pub fn on_substream_open_failure(&mut self, substream_id: SubstreamId) -> (r: Result<
        Vec<RequestResponseEvent>,
        EngineError,
    >)
        requires
            old(self).wf(),
        ensures
            final(self).wf(),
            (match r {
                Err(e) => {
                    &&& e == EngineError::InvalidState
                    &&& !old(self).pending_outbound@.dom().contains(substream_id)
                    &&& Self::same_state(*old(self), *final(self))
                },
                Ok(evs) => {
                    let ctx = old(self).pending_outbound@[substream_id];
                    let p = ctx.peer@;
                    &&& old(self).pending_outbound@.dom().contains(substream_id)
                    &&& final(self).pending_outbound@ == old(self).pending_outbound@.remove(
                        substream_id,
                    )
                    &&& step_accounted(old(self).terminated@, evs@, final(self).terminated@)
                    &&& (if old(self).peers@.dom().contains(p) && old(
                        self,
                    ).peers@[p].active@.contains(ctx.request_id) {
                        &&& evs@.len() == 1
                        &&& evs@[0] == (RequestResponseEvent::RequestFailed {
                            peer: ctx.peer,
                            request_id: ctx.request_id,
                            error: RequestResponseError::Rejected,
                        })
                        &&& final(self).terminated@ == old(self).terminated@.insert(
                            ctx.request_id,
                        )
                        &&& final(self).peers@.dom() == old(self).peers@.dom()
                        &&& forall|q: Seq<u8>|
                            #[trigger] old(self).peers@.dom().contains(q) && q != p
                                ==> final(self).peers@[q] == old(self).peers@[q]
                        &&& final(self).peers@[p].active_inbound@
                            == old(self).peers@[p].active_inbound@
                        &&& !final(self).peers@[p].active@.contains(ctx.request_id)
                        &&& forall|x: RequestId|
                            x != ctx.request_id ==> final(self).peers@[p].active@.contains(x)
                                == old(self).peers@[p].active@.contains(x)
                    } else {
                        &&& evs@.len() == 0
                        &&& Self::same_peers(*old(self), *final(self))
                        &&& Self::same_terminated(*old(self), *final(self))
                    })
                },
            }),
            Self::same_dials(*old(self), *final(self)),
            Self::same_responses(*old(self), *final(self)),
            Self::same_cancels(*old(self), *final(self)),
            Self::same_inbound(*old(self), *final(self)),
            Self::same_config(*old(self), *final(self)),
    {
        let taken = self.pending_outbound.remove(substream_id);
        match taken {
            None => {
                proof {
                    assert(self.pending_outbound@ =~= old(self).pending_outbound@);
                }
                Err(EngineError::InvalidState)
            },
            Some(context) => {
                let request_id = context.request_id;
                let ghost mid = *self;
                let peer_ctx = self.peers.remove(&context.peer);
                match peer_ctx {
                    Some(mut ctx) => {
                        let had = ctx.active.remove(request_id);
                        self.peers.insert(context.peer, ctx);
                        if had {
                            proof {
                                self.terminated@ = old(self).terminated@.insert(request_id);
                            }
                            let mut evs: Vec<RequestResponseEvent> = Vec::new();
                            evs.push(
                                RequestResponseEvent::RequestFailed {
                                    peer: context.peer,
                                    request_id,
                                    error: RequestResponseError::Rejected,
                                },
                            );
                            proof {
                                self.lemma_wf_after_active_removal(
                                    *old(self),
                                    context.peer@,
                                    request_id,
                                    evs@,
                                );
                            }
                            Ok(evs)
                        } else {
                            proof {
                                assert(self.peers@ =~= old(self).peers@);
                                assert(self.live_ids() =~= old(self).live_ids());
                                assert(self.inbound_ids() =~= old(self).inbound_ids());
                                lemma_step_accounted_no_terminal(
                                    old(self).terminated@,
                                    Seq::<RequestResponseEvent>::empty(),
                                );
                            }
                            let evs: Vec<RequestResponseEvent> = Vec::new();
                            Ok(evs)
                        }
                    },
                    None => {
                        proof {
                            assert(self.peers@ =~= old(self).peers@);
                            assert(self.live_ids() =~= old(self).live_ids());
                            assert(self.inbound_ids() =~= old(self).inbound_ids());
                            lemma_step_accounted_no_terminal(
                                old(self).terminated@,
                                Seq::<RequestResponseEvent>::empty(),
                            );
                        }
                        let evs: Vec<RequestResponseEvent> = Vec::new();
                        Ok(evs)
                    },
                }
            },
        }
    }

    /// The transport opened the outbound substream assigned `substream_id`.
    /// The waiting request leaves `pending_outbound`; a cancellation token is
    /// recorded for it; and the caller receives everything needed to drive
    /// the exchange: the frame to send, the substream, and the timeout.
    pub fn on_outbound_substream(
        &mut self,
        peer: PeerId,
        substream_id: SubstreamId,
        substream: SubstreamHandle,
    ) -> (r: Result<RequestStart, EngineError>)
        requires
            old(self).wf(),
        ensures
            final(self).wf(),
            (match r {
                Err(e) => {
                    &&& e == EngineError::InvalidState
                    &&& !old(self).pending_outbound@.dom().contains(substream_id)
                    &&& Self::same_state(*old(self), *final(self))
                },
                Ok(start) => {
                    let ctx = old(self).pending_outbound@[substream_id];
                    &&& old(self).pending_outbound@.dom().contains(substream_id)
                    &&& final(self).pending_outbound@ == old(self).pending_outbound@.remove(
                        substream_id,
                    )
                    &&& start.peer == peer
                    &&& start.request_id == ctx.request_id
                    &&& start.request == ctx.request
                    &&& start.substream == substream
                    &&& start.timeout_ms == old(self).timeout_ms
                    &&& final(self).pending_outbound_cancels@ == (if old(
                        self,
                    ).pending_outbound_cancels@.contains(ctx.request_id) {
                        old(self).pending_outbound_cancels@
                    } else {
                        old(self).pending_outbound_cancels@.push(ctx.request_id)
                    })
                    &&& Self::same_peers(*old(self), *final(self))
                    &&& Self::same_dials(*old(self), *final(self))
                    &&& Self::same_responses(*old(self), *final(self))
                    &&& Self::same_inbound(*old(self), *final(self))
                    &&& Self::same_config(*old(self), *final(self))
                    &&& Self::same_terminated(*old(self), *final(self))
                },
            }),
    {
        let taken = self.pending_outbound.remove(substream_id);
        match taken {
            None => {
                proof {
                    assert(self.pending_outbound@ =~= old(self).pending_outbound@);
                }
                Err(EngineError::InvalidState)
            },
            Some(context) => {
                let _ = self.pending_outbound_cancels.insert(context.request_id);
                proof {
                    assert(self.live_ids() =~= old(self).live_ids());
                    assert(self.inbound_ids() =~= old(self).inbound_ids());
                }
                Ok(
                    RequestStart {
                        peer,
                        request_id: context.request_id,
                        request: context.request,
                        substream,
                        timeout_ms: self.timeout_ms,
                    },
                )
            },
        }
    }

    /// The remote opened a substream towards us: allocate an ephemeral
    /// request id, remember the fallback name it was negotiated under, and
    /// park the substream until its first frame, which the surrounding task
    /// reports through [`Self::on_inbound_request`]. Returns the allocated
    /// id.
    pub fn on_inbound_substream(
        &mut self,
        peer: &PeerId,
        fallback: Option<ProtocolName>,
        substream: SubstreamHandle,
    ) -> (r: Result<RequestId, EngineError>)
        requires
            old(self).wf(),
            old(self).next_request_id < u64::MAX,
        ensures
            final(self).wf(),
            final(self).next_request_id == old(self).next_request_id + 1,
            (match r {
                Err(e) => {
                    &&& e == EngineError::PeerDoesntExist
                    &&& !old(self).peers@.dom().contains(peer@)
                    &&& Self::same_peers(*old(self), *final(self))
                    &&& Self::same_inbound(*old(self), *final(self))
                    &&& final(self).used@ == old(self).used@
                },
                Ok(rid) => {
                    &&& old(self).peers@.dom().contains(peer@)
                    &&& rid == old(self).next_request_id
                    &&& final(self).used@ == old(self).used@.insert(rid)
                    &&& final(self).peers@.dom() == old(self).peers@.dom()
                    &&& forall|q: Seq<u8>|
                        #[trigger] old(self).peers@.dom().contains(q) && q != peer@
                            ==> final(self).peers@[q] == old(self).peers@[q]
                    &&& final(self).peers@[peer@].active@ == old(self).peers@[peer@].active@
                    &&& final(self).peers@[peer@].active_inbound@
                        == old(self).peers@[peer@].active_inbound@.insert(rid, fallback)
                    &&& final(self).pending_inbound_requests@ == old(
                        self,
                    ).pending_inbound_requests@.insert(
                        rid,
                        (InboundRequest { peer: *peer, substream }),
                    )
                },
            }),
            Self::same_dials(*old(self), *final(self)),
            Self::same_outbound(*old(self), *final(self)),
            Self::same_responses(*old(self), *final(self)),
            Self::same_cancels(*old(self), *final(self)),
            Self::same_terminated(*old(self), *final(self)),
            final(self).protocol == old(self).protocol,
            final(self).timeout_ms == old(self).timeout_ms,
    {
        let request_id = self.next_request_id;
        self.next_request_id = self.next_request_id + 1;
        let peer_ctx = self.peers.remove(peer);
        match peer_ctx {
            None => {
                proof {
                    assert(self.peers@ =~= old(self).peers@);
                    assert(self.live_ids() =~= old(self).live_ids());
                    assert(self.inbound_ids() =~= old(self).inbound_ids());
                }
                Err(EngineError::PeerDoesntExist)
            },
            Some(mut ctx) => {
                ctx.active_inbound.insert(request_id, fallback);
                self.peers.insert(*peer, ctx);
                self.pending_inbound_requests.insert(
                    request_id,
                    InboundRequest { peer: *peer, substream },
                );
                proof {
                    self.used@ = old(self).used@.insert(request_id);
                    let pre = *old(self);
                    assert(!pre.used@.contains(request_id));
                    assert(self.live_ids() =~= pre.live_ids());
                    assert forall|id: RequestId| self.inbound_ids().contains(id) implies self.used@.contains(
                        id,
                    ) by {
                        if id != request_id {
                            if exists|p: Seq<u8>|
                                #[trigger] self.peers@.dom().contains(p)
                                    && self.peers@[p].active_inbound@.dom().contains(id) {
                                let p = choose|p: Seq<u8>|
                                    #[trigger] self.peers@.dom().contains(p)
                                        && self.peers@[p].active_inbound@.dom().contains(id);
                                assert(pre.peers@[p].active_inbound@.dom().contains(id));
                                assert(pre.inbound_ids().contains(id));
                            } else {
                                assert(pre.inbound_ids().contains(id));
                            }
                        }
                    }
                    assert(!pre.pending_outbound_responses@.dom().contains(request_id));
                }
                Ok(request_id)
            },
        }
    }

    /// Send `request` to `peer`. The caller has already performed the one
    /// transport call the state demands — nothing for a connected-peer open,
    /// `dial` for a disconnected peer with [`DialOptions::Dial`], nothing
    /// for [`DialOptions::Reject`] — and passes its reply:
    ///
    /// - peer connected: `reply` is `Opened`; on `Opened(Some(sid))` the
    ///   request becomes active and waits in `pending_outbound` under `sid`;
    ///   on `Opened(None)` it fails with `Rejected`.
    /// - peer not connected, `Reject`: the request fails with
    ///   `NotConnected`.
    /// - peer not connected, `Dial`: on `Dialed(true)` the request parks in
    ///   `pending_dials` (replacing any earlier one for the same peer); on
    ///   `Dialed(false)` it fails with `Rejected`.
    pub fn on_send_request(
        &mut self,
        peer: PeerId,
        request_id: RequestId,
        request: Vec<u8>,
        dial_options: DialOptions,
        reply: TransportReply,
    ) -> (evs: Vec<RequestResponseEvent>)
        requires
            old(self).wf(),
            !old(self).used@.contains(request_id),
            request_id < old(self).next_request_id,
            old(self).peers@.dom().contains(peer@) ==> (reply matches TransportReply::Opened(_)),
            !old(self).peers@.dom().contains(peer@) && dial_options == DialOptions::Reject ==> reply
                == TransportReply::NoCall,
            !old(self).peers@.dom().contains(peer@) && dial_options == DialOptions::Dial ==> (
            reply matches TransportReply::Dialed(_)),
        ensures
            final(self).wf(),
            final(self).used@ == old(self).used@.insert(request_id),
            step_accounted(old(self).terminated@, evs@, final(self).terminated@),
            Self::same_responses(*old(self), *final(self)),
            Self::same_cancels(*old(self), *final(self)),
            Self::same_inbound(*old(self), *final(self)),
            final(self).protocol == old(self).protocol,
            final(self).timeout_ms == old(self).timeout_ms,
            final(self).next_request_id == old(self).next_request_id,
            (if old(self).peers@.dom().contains(peer@) {
                &&& final(self).peers@.dom() == old(self).peers@.dom()
                &&& forall|q: Seq<u8>|
                    #[trigger] old(self).peers@.dom().contains(q) && q != peer@
                        ==> final(self).peers@[q] == old(self).peers@[q]
                &&& final(self).peers@[peer@].active_inbound@
                    == old(self).peers@[peer@].active_inbound@
                &&& Self::same_dials(*old(self), *final(self))
                &&& (match reply {
                    TransportReply::Opened(Some(substream_id)) => {
                        &&& final(self).peers@[peer@].active@
                            == old(self).peers@[peer@].active@.push(request_id)
                        &&& final(self).pending_outbound@ == old(self).pending_outbound@.insert(
                            substream_id,
                            (RequestContext { peer, request_id, request }),
                        )
                        &&& evs@.len() == 0
                        &&& Self::same_terminated(*old(self), *final(self))
                    },
                    _ => {
                        &&& final(self).peers@[peer@].active@ == old(self).peers@[peer@].active@
                        &&& Self::same_outbound(*old(self), *final(self))
                        &&& evs@.len() == 1
                        &&& evs@[0] == (RequestResponseEvent::RequestFailed {
                            peer,
                            request_id,
                            error: RequestResponseError::Rejected,
                        })
                        &&& final(self).terminated@ == old(self).terminated@.insert(request_id)
                    },
                })
            } else {
                &&& Self::same_peers(*old(self), *final(self))
                &&& Self::same_outbound(*old(self), *final(self))
                &&& (match dial_options {
                    DialOptions::Reject => {
                        &&& Self::same_dials(*old(self), *final(self))
                        &&& evs@.len() == 1
                        &&& evs@[0] == (RequestResponseEvent::RequestFailed {
                            peer,
                            request_id,
                            error: RequestResponseError::NotConnected,
                        })
                        &&& final(self).terminated@ == old(self).terminated@.insert(request_id)
                    },
                    DialOptions::Dial => {
                        if reply == TransportReply::Dialed(true) {
                            &&& final(self).pending_dials@ == old(self).pending_dials@.insert(
                                peer@,
                                (RequestContext { peer, request_id, request }),
                            )
                            &&& evs@.len() == 0
                            &&& Self::same_terminated(*old(self), *final(self))
                        } else {
                            &&& Self::same_dials(*old(self), *final(self))
                            &&& evs@.len() == 1
                            &&& evs@[0] == (RequestResponseEvent::RequestFailed {
                                peer,
                                request_id,
                                error: RequestResponseError::Rejected,
                            })
                            &&& final(self).terminated@ == old(self).terminated@.insert(
                                request_id,
                            )
                        }
                    },
                })
            }),
    {
        let ghost pre = *old(self);
        proof {
            self.used@ = pre.used@.insert(request_id);
        }
        let connected = self.peers.contains_key(&peer);
        if !connected {
            match dial_options {
                DialOptions::Reject => {
                    proof {
                        self.terminated@ = pre.terminated@.insert(request_id);
                    }
                    let mut evs: Vec<RequestResponseEvent> = Vec::new();
                    evs.push(
                        RequestResponseEvent::RequestFailed {
                            peer,
                            request_id,
                            error: RequestResponseError::NotConnected,
                        },
                    );
                    proof {
                        lemma_step_accounted_single(pre.terminated@, evs@, request_id);
                        self.lemma_wf_fresh_terminated(pre, request_id);
                    }
                    evs
                },
                DialOptions::Dial => {
                    let dialed = match reply {
                        TransportReply::Dialed(ok) => ok,
                        _ => false,
                    };
                    if dialed {
                        self.pending_dials.insert(
                            peer,
                            RequestContext { peer, request_id, request },
                        );
                        proof {
                            lemma_step_accounted_no_terminal(
                                pre.terminated@,
                                Seq::<RequestResponseEvent>::empty(),
                            );
                            self.lemma_wf_fresh_dial(pre, peer@, request_id);
                        }
                        let evs: Vec<RequestResponseEvent> = Vec::new();
                        evs
                    } else {
                        proof {
                            self.terminated@ = pre.terminated@.insert(request_id);
                        }
                        let mut evs: Vec<RequestResponseEvent> = Vec::new();
                        evs.push(
                            RequestResponseEvent::RequestFailed {
                                peer,
                                request_id,
                                error: RequestResponseError::Rejected,
                            },
                        );
                        proof {
                            lemma_step_accounted_single(pre.terminated@, evs@, request_id);
                            self.lemma_wf_fresh_terminated(pre, request_id);
                        }
                        evs
                    }
                },
            }
        } else {
            let opened = match reply {
                TransportReply::Opened(sid) => sid,
                _ => None,
            };
            match opened {
                Some(substream_id) => {
                    let peer_ctx = self.peers.remove(&peer);
                    match peer_ctx {
                        Some(mut ctx) => {
                            proof {
                                if ctx.active@.contains(request_id) {
                                    assert(pre.active_ids().contains(request_id));
                                    assert(pre.used@.contains(request_id));
                                }
                            }
                            let _ = ctx.active.insert(request_id);
                            self.peers.insert(peer, ctx);
                            self.pending_outbound.insert(
                                substream_id,
                                RequestContext { peer, request_id, request },
                            );
                            proof {
                                lemma_step_accounted_no_terminal(
                                    pre.terminated@,
                                    Seq::<RequestResponseEvent>::empty(),
                                );
                                self.lemma_wf_fresh_active(pre, peer@, request_id, substream_id);
                            }
                            let evs: Vec<RequestResponseEvent> = Vec::new();
                            evs
                        },
                        None => {
                            proof {
                                assert(false);
                            }
                            Vec::new()
                        },
                    }
                },
                None => {
                    proof {
                        self.terminated@ = pre.terminated@.insert(request_id);
                    }
                    let mut evs: Vec<RequestResponseEvent> = Vec::new();
                    evs.push(
                        RequestResponseEvent::RequestFailed {
                            peer,
                            request_id,
                            error: RequestResponseError::Rejected,
                        },
                    );
                    proof {
                        lemma_step_accounted_single(pre.terminated@, evs@, request_id);
                        self.lemma_wf_fresh_terminated(pre, request_id);
                    }
                    evs
                },
            }
        }
    }

    /// Helper: terminating a fresh id (used nowhere in the state) keeps
    /// well-formedness.
    proof fn lemma_wf_fresh_terminated(self, pre: Self, request_id: RequestId)
        requires
            pre.wf(),
            !pre.used@.contains(request_id),
            request_id < pre.next_request_id,
            Self::same_peers(pre, self),
            Self::same_dials(pre, self),
            Self::same_outbound(pre, self),
            Self::same_responses(pre, self),
            Self::same_cancels(pre, self),
            Self::same_inbound(pre, self),
            self.peers == pre.peers,
            self.pending_dials == pre.pending_dials,
            self.pending_outbound == pre.pending_outbound,
            self.pending_outbound_responses == pre.pending_outbound_responses,
            self.pending_outbound_cancels == pre.pending_outbound_cancels,
            self.pending_inbound_requests == pre.pending_inbound_requests,
            self.protocol == pre.protocol,
            self.timeout_ms == pre.timeout_ms,
            self.next_request_id == pre.next_request_id,
            self.used@ == pre.used@.insert(request_id),
            self.terminated@ == pre.terminated@.insert(request_id),
        ensures
            self.wf(),
    {
        assert(self.live_ids() =~= pre.live_ids());
        assert(self.inbound_ids() =~= pre.inbound_ids());
        assert forall|id: RequestId| self.live_ids().contains(id) implies !self.terminated@.contains(
            id,
        ) by {
            if id == request_id {
                assert(pre.used@.contains(id));
            }
        }
        assert(self.live_ids().disjoint(self.terminated@));
    }

    /// Helper: parking a fresh id in `pending_dials` keeps well-formedness.
    proof fn lemma_wf_fresh_dial(self, pre: Self, p: Seq<u8>, request_id: RequestId)
        requires
            pre.wf(),
            !pre.used@.contains(request_id),
            request_id < pre.next_request_id,
            !pre.peers@.dom().contains(p),
            Self::same_peers(pre, self),
            Self::same_outbound(pre, self),
            Self::same_responses(pre, self),
            Self::same_cancels(pre, self),
            Self::same_inbound(pre, self),
            self.peers == pre.peers,
            self.pending_outbound == pre.pending_outbound,
            self.pending_outbound_responses == pre.pending_outbound_responses,
            self.pending_outbound_cancels == pre.pending_outbound_cancels,
            self.pending_inbound_requests == pre.pending_inbound_requests,
            self.pending_dials.wf(),
            self.pending_dials@ == pre.pending_dials@.insert(p, self.pending_dials@[p]),
            self.pending_dials@[p].peer@ == p,
            self.pending_dials@[p].request_id == request_id,
            self.protocol == pre.protocol,
            self.timeout_ms == pre.timeout_ms,
            self.next_request_id == pre.next_request_id,
            self.used@ == pre.used@.insert(request_id),
            self.terminated@ == pre.terminated@,
        ensures
            self.wf(),
    {
        assert(self.inbound_ids() =~= pre.inbound_ids());
        assert forall|id: RequestId| self.live_ids().contains(id) implies self.used@.contains(id)
            && !self.terminated@.contains(id) by {
            if self.dial_ids().contains(id) {
                let q = choose|q: Seq<u8>|
                    #[trigger] self.pending_dials@.dom().contains(q)
                        && self.pending_dials@[q].request_id == id;
                if q == p {
                    assert(id == request_id);
                    if pre.terminated@.contains(id) {
                        assert(pre.used@.contains(id));
                    }
                } else {
                    assert(pre.pending_dials@.dom().contains(q));
                    assert(pre.dial_ids().contains(id));
                    assert(pre.live_ids().contains(id));
                }
            } else {
                let q = choose|q: Seq<u8>|
                    #[trigger] self.peers@.dom().contains(q) && self.peers@[q].active@.contains(
                        id,
                    );
                assert(pre.active_ids().contains(id));
                assert(pre.live_ids().contains(id));
            }
        }
        assert(self.live_ids().disjoint(self.terminated@));
        assert forall|q1: Seq<u8>, q2: Seq<u8>|
            self.pending_dials@.dom().contains(q1) && self.pending_dials@.dom().contains(q2) && q1
                != q2 implies (#[trigger] self.pending_dials@[q1].request_id) != (
        #[trigger] self.pending_dials@[q2].request_id) by {
            if q1 == p {
                assert(pre.pending_dials@.dom().contains(q2));
                assert(pre.dial_ids().contains(pre.pending_dials@[q2].request_id));
                assert(pre.used@.contains(pre.pending_dials@[q2].request_id));
            } else if q2 == p {
                assert(pre.pending_dials@.dom().contains(q1));
                assert(pre.dial_ids().contains(pre.pending_dials@[q1].request_id));
                assert(pre.used@.contains(pre.pending_dials@[q1].request_id));
            }
        }
        assert forall|q1: Seq<u8>, q2: Seq<u8>, id: RequestId|
            self.pending_dials@.dom().contains(q1) && self.peers@.dom().contains(q2)
                && #[trigger] self.peers@[q2].active@.contains(id) implies id != (
        #[trigger] self.pending_dials@[q1].request_id) by {
            assert(pre.active_ids().contains(id));
            assert(pre.used@.contains(id));
            if q1 != p {
                assert(pre.pending_dials@.dom().contains(q1));
            }
        }
    }

    /// Helper: activating a fresh id on a connected peer and parking its
    /// context in `pending_outbound` keeps well-formedness.
    proof fn lemma_wf_fresh_active(
        self,
        pre: Self,
        p: Seq<u8>,
        request_id: RequestId,
        substream_id: SubstreamId,
    )
        requires
            pre.wf(),
            !pre.used@.contains(request_id),
            request_id < pre.next_request_id,
            pre.peers@.dom().contains(p),
            self.peers.wf(),
            self.peers@.dom() == pre.peers@.dom(),
            forall|q: Seq<u8>|
                #[trigger] pre.peers@.dom().contains(q) && q != p ==> self.peers@[q]
                    == pre.peers@[q],
            self.peers@[p].wf(),
            self.peers@[p].active@ == pre.peers@[p].active@.push(request_id),
            self.peers@[p].active_inbound@ == pre.peers@[p].active_inbound@,
            Self::same_dials(pre, self),
            self.pending_dials == pre.pending_dials,
            self.pending_outbound.wf(),
            self.pending_outbound@ == pre.pending_outbound@.insert(
                substream_id,
                self.pending_outbound@[substream_id],
            ),
            self.pending_outbound@[substream_id].request_id == request_id,
            Self::same_responses(pre, self),
            Self::same_cancels(pre, self),
            Self::same_inbound(pre, self),
            self.pending_outbound_responses == pre.pending_outbound_responses,
            self.pending_outbound_cancels == pre.pending_outbound_cancels,
            self.pending_inbound_requests == pre.pending_inbound_requests,
            self.protocol == pre.protocol,
            self.timeout_ms == pre.timeout_ms,
            self.next_request_id == pre.next_request_id,
            self.used@ == pre.used@.insert(request_id),
            self.terminated@ == pre.terminated@,
        ensures
            self.wf(),
    {
        assert forall|id: RequestId| self.live_ids().contains(id) implies self.used@.contains(id)
            && !self.terminated@.contains(id) by {
            if self.dial_ids().contains(id) {
                assert(pre.dial_ids().contains(id));
                assert(pre.live_ids().contains(id));
            } else {
                let q = choose|q: Seq<u8>|
                    #[trigger] self.peers@.dom().contains(q) && self.peers@[q].active@.contains(
                        id,
                    );
                if q == p && id == request_id {
                    if pre.terminated@.contains(id) {
                        assert(pre.used@.contains(id));
                    }
                } else {
                    if q == p {
                        assert(pre.peers@[p].active@.contains(id));
                    }
                    assert(pre.peers@[q].active@.contains(id));
                    assert(pre.active_ids().contains(id));
                    assert(pre.live_ids().contains(id));
                }
            }
        }
        assert(self.live_ids().disjoint(self.terminated@));
        assert forall|id: RequestId| self.inbound_ids().contains(id) implies self.used@.contains(
            id,
        ) by {
            if !self.pending_inbound_requests@.dom().contains(id)
                && !self.pending_outbound_responses@.dom().contains(id) {
                let q = choose|q: Seq<u8>|
                    #[trigger] self.peers@.dom().contains(q)
                        && self.peers@[q].active_inbound@.dom().contains(id);
                assert(pre.peers@[q].active_inbound@.dom().contains(id));
                assert(pre.inbound_ids().contains(id));
            } else {
                assert(pre.inbound_ids().contains(id));
            }
        }
        assert forall|q1: Seq<u8>, q2: Seq<u8>, id: RequestId|
            self.pending_dials@.dom().contains(q1) && self.peers@.dom().contains(q2)
                && #[trigger] self.peers@[q2].active@.contains(id) implies id != (
        #[trigger] self.pending_dials@[q1].request_id) by {
            assert(pre.dial_ids().contains(pre.pending_dials@[q1].request_id));
            assert(pre.used@.contains(pre.pending_dials@[q1].request_id));
            if q2 == p && id == request_id {
            } else {
                if q2 == p {
                    assert(pre.peers@[p].active@.contains(id));
                }
            }
        }
        assert forall|q1: Seq<u8>, q2: Seq<u8>, id: RequestId|
            self.peers@.dom().contains(q1) && self.peers@.dom().contains(q2) && q1 != q2 && (
            #[trigger] self.peers@[q1].active@.contains(id)) implies !(
        #[trigger] self.peers@[q2].active@.contains(id)) by {
            if q1 == p && id == request_id {
                if self.peers@[q2].active@.contains(id) {
                    assert(pre.peers@[q2].active@.contains(id));
                    assert(pre.active_ids().contains(id));
                    assert(pre.used@.contains(id));
                }
            } else {
                if q1 == p {
                    assert(pre.peers@[p].active@.contains(id));
                } else {
                    assert(pre.peers@[q1].active@.contains(id));
                }
                if self.peers@[q2].active@.contains(id) {
                    if q2 == p {
                        if id == request_id {
                            assert(pre.active_ids().contains(id));
                            assert(pre.used@.contains(id));
                        } else {
                            assert(pre.peers@[p].active@.contains(id));
                        }
                    } else {
                        assert(pre.peers@[q2].active@.contains(id));
                    }
                }
            }
        }
        assert forall|sid: SubstreamId|
            #[trigger] self.pending_outbound@.dom().contains(sid) implies self.used@.contains(
            self.pending_outbound@[sid].request_id,
        ) by {
            if sid != substream_id {
                assert(pre.pending_outbound@.dom().contains(sid));
                assert(pre.used@.contains(pre.pending_outbound@[sid].request_id));
            }
        }
    }

    /// The transport reports a connection to `peer`. A fresh peer context is
    /// registered. If a request was waiting on this dial, the caller has
    /// already asked the transport for a substream (exactly when
    /// [`Self::has_pending_dial`] says so) and passes the outcome in
    /// `open_result`: on success the request moves to `pending_outbound` and
    /// becomes active; on failure it fails with `Rejected`.
    pub fn on_connection_established(
        &mut self,
        peer: &PeerId,
        open_result: Option<Option<SubstreamId>>,
    ) -> (r: Result<Vec<RequestResponseEvent>, EngineError>)
        requires
            old(self).wf(),
            (open_result is Some) <==> (!old(self).peers@.dom().contains(peer@) && old(
                self,
            ).pending_dials@.dom().contains(peer@)),
        ensures
            final(self).wf(),
            (match r {
                Err(e) => {
                    &&& e == EngineError::PeerAlreadyExists
                    &&& old(self).peers@.dom().contains(peer@)
                    &&& Self::same_state(*old(self), *final(self))
                },
                Ok(evs) => {
                    let ctx = old(self).pending_dials@[peer@];
                    &&& !old(self).peers@.dom().contains(peer@)
                    &&& final(self).pending_dials@ == old(self).pending_dials@.remove(peer@)
                    &&& final(self).peers@.dom() == old(self).peers@.dom().insert(peer@)
                    &&& forall|q: Seq<u8>|
                        #[trigger] old(self).peers@.dom().contains(q) && q != peer@
                            ==> final(self).peers@[q] == old(self).peers@[q]
                    &&& final(self).peers@[peer@].active_inbound@ == Map::<
                        u64,
                        Option<ProtocolName>,
                    >::empty()
                    &&& step_accounted(old(self).terminated@, evs@, final(self).terminated@)
                    &&& (match open_result {
                        None => {
                            &&& final(self).peers@[peer@].active@ == Seq::<u64>::empty()
                            &&& evs@.len() == 0
                            &&& Self::same_outbound(*old(self), *final(self))
                            &&& Self::same_terminated(*old(self), *final(self))
                        },
                        Some(Some(substream_id)) => {
                            &&& final(self).peers@[peer@].active@ == seq![ctx.request_id]
                            &&& final(self).pending_outbound@ == old(
                                self,
                            ).pending_outbound@.insert(
                                substream_id,
                                (RequestContext {
                                    peer: *peer,
                                    request_id: ctx.request_id,
                                    request: ctx.request,
                                }),
                            )
                            &&& evs@.len() == 0
                            &&& Self::same_terminated(*old(self), *final(self))
                        },
                        Some(None) => {
                            &&& final(self).peers@[peer@].active@ == Seq::<u64>::empty()
                            &&& evs@.len() == 1
                            &&& evs@[0] == (RequestResponseEvent::RequestFailed {
                                peer: *peer,
                                request_id: ctx.request_id,
                                error: RequestResponseError::Rejected,
                            })
                            &&& final(self).terminated@ == old(self).terminated@.insert(
                                ctx.request_id,
                            )
                            &&& Self::same_outbound(*old(self), *final(self))
                        },
                    })
                },
            }),
            Self::same_responses(*old(self), *final(self)),
            Self::same_cancels(*old(self), *final(self)),
            Self::same_inbound(*old(self), *final(self)),
            Self::same_config(*old(self), *final(self)),
    {
        if self.peers.contains_key(peer) {
            return Err(EngineError::PeerAlreadyExists);
        }
        let taken = self.pending_dials.remove(peer);
        let ghost pre = *old(self);
        let ghost p = peer@;
        match taken {
            None => {
                self.peers.insert(*peer, PeerContext::new());
                proof {
                    assert(self.pending_dials@ =~= pre.pending_dials@);
                    assert(self.peers@.dom() =~= pre.peers@.dom().insert(p));
                    self.lemma_wf_after_peer_insert(pre, p, Seq::empty());
                    lemma_step_accounted_no_terminal(
                        pre.terminated@,
                        Seq::<RequestResponseEvent>::empty(),
                    );
                }
                let evs: Vec<RequestResponseEvent> = Vec::new();
                Ok(evs)
            },
            Some(context) => {
                let request_id = context.request_id;
                match open_result {
                    Some(Some(substream_id)) => {
                        let peer_context = PeerContext {
                            active: IdSet::singleton(request_id),
                            active_inbound: IdMap::new(),
                        };
                        self.peers.insert(*peer, peer_context);
                        self.pending_outbound.insert(
                            substream_id,
                            RequestContext {
                                peer: *peer,
                                request_id,
                                request: context.request,
                            },
                        );
                        proof {
                            assert(self.peers@.dom() =~= pre.peers@.dom().insert(p));
                            assert(pre.dial_ids().contains(request_id));
                            assert(pre.used@.contains(request_id));
                            self.lemma_wf_after_peer_insert(pre, p, seq![request_id]);
                            lemma_step_accounted_no_terminal(
                                pre.terminated@,
                                Seq::<RequestResponseEvent>::empty(),
                            );
                        }
                        let evs: Vec<RequestResponseEvent> = Vec::new();
                        Ok(evs)
                    },
                    _ => {
                        // the substream could not be opened: the peer is
                        // still registered, the request fails
                        self.peers.insert(*peer, PeerContext::new());
                        proof {
                            self.terminated@ = pre.terminated@.insert(request_id);
                        }
                        let mut evs: Vec<RequestResponseEvent> = Vec::new();
                        evs.push(
                            RequestResponseEvent::RequestFailed {
                                peer: *peer,
                                request_id,
                                error: RequestResponseError::Rejected,
                            },
                        );
                        proof {
                            assert(self.peers@.dom() =~= pre.peers@.dom().insert(p));
                            assert(pre.dial_ids().contains(request_id));
                            assert(!pre.terminated@.contains(request_id));
                            lemma_step_accounted_single(pre.terminated@, evs@, request_id);
                            self.lemma_wf_after_peer_insert_terminating(pre, p, request_id);
                        }
                        Ok(evs)
                    },
                }
            },
        }
    }

    /// Helper: after removing any pending dial for `p` and inserting a peer
    /// context for `p` whose active set is `active` (empty, or exactly the
    /// id that was waiting on the dial), well-formedness holds.
    proof fn lemma_wf_after_peer_insert(self, pre: Self, p: Seq<u8>, active: Seq<u64>)
        requires
            pre.wf(),
            !pre.peers@.dom().contains(p),
            self.peers@.dom() == pre.peers@.dom().insert(p),
            forall|q: Seq<u8>|
                #[trigger] pre.peers@.dom().contains(q) && q != p ==> self.peers@[q]
                    == pre.peers@[q],
            self.peers@[p].wf(),
            self.peers@[p].active@ == active,
            self.peers@[p].active_inbound@ == Map::<u64, Option<ProtocolName>>::empty(),
            active.len() <= 1,
            active.len() == 1 ==> pre.pending_dials@.dom().contains(p)
                && active[0] == pre.pending_dials@[p].request_id,
            self.pending_dials@ == pre.pending_dials@.remove(p),
            forall|sid: SubstreamId|
                #[trigger] self.pending_outbound@.dom().contains(sid)
                    ==> (pre.pending_outbound@.dom().contains(sid) && self.pending_outbound@[sid]
                    == pre.pending_outbound@[sid]) || (active.len() == 1
                    && self.pending_outbound@[sid].request_id == active[0]),
            self.peers.wf(),
            self.pending_dials.wf(),
            self.pending_outbound.wf(),
            self.pending_outbound_responses.wf(),
            self.pending_outbound_cancels.wf(),
            self.pending_inbound_requests.wf(),
            self.pending_outbound_responses@ == pre.pending_outbound_responses@,
            self.pending_outbound_cancels@ == pre.pending_outbound_cancels@,
            self.pending_inbound_requests@ == pre.pending_inbound_requests@,
            self.used@ == pre.used@,
            self.next_request_id == pre.next_request_id,
            self.terminated@ == pre.terminated@,
        ensures
            self.wf(),
    {
        assert forall|id: RequestId| self.live_ids().contains(id) implies pre.live_ids().contains(
            id,
        ) by {
            if self.dial_ids().contains(id) {
                let q = choose|q: Seq<u8>|
                    #[trigger] self.pending_dials@.dom().contains(q)
                        && self.pending_dials@[q].request_id == id;
                assert(pre.dial_ids().contains(id));
            } else {
                let q = choose|q: Seq<u8>|
                    #[trigger] self.peers@.dom().contains(q) && self.peers@[q].active@.contains(
                        id,
                    );
                if q == p {
                    assert(active.contains(id));
                    assert(id == pre.pending_dials@[p].request_id);
                    assert(pre.dial_ids().contains(id));
                } else {
                    assert(pre.peers@[q].active@.contains(id));
                    assert(pre.active_ids().contains(id));
                }
            }
        }
        assert(self.live_ids().disjoint(self.terminated@));
        assert forall|id: RequestId| self.inbound_ids().contains(id) implies pre.inbound_ids().contains(
            id,
        ) by {
            if !self.pending_inbound_requests@.dom().contains(id)
                && !self.pending_outbound_responses@.dom().contains(id) {
                let q = choose|q: Seq<u8>|
                    #[trigger] self.peers@.dom().contains(q)
                        && self.peers@[q].active_inbound@.dom().contains(id);
                assert(q != p);
                assert(pre.peers@[q].active_inbound@.dom().contains(id));
            }
        }
        assert forall|id: RequestId| pre.inbound_ids().contains(id) implies self.inbound_ids().contains(
            id,
        ) by {
            if !pre.pending_inbound_requests@.dom().contains(id)
                && !pre.pending_outbound_responses@.dom().contains(id) {
                let q = choose|q: Seq<u8>|
                    #[trigger] pre.peers@.dom().contains(q)
                        && pre.peers@[q].active_inbound@.dom().contains(id);
                assert(q != p);
                assert(self.peers@.dom().contains(q));
                assert(self.peers@[q].active_inbound@.dom().contains(id));
            }
        }
        assert(self.inbound_ids() =~= pre.inbound_ids());
        assert forall|q1: Seq<u8>, q2: Seq<u8>|
            self.pending_dials@.dom().contains(q1) && self.pending_dials@.dom().contains(q2) && q1
                != q2 implies (#[trigger] self.pending_dials@[q1].request_id) != (
        #[trigger] self.pending_dials@[q2].request_id) by {}
        assert forall|q1: Seq<u8>, q2: Seq<u8>, id: RequestId|
            self.pending_dials@.dom().contains(q1) && self.peers@.dom().contains(q2)
                && #[trigger] self.peers@[q2].active@.contains(id) implies id != (
        #[trigger] self.pending_dials@[q1].request_id) by {
            if q2 == p {
                assert(active.contains(id));
                assert(id == pre.pending_dials@[p].request_id);
                assert(pre.pending_dials@.dom().contains(p));
                assert(q1 != p);
            } else {
                assert(pre.peers@[q2].active@.contains(id));
            }
        }
        assert forall|q1: Seq<u8>, q2: Seq<u8>, id: RequestId|
            self.peers@.dom().contains(q1) && self.peers@.dom().contains(q2) && q1 != q2 && (
            #[trigger] self.peers@[q1].active@.contains(id)) implies !(
        #[trigger] self.peers@[q2].active@.contains(id)) by {
            if q1 == p {
                assert(active.contains(id));
                assert(id == pre.pending_dials@[p].request_id);
                assert(pre.peers@[q2].active@.contains(id) ==> pre.active_ids().contains(id));
            } else if q2 == p {
                assert(pre.peers@[q1].active@.contains(id));
                if self.peers@[p].active@.contains(id) {
                    assert(active.contains(id));
                    assert(id == pre.pending_dials@[p].request_id);
                }
            } else {
                assert(pre.peers@[q1].active@.contains(id));
                assert(pre.peers@[q2].active@.contains(id) ==> false);
            }
        }
        assert forall|sid: SubstreamId|
            #[trigger] self.pending_outbound@.dom().contains(sid) implies self.used@.contains(
            self.pending_outbound@[sid].request_id,
        ) by {
            if !pre.pending_outbound@.dom().contains(sid) {
                assert(active.len() == 1);
                assert(pre.dial_ids().contains(active[0]));
                assert(pre.live_ids().contains(active[0]));
                assert(pre.used@.contains(active[0]));
                assert(self.pending_outbound@[sid].request_id == active[0]);
            }
        }
    }

    /// Helper: after removing the pending dial for `p`, inserting an empty
    /// peer context for `p`, and terminating the dial's request id,
    /// well-formedness holds.
    proof fn lemma_wf_after_peer_insert_terminating(self, pre: Self, p: Seq<u8>, request_id: RequestId)
        requires
            pre.wf(),
            !pre.peers@.dom().contains(p),
            pre.pending_dials@.dom().contains(p),
            request_id == pre.pending_dials@[p].request_id,
            self.peers@.dom() == pre.peers@.dom().insert(p),
            forall|q: Seq<u8>|
                #[trigger] pre.peers@.dom().contains(q) && q != p ==> self.peers@[q]
                    == pre.peers@[q],
            self.peers@[p].wf(),
            self.peers@[p].active@ == Seq::<u64>::empty(),
            self.peers@[p].active_inbound@ == Map::<u64, Option<ProtocolName>>::empty(),
            self.pending_dials@ == pre.pending_dials@.remove(p),
            self.peers.wf(),
            self.pending_dials.wf(),
            self.pending_outbound.wf(),
            self.pending_outbound_responses.wf(),
            self.pending_outbound_cancels.wf(),
            self.pending_inbound_requests.wf(),
            self.pending_outbound@ == pre.pending_outbound@,
            self.pending_outbound_responses@ == pre.pending_outbound_responses@,
            self.pending_outbound_cancels@ == pre.pending_outbound_cancels@,
            self.pending_inbound_requests@ == pre.pending_inbound_requests@,
            self.used@ == pre.used@,
            self.next_request_id == pre.next_request_id,
            self.terminated@ == pre.terminated@.insert(request_id),
        ensures
            self.wf(),
    {
        assert(pre.dial_ids().contains(request_id));
        assert forall|id: RequestId| self.live_ids().contains(id) implies pre.live_ids().contains(
            id,
        ) && id != request_id by {
            if self.dial_ids().contains(id) {
                let q = choose|q: Seq<u8>|
                    #[trigger] self.pending_dials@.dom().contains(q)
                        && self.pending_dials@[q].request_id == id;
                assert(pre.dial_ids().contains(id));
                assert(q != p);
            } else {
                let q = choose|q: Seq<u8>|
                    #[trigger] self.peers@.dom().contains(q) && self.peers@[q].active@.contains(
                        id,
                    );
                assert(q != p);
                assert(pre.peers@[q].active@.contains(id));
                assert(pre.active_ids().contains(id));
            }
        }
        assert(self.live_ids().disjoint(self.terminated@));
        assert forall|id: RequestId| self.inbound_ids().contains(id) implies pre.inbound_ids().contains(
            id,
        ) by {
            if !self.pending_inbound_requests@.dom().contains(id)
                && !self.pending_outbound_responses@.dom().contains(id) {
                let q = choose|q: Seq<u8>|
                    #[trigger] self.peers@.dom().contains(q)
                        && self.peers@[q].active_inbound@.dom().contains(id);
                assert(q != p);
                assert(pre.peers@[q].active_inbound@.dom().contains(id));
            }
        }
        assert forall|id: RequestId| pre.inbound_ids().contains(id) implies self.inbound_ids().contains(
            id,
        ) by {
            if !pre.pending_inbound_requests@.dom().contains(id)
                && !pre.pending_outbound_responses@.dom().contains(id) {
                let q = choose|q: Seq<u8>|
                    #[trigger] pre.peers@.dom().contains(q)
                        && pre.peers@[q].active_inbound@.dom().contains(id);
                assert(q != p);
                assert(self.peers@.dom().contains(q));
                assert(self.peers@[q].active_inbound@.dom().contains(id));
            }
        }
        assert(self.inbound_ids() =~= pre.inbound_ids());
        assert forall|q1: Seq<u8>, q2: Seq<u8>, id: RequestId|
            self.pending_dials@.dom().contains(q1) && self.peers@.dom().contains(q2)
                && #[trigger] self.peers@[q2].active@.contains(id) implies id != (
        #[trigger] self.pending_dials@[q1].request_id) by {
            assert(q2 != p);
            assert(pre.peers@[q2].active@.contains(id));
        }
        assert forall|q1: Seq<u8>, q2: Seq<u8>, id: RequestId|
            self.peers@.dom().contains(q1) && self.peers@.dom().contains(q2) && q1 != q2 && (
            #[trigger] self.peers@[q1].active@.contains(id)) implies !(
        #[trigger] self.peers@[q2].active@.contains(id)) by {
            assert(q1 != p);
            assert(pre.peers@[q1].active@.contains(id));
            if q2 != p {
                assert(pre.peers@[q2].active@.contains(id) ==> false);
            }
        }
    }

    /// The transport closed the connection to `peer`. The peer's bookkeeping
    /// is dropped and every outbound request still active towards it fails
    /// with `Rejected`, one event per request, in the order the requests
    /// were made.
    #[verifier::spinoff_prover]
    #[verifier::rlimit(50)]
    pub fn on_connection_closed(&mut self, peer: &PeerId) -> (r: Result<
        Vec<RequestResponseEvent>,
        EngineError,
    >)
        requires
            old(self).wf(),
        ensures
            final(self).wf(),
            (match r {
                Err(e) => {
                    &&& e == EngineError::PeerDoesntExist
                    &&& !old(self).peers@.dom().contains(peer@)
                    &&& Self::same_state(*old(self), *final(self))
                },
                Ok(evs) => {
                    let active = old(self).peers@[peer@].active@;
                    &&& old(self).peers@.dom().contains(peer@)
                    &&& final(self).peers@ == old(self).peers@.remove(peer@)
                    &&& evs@.len() == active.len()
                    &&& forall|i: int|
                        0 <= i < active.len() ==> evs@[i] == (RequestResponseEvent::RequestFailed {
                            peer: *peer,
                            request_id: active[i],
                            error: RequestResponseError::Rejected,
                        })
                    &&& final(self).terminated@ == old(self).terminated@.union(active.to_set())
                    &&& step_accounted(old(self).terminated@, evs@, final(self).terminated@)
                },
            }),
            Self::same_dials(*old(self), *final(self)),
            Self::same_outbound(*old(self), *final(self)),
            Self::same_responses(*old(self), *final(self)),
            Self::same_cancels(*old(self), *final(self)),
            Self::same_inbound(*old(self), *final(self)),
            Self::same_config(*old(self), *final(self)),
    {
        let peer_ctx = self.peers.remove(peer);
        match peer_ctx {
            None => {
                proof {
                    assert(*self == *old(self));
                }
                Err(EngineError::PeerDoesntExist)
            },
            Some(ctx) => {
                let ghost active = ctx.active@;
                proof {
                    self.terminated@ = old(self).terminated@.union(active.to_set());
                }
                let ids = ctx.active.into_vec();
                let mut evs: Vec<RequestResponseEvent> = Vec::new();
                let n = ids.len();
                let mut i: usize = 0;
                while i < n
                    invariant
                        i <= n,
                        n == ids@.len(),
                        ids@ == active,
                        evs@.len() == i,
                        forall|j: int|
                            0 <= j < i ==> evs@[j] == (RequestResponseEvent::RequestFailed {
                                peer: *peer,
                                request_id: active[j],
                                error: RequestResponseError::Rejected,
                            }),
                    decreases n - i,
                {
                    evs.push(
                        RequestResponseEvent::RequestFailed {
                            peer: *peer,
                            request_id: ids[i],
                            error: RequestResponseError::Rejected,
                        },
                    );
                    i += 1;
                }
                proof {
                    let pre = *old(self);
                    let p = peer@;
                    assert forall|id: RequestId| active.contains(id) implies pre.active_ids().contains(
                        id,
                    ) by {
                        assert(pre.peers@.dom().contains(p));
                        assert(pre.peers@[p].active@.contains(id));
                    }
                    // terminal accounting: the terminal ids of the batch are
                    // exactly the removed active set
                    assert forall|id: RequestId| terminal_ids(evs@).contains(id) implies active.contains(
                        id,
                    ) by {
                        let k = choose|k: int|
                            0 <= k < evs@.len() && #[trigger] evs@[k].is_terminal()
                                && evs@[k].spec_request_id() == id;
                        assert(evs@[k].spec_request_id() == active[k]);
                    }
                    assert forall|id: RequestId| active.contains(id) implies terminal_ids(
                        evs@,
                    ).contains(id) by {
                        let k = choose|k: int| 0 <= k < active.len() && active[k] == id;
                        assert(evs@[k].is_terminal() && evs@[k].spec_request_id() == id);
                    }
                    assert(terminal_ids(evs@) =~= active.to_set());
                    assert(self.terminated@ =~= pre.terminated@.union(terminal_ids(evs@)));
                    assert forall|k: int|
                        0 <= k < evs@.len() && #[trigger] evs@[k].is_terminal() implies !pre.terminated@.contains(
                        evs@[k].spec_request_id(),
                    ) by {
                        assert(active.contains(active[k]));
                        assert(pre.active_ids().contains(active[k]));
                    }
                    assert forall|a: int, b: int|
                        0 <= a < b < evs@.len() && evs@[a].is_terminal()
                            && evs@[b].is_terminal() implies (#[trigger] evs@[a].spec_request_id())
                        != (#[trigger] evs@[b].spec_request_id()) by {
                        assert(active.no_duplicates());
                    }
                    // well-formedness of the shrunken state
                    assert forall|id: RequestId| self.live_ids().contains(id) implies pre.live_ids().contains(
                        id,
                    ) && !active.contains(id) by {
                        if self.dial_ids().contains(id) {
                            let q = choose|q: Seq<u8>|
                                #[trigger] self.pending_dials@.dom().contains(q)
                                    && self.pending_dials@[q].request_id == id;
                            assert(pre.dial_ids().contains(id));
                            if active.contains(id) {
                                assert(pre.peers@[p].active@.contains(id));
                            }
                        } else {
                            let q = choose|q: Seq<u8>|
                                #[trigger] self.peers@.dom().contains(q)
                                    && self.peers@[q].active@.contains(id);
                            assert(q != p);
                            assert(pre.peers@.dom().contains(q));
                            assert(pre.active_ids().contains(id));
                            if active.contains(id) {
                                assert(pre.peers@[p].active@.contains(id));
                                assert(pre.peers@[q].active@.contains(id));
                            }
                        }
                    }
                    assert(self.live_ids().disjoint(self.terminated@));
                    assert forall|id: RequestId| self.inbound_ids().contains(id) implies pre.inbound_ids().contains(
                        id,
                    ) by {
                        if !self.pending_inbound_requests@.dom().contains(id)
                            && !self.pending_outbound_responses@.dom().contains(id) {
                            let q = choose|q: Seq<u8>|
                                #[trigger] self.peers@.dom().contains(q)
                                    && self.peers@[q].active_inbound@.dom().contains(id);
                            assert(pre.peers@.dom().contains(q));
                            assert(pre.peers@[q].active_inbound@.dom().contains(id));
                        }
                    }
                }
                Ok(evs)
            },
        }
    }

    /// The first frame of the inbound request `request_id` arrived (or its
    /// read failed). On a successful read the substream moves to the
    /// response table and `RequestReceived` is emitted; on a failed read the
    /// substream is handed back to be dropped, silently.
    pub fn on_inbound_request(
        &mut self,
        peer: &PeerId,
        request_id: RequestId,
        request: Result<Vec<u8>, ()>,
    ) -> (r: Result<(Vec<RequestResponseEvent>, Option<SubstreamHandle>), EngineError>)
        requires
            old(self).wf(),
        ensures
            final(self).wf(),
            (match r {
                Err(e) => {
                    &&& (e == EngineError::PeerDoesntExist || e == EngineError::InvalidState)
                    &&& (e == EngineError::PeerDoesntExist <==> !old(self).peers@.dom().contains(
                        peer@,
                    ))
                    &&& (e == EngineError::PeerDoesntExist ==> Self::same_state(
                        *old(self),
                        *final(self),
                    ))
                    &&& (e == EngineError::InvalidState <==> old(self).peers@.dom().contains(peer@)
                        && (!old(self).peers@[peer@].active_inbound@.dom().contains(request_id) || !(
                        old(self).pending_inbound_requests@.dom().contains(request_id) && old(
                            self,
                        ).pending_inbound_requests@[request_id].peer@ == peer@)))
                    &&& (e == EngineError::InvalidState ==> {
                        &&& Self::same_inbound(*old(self), *final(self))
                        &&& Self::same_responses(*old(self), *final(self))
                        &&& Self::same_terminated(*old(self), *final(self))
                        &&& final(self).peers@.dom() == old(self).peers@.dom()
                        &&& (old(self).peers@[peer@].active_inbound@.dom().contains(request_id)
                            ==> final(self).peers@[peer@].active_inbound@ == old(
                            self,
                        ).peers@[peer@].active_inbound@.remove(request_id))
                        &&& (!old(self).peers@[peer@].active_inbound@.dom().contains(request_id)
                            ==> Self::same_peers(*old(self), *final(self)))
                    })
                },
                Ok((evs, dropped)) => {
                    let fallback = old(self).peers@[peer@].active_inbound@[request_id];
                    let entry = old(self).pending_inbound_requests@[request_id];
                    &&& old(self).peers@.dom().contains(peer@)
                    &&& old(self).peers@[peer@].active_inbound@.dom().contains(request_id)
                    &&& old(self).pending_inbound_requests@.dom().contains(request_id)
                    &&& entry.peer@ == peer@
                    &&& final(self).peers@.dom() == old(self).peers@.dom()
                    &&& forall|q: Seq<u8>|
                        #[trigger] old(self).peers@.dom().contains(q) && q != peer@
                            ==> final(self).peers@[q] == old(self).peers@[q]
                    &&& final(self).peers@[peer@].active@ == old(self).peers@[peer@].active@
                    &&& final(self).peers@[peer@].active_inbound@
                        == old(self).peers@[peer@].active_inbound@.remove(request_id)
                    &&& final(self).pending_inbound_requests@ == old(
                        self,
                    ).pending_inbound_requests@.remove(request_id)
                    &&& Self::same_terminated(*old(self), *final(self))
                    &&& (match request {
                        Ok(payload) => {
                            &&& final(self).pending_outbound_responses@ == old(
                                self,
                            ).pending_outbound_responses@.insert(request_id, entry.substream)
                            &&& evs@.len() == 1
                            &&& evs@[0] == (RequestResponseEvent::RequestReceived {
                                peer: *peer,
                                fallback,
                                request_id,
                                request: payload,
                            })
                            &&& dropped is None
                        },
                        Err(_) => {
                            &&& Self::same_responses(*old(self), *final(self))
                            &&& evs@.len() == 0
                            &&& dropped == Some(entry.substream)
                        },
                    })
                },
            }),
            step_accounted(old(self).terminated@, Seq::<RequestResponseEvent>::empty(), final(self).terminated@),
            Self::same_dials(*old(self), *final(self)),
            Self::same_outbound(*old(self), *final(self)),
            Self::same_cancels(*old(self), *final(self)),
            Self::same_config(*old(self), *final(self)),
    {
        proof {
            lemma_step_accounted_no_terminal(
                old(self).terminated@,
                Seq::<RequestResponseEvent>::empty(),
            );
        }
        let peer_ctx = self.peers.remove(peer);
        match peer_ctx {
            None => {
                proof {
                    assert(self.peers@ =~= old(self).peers@);
                }
                Err(EngineError::PeerDoesntExist)
            },
            Some(mut ctx) => {
                let fallback_taken = ctx.active_inbound.remove(request_id);
                self.peers.insert(*peer, ctx);
                match fallback_taken {
                    None => {
                        proof {
                            assert(self.peers@ =~= old(self).peers@);
                            assert(self.live_ids() =~= old(self).live_ids());
                            assert(self.inbound_ids() =~= old(self).inbound_ids());
                        }
                        Err(EngineError::InvalidState)
                    },
                    Some(fallback) => {
                        let entry_matches = match self.pending_inbound_requests.get(request_id) {
                            Some(entry) => entry.peer.same(peer),
                            None => false,
                        };
                        if !entry_matches {
                            proof {
                                self.lemma_wf_after_inbound_removal(*old(self), peer@, request_id);
                            }
                            return Err(EngineError::InvalidState);
                        }
                        let entry = match self.pending_inbound_requests.remove(request_id) {
                            Some(entry) => entry,
                            None => {
                                proof {
                                    assert(false);
                                }
                                return Err(EngineError::InvalidState);
                            },
                        };
                        match request {
                            Ok(payload) => {
                                self.pending_outbound_responses.insert(request_id, entry.substream);
                                let mut evs: Vec<RequestResponseEvent> = Vec::new();
                                evs.push(
                                    RequestResponseEvent::RequestReceived {
                                        peer: *peer,
                                        fallback,
                                        request_id,
                                        request: payload,
                                    },
                                );
                                proof {
                                    self.lemma_wf_after_inbound_removal(
                                        *old(self),
                                        peer@,
                                        request_id,
                                    );
                                }
                                Ok((evs, None))
                            },
                            Err(_) => {
                                let evs: Vec<RequestResponseEvent> = Vec::new();
                                proof {
                                    self.lemma_wf_after_inbound_removal(
                                        *old(self),
                                        peer@,
                                        request_id,
                                    );
                                }
                                Ok((evs, Some(entry.substream)))
                            },
                        }
                    },
                }
            },
        }
    }

    /// Helper for handlers that took `request_id` off the inbound-request
    /// path of peer `p` (out of its `active_inbound` table, and possibly out
    /// of the inbound-substream and into the response table): re-establishes
    /// well-formedness.
    proof fn lemma_wf_after_inbound_removal(self, pre: Self, p: Seq<u8>, request_id: RequestId)
        requires
            pre.wf(),
            pre.peers@.dom().contains(p),
            self.peers@.dom() == pre.peers@.dom(),
            forall|q: Seq<u8>|
                #[trigger] pre.peers@.dom().contains(q) && q != p ==> self.peers@[q]
                    == pre.peers@[q],
            self.peers@[p].wf(),
            self.peers@[p].active@ == pre.peers@[p].active@,
            self.peers@[p].active_inbound@ == pre.peers@[p].active_inbound@.remove(request_id),
            self.pending_dials@ == pre.pending_dials@,
            self.pending_outbound@ == pre.pending_outbound@,
            self.pending_outbound_cancels@ == pre.pending_outbound_cancels@,
            self.peers.wf(),
            self.pending_dials.wf(),
            self.pending_outbound.wf(),
            self.pending_outbound_responses.wf(),
            self.pending_outbound_cancels.wf(),
            self.pending_inbound_requests.wf(),
            self.used@ == pre.used@,
            self.next_request_id == pre.next_request_id,
            self.terminated@ == pre.terminated@,
            forall|id: RequestId|
                #[trigger] self.pending_inbound_requests@.dom().contains(id)
                    ==> pre.pending_inbound_requests@.dom().contains(id),
            forall|id: RequestId|
                #[trigger] self.pending_outbound_responses@.dom().contains(id)
                    ==> pre.pending_outbound_responses@.dom().contains(id) || (id == request_id
                    && pre.pending_inbound_requests@.dom().contains(id)),
            self.pending_outbound_responses@.dom().contains(request_id)
                ==> !self.pending_inbound_requests@.dom().contains(request_id),
        ensures
            self.wf(),
    {
        let pre_s = pre;
        assert(self.live_ids() =~= pre.live_ids());
        assert forall|id: RequestId| self.inbound_ids().contains(id) implies self.used@.contains(
            id,
        ) by {
            if self.pending_inbound_requests@.dom().contains(id) {
                assert(pre.inbound_ids().contains(id));
            } else if self.pending_outbound_responses@.dom().contains(id) {
                if pre.pending_outbound_responses@.dom().contains(id) {
                    assert(pre.inbound_ids().contains(id));
                } else {
                    assert(pre.pending_inbound_requests@.dom().contains(id));
                    assert(pre.inbound_ids().contains(id));
                }
            } else {
                let q = choose|q: Seq<u8>|
                    #[trigger] self.peers@.dom().contains(q)
                        && self.peers@[q].active_inbound@.dom().contains(id);
                if q == p {
                    assert(pre.peers@[p].active_inbound@.dom().contains(id));
                } else {
                    assert(pre.peers@[q].active_inbound@.dom().contains(id));
                }
                assert(pre.inbound_ids().contains(id));
            }
        }
        assert forall|id: RequestId|
            self.pending_outbound_responses@.dom().contains(id) implies !self.pending_inbound_requests@.dom().contains(
            id,
        ) by {
            if id != request_id {
                assert(pre.pending_outbound_responses@.dom().contains(id));
                if self.pending_inbound_requests@.dom().contains(id) {
                    assert(pre.pending_inbound_requests@.dom().contains(id));
                }
            }
        }
        assert(self.pending_outbound_responses@.dom().disjoint(
            self.pending_inbound_requests@.dom(),
        ));
    }

    /// An in-flight request future resolved: report its terminal outcome.
    /// A response becomes `ResponseReceived`; any failure, cancellation
    /// included, becomes `RequestFailed` with its error, reported exactly
    /// once.
    pub fn on_substream_event(
        &mut self,
        peer: &PeerId,
        request_id: RequestId,
        message: Result<Vec<u8>, RequestResponseError>,
    ) -> (r: Result<Vec<RequestResponseEvent>, EngineError>)
        requires
            old(self).wf(),
        ensures
            final(self).wf(),
            (match r {
                Err(e) => {
                    &&& Self::same_state(*old(self), *final(self))
                    &&& (e == EngineError::PeerDoesntExist || e == EngineError::InvalidState)
                    &&& (e == EngineError::PeerDoesntExist <==> !old(self).peers@.dom().contains(
                        peer@,
                    ))
                    &&& (e == EngineError::InvalidState <==> old(self).peers@.dom().contains(peer@)
                        && !old(self).peers@[peer@].active@.contains(request_id))
                },
                Ok(evs) => {
                    &&& old(self).peers@.dom().contains(peer@)
                    &&& old(self).peers@[peer@].active@.contains(request_id)
                    &&& step_accounted(old(self).terminated@, evs@, final(self).terminated@)
                    &&& final(self).terminated@ == old(self).terminated@.insert(request_id)
                    &&& evs@.len() == 1
                    &&& (match message {
                        Ok(response) => evs@[0] == (RequestResponseEvent::ResponseReceived {
                            peer: *peer,
                            request_id,
                            response,
                        }),
                        Err(error) => evs@[0] == (RequestResponseEvent::RequestFailed {
                            peer: *peer,
                            request_id,
                            error,
                        }),
                    })
                    &&& final(self).peers@.dom() == old(self).peers@.dom()
                    &&& forall|q: Seq<u8>|
                        #[trigger] old(self).peers@.dom().contains(q) && q != peer@
                            ==> final(self).peers@[q] == old(self).peers@[q]
                    &&& final(self).peers@[peer@].active_inbound@
                        == old(self).peers@[peer@].active_inbound@
                    &&& !final(self).peers@[peer@].active@.contains(request_id)
                    &&& forall|x: RequestId|
                        x != request_id ==> final(self).peers@[peer@].active@.contains(x) == old(
                            self,
                        ).peers@[peer@].active@.contains(x)
                },
            }),
            Self::same_dials(*old(self), *final(self)),
            Self::same_outbound(*old(self), *final(self)),
            Self::same_responses(*old(self), *final(self)),
            Self::same_cancels(*old(self), *final(self)),
            Self::same_inbound(*old(self), *final(self)),
            Self::same_config(*old(self), *final(self)),
    {
        let peer_ctx = self.peers.remove(peer);
        match peer_ctx {
            None => {
                proof {
                    assert(self.peers@ =~= old(self).peers@);
                }
                Err(EngineError::PeerDoesntExist)
            },
            Some(mut ctx) => {
                let had = ctx.active.remove(request_id);
                self.peers.insert(*peer, ctx);
                if !had {
                    proof {
                        assert(self.peers@ =~= old(self).peers@);
                    }
                    return Err(EngineError::InvalidState);
                }
                proof {
                    self.terminated@ = old(self).terminated@.insert(request_id);
                }
                let mut evs: Vec<RequestResponseEvent> = Vec::new();
                match message {
                    Ok(response) => evs.push(
                        RequestResponseEvent::ResponseReceived { peer: *peer, request_id, response },
                    ),
                    Err(error) => evs.push(
                        RequestResponseEvent::RequestFailed { peer: *peer, request_id, error },
                    ),
                }
                proof {
                    self.lemma_wf_after_active_removal(*old(self), peer@, request_id, evs@);
                }
                Ok(evs)
            },
        }
    }

    /// The connection event an input carries, if any: the peer and whether
    /// the event registers (`true`) or removes (`false`) it.
    pub open spec fn conn_event_of(input: EngineInput) -> Option<(Seq<u8>, bool)> {
        match input {
            EngineInput::ConnectionEstablished { peer, .. } => Some((peer@, true)),
            EngineInput::ConnectionClosed { peer } => Some((peer@, false)),
            _ => None,
        }
    }

    /// Whether `input` respects the conditions the individual handlers put
    /// on their callers (transport replies matching the state, fresh request
    /// ids, id counter not exhausted).
    pub open spec fn input_ok(self, input: EngineInput) -> bool {
        match input {
            EngineInput::ConnectionEstablished { peer, open_result } => (open_result is Some)
                <==> (!self.peers@.dom().contains(peer@) && self.pending_dials@.dom().contains(
                peer@,
            )),
            EngineInput::InboundSubstream { .. } => self.next_request_id < u64::MAX,
            EngineInput::SendRequest { peer, request_id, dial_options, reply, .. } => {
                &&& !self.used@.contains(request_id)
                &&& request_id < self.next_request_id
                &&& (self.peers@.dom().contains(peer@) ==> (reply matches TransportReply::Opened(
                    _,
                )))
                &&& (!self.peers@.dom().contains(peer@) && dial_options == DialOptions::Reject
                    ==> reply == TransportReply::NoCall)
                &&& (!self.peers@.dom().contains(peer@) && dial_options == DialOptions::Dial ==> (
                reply matches TransportReply::Dialed(_)))
            },
            _ => true,
        }
    }

    /// The user events one step emits, as a function of the pre-state and
    /// the input.
    pub open spec fn spec_step_events(self, input: EngineInput) -> Seq<RequestResponseEvent> {
        match input {
            EngineInput::ConnectionEstablished { peer, open_result } => {
                if self.peers@.dom().contains(peer@) {
                    Seq::empty()
                } else if self.pending_dials@.dom().contains(peer@) && open_result
                    == Some(None::<SubstreamId>) {
                    seq![
                        (RequestResponseEvent::RequestFailed {
                            peer: peer,
                            request_id: self.pending_dials@[peer@].request_id,
                            error: RequestResponseError::Rejected,
                        }),
                    ]
                } else {
                    Seq::empty()
                }
            },
            EngineInput::ConnectionClosed { peer } => {
                if self.peers@.dom().contains(peer@) {
                    Seq::new(
                        self.peers@[peer@].active@.len(),
                        |i: int|
                            (RequestResponseEvent::RequestFailed {
                                peer: peer,
                                request_id: self.peers@[peer@].active@[i],
                                error: RequestResponseError::Rejected,
                            }),
                    )
                } else {
                    Seq::empty()
                }
            },
            EngineInput::SubstreamOpenFailure { substream_id } => {
                if self.pending_outbound@.dom().contains(substream_id) {
                    let ctx = self.pending_outbound@[substream_id];
                    if self.peers@.dom().contains(ctx.peer@) && self.peers@[ctx.peer@].active@.contains(
                        ctx.request_id,
                    ) {
                        seq![
                            (RequestResponseEvent::RequestFailed {
                                peer: ctx.peer,
                                request_id: ctx.request_id,
                                error: RequestResponseError::Rejected,
                            }),
                        ]
                    } else {
                        Seq::empty()
                    }
                } else {
                    Seq::empty()
                }
            },
            EngineInput::DialFailure { peer } => {
                if self.pending_dials@.dom().contains(peer@) {
                    seq![
                        (RequestResponseEvent::RequestFailed {
                            peer: self.pending_dials@[peer@].peer,
                            request_id: self.pending_dials@[peer@].request_id,
                            error: RequestResponseError::Rejected,
                        }),
                    ]
                } else {
                    Seq::empty()
                }
            },
            EngineInput::SubstreamEvent { peer, request_id, message } => {
                if self.peers@.dom().contains(peer@) && self.peers@[peer@].active@.contains(
                    request_id,
                ) {
                    match message {
                        Ok(response) => seq![
                            (RequestResponseEvent::ResponseReceived {
                                peer: peer,
                                request_id,
                                response,
                            }),
                        ],
                        Err(error) => seq![
                            (RequestResponseEvent::RequestFailed { peer: peer, request_id, error }),
                        ],
                    }
                } else {
                    Seq::empty()
                }
            },
            EngineInput::InboundRequest { peer, request_id, request } => {
                if self.inbound_frame_expected(peer@, request_id) {
                    match request {
                        Ok(payload) => seq![
                            (RequestResponseEvent::RequestReceived {
                                peer: peer,
                                fallback: self.peers@[peer@].active_inbound@[request_id],
                                request_id,
                                request: payload,
                            }),
                        ],
                        Err(_) => Seq::empty(),
                    }
                } else {
                    Seq::empty()
                }
            },
            EngineInput::SendRequest { peer, request_id, dial_options, reply, .. } => {
                if self.peers@.dom().contains(peer@) {
                    if reply matches TransportReply::Opened(Some(_)) {
                        Seq::empty()
                    } else {
                        seq![
                            (RequestResponseEvent::RequestFailed {
                                peer,
                                request_id,
                                error: RequestResponseError::Rejected,
                            }),
                        ]
                    }
                } else if dial_options == DialOptions::Reject {
                    seq![
                        (RequestResponseEvent::RequestFailed {
                            peer,
                            request_id,
                            error: RequestResponseError::NotConnected,
                        }),
                    ]
                } else if reply == TransportReply::Dialed(true) {
                    Seq::empty()
                } else {
                    seq![
                        (RequestResponseEvent::RequestFailed {
                            peer,
                            request_id,
                            error: RequestResponseError::Rejected,
                        }),
                    ]
                }
            },
            _ => Seq::empty(),
        }
    }

    /// Whether the engine awaits a first inbound frame for `request_id`
    /// from peer `p`.
    pub open spec fn inbound_frame_expected(self, p: Seq<u8>, request_id: RequestId) -> bool {
        &&& self.peers@.dom().contains(p)
        &&& self.peers@[p].active_inbound@.dom().contains(request_id)
        &&& self.pending_inbound_requests@.dom().contains(request_id)
        &&& self.pending_inbound_requests@[request_id].peer@ == p
    }

    /// The action one step asks of the surrounding task, as a function of
    /// the pre-state and the input.
    pub open spec fn spec_step_action(self, input: EngineInput) -> Option<EngineAction> {
        match input {
            EngineInput::OutboundSubstream { peer, substream_id, substream } => {
                if self.pending_outbound@.dom().contains(substream_id) {
                    let ctx = self.pending_outbound@[substream_id];
                    Some(
                        EngineAction::StartRequest(
                            RequestStart {
                                peer,
                                request_id: ctx.request_id,
                                request: ctx.request,
                                substream,
                                timeout_ms: self.timeout_ms,
                            },
                        ),
                    )
                } else {
                    None
                }
            },
            EngineInput::InboundRequest { peer, request_id, request } => {
                if self.inbound_frame_expected(peer@, request_id) && (request is Err) {
                    Some(
                        EngineAction::DropSubstream(
                            self.pending_inbound_requests@[request_id].substream,
                        ),
                    )
                } else {
                    None
                }
            },
            EngineInput::SendResponse { request_id, response } => {
                if self.pending_outbound_responses@.dom().contains(request_id) {
                    Some(
                        EngineAction::SendResponseFrame(
                            ResponseSend {
                                substream: self.pending_outbound_responses@[request_id],
                                response,
                            },
                        ),
                    )
                } else {
                    None
                }
            },
            EngineInput::RejectRequest { request_id } => {
                if self.pending_outbound_responses@.dom().contains(request_id) {
                    Some(
                        EngineAction::CloseSubstream(
                            self.pending_outbound_responses@[request_id],
                        ),
                    )
                } else {
                    None
                }
            },
            EngineInput::CancelRequest { request_id } => {
                if self.pending_outbound_cancels@.contains(request_id) {
                    Some(EngineAction::SignalCancel(CancelSignal { request_id }))
                } else {
                    None
                }
            },
            _ => None,
        }
    }

    /// The state-mismatch error one step reports, as a function of the
    /// pre-state and the input.
    pub open spec fn spec_step_error(self, input: EngineInput) -> Option<EngineError> {
        match input {
            EngineInput::ConnectionEstablished { peer, .. } => {
                if self.peers@.dom().contains(peer@) {
                    Some(EngineError::PeerAlreadyExists)
                } else {
                    None
                }
            },
            EngineInput::ConnectionClosed { peer } => {
                if !self.peers@.dom().contains(peer@) {
                    Some(EngineError::PeerDoesntExist)
                } else {
                    None
                }
            },
            EngineInput::InboundSubstream { peer, .. } => {
                if !self.peers@.dom().contains(peer@) {
                    Some(EngineError::PeerDoesntExist)
                } else {
                    None
                }
            },
            EngineInput::OutboundSubstream { substream_id, .. } => {
                if !self.pending_outbound@.dom().contains(substream_id) {
                    Some(EngineError::InvalidState)
                } else {
                    None
                }
            },
            EngineInput::SubstreamOpenFailure { substream_id } => {
                if !self.pending_outbound@.dom().contains(substream_id) {
                    Some(EngineError::InvalidState)
                } else {
                    None
                }
            },
            EngineInput::SubstreamEvent { peer, request_id, .. } => {
                if !self.peers@.dom().contains(peer@) {
                    Some(EngineError::PeerDoesntExist)
                } else if !self.peers@[peer@].active@.contains(request_id) {
                    Some(EngineError::InvalidState)
                } else {
                    None
                }
            },
            EngineInput::InboundRequest { peer, request_id, .. } => {
                if !self.peers@.dom().contains(peer@) {
                    Some(EngineError::PeerDoesntExist)
                } else if !self.inbound_frame_expected(peer@, request_id) {
                    Some(EngineError::InvalidState)
                } else {
                    None
                }
            },
            EngineInput::SendResponse { request_id, .. } => {
                if !self.pending_outbound_responses@.dom().contains(request_id) {
                    Some(EngineError::NoPendingRequest)
                } else {
                    None
                }
            },
            _ => None,
        }
    }

    /// Dispatch one input to its handler, exactly as the engine's event
    /// loop does, with network events taking effect on the freshest state.
    /// The events emitted, the action requested and the error reported are
    /// each a function of the pre-state and the input, given by
    /// [`Self::spec_step_events`], [`Self::spec_step_action`] and
    /// [`Self::spec_step_error`]; errors leave a processed input's other
    /// effects in place but are otherwise harmless.
    pub fn step(&mut self, input: EngineInput) -> (out: StepOutput)
        requires
            old(self).wf(),
            old(self).input_ok(input),
        ensures
            final(self).wf(),
            out.events@ == old(self).spec_step_events(input),
            out.action == old(self).spec_step_action(input),
            out.error == old(self).spec_step_error(input),
            step_accounted(old(self).terminated@, out.events@, final(self).terminated@),
            final(self).peers@.dom() == (match input {
                EngineInput::ConnectionEstablished { peer, .. } => old(self).peers@.dom().insert(
                    peer@,
                ),
                EngineInput::ConnectionClosed { peer } => old(self).peers@.dom().remove(peer@),
                _ => old(self).peers@.dom(),
            }),
    {
        let ghost pre = *old(self);
        let ghost ginput = input;
        let out = match input {
            EngineInput::ConnectionEstablished { peer, open_result } => {
                let r = self.on_connection_established(&peer, open_result);
                proof {
                    if r is Err {
                        assert(self.peers@.dom() =~= pre.peers@.dom().insert(peer@));
                    }
                }
                match r {
                    Ok(events) => StepOutput { events, action: None, error: None },
                    Err(e) => StepOutput { events: Vec::new(), action: None, error: Some(e) },
                }
            },
            EngineInput::ConnectionClosed { peer } => {
                let r = self.on_connection_closed(&peer);
                proof {
                    assert(self.peers@.dom() =~= pre.peers@.dom().remove(peer@));
                }
                match r {
                    Ok(events) => StepOutput { events, action: None, error: None },
                    Err(e) => StepOutput { events: Vec::new(), action: None, error: Some(e) },
                }
            },
            EngineInput::InboundSubstream { peer, fallback, substream } => {
                let r = self.on_inbound_substream(&peer, fallback, substream);
                match r {
                    Ok(_) => StepOutput { events: Vec::new(), action: None, error: None },
                    Err(e) => StepOutput { events: Vec::new(), action: None, error: Some(e) },
                }
            },
            EngineInput::OutboundSubstream { peer, substream_id, substream } => {
                let r = self.on_outbound_substream(peer, substream_id, substream);
                match r {
                    Ok(start) => StepOutput {
                        events: Vec::new(),
                        action: Some(EngineAction::StartRequest(start)),
                        error: None,
                    },
                    Err(e) => StepOutput { events: Vec::new(), action: None, error: Some(e) },
                }
            },
            EngineInput::SubstreamOpenFailure { substream_id } => {
                let r = self.on_substream_open_failure(substream_id);
                match r {
                    Ok(events) => StepOutput { events, action: None, error: None },
                    Err(e) => StepOutput { events: Vec::new(), action: None, error: Some(e) },
                }
            },
            EngineInput::DialFailure { peer } => {
                let events = self.on_dial_failure(&peer);
                StepOutput { events, action: None, error: None }
            },
            EngineInput::SubstreamEvent { peer, request_id, message } => {
                let r = self.on_substream_event(&peer, request_id, message);
                match r {
                    Ok(events) => StepOutput { events, action: None, error: None },
                    Err(e) => StepOutput { events: Vec::new(), action: None, error: Some(e) },
                }
            },
            EngineInput::InboundRequest { peer, request_id, request } => {
                let r = self.on_inbound_request(&peer, request_id, request);
                match r {
                    Ok((events, dropped)) => StepOutput {
                        events,
                        action: match dropped {
                            Some(substream) => Some(EngineAction::DropSubstream(substream)),
                            None => None,
                        },
                        error: None,
                    },
                    Err(e) => StepOutput { events: Vec::new(), action: None, error: Some(e) },
                }
            },
            EngineInput::SendRequest { peer, request_id, request, dial_options, reply } => {
                let events = self.on_send_request(peer, request_id, request, dial_options, reply);
                StepOutput { events, action: None, error: None }
            },
            EngineInput::SendResponse { request_id, response } => {
                let r = self.on_send_response(request_id, response);
                match r {
                    Ok(send) => StepOutput {
                        events: Vec::new(),
                        action: Some(EngineAction::SendResponseFrame(send)),
                        error: None,
                    },
                    Err(e) => StepOutput { events: Vec::new(), action: None, error: Some(e) },
                }
            },
            EngineInput::RejectRequest { request_id } => {
                let r = self.on_reject_request(request_id);
                match r {
                    Some(substream) => StepOutput {
                        events: Vec::new(),
                        action: Some(EngineAction::CloseSubstream(substream)),
                        error: None,
                    },
                    None => StepOutput { events: Vec::new(), action: None, error: None },
                }
            },
            EngineInput::CancelRequest { request_id } => {
                let r = self.on_cancel_request(request_id);
                match r {
                    Some(signal) => StepOutput {
                        events: Vec::new(),
                        action: Some(EngineAction::SignalCancel(signal)),
                        error: None,
                    },
                    None => StepOutput { events: Vec::new(), action: None, error: None },
                }
            },
        };
        proof {
            match ginput {
                EngineInput::ConnectionEstablished { .. } => {
                    assert(out.events@ =~= pre.spec_step_events(ginput));
                },
                EngineInput::ConnectionClosed { .. } => {
                    assert(out.events@ =~= pre.spec_step_events(ginput));
                },
                EngineInput::InboundSubstream { .. } => {
                    assert(out.events@ =~= pre.spec_step_events(ginput));
                },
                EngineInput::OutboundSubstream { .. } => {
                    assert(out.events@ =~= pre.spec_step_events(ginput));
                },
                EngineInput::SubstreamOpenFailure { .. } => {
                    assert(out.events@ =~= pre.spec_step_events(ginput));
                },
                EngineInput::DialFailure { .. } => {
                    assert(out.events@ =~= pre.spec_step_events(ginput));
                },
                EngineInput::SubstreamEvent { .. } => {
                    assert(out.events@ =~= pre.spec_step_events(ginput));
                },
                EngineInput::InboundRequest { .. } => {
                    assert(out.events@ =~= pre.spec_step_events(ginput));
                    assert(out.action == pre.spec_step_action(ginput));
                },
                EngineInput::SendRequest { .. } => {
                    assert(out.events@ =~= pre.spec_step_events(ginput));
                },
                EngineInput::SendResponse { .. } => {
                    assert(out.events@ =~= pre.spec_step_events(ginput));
                    assert(out.action == pre.spec_step_action(ginput));
                },
                EngineInput::RejectRequest { .. } => {
                    assert(out.events@ =~= pre.spec_step_events(ginput));
                },
                EngineInput::CancelRequest { .. } => {
                    assert(out.events@ =~= pre.spec_step_events(ginput));
                },
            }
            if self.terminated@ == pre.terminated@ && (forall|i: int|
                0 <= i < out.events@.len() ==> !(#[trigger] out.events@[i].is_terminal())) {
                lemma_step_accounted_no_terminal(pre.terminated@, out.events@);
            }
        }
        out
    }

    /// Helper for handlers that removed `request_id` from the active set of
    /// `p` and emitted exactly one terminal event for it: re-establishes
    /// well-formedness and the event accounting.
    proof fn lemma_wf_after_active_removal(
        self,
        pre: Self,
        p: Seq<u8>,
        request_id: RequestId,
        evs: Seq<RequestResponseEvent>,
    )
        requires
            pre.wf(),
            pre.peers@.dom().contains(p),
            pre.peers@[p].active@.contains(request_id),
            self.peers@.dom() == pre.peers@.dom(),
            forall|q: Seq<u8>|
                #[trigger] pre.peers@.dom().contains(q) && q != p ==> self.peers@[q]
                    == pre.peers@[q],
            self.peers@[p].wf(),
            self.peers@[p].active_inbound@ == pre.peers@[p].active_inbound@,
            !self.peers@[p].active@.contains(request_id),
            forall|x: RequestId|
                x != request_id ==> self.peers@[p].active@.contains(x)
                    == pre.peers@[p].active@.contains(x),
            self.pending_dials@ == pre.pending_dials@,
            self.pending_outbound.wf(),
            forall|sid: SubstreamId|
                #[trigger] self.pending_outbound@.dom().contains(sid)
                    ==> pre.pending_outbound@.dom().contains(sid) && self.pending_outbound@[sid]
                    == pre.pending_outbound@[sid],
            self.pending_outbound_responses@ == pre.pending_outbound_responses@,
            self.pending_outbound_cancels@ == pre.pending_outbound_cancels@,
            self.pending_inbound_requests@ == pre.pending_inbound_requests@,
            self.pending_dials.wf(),
            self.pending_outbound_responses.wf(),
            self.pending_outbound_cancels.wf(),
            self.pending_inbound_requests.wf(),
            self.peers.wf(),
            self.used@ == pre.used@,
            self.next_request_id == pre.next_request_id,
            self.terminated@ == pre.terminated@.insert(request_id),
            evs.len() == 1,
            evs[0].is_terminal(),
            evs[0].spec_request_id() == request_id,
        ensures
            self.wf(),
            step_accounted(pre.terminated@, evs, self.terminated@),
    {
        assert(pre.active_ids().contains(request_id));
        assert(!pre.terminated@.contains(request_id));
        lemma_step_accounted_single(pre.terminated@, evs, request_id);
        assert forall|id: RequestId| self.live_ids().contains(id) implies pre.live_ids().contains(
            id,
        ) && id != request_id by {
            if self.dial_ids().contains(id) {
                let q = choose|q: Seq<u8>|
                    #[trigger] self.pending_dials@.dom().contains(q)
                        && self.pending_dials@[q].request_id == id;
                assert(pre.dial_ids().contains(id));
                assert(pre.peers@.dom().contains(p));
                assert(pre.peers@[p].active@.contains(request_id));
                assert(id != request_id);
            } else {
                let q = choose|q: Seq<u8>|
                    #[trigger] self.peers@.dom().contains(q) && self.peers@[q].active@.contains(
                        id,
                    );
                if q == p {
                    assert(pre.peers@[p].active@.contains(id));
                    assert(pre.active_ids().contains(id));
                } else {
                    assert(pre.peers@[q].active@.contains(id));
                    assert(pre.active_ids().contains(id));
                    assert(pre.peers@[p].active@.contains(request_id));
                    assert(id != request_id);
                }
            }
        }
        assert(self.live_ids().disjoint(self.terminated@));
        assert(self.inbound_ids() =~= pre.inbound_ids());
        assert forall|q1: Seq<u8>, q2: Seq<u8>, id: RequestId|
            self.peers@.dom().contains(q1) && self.peers@.dom().contains(q2) && q1 != q2 && (
            #[trigger] self.peers@[q1].active@.contains(id)) implies !(
        #[trigger] self.peers@[q2].active@.contains(id)) by {
            assert(pre.peers@[q1].active@.contains(id) || q1 == p);
            if q1 == p {
                assert(pre.peers@[p].active@.contains(id));
            }
            assert(pre.peers@[q1].active@.contains(id));
            if self.peers@[q2].active@.contains(id) {
                assert(pre.peers@[q2].active@.contains(id) || q2 == p);
                assert(pre.peers@[q2].active@.contains(id));
            }
        }
        assert forall|q1: Seq<u8>, q2: Seq<u8>, id: RequestId|
            self.pending_dials@.dom().contains(q1) && self.peers@.dom().contains(q2)
                && #[trigger] self.peers@[q2].active@.contains(id) implies id != (
        #[trigger] self.pending_dials@[q1].request_id) by {
            if q2 == p {
                assert(pre.peers@[p].active@.contains(id));
            } else {
                assert(pre.peers@[q2].active@.contains(id));
            }
        }
    }
}

} // verus!
