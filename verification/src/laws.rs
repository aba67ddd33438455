//! Engine-wide laws, stated over traces of engine steps.
//!
//! Each step of [`crate::request_response::RequestResponseProtocol`] ensures
//! `step_accounted` for the events it emits and an exact peer-map update for
//! the connection events it consumes. The lemmas here lift those per-step
//! guarantees to whole runs.

use vstd::prelude::*;
use crate::request_response::{step_accounted, terminal_ids, RequestResponseEvent};
use crate::types::RequestId;

verus! {

/// How many terminal events for `id` the batch holds.
pub open spec fn count_terminal(evs: Seq<RequestResponseEvent>, id: RequestId) -> nat
    decreases evs.len(),
{
    if evs.len() == 0 {
        0
    } else {
        count_terminal(evs.drop_last(), id) + (if evs.last().is_terminal()
            && evs.last().spec_request_id() == id {
            1nat
        } else {
            0nat
        })
    }
}

/// A run: a sequence of event batches, each accounted for by the engine's
/// terminated-id record, threaded from `t0` to `t1`.
pub open spec fn batches_accounted(
    t0: Set<RequestId>,
    batches: Seq<Seq<RequestResponseEvent>>,
    t1: Set<RequestId>,
) -> bool
    decreases batches.len(),
{
    if batches.len() == 0 {
        t1 == t0
    } else {
        exists|t: Set<RequestId>|
            #[trigger] step_accounted(t0, batches.first(), t) && batches_accounted(
                t,
                batches.drop_first(),
                t1,
            )
    }
}

/// How many terminal events for `id` the whole run emits.
pub open spec fn total_terminal(batches: Seq<Seq<RequestResponseEvent>>, id: RequestId) -> nat
    decreases batches.len(),
{
    if batches.len() == 0 {
        0
    } else {
        count_terminal(batches.first(), id) + total_terminal(batches.drop_first(), id)
    }
}

/// A batch holds a terminal event for `id` exactly when its count is
/// positive.
proof fn lemma_count_terminal_exists(evs: Seq<RequestResponseEvent>, id: RequestId)
    ensures
        count_terminal(evs, id) >= 1 <==> terminal_ids(evs).contains(id),
    decreases evs.len(),
{
    if evs.len() > 0 {
        lemma_count_terminal_exists(evs.drop_last(), id);
        if evs.last().is_terminal() && evs.last().spec_request_id() == id {
            assert(evs[evs.len() - 1].is_terminal() && evs[evs.len() - 1].spec_request_id() == id);
            assert(terminal_ids(evs).contains(id));
        } else {
            if terminal_ids(evs.drop_last()).contains(id) {
                let i = choose|i: int|
                    0 <= i < evs.drop_last().len() && #[trigger] evs.drop_last()[i].is_terminal()
                        && evs.drop_last()[i].spec_request_id() == id;
                assert(evs[i].is_terminal() && evs[i].spec_request_id() == id);
                assert(terminal_ids(evs).contains(id));
            }
            if terminal_ids(evs).contains(id) {
                let i = choose|i: int|
                    0 <= i < evs.len() && #[trigger] evs[i].is_terminal()
                        && evs[i].spec_request_id() == id;
                assert(i < evs.len() - 1);
                assert(evs.drop_last()[i].is_terminal() && evs.drop_last()[i].spec_request_id()
                    == id);
                assert(terminal_ids(evs.drop_last()).contains(id));
            }
        }
    }
}

/// In a batch whose terminal events carry pairwise distinct ids, at most one
/// is for `id`.
proof fn lemma_count_terminal_le_one(evs: Seq<RequestResponseEvent>, id: RequestId)
    requires
        forall|i: int, j: int|
            0 <= i < j < evs.len() && evs[i].is_terminal() && evs[j].is_terminal()
                ==> (#[trigger] evs[i].spec_request_id()) != (#[trigger] evs[j].spec_request_id()),
    ensures
        count_terminal(evs, id) <= 1,
    decreases evs.len(),
{
    if evs.len() > 0 {
        let front = evs.drop_last();
        assert forall|i: int, j: int|
            0 <= i < j < front.len() && front[i].is_terminal() && front[j].is_terminal() implies (
        #[trigger] front[i].spec_request_id()) != (#[trigger] front[j].spec_request_id()) by {
            assert(evs[i] == front[i] && evs[j] == front[j]);
        }
        lemma_count_terminal_le_one(front, id);
        if evs.last().is_terminal() && evs.last().spec_request_id() == id {
            lemma_count_terminal_exists(front, id);
            if count_terminal(front, id) >= 1 {
                let i = choose|i: int|
                    0 <= i < front.len() && #[trigger] front[i].is_terminal()
                        && front[i].spec_request_id() == id;
                assert(evs[i].is_terminal() && evs[i].spec_request_id() == id);
                assert(evs[evs.len() - 1].is_terminal());
            }
        }
    }
}

/// What one accounted batch does to the count for `id`.
proof fn lemma_batch_count(
    t0: Set<RequestId>,
    evs: Seq<RequestResponseEvent>,
    t1: Set<RequestId>,
    id: RequestId,
)
    requires
        step_accounted(t0, evs, t1),
    ensures
        count_terminal(evs, id) <= 1,
        t0.contains(id) ==> count_terminal(evs, id) == 0,
        t1.contains(id) <==> (t0.contains(id) || count_terminal(evs, id) >= 1),
{
    lemma_count_terminal_le_one(evs, id);
    lemma_count_terminal_exists(evs, id);
    if t0.contains(id) && count_terminal(evs, id) >= 1 {
        let i = choose|i: int|
            0 <= i < evs.len() && #[trigger] evs[i].is_terminal() && evs[i].spec_request_id()
                == id;
    }
}

/// At most one terminal event per request id: over any run of accounted
/// batches, an id not yet terminated receives at most one terminal event
/// (`ResponseReceived` or `RequestFailed`), and an id already terminated
/// receives none.
pub proof fn lemma_at_most_one_terminal(
    t0: Set<RequestId>,
    batches: Seq<Seq<RequestResponseEvent>>,
    t1: Set<RequestId>,
    id: RequestId,
)
    requires
        batches_accounted(t0, batches, t1),
    ensures
        !t0.contains(id) ==> total_terminal(batches, id) <= 1,
        t0.contains(id) ==> total_terminal(batches, id) == 0,
        total_terminal(batches, id) >= 1 ==> t1.contains(id),
        t0.contains(id) ==> t1.contains(id),
    decreases batches.len(),
{
    if batches.len() > 0 {
        let t = choose|t: Set<RequestId>|
            #[trigger] step_accounted(t0, batches.first(), t) && batches_accounted(
                t,
                batches.drop_first(),
                t1,
            );
        lemma_batch_count(t0, batches.first(), t, id);
        lemma_at_most_one_terminal(t, batches.drop_first(), t1, id);
    }
}

/// The peer set after a run of connection events, each `(peer, up)` applied
/// in order: `up == true` registers the peer, `false` removes it. This is
/// exactly how every engine step updates its peer map's domain.
pub open spec fn peers_after(init: Set<Seq<u8>>, trace: Seq<(Seq<u8>, bool)>) -> Set<Seq<u8>>
    decreases trace.len(),
{
    if trace.len() == 0 {
        init
    } else {
        let rest = peers_after(init, trace.drop_last());
        if trace.last().1 {
            rest.insert(trace.last().0)
        } else {
            rest.remove(trace.last().0)
        }
    }
}

/// The most recent connection event for `p` in the trace, if any.
pub open spec fn last_conn_event(trace: Seq<(Seq<u8>, bool)>, p: Seq<u8>) -> Option<bool>
    decreases trace.len(),
{
    if trace.len() == 0 {
        None
    } else if trace.last().0 == p {
        Some(trace.last().1)
    } else {
        last_conn_event(trace.drop_last(), p)
    }
}

/// The peer map mirrors the transport: after any run, a peer is registered
/// exactly when its most recent connection event was an establishment with
/// no subsequent close (or it was registered at the start and saw no event).
pub proof fn lemma_peers_mirror_transport(
    init: Set<Seq<u8>>,
    trace: Seq<(Seq<u8>, bool)>,
    p: Seq<u8>,
)
    ensures
        peers_after(init, trace).contains(p) == (match last_conn_event(trace, p) {
            Some(up) => up,
            None => init.contains(p),
        }),
    decreases trace.len(),
{
    if trace.len() > 0 {
        lemma_peers_mirror_transport(init, trace.drop_last(), p);
    }
}

/// One engine step changes the peer map's domain exactly as the trace
/// semantics of its connection event says — `step`'s contract states the
/// update directly, and this lemma identifies it with [`peers_after`] over
/// the one-event trace, so whole runs compose under
/// [`lemma_peers_mirror_transport`].
pub proof fn lemma_step_matches_conn_trace(
    dom: Set<Seq<u8>>,
    input: crate::request_response::EngineInput,
)
    ensures
        peers_after(
            dom,
            (match crate::request_response::RequestResponseProtocol::conn_event_of(input) {
                Some(event) => seq![event],
                None => Seq::empty(),
            }),
        ) == (match input {
            crate::request_response::EngineInput::ConnectionEstablished { peer, .. } => dom.insert(
                peer@,
            ),
            crate::request_response::EngineInput::ConnectionClosed { peer } => dom.remove(peer@),
            _ => dom,
        }),
{
    match input {
        crate::request_response::EngineInput::ConnectionEstablished { peer, .. } => {
            let event = (peer@, true);
            assert(seq![event].drop_last() =~= Seq::<(Seq<u8>, bool)>::empty());
            assert(seq![event].last() == event);
            assert(peers_after(dom, seq![event].drop_last()) == peers_after(
                dom,
                Seq::<(Seq<u8>, bool)>::empty(),
            ));
            assert(peers_after(dom, Seq::<(Seq<u8>, bool)>::empty()) == dom);
            assert(peers_after(dom, seq![event]) == dom.insert(peer@));
        },
        crate::request_response::EngineInput::ConnectionClosed { peer } => {
            let event = (peer@, false);
            assert(seq![event].drop_last() =~= Seq::<(Seq<u8>, bool)>::empty());
            assert(seq![event].last() == event);
            assert(peers_after(dom, seq![event].drop_last()) == peers_after(
                dom,
                Seq::<(Seq<u8>, bool)>::empty(),
            ));
            assert(peers_after(dom, Seq::<(Seq<u8>, bool)>::empty()) == dom);
            assert(peers_after(dom, seq![event]) == dom.remove(peer@));
        },
        _ => {
            assert(peers_after(dom, Seq::empty()) == dom);
        },
    }
}

/// How many cancellation signals `times` consecutive cancel calls for `id`
/// produce, starting from the set of live cancellation tokens `cancels`:
/// each call takes the token out if it is present, exactly as
/// `on_cancel_request` does.
pub open spec fn cancel_signal_count(cancels: Set<RequestId>, id: RequestId, times: nat) -> nat
    decreases times,
{
    if times == 0 {
        0
    } else {
        (if cancels.contains(id) {
            1nat
        } else {
            0nat
        }) + cancel_signal_count(cancels.remove(id), id, (times - 1) as nat)
    }
}

/// Cancellation is idempotent: however many times a request is canceled, at
/// most one signal ever reaches its in-flight future, so at most one
/// `RequestFailed` with `Canceled` can follow — and by
/// [`lemma_at_most_one_terminal`] at most one terminal event of any kind is
/// emitted for the id.
pub proof fn lemma_cancel_idempotent(cancels: Set<RequestId>, id: RequestId, times: nat)
    ensures
        cancel_signal_count(cancels, id, times) <= 1,
    decreases times,
{
    if times > 0 {
        if cancels.contains(id) {
            lemma_cancel_signal_count_absent(cancels.remove(id), id, (times - 1) as nat);
        } else {
            assert(cancels.remove(id) =~= cancels);
            lemma_cancel_idempotent(cancels, id, (times - 1) as nat);
        }
    }
}

/// Once the token for `id` is gone, further cancels produce no signal.
proof fn lemma_cancel_signal_count_absent(cancels: Set<RequestId>, id: RequestId, times: nat)
    requires
        !cancels.contains(id),
    ensures
        cancel_signal_count(cancels, id, times) == 0,
    decreases times,
{
    if times > 0 {
        assert(cancels.remove(id) =~= cancels);
        lemma_cancel_signal_count_absent(cancels, id, (times - 1) as nat);
    }
}

/// No orphan substream: a well-formed engine never holds the same request
/// id in both substream tables, so every substream it owns is reachable
/// from exactly one of the response table and the inbound-request table
/// (substreams of in-flight exchanges are owned by their futures, outside
/// the engine). Every handler preserves well-formedness.
pub proof fn lemma_no_orphan_substream(
    engine: crate::request_response::RequestResponseProtocol,
    id: RequestId,
)
    requires
        engine.wf(),
    ensures
        !(engine.pending_outbound_responses@.dom().contains(id)
            && engine.pending_inbound_requests@.dom().contains(id)),
{
    assert(engine.pending_outbound_responses@.dom().disjoint(
        engine.pending_inbound_requests@.dom(),
    ));
}

} // verus!
