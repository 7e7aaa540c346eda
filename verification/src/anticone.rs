//! The anticone sync flow: a peer asks for `anticone(block) ∩ past(context)`
//! and is answered with the headers in ascending blue-work order, followed by
//! a terminal marker. The decisions of the flow are a state machine; the
//! caller performs each action and hands back the event that it produced.

use crate::types::BlueWork;
use crate::ordering::ascending_by_rank;
use crate::ordering::sort_by_rank;
use crate::ordering::sorted_by_rank;
use crate::ordering::Ranked;
use crate::types::BlockHash;
use vstd::prelude::*;

verus! {

/// What the flow reads of a header: its identity and its blue work.
#[derive(Clone, Copy, Debug, PartialEq, Eq, Structural)]
pub struct HeaderEntry {
    pub hash: BlockHash,
    pub blue_work: BlueWork,
}

/// Blue work never decreases along the sequence.
pub open spec fn ascending(s: Seq<HeaderEntry>) -> bool {
    forall|i: int, j: int|
        0 <= i < j < s.len() ==> s[i].blue_work.value() <= s[j].blue_work.value()
}

impl Ranked for HeaderEntry {
    open spec fn rank(&self) -> nat {
        self.blue_work.value()
    }

    fn rank_le(&self, other: &Self) -> (r: bool) {
        self.blue_work.le(&other.blue_work)
    }
}

/// The stable ascending arrangement of `s` by blue work: entries of equal
/// blue work keep their relative order.
pub open spec fn sorted_by_blue_work(s: Seq<HeaderEntry>) -> Seq<HeaderEntry> {
    sorted_by_rank(s)
}


/// Whether a received sequence of headers is in non-decreasing blue-work
/// order, as the flow promises to send it.
pub fn is_sorted_by_blue_work(headers: &Vec<HeaderEntry>) -> (r: bool)
    ensures
        r == ascending(headers@),
{
    if headers.len() < 2 {
        return true;
    }
    let mut i: usize = 1;
    while i < headers.len()
        invariant
            1 <= i <= headers.len(),
            forall|a: int, b: int|
                0 <= a < b < i ==> headers@[a].blue_work.value() <= headers@[b].blue_work.value(),
        decreases headers.len() - i,
    {
        if !headers[i - 1].blue_work.le(&headers[i].blue_work) {
            return false;
        }
        proof {
            assert forall|a: int, b: int| 0 <= a < b < i + 1 implies headers@[a].blue_work.value()
                <= headers@[b].blue_work.value() by {
                if b == i && a < i - 1 {
                    assert(headers@[a].blue_work.value() <= headers@[i - 1].blue_work.value());
                }
            }
        }
        i += 1;
    }
    true
}

/// Arranges headers bottom-up: ascending by blue work, entries of equal blue
/// work in the order in which they came.
pub fn sort_by_blue_work(headers: &Vec<HeaderEntry>) -> (out: Vec<HeaderEntry>)
    ensures
        out@ == sorted_by_blue_work(headers@),
        ascending(out@),
        out@.to_multiset() == headers@.to_multiset(),
        out@.len() == headers@.len(),
{
    let out = sort_by_rank(headers);
    assert(ascending(out@)) by {
        assert(ascending_by_rank(out@));
    }
    out
}

/// The most hashes an anticone query may return: twice the mergeset size
/// limit, the slack covering DAG growth while a peer syncs.
pub fn anticone_query_limit(mergeset_size_limit: u64) -> (limit: u64)
    requires
        mergeset_size_limit * 2 <= u64::MAX,
    ensures
        limit == mergeset_size_limit * 2,
{
    mergeset_size_limit * 2
}

/// As `anticone_query_limit`, for any configured limit: `None` where twice
/// the limit does not fit in 64 bits.
pub fn checked_anticone_query_limit(mergeset_size_limit: u64) -> (limit: Option<u64>)
    ensures
        limit is Some <==> mergeset_size_limit * 2 <= u64::MAX,
        limit is Some ==> limit->Some_0 == mergeset_size_limit * 2,
{
    if mergeset_size_limit <= u64::MAX / 2 {
        Some(anticone_query_limit(mergeset_size_limit))
    } else {
        None
    }
}

/// Why a flow stopped.
#[derive(Clone, Copy, Debug, PartialEq, Eq, Structural)]
pub enum FlowError {
    /// The incoming route was closed or timed out.
    RouteClosed,
    /// The request did not carry a block hash and a context hash.
    MalformedRequest,
    /// A consensus lookup failed: an unknown block or context hash, or an
    /// internal error.
    ConsensusFailure,
    /// The answer could not be handed to the peer.
    SendFailed,
    /// An event arrived that the current state does not wait for.
    UnexpectedEvent,
}

/// Where the flow stands between two actions.
#[derive(Clone, Copy, Debug, PartialEq, Eq, Structural)]
pub enum FlowState {
    /// Waiting for the next request of the peer.
    AwaitingRequest,
    /// Waiting for the hashes of the bounded anticone.
    AwaitingAnticone,
    /// Waiting for the headers of those hashes.
    AwaitingHeaders,
    /// Waiting for the headers message to be handed to the peer.
    SendingHeaders,
    /// Waiting for the terminal marker to be handed to the peer.
    SendingDone,
    /// The flow ended with an error and accepts no further event.
    Stopped,
}

/// What the outside world reports back to the flow.
#[derive(Clone, Debug, PartialEq, Eq)]
pub enum FlowEvent {
    /// A request was dequeued and parsed.
    Request { block: BlockHash, context: BlockHash },
    /// A message was dequeued that is no well-formed request.
    Malformed,
    /// The incoming route yielded nothing.
    RouteClosed,
    /// Consensus returned the hashes of the bounded anticone.
    Anticone { hashes: Vec<BlockHash> },
    /// Consensus returned the headers, in the order of the hashes.
    Headers { headers: Vec<HeaderEntry> },
    /// A consensus query failed.
    LookupFailed,
    /// The last message was handed to the peer.
    Sent,
    /// The last message could not be handed to the peer.
    SendFailed,
}

/// What the flow asks the outside world to do next.
#[derive(Clone, Debug, PartialEq, Eq)]
pub enum FlowAction {
    /// Take the next request from the incoming route.
    Dequeue,
    /// Ask consensus for `anticone(block) ∩ past(context)`, at most `limit` hashes.
    QueryAnticone { block: BlockHash, context: BlockHash, limit: u64 },
    /// Fetch the headers of these hashes.
    FetchHeaders { hashes: Vec<BlockHash> },
    /// Send these headers, in this order, in one message.
    SendHeaders { headers: Vec<HeaderEntry> },
    /// Send the terminal marker.
    SendDone,
    /// Stop the flow and report the error to the caller.
    Fail { error: FlowError },
}

/// The error with which `state` answers `event`, if it does not wait for it.
pub open spec fn failure_of(state: FlowState, event: FlowEvent) -> Option<FlowError> {
    match (state, event) {
        (FlowState::AwaitingRequest, FlowEvent::Request { .. }) => None,
        (FlowState::AwaitingRequest, FlowEvent::Malformed) => Some(FlowError::MalformedRequest),
        (FlowState::AwaitingRequest, FlowEvent::RouteClosed) => Some(FlowError::RouteClosed),
        (FlowState::AwaitingAnticone, FlowEvent::Anticone { .. }) => None,
        (FlowState::AwaitingAnticone, FlowEvent::LookupFailed) => Some(
            FlowError::ConsensusFailure,
        ),
        (FlowState::AwaitingHeaders, FlowEvent::Headers { .. }) => None,
        (FlowState::AwaitingHeaders, FlowEvent::LookupFailed) => Some(FlowError::ConsensusFailure),
        (FlowState::SendingHeaders, FlowEvent::Sent) => None,
        (FlowState::SendingHeaders, FlowEvent::SendFailed) => Some(FlowError::SendFailed),
        (FlowState::SendingDone, FlowEvent::Sent) => None,
        (FlowState::SendingDone, FlowEvent::SendFailed) => Some(FlowError::SendFailed),
        _ => Some(FlowError::UnexpectedEvent),
    }
}

/// The state that follows `state` on `event`.
pub open spec fn next_state(state: FlowState, event: FlowEvent) -> FlowState {
    if failure_of(state, event) is Some {
        FlowState::Stopped
    } else {
        match state {
            FlowState::AwaitingRequest => FlowState::AwaitingAnticone,
            FlowState::AwaitingAnticone => FlowState::AwaitingHeaders,
            FlowState::AwaitingHeaders => FlowState::SendingHeaders,
            FlowState::SendingHeaders => FlowState::SendingDone,
            _ => FlowState::AwaitingRequest,
        }
    }
}

/// Whether `action` is what the flow asks for when `event` arrives in `state`.
pub open spec fn action_answers(
    state: FlowState,
    event: FlowEvent,
    mergeset_size_limit: u64,
    action: FlowAction,
) -> bool {
    match failure_of(state, event) {
        Some(e) => action == (FlowAction::Fail { error: e }),
        None => match event {
            FlowEvent::Request { block, context } => action == (FlowAction::QueryAnticone {
                block,
                context,
                limit: (mergeset_size_limit * 2) as u64,
            }),
            FlowEvent::Anticone { hashes } => action matches FlowAction::FetchHeaders { hashes: h }
                && h@ == hashes@,
            FlowEvent::Headers { headers } => action matches FlowAction::SendHeaders { headers: h }
                && h@ == sorted_by_blue_work(headers@),
            _ => if state == FlowState::SendingHeaders {
                action == FlowAction::SendDone
            } else {
                action == FlowAction::Dequeue
            },
        },
    }
}

/// The first action of a flow: take a request from the incoming route.
pub fn start() -> (r: (FlowState, FlowAction))
    ensures
        r.0 == FlowState::AwaitingRequest,
        r.1 == FlowAction::Dequeue,
{
    (FlowState::AwaitingRequest, FlowAction::Dequeue)
}

/// One decision of the flow: from the state and the event that the last
/// action produced to the next state and the next action. A request is
/// answered by a bounded anticone query, the hashes by a header fetch, the
/// headers by one message that holds them in ascending blue-work order, that
/// message by the terminal marker, and the marker by the next dequeue. Any
/// failure, and any event out of turn, stops the flow.
pub fn step(state: FlowState, event: FlowEvent, mergeset_size_limit: u64) -> (r: (
    FlowState,
    FlowAction,
))
    requires
        state == FlowState::AwaitingRequest && event is Request ==> mergeset_size_limit * 2
            <= u64::MAX,
    ensures
        r.0 == next_state(state, event),
        action_answers(state, event, mergeset_size_limit, r.1),
        r.1 matches FlowAction::SendHeaders { headers } ==> ascending(headers@),
{
    match (state, event) {
        (FlowState::AwaitingRequest, FlowEvent::Request { block, context }) => {
            let limit = anticone_query_limit(mergeset_size_limit);
            (FlowState::AwaitingAnticone, FlowAction::QueryAnticone { block, context, limit })
        },
        (FlowState::AwaitingRequest, FlowEvent::Malformed) => (
            FlowState::Stopped,
            FlowAction::Fail { error: FlowError::MalformedRequest },
        ),
        (FlowState::AwaitingRequest, FlowEvent::RouteClosed) => (
            FlowState::Stopped,
            FlowAction::Fail { error: FlowError::RouteClosed },
        ),
        (FlowState::AwaitingAnticone, FlowEvent::Anticone { hashes }) => (
            FlowState::AwaitingHeaders,
            FlowAction::FetchHeaders { hashes },
        ),
        (FlowState::AwaitingAnticone, FlowEvent::LookupFailed) => (
            FlowState::Stopped,
            FlowAction::Fail { error: FlowError::ConsensusFailure },
        ),
        (FlowState::AwaitingHeaders, FlowEvent::Headers { headers }) => {
            let sorted = sort_by_blue_work(&headers);
            (FlowState::SendingHeaders, FlowAction::SendHeaders { headers: sorted })
        },
        (FlowState::AwaitingHeaders, FlowEvent::LookupFailed) => (
            FlowState::Stopped,
            FlowAction::Fail { error: FlowError::ConsensusFailure },
        ),
        (FlowState::SendingHeaders, FlowEvent::Sent) => (
            FlowState::SendingDone,
            FlowAction::SendDone,
        ),
        (FlowState::SendingHeaders, FlowEvent::SendFailed) => (
            FlowState::Stopped,
            FlowAction::Fail { error: FlowError::SendFailed },
        ),
        (FlowState::SendingDone, FlowEvent::Sent) => (
            FlowState::AwaitingRequest,
            FlowAction::Dequeue,
        ),
        (FlowState::SendingDone, FlowEvent::SendFailed) => (
            FlowState::Stopped,
            FlowAction::Fail { error: FlowError::SendFailed },
        ),
        _ => (FlowState::Stopped, FlowAction::Fail { error: FlowError::UnexpectedEvent }),
    }
}

} // verus!
