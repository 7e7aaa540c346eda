use block_pipeline::anticone::anticone_query_limit;
use block_pipeline::anticone::checked_anticone_query_limit;
use block_pipeline::anticone::is_sorted_by_blue_work;
use block_pipeline::anticone::sort_by_blue_work;
use block_pipeline::anticone::start;
use block_pipeline::anticone::step;
use block_pipeline::anticone::FlowAction;
use block_pipeline::anticone::FlowError;
use block_pipeline::anticone::FlowEvent;
use block_pipeline::anticone::FlowState;
use block_pipeline::anticone::HeaderEntry;
use block_pipeline::types::BlockHash;
use block_pipeline::types::BlueWork;

fn entry(id: u64, work: u64) -> HeaderEntry {
    HeaderEntry { hash: BlockHash::from_u64_word(id), blue_work: BlueWork::from_u64(work) }
}

#[test]
fn sort_orders_by_ascending_blue_work() {
    let input = vec![entry(1, 30), entry(2, 10), entry(3, 20)];
    let out = sort_by_blue_work(&input);
    assert_eq!(out, vec![entry(2, 10), entry(3, 20), entry(1, 30)]);
    assert!(is_sorted_by_blue_work(&out));
}

#[test]
fn sort_is_stable_for_equal_blue_work() {
    let input = vec![entry(1, 5), entry(2, 3), entry(3, 5), entry(4, 3), entry(5, 5)];
    let out = sort_by_blue_work(&input);
    assert_eq!(out, vec![entry(2, 3), entry(4, 3), entry(1, 5), entry(3, 5), entry(5, 5)]);
}

#[test]
fn sort_compares_all_limbs() {
    let heavy = HeaderEntry {
        hash: BlockHash::from_u64_word(1),
        blue_work: BlueWork { hi: 1, mid: 0, lo: 0 },
    };
    let light = entry(2, u64::MAX);
    let out = sort_by_blue_work(&vec![heavy, light]);
    assert_eq!(out, vec![light, heavy]);
}

#[test]
fn sort_of_empty_and_single() {
    assert_eq!(sort_by_blue_work(&vec![]), vec![]);
    assert_eq!(sort_by_blue_work(&vec![entry(1, 1)]), vec![entry(1, 1)]);
}

#[test]
fn out_of_order_response_is_detected() {
    assert!(is_sorted_by_blue_work(&vec![]));
    assert!(is_sorted_by_blue_work(&vec![entry(1, 1), entry(2, 1), entry(3, 2)]));
    assert!(!is_sorted_by_blue_work(&vec![entry(1, 1), entry(2, 3), entry(3, 2)]));
}

#[test]
fn query_limit_is_twice_the_mergeset_limit() {
    assert_eq!(anticone_query_limit(180), 360);
    assert_eq!(anticone_query_limit(0), 0);
    assert_eq!(checked_anticone_query_limit(248), Some(496));
    assert_eq!(checked_anticone_query_limit(u64::MAX / 2), Some(u64::MAX - 1));
    assert_eq!(checked_anticone_query_limit(u64::MAX / 2 + 1), None);
}

#[test]
fn flow_answers_a_request_and_waits_for_the_next() {
    let block = BlockHash::from_u64_word(7);
    let context = BlockHash::from_u64_word(8);
    let (state, action) = start();
    assert_eq!(state, FlowState::AwaitingRequest);
    assert_eq!(action, FlowAction::Dequeue);

    let (state, action) = step(state, FlowEvent::Request { block, context }, 180);
    assert_eq!(state, FlowState::AwaitingAnticone);
    assert_eq!(action, FlowAction::QueryAnticone { block, context, limit: 360 });

    let hashes = vec![BlockHash::from_u64_word(1), BlockHash::from_u64_word(2)];
    let (state, action) = step(state, FlowEvent::Anticone { hashes: hashes.clone() }, 180);
    assert_eq!(state, FlowState::AwaitingHeaders);
    assert_eq!(action, FlowAction::FetchHeaders { hashes });

    let headers = vec![entry(1, 9), entry(2, 4)];
    let (state, action) = step(state, FlowEvent::Headers { headers }, 180);
    assert_eq!(state, FlowState::SendingHeaders);
    assert_eq!(action, FlowAction::SendHeaders { headers: vec![entry(2, 4), entry(1, 9)] });

    let (state, action) = step(state, FlowEvent::Sent, 180);
    assert_eq!(state, FlowState::SendingDone);
    assert_eq!(action, FlowAction::SendDone);

    let (state, action) = step(state, FlowEvent::Sent, 180);
    assert_eq!(state, FlowState::AwaitingRequest);
    assert_eq!(action, FlowAction::Dequeue);
}

#[test]
fn flow_answers_an_empty_anticone_with_empty_headers_and_done() {
    let (state, action) = step(FlowState::AwaitingAnticone, FlowEvent::Anticone { hashes: vec![] }, 10);
    assert_eq!(action, FlowAction::FetchHeaders { hashes: vec![] });
    let (state, action) = step(state, FlowEvent::Headers { headers: vec![] }, 10);
    assert_eq!(action, FlowAction::SendHeaders { headers: vec![] });
    let (state, action) = step(state, FlowEvent::Sent, 10);
    assert_eq!(state, FlowState::SendingDone);
    assert_eq!(action, FlowAction::SendDone);
}

#[test]
fn flow_stops_on_each_failure() {
    let cases = vec![
        (FlowState::AwaitingRequest, FlowEvent::Malformed, FlowError::MalformedRequest),
        (FlowState::AwaitingRequest, FlowEvent::RouteClosed, FlowError::RouteClosed),
        (FlowState::AwaitingAnticone, FlowEvent::LookupFailed, FlowError::ConsensusFailure),
        (FlowState::AwaitingHeaders, FlowEvent::LookupFailed, FlowError::ConsensusFailure),
        (FlowState::SendingHeaders, FlowEvent::SendFailed, FlowError::SendFailed),
        (FlowState::SendingDone, FlowEvent::SendFailed, FlowError::SendFailed),
        (FlowState::AwaitingRequest, FlowEvent::Sent, FlowError::UnexpectedEvent),
        (FlowState::Stopped, FlowEvent::Sent, FlowError::UnexpectedEvent),
        (FlowState::SendingDone, FlowEvent::Malformed, FlowError::UnexpectedEvent),
    ];
    for (state, event, error) in cases {
        let (next, action) = step(state, event, 10);
        assert_eq!(next, FlowState::Stopped);
        assert_eq!(action, FlowAction::Fail { error });
    }
}
