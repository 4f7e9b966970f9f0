use chain_sync::justifications::{PendingJustification, PendingJustifications};
use chain_sync::peers::{PeerSync, PeerSyncState, Peers};
use chain_sync::primitives::{
    Action, BlockAttributes, BlockHash, BlockRequest, Direction, Fault, FromBlock, Severity,
};
use std::collections::VecDeque;

fn hash(n: u64) -> BlockHash {
    BlockHash(0, 0, 0, n)
}

fn req(n: u64) -> PendingJustification {
    PendingJustification { hash: hash(n), number: n }
}

fn peer(who: usize, best: u64, state: PeerSyncState) -> PeerSync {
    PeerSync {
        who,
        common_number: 0,
        best_hash: hash(best),
        best_number: best,
        state,
        recently_announced: VecDeque::new(),
    }
}

fn peers(list: &[(usize, u64)]) -> Peers {
    let mut p = Peers::new();
    for (who, best) in list {
        p.insert(peer(*who, *best, PeerSyncState::Available));
    }
    p
}

fn send(to: usize, n: u64) -> Action {
    Action::Send {
        to,
        request: BlockRequest {
            id: 0,
            fields: BlockAttributes { header: false, body: false, justification: true },
            from: FromBlock::Hash(hash(n)),
            to: None,
            direction: Direction::Ascending,
            max: Some(1),
        },
    }
}

fn state_of(p: &Peers, who: usize) -> PeerSyncState {
    p.get(p.position(who).unwrap()).state
}

#[test]
fn a_request_is_queued_once() {
    let mut j = PendingJustifications::new();
    j.queue_request(&req(5));
    j.queue_request(&req(6));
    j.queue_request(&req(5));
    assert_eq!(j.queued(), vec![req(5), req(6)]);
    assert!(j.is_requested(&req(5)));
    assert!(!j.is_requested(&req(7)));
}

#[test]
fn dispatch_with_an_empty_queue_does_nothing() {
    let mut j = PendingJustifications::new();
    let mut p = peers(&[(1, 10)]);
    let mut outbox = Vec::new();
    j.dispatch(&mut p, 0, &mut outbox);
    assert!(outbox.is_empty());
    assert_eq!(state_of(&p, 1), PeerSyncState::Available);
}

#[test]
fn requests_go_to_peers_in_turn() {
    let mut j = PendingJustifications::new();
    for n in [1, 2, 3] {
        j.queue_request(&req(n));
    }
    let mut p = peers(&[(10, 100), (11, 100)]);
    let mut outbox = Vec::new();
    j.dispatch(&mut p, 0, &mut outbox);
    assert_eq!(outbox, vec![send(10, 1), send(11, 2)]);
    assert_eq!(j.queued(), vec![req(3)]);
    assert_eq!(j.request_of(10), Some(req(1)));
    assert_eq!(j.request_of(11), Some(req(2)));
    assert_eq!(state_of(&p, 10), PeerSyncState::DownloadingJustification(hash(1)));
    assert_eq!(state_of(&p, 11), PeerSyncState::DownloadingJustification(hash(2)));

    // both peers are busy now
    let mut outbox = Vec::new();
    j.dispatch(&mut p, 0, &mut outbox);
    assert!(outbox.is_empty());
    assert_eq!(j.queued(), vec![req(3)]);
}

#[test]
fn a_peer_is_asked_only_for_blocks_that_it_has() {
    let mut j = PendingJustifications::new();
    for n in [50, 5, 60, 7] {
        j.queue_request(&req(n));
    }
    let mut p = peers(&[(1, 10), (2, 55), (3, 8)]);
    let mut outbox = Vec::new();
    j.dispatch(&mut p, 0, &mut outbox);
    // 50 goes to the one peer that has it; 5 to the next in turn; nobody has
    // 60; 7 goes to the peer that was passed over
    assert_eq!(outbox, vec![send(2, 50), send(3, 5), send(1, 7)]);
    assert_eq!(j.queued(), vec![req(60)]);
}

#[test]
fn the_oldest_request_that_can_be_served_is_served_first() {
    let mut j = PendingJustifications::new();
    for n in [90, 80, 10, 20] {
        j.queue_request(&req(n));
    }
    let mut p = peers(&[(1, 30)]);
    let mut outbox = Vec::new();
    j.dispatch(&mut p, 0, &mut outbox);
    assert_eq!(outbox, vec![send(1, 10)]);
    // what nobody could serve goes behind what was not looked at
    assert_eq!(j.queued(), vec![req(20), req(90), req(80)]);
}

#[test]
fn busy_peers_are_not_candidates() {
    let mut j = PendingJustifications::new();
    j.queue_request(&req(1));
    let mut p = Peers::new();
    p.insert(peer(1, 10, PeerSyncState::DownloadingNew(1)));
    p.insert(peer(2, 10, PeerSyncState::AncestorSearch(3)));
    p.insert(peer(3, 10, PeerSyncState::DownloadingStale(hash(9))));
    let mut outbox = Vec::new();
    j.dispatch(&mut p, 0, &mut outbox);
    assert!(outbox.is_empty());
    assert_eq!(j.queued(), vec![req(1)]);
    p.insert(peer(4, 10, PeerSyncState::Available));
    j.dispatch(&mut p, 0, &mut outbox);
    assert_eq!(outbox, vec![send(4, 1)]);
}

#[test]
fn accepted_justification_settles_the_request() {
    let mut j = PendingJustifications::new();
    j.queue_request(&req(1));
    let mut p = peers(&[(1, 10)]);
    let mut outbox = Vec::new();
    j.dispatch(&mut p, 0, &mut outbox);
    let mut outbox = Vec::new();
    j.on_response(1, Some(true), 5, &mut outbox);
    assert!(outbox.is_empty());
    assert!(!j.is_requested(&req(1)));
    assert_eq!(j.request_of(1), None);
    assert!(j.queued().is_empty());
    // the request can be made again
    j.queue_request(&req(1));
    assert_eq!(j.queued(), vec![req(1)]);
}

#[test]
fn rejected_justification_is_bad_and_retried_first() {
    let mut j = PendingJustifications::new();
    j.queue_request(&req(1));
    j.queue_request(&req(2));
    let mut p = peers(&[(1, 10)]);
    let mut outbox = Vec::new();
    j.dispatch(&mut p, 0, &mut outbox);
    assert_eq!(j.queued(), vec![req(2)]);
    let mut outbox = Vec::new();
    j.on_response(1, Some(false), 5, &mut outbox);
    assert_eq!(outbox, vec![Action::Report { who: 1, fault: Fault::InvalidJustification }]);
    assert_eq!(Fault::InvalidJustification.severity(), Severity::Bad);
    assert_eq!(j.queued(), vec![req(1), req(2)]);
    assert!(j.is_requested(&req(1)));
    assert!(!j.refused(1, &req(1)));
}

#[test]
fn missing_justification_is_remembered_for_ten_seconds() {
    let mut j = PendingJustifications::new();
    j.queue_request(&req(1));
    let mut p = peers(&[(1, 10)]);
    let mut outbox = Vec::new();
    j.dispatch(&mut p, 100, &mut outbox);
    let mut outbox = Vec::new();
    j.on_response(1, None, 200, &mut outbox);
    // the peer is unhelpful, never bad, and the request is kept for a retry
    assert_eq!(outbox, vec![Action::Report { who: 1, fault: Fault::MissingJustification }]);
    assert_eq!(Fault::MissingJustification.severity(), Severity::Useless);
    assert!(j.refused(1, &req(1)));
    assert!(j.is_requested(&req(1)));
    assert_eq!(j.request_of(1), None);
    assert_eq!(j.queued(), vec![req(1)]);

    let mut p = peers(&[(1, 10)]);
    let mut outbox = Vec::new();
    j.dispatch(&mut p, 10_199, &mut outbox);
    assert!(outbox.is_empty());
    assert!(j.refused(1, &req(1)));
    j.dispatch(&mut p, 10_200, &mut outbox);
    assert_eq!(outbox, vec![send(1, 1)]);
    assert!(!j.refused(1, &req(1)));
}

#[test]
fn a_refusal_holds_for_that_request_only() {
    let mut j = PendingJustifications::new();
    j.queue_request(&req(1));
    let mut p = peers(&[(1, 10)]);
    let mut outbox = Vec::new();
    j.dispatch(&mut p, 0, &mut outbox);
    j.on_response(1, None, 0, &mut outbox);
    j.queue_request(&req(2));
    let mut p = peers(&[(1, 10)]);
    let mut outbox = Vec::new();
    j.dispatch(&mut p, 1, &mut outbox);
    assert_eq!(outbox, vec![send(1, 2)]);
    assert_eq!(j.queued(), vec![req(1)]);
}

#[test]
fn response_without_a_request_is_ignored() {
    let mut j = PendingJustifications::new();
    j.queue_request(&req(1));
    let mut outbox = Vec::new();
    j.on_response(4, Some(false), 0, &mut outbox);
    j.on_response(4, None, 0, &mut outbox);
    assert!(outbox.is_empty());
    assert_eq!(j.queued(), vec![req(1)]);
    assert!(!j.refused(4, &req(1)));
}

#[test]
fn disconnected_peer_gives_its_request_back_first() {
    let mut j = PendingJustifications::new();
    for n in [1, 2, 3] {
        j.queue_request(&req(n));
    }
    let mut p = peers(&[(1, 10), (2, 10)]);
    let mut outbox = Vec::new();
    j.dispatch(&mut p, 0, &mut outbox);
    assert_eq!(j.queued(), vec![req(3)]);
    j.peer_disconnected(2);
    assert_eq!(j.queued(), vec![req(2), req(3)]);
    assert_eq!(j.request_of(2), None);
    assert_eq!(j.request_of(1), Some(req(1)));
    j.peer_disconnected(2);
    assert_eq!(j.queued(), vec![req(2), req(3)]);
}

#[test]
fn garbage_collection_drops_finalized_requests() {
    let mut j = PendingJustifications::new();
    for n in [10, 20, 30, 40] {
        j.queue_request(&req(n));
    }
    let mut p = peers(&[(1, 100), (2, 100)]);
    let mut outbox = Vec::new();
    j.dispatch(&mut p, 0, &mut outbox);
    j.on_response(1, None, 0, &mut outbox);
    assert_eq!(j.queued(), vec![req(10), req(30), req(40)]);
    assert_eq!(j.request_of(2), Some(req(20)));
    j.collect_garbage(20);
    assert_eq!(j.queued(), vec![req(30), req(40)]);
    assert_eq!(j.request_of(2), None);
    assert!(!j.refused(1, &req(10)));
    assert!(!j.is_requested(&req(10)));
    assert!(!j.is_requested(&req(20)));
    assert!(j.is_requested(&req(30)));
    j.collect_garbage(29);
    assert_eq!(j.queued(), vec![req(30), req(40)]);
}
