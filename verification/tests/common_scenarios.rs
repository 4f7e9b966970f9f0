use chain_sync::justifications::PendingJustification;
use chain_sync::peers::PeerSyncState;
use chain_sync::primitives::{
    Action, BlockAttributes, BlockData, BlockHash, BlockOrigin, BlockRequest, BlockResponse,
    BlockStatus, ChainInfo, ClientError, ClientInfo, Direction, Fault, FromBlock, Header,
    PeerInfo, Roles, Severity,
};
use chain_sync::ChainSync;

fn hash(n: u64) -> BlockHash {
    BlockHash(0, 0, 0, n)
}

fn fork(n: u64) -> BlockHash {
    BlockHash(0, 0, 1, n)
}

fn full() -> Roles {
    Roles { full: true, light: false, authority: false }
}

fn all_attributes() -> BlockAttributes {
    BlockAttributes { header: true, body: true, justification: true }
}

fn node_at(best: u64) -> ChainSync {
    let info = ClientInfo {
        chain: ChainInfo { genesis_hash: hash(0), best_hash: hash(best), best_number: best },
        best_queued_hash: None,
        best_queued_number: None,
    };
    ChainSync::new(full(), &info)
}

fn block(h: BlockHash, number: u64, parent: BlockHash) -> BlockData {
    BlockData {
        hash: h,
        header: Some(Header { number, parent_hash: parent }),
        body: Some(vec![vec![1, 2, 3]]),
        justification: None,
    }
}

fn request(from: FromBlock, direction: Direction, max: u32) -> BlockRequest {
    BlockRequest { id: 0, fields: all_attributes(), from, to: None, direction, max: Some(max) }
}

fn ancestry(n: u64) -> BlockRequest {
    BlockRequest {
        id: 0,
        fields: BlockAttributes { header: true, body: false, justification: true },
        from: FromBlock::Number(n),
        to: None,
        direction: Direction::Ascending,
        max: Some(1),
    }
}

fn justification_request(h: BlockHash) -> BlockRequest {
    BlockRequest {
        id: 0,
        fields: BlockAttributes { header: false, body: false, justification: true },
        from: FromBlock::Hash(h),
        to: None,
        direction: Direction::Ascending,
        max: Some(1),
    }
}

fn connect_known(sync: &mut ChainSync, who: usize, best: u64) {
    let mut outbox = Vec::new();
    sync.new_peer(
        &mut outbox,
        who,
        Some(PeerInfo { best_hash: hash(best), best_number: best }),
        Ok(BlockStatus::InChain),
        0,
    );
    assert!(outbox.is_empty());
}

#[test]
fn fresh_node_one_peer_ahead() {
    let mut sync = node_at(0);
    let mut outbox = Vec::new();
    sync.new_peer(
        &mut outbox,
        1,
        Some(PeerInfo { best_hash: fork(10), best_number: 10 }),
        Ok(BlockStatus::Unknown),
        0,
    );
    assert_eq!(
        outbox,
        vec![Action::Send {
            to: 1,
            request: request(FromBlock::Number(1), Direction::Ascending, 10),
        }]
    );
    let peer = sync.peer(1).unwrap();
    assert_eq!(peer.common_number, 0);
    assert_eq!(peer.best_number, 10);
    assert_eq!(peer.state, PeerSyncState::DownloadingNew(1));
    let download = sync.download_of(1).unwrap();
    assert_eq!((download.start, download.len), (1, 10));
}

#[test]
fn fresh_node_request_is_capped() {
    let mut sync = node_at(0);
    let mut outbox = Vec::new();
    sync.new_peer(
        &mut outbox,
        1,
        Some(PeerInfo { best_hash: fork(1000), best_number: 1000 }),
        Ok(BlockStatus::Unknown),
        0,
    );
    assert_eq!(
        outbox,
        vec![Action::Send {
            to: 1,
            request: request(FromBlock::Number(1), Direction::Ascending, 128),
        }]
    );
}

#[test]
fn ancestor_search_descends_until_match() {
    let mut sync = node_at(20);
    let mut outbox = Vec::new();
    sync.new_peer(
        &mut outbox,
        2,
        Some(PeerInfo { best_hash: fork(20), best_number: 20 }),
        Ok(BlockStatus::Unknown),
        0,
    );
    assert_eq!(outbox, vec![Action::Send { to: 2, request: ancestry(20) }]);
    assert_eq!(sync.peer(2).unwrap().state, PeerSyncState::AncestorSearch(20));
    assert_eq!(sync.peer(2).unwrap().common_number, 0);

    // heights 20 down to 16 differ, height 15 is shared
    for n in (16..=20u64).rev() {
        assert_eq!(sync.ancestor_search_height(2), Some(n));
        let mut outbox = Vec::new();
        let batch = sync.on_block_data(
            &mut outbox,
            2,
            &ancestry(n),
            BlockResponse { id: 0, blocks: vec![block(fork(n), n, fork(n - 1))] },
            Ok(Some(hash(n))),
        );
        assert_eq!(batch, None);
        assert_eq!(outbox, vec![Action::Send { to: 2, request: ancestry(n - 1) }]);
        assert_eq!(sync.peer(2).unwrap().state, PeerSyncState::AncestorSearch(n - 1));
    }
    let mut outbox = Vec::new();
    let batch = sync.on_block_data(
        &mut outbox,
        2,
        &ancestry(15),
        BlockResponse { id: 0, blocks: vec![block(hash(15), 15, hash(14))] },
        Ok(Some(hash(15))),
    );
    // the ancestor is found: no block for import, nobody reported, nothing sent
    assert_eq!(batch, Some((BlockOrigin::NetworkInitialSync, vec![])));
    assert!(outbox.is_empty());
    assert_eq!(sync.peer(2).unwrap().common_number, 15);
    assert_eq!(sync.peer(2).unwrap().state, PeerSyncState::Available);
    assert_eq!(sync.download_of(2), None);
    // the download starts when the synchronisation is maintained
    sync.maintain_sync(&mut outbox, 0, 0);
    assert_eq!(
        outbox,
        vec![Action::Send {
            to: 2,
            request: request(FromBlock::Number(16), Direction::Ascending, 5),
        }]
    );
    assert_eq!(sync.peer(2).unwrap().state, PeerSyncState::DownloadingNew(16));
}

#[test]
fn justification_round_trip() {
    let mut sync = node_at(100);
    connect_known(&mut sync, 1, 150);
    // nothing to download from that peer: it is in the chain up to its best
    let mut outbox = Vec::new();
    sync.request_justification(&mut outbox, &hash(50), 50, 0);
    assert_eq!(outbox, vec![Action::Send { to: 1, request: justification_request(hash(50)) }]);
    assert_eq!(sync.peer(1).unwrap().state, PeerSyncState::DownloadingJustification(hash(50)));
    assert_eq!(
        sync.justification_request_of(1),
        Some(PendingJustification { hash: hash(50), number: 50 })
    );

    let mut answer = block(hash(50), 50, hash(49));
    answer.justification = Some(vec![7, 7]);
    let mut outbox = Vec::new();
    sync.on_block_justification_data(
        &mut outbox,
        1,
        &justification_request(hash(50)),
        BlockResponse { id: 0, blocks: vec![answer] },
        5,
    );
    assert_eq!(
        outbox,
        vec![Action::ImportJustification {
            who: 1,
            hash: hash(50),
            number: 50,
            justification: vec![7, 7],
        }]
    );
    let mut outbox = Vec::new();
    sync.on_justification_import(&mut outbox, 1, true, 5);
    assert!(outbox.is_empty());
    assert_eq!(sync.peer(1).unwrap().state, PeerSyncState::Available);
    assert_eq!(sync.justification_request_of(1), None);
    assert!(!sync.is_justification_requested(&hash(50), 50));
    assert!(sync.queued_justifications().is_empty());
}

#[test]
fn justification_retry_window() {
    let mut sync = node_at(100);
    connect_known(&mut sync, 1, 150);
    connect_known(&mut sync, 2, 150);
    let mut outbox = Vec::new();
    sync.request_justification(&mut outbox, &hash(50), 50, 1_000);
    assert_eq!(outbox, vec![Action::Send { to: 1, request: justification_request(hash(50)) }]);

    // peer 1 has no justification: it is unhelpful, the request is kept and
    // waits first in the queue
    let mut outbox = Vec::new();
    sync.on_block_justification_data(
        &mut outbox,
        1,
        &justification_request(hash(50)),
        BlockResponse { id: 0, blocks: vec![block(hash(50), 50, hash(49))] },
        2_000,
    );
    assert_eq!(outbox, vec![Action::Report { who: 1, fault: Fault::MissingJustification }]);
    assert_eq!(Fault::MissingJustification.severity(), Severity::Useless);
    assert_eq!(sync.peer(1).unwrap().state, PeerSyncState::Available);
    assert_eq!(sync.justification_request_of(1), None);
    assert!(sync.is_justification_requested(&hash(50), 50));
    assert_eq!(
        sync.queued_justifications(),
        vec![PendingJustification { hash: hash(50), number: 50 }]
    );
    // within the window the dispatch asks peer 2, not peer 1
    let mut outbox = Vec::new();
    sync.tick(&mut outbox, 2_000);
    assert_eq!(outbox, vec![Action::Send { to: 2, request: justification_request(hash(50)) }]);
    assert_eq!(sync.peer(1).unwrap().state, PeerSyncState::Available);
    assert_eq!(sync.peer(2).unwrap().state, PeerSyncState::DownloadingJustification(hash(50)));

    // peer 2 has none either: within the window of both nobody is asked
    let mut outbox = Vec::new();
    sync.on_block_justification_data(
        &mut outbox,
        2,
        &justification_request(hash(50)),
        BlockResponse { id: 0, blocks: vec![block(hash(50), 50, hash(49))] },
        3_000,
    );
    assert_eq!(outbox, vec![Action::Report { who: 2, fault: Fault::MissingJustification }]);
    assert_eq!(
        sync.queued_justifications(),
        vec![PendingJustification { hash: hash(50), number: 50 }]
    );
    let mut outbox = Vec::new();
    sync.tick(&mut outbox, 11_999);
    assert!(outbox.is_empty());

    // eleven seconds after its answer peer 1 is eligible again, peer 2 is not yet
    let mut outbox = Vec::new();
    sync.tick(&mut outbox, 12_000);
    assert_eq!(outbox, vec![Action::Send { to: 1, request: justification_request(hash(50)) }]);
    assert_eq!(sync.peer(2).unwrap().state, PeerSyncState::Available);
}

#[test]
fn stale_announce_with_known_parent() {
    let mut sync = node_at(100);
    connect_known(&mut sync, 1, 100);
    let mut outbox = Vec::new();
    sync.on_block_announce(
        &mut outbox,
        1,
        fork(99),
        &Header { number: 99, parent_hash: hash(98) },
        &Ok(BlockStatus::InChain),
        &Ok(BlockStatus::Unknown),
        0,
    );
    assert_eq!(
        outbox,
        vec![Action::Send {
            to: 1,
            request: request(FromBlock::Hash(fork(99)), Direction::Ascending, 1),
        }]
    );
    assert_eq!(sync.peer(1).unwrap().state, PeerSyncState::DownloadingStale(fork(99)));
    assert!(sync.is_already_downloading(&fork(99)));
}

#[test]
fn unknown_fork_announce() {
    let mut sync = node_at(100);
    connect_known(&mut sync, 1, 100);
    let mut outbox = Vec::new();
    sync.on_block_announce(
        &mut outbox,
        1,
        fork(95),
        &Header { number: 95, parent_hash: fork(94) },
        &Ok(BlockStatus::Unknown),
        &Ok(BlockStatus::Unknown),
        0,
    );
    assert_eq!(
        outbox,
        vec![Action::Send {
            to: 1,
            request: request(FromBlock::Hash(fork(95)), Direction::Descending, 32),
        }]
    );
    assert_eq!(sync.peer(1).unwrap().state, PeerSyncState::DownloadingStale(fork(95)));
}

#[test]
fn ancestor_search_genesis_mismatch_is_bad() {
    let mut sync = node_at(1);
    let mut outbox = Vec::new();
    sync.new_peer(
        &mut outbox,
        3,
        Some(PeerInfo { best_hash: fork(1), best_number: 1 }),
        Ok(BlockStatus::Unknown),
        0,
    );
    assert_eq!(outbox, vec![Action::Send { to: 3, request: ancestry(1) }]);
    let mut outbox = Vec::new();
    let batch = sync.on_block_data(
        &mut outbox,
        3,
        &ancestry(1),
        BlockResponse { id: 0, blocks: vec![block(fork(1), 1, fork(0))] },
        Ok(Some(hash(1))),
    );
    assert_eq!(batch, None);
    assert_eq!(outbox, vec![Action::Send { to: 3, request: ancestry(0) }]);
    let mut outbox = Vec::new();
    let batch = sync.on_block_data(
        &mut outbox,
        3,
        &ancestry(0),
        BlockResponse { id: 0, blocks: vec![block(fork(0), 0, fork(0))] },
        Ok(Some(hash(0))),
    );
    assert_eq!(batch, None);
    assert_eq!(outbox, vec![Action::Report { who: 3, fault: Fault::GenesisMismatch }]);
}

#[test]
fn ancestor_search_faults() {
    let mut sync = node_at(20);
    let mut outbox = Vec::new();
    sync.new_peer(
        &mut outbox,
        2,
        Some(PeerInfo { best_hash: fork(30), best_number: 30 }),
        Ok(BlockStatus::Unknown),
        0,
    );
    assert_eq!(sync.peer(2).unwrap().state, PeerSyncState::AncestorSearch(20));
    let mut outbox = Vec::new();
    let batch = sync.on_block_data(
        &mut outbox,
        2,
        &ancestry(20),
        BlockResponse { id: 0, blocks: vec![] },
        Ok(Some(hash(20))),
    );
    assert_eq!(batch, None);
    assert_eq!(outbox, vec![Action::Report { who: 2, fault: Fault::EmptyAncestry }]);
    let mut outbox = Vec::new();
    let batch = sync.on_block_data(
        &mut outbox,
        2,
        &ancestry(20),
        BlockResponse { id: 0, blocks: vec![block(fork(20), 20, fork(19))] },
        Err(ClientError),
    );
    assert_eq!(batch, None);
    assert_eq!(outbox, vec![Action::Report { who: 2, fault: Fault::AncestryReadError }]);
    assert_eq!(sync.peer(2).unwrap().state, PeerSyncState::AncestorSearch(20));
}
