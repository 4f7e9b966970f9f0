use chain_sync::justifications::PendingJustification;
use chain_sync::peers::PeerSyncState;
use chain_sync::primitives::{
    Action, BlockAttributes, BlockData, BlockHash, BlockOrigin, BlockRequest, BlockResponse,
    BlockStatus, ChainInfo, ClientError, ClientInfo, Direction, Fault, FromBlock, Header,
    IncomingBlock, PeerInfo, Roles, Severity,
};
use chain_sync::{block_status, is_known, ChainSync, PeerReport, Status, SyncState};

fn hash(n: u64) -> BlockHash {
    BlockHash(0, 0, 0, n)
}

fn fork(n: u64) -> BlockHash {
    BlockHash(0, 0, 1, n)
}

fn light() -> Roles {
    Roles { full: false, light: true, authority: false }
}

fn info(best: u64) -> ClientInfo {
    ClientInfo {
        chain: ChainInfo { genesis_hash: hash(0), best_hash: hash(best), best_number: best },
        best_queued_hash: None,
        best_queued_number: None,
    }
}

fn node_at(best: u64) -> ChainSync {
    ChainSync::new(Roles { full: true, light: false, authority: false }, &info(best))
}

fn block(n: u64) -> BlockData {
    BlockData {
        hash: hash(n),
        header: Some(Header { number: n, parent_hash: hash(n.wrapping_sub(1)) }),
        body: None,
        justification: None,
    }
}

fn incoming(n: u64, who: usize) -> IncomingBlock {
    IncomingBlock {
        hash: hash(n),
        header: Some(Header { number: n, parent_hash: hash(n.wrapping_sub(1)) }),
        body: None,
        justification: None,
        origin: Some(who),
    }
}

fn new_blocks(start: u64, max: u32) -> BlockRequest {
    BlockRequest {
        id: 0,
        fields: BlockAttributes { header: true, body: true, justification: true },
        from: FromBlock::Number(start),
        to: None,
        direction: Direction::Ascending,
        max: Some(max),
    }
}

fn stale(h: BlockHash, direction: Direction, max: u32) -> BlockRequest {
    BlockRequest {
        id: 0,
        fields: BlockAttributes { header: true, body: true, justification: true },
        from: FromBlock::Hash(h),
        to: None,
        direction,
        max: Some(max),
    }
}

fn justification_request(h: BlockHash) -> BlockRequest {
    BlockRequest {
        id: 0,
        fields: BlockAttributes { header: false, body: false, justification: true },
        from: FromBlock::Hash(h),
        to: None,
        direction: Direction::Ascending,
        max: Some(1),
    }
}

fn connect(sync: &mut ChainSync, who: usize, best: u64, status: BlockStatus, count: usize) -> Vec<Action> {
    let mut outbox = Vec::new();
    sync.new_peer(
        &mut outbox,
        who,
        Some(PeerInfo { best_hash: fork(best), best_number: best }),
        Ok(status),
        count,
    );
    outbox
}

fn state(sync: &ChainSync, who: usize) -> PeerSyncState {
    sync.peer(who).unwrap().state
}

#[test]
fn new_engine_reads_the_chain() {
    let sync = node_at(7);
    assert_eq!(sync.genesis_hash(), hash(0));
    assert_eq!(sync.best_queued_number(), 7);
    assert_eq!(sync.best_queued_hash(), hash(7));
    assert!(sync.connected_peers().is_empty());
    let queued = ClientInfo {
        best_queued_hash: Some(hash(12)),
        best_queued_number: Some(12),
        ..info(7)
    };
    let sync = ChainSync::new(light(), &queued);
    assert_eq!(sync.best_queued_number(), 12);
    assert_eq!(sync.best_queued_hash(), hash(12));
}

#[test]
fn required_attributes_follow_the_role() {
    let with_body = BlockAttributes { header: true, body: true, justification: true };
    let without = BlockAttributes { header: true, body: false, justification: true };
    assert_eq!(node_at(0).required_block_attributes(), with_body);
    assert_eq!(ChainSync::new(light(), &info(0)).required_block_attributes(), without);
    let authority = Roles { full: false, light: false, authority: true };
    assert_eq!(ChainSync::new(authority, &info(0)).required_block_attributes(), with_body);
}

#[test]
fn block_status_prefers_the_import_queue() {
    assert_eq!(block_status(true, Ok(BlockStatus::Unknown)), Ok(BlockStatus::Queued));
    assert_eq!(block_status(true, Err(ClientError)), Ok(BlockStatus::Queued));
    assert_eq!(block_status(false, Ok(BlockStatus::Unknown)), Ok(BlockStatus::Unknown));
    assert_eq!(block_status(false, Ok(BlockStatus::KnownBad)), Ok(BlockStatus::KnownBad));
    assert_eq!(block_status(false, Err(ClientError)), Err(ClientError));
}

#[test]
fn known_is_whatever_is_not_unknown() {
    assert!(is_known(&Ok(BlockStatus::InChain)));
    assert!(is_known(&Ok(BlockStatus::Queued)));
    assert!(is_known(&Ok(BlockStatus::KnownBad)));
    assert!(!is_known(&Ok(BlockStatus::Unknown)));
    assert!(!is_known(&Err(ClientError)));
}

#[test]
fn severity_of_each_fault() {
    for fault in [
        Fault::KnownBadBest,
        Fault::UnknownGenesis,
        Fault::GenesisMismatch,
        Fault::EmptyAncestry,
        Fault::JustificationMismatch,
        Fault::InvalidJustification,
    ] {
        assert_eq!(fault.severity(), Severity::Bad);
    }
    for fault in [
        Fault::StatusReadError,
        Fault::AncestryReadError,
        Fault::EmptyJustification,
        Fault::MissingJustification,
    ] {
        assert_eq!(fault.severity(), Severity::Useless);
    }
}

#[test]
fn status_is_downloading_when_far_behind() {
    let mut sync = node_at(100);
    assert_eq!(sync.status(), Status { state: SyncState::Idle, best_seen_block: None });
    connect(&mut sync, 1, 105, BlockStatus::InChain, 0);
    connect(&mut sync, 2, 90, BlockStatus::InChain, 0);
    let status = sync.status();
    assert_eq!(status, Status { state: SyncState::Idle, best_seen_block: Some(105) });
    assert!(!status.is_major_syncing());
    connect(&mut sync, 3, 106, BlockStatus::InChain, 0);
    let status = sync.status();
    assert_eq!(status, Status { state: SyncState::Downloading, best_seen_block: Some(106) });
    assert!(status.is_major_syncing());
    assert_eq!(sync.best_seen_block(), Some(106));
}

#[test]
fn new_peer_without_info_is_ignored() {
    let mut sync = node_at(10);
    let mut outbox = Vec::new();
    sync.new_peer(&mut outbox, 1, None, Ok(BlockStatus::InChain), 0);
    assert!(outbox.is_empty());
    assert!(sync.peer(1).is_none());
}

#[test]
fn new_peer_classification() {
    let mut sync = node_at(10);
    let mut outbox = Vec::new();
    let tip = Some(PeerInfo { best_hash: fork(20), best_number: 20 });
    sync.new_peer(&mut outbox, 1, tip, Err(ClientError), 0);
    sync.new_peer(&mut outbox, 2, tip, Ok(BlockStatus::KnownBad), 0);
    sync.new_peer(
        &mut outbox,
        3,
        Some(PeerInfo { best_hash: fork(0), best_number: 0 }),
        Ok(BlockStatus::Unknown),
        0,
    );
    assert_eq!(
        outbox,
        vec![
            Action::Report { who: 1, fault: Fault::StatusReadError },
            Action::Report { who: 2, fault: Fault::KnownBadBest },
            Action::Report { who: 3, fault: Fault::UnknownGenesis },
        ]
    );
    assert!(sync.connected_peers().is_empty());

    // the import queue holds more than five blocks: the best queued block is
    // taken to be common
    assert!(connect(&mut sync, 4, 20, BlockStatus::Unknown, 6).is_empty());
    assert_eq!(sync.peer(4).unwrap().common_number, 10);
    assert_eq!(state(&sync, 4), PeerSyncState::Available);
    // with five blocks in the queue the ancestor is searched
    assert_eq!(connect(&mut sync, 5, 8, BlockStatus::Unknown, 5).len(), 1);
    assert_eq!(state(&sync, 5), PeerSyncState::AncestorSearch(8));
    assert_eq!(sync.peer(5).unwrap().common_number, 0);

    assert!(connect(&mut sync, 6, 20, BlockStatus::Queued, 0).is_empty());
    assert!(connect(&mut sync, 7, 30, BlockStatus::InChain, 0).is_empty());
    assert_eq!(sync.peer(6).unwrap().common_number, 20);
    assert_eq!(sync.peer(7).unwrap().common_number, 30);
    assert_eq!(sync.peer(7).unwrap().best_hash, fork(30));
    assert_eq!(sync.connected_peers(), vec![4, 5, 6, 7]);
}

#[test]
fn downloaded_blocks_are_queued_in_order() {
    let mut sync = node_at(0);
    let mut outbox = Vec::new();
    sync.new_peer(
        &mut outbox,
        1,
        Some(PeerInfo { best_hash: hash(300), best_number: 300 }),
        Ok(BlockStatus::Unknown),
        0,
    );
    sync.new_peer(
        &mut outbox,
        2,
        Some(PeerInfo { best_hash: hash(300), best_number: 300 }),
        Ok(BlockStatus::Unknown),
        0,
    );
    assert_eq!(
        outbox,
        vec![
            Action::Send { to: 1, request: new_blocks(1, 128) },
            Action::Send { to: 2, request: new_blocks(129, 128) },
        ]
    );

    // the second range comes first and has to wait
    let mut outbox = Vec::new();
    let batch = sync.on_block_data(
        &mut outbox,
        2,
        &new_blocks(129, 128),
        BlockResponse { id: 0, blocks: (129..257).map(block).collect() },
        Ok(None),
    );
    assert_eq!(batch, Some((BlockOrigin::NetworkInitialSync, vec![])));
    assert!(outbox.is_empty());
    assert_eq!(state(&sync, 2), PeerSyncState::Available);
    assert_eq!(sync.best_queued_number(), 0);
    // the peer is asked for more when the synchronisation is maintained
    sync.maintain_sync(&mut outbox, 0, 0);
    assert_eq!(outbox, vec![Action::Send { to: 2, request: new_blocks(257, 44) }]);

    let mut outbox = Vec::new();
    let batch = sync.on_block_data(
        &mut outbox,
        1,
        &new_blocks(1, 128),
        BlockResponse { id: 0, blocks: (1..129).map(block).collect() },
        Ok(None),
    );
    let (origin, blocks) = batch.unwrap();
    assert_eq!(origin, BlockOrigin::NetworkInitialSync);
    assert_eq!(blocks.len(), 256);
    assert_eq!(blocks[0], incoming(1, 1));
    assert_eq!(blocks[127], incoming(128, 1));
    assert_eq!(blocks[128], incoming(129, 2));
    assert_eq!(blocks[255], incoming(256, 2));
    assert_eq!(sync.best_queued_number(), 256);
    assert_eq!(sync.best_queued_hash(), hash(256));
    // every peer shares the queued block now, and nothing is left to ask of peer 1
    assert_eq!(sync.peer(1).unwrap().common_number, 256);
    assert_eq!(state(&sync, 1), PeerSyncState::Available);
    assert_eq!(state(&sync, 2), PeerSyncState::DownloadingNew(257));
    assert!(outbox.is_empty());
}

#[test]
fn backpressure_holds_downloads_back() {
    let mut sync = node_at(0);
    assert!(connect(&mut sync, 1, 500, BlockStatus::InChain, 0).is_empty());
    let mut outbox = Vec::new();
    sync.block_queued(&hash(0), 0);
    sync.maintain_sync(&mut outbox, 0, 2049);
    assert!(outbox.is_empty());
    assert_eq!(state(&sync, 1), PeerSyncState::Available);
    sync.download_new(&mut outbox, 1, usize::MAX);
    assert!(outbox.is_empty());
    // justifications are not held back
    sync.request_justification(&mut outbox, &hash(3), 3, 0);
    assert_eq!(outbox, vec![Action::Send { to: 1, request: justification_request(hash(3)) }]);
    // at the limit itself downloads go on
    let mut sync = node_at(0);
    connect(&mut sync, 1, 500, BlockStatus::InChain, 0);
    sync.block_queued(&hash(0), 0);
    let mut outbox = Vec::new();
    sync.maintain_sync(&mut outbox, 0, 2048);
    assert_eq!(outbox, vec![Action::Send { to: 1, request: new_blocks(1, 128) }]);
}

#[test]
fn busy_peer_is_asked_for_nothing_more() {
    let mut sync = node_at(0);
    assert_eq!(connect(&mut sync, 1, 500, BlockStatus::Unknown, 0).len(), 1);
    let mut outbox = Vec::new();
    sync.download_new(&mut outbox, 1, 0);
    sync.download_stale(&mut outbox, 1, &fork(3));
    sync.download_unknown_stale(&mut outbox, 1, &fork(3));
    sync.download_new(&mut outbox, 9, 0);
    sync.maintain_sync(&mut outbox, 0, 0);
    assert!(outbox.is_empty());
    assert_eq!(state(&sync, 1), PeerSyncState::DownloadingNew(1));
}

#[test]
fn stale_download_is_handed_on_as_it_is() {
    let mut sync = node_at(100);
    connect(&mut sync, 1, 100, BlockStatus::InChain, 0);
    let mut outbox = Vec::new();
    sync.download_unknown_stale(&mut outbox, 1, &hash(95));
    assert_eq!(
        outbox,
        vec![Action::Send { to: 1, request: stale(hash(95), Direction::Descending, 32) }]
    );
    // the answer lists the blocks downwards; the batch lists them upwards
    let mut outbox = Vec::new();
    let batch = sync.on_block_data(
        &mut outbox,
        1,
        &stale(hash(95), Direction::Descending, 32),
        BlockResponse { id: 0, blocks: vec![block(95), block(94), block(93)] },
        Ok(None),
    );
    assert_eq!(
        batch,
        Some((BlockOrigin::NetworkInitialSync, vec![incoming(93, 1), incoming(94, 1), incoming(95, 1)]))
    );
    assert_eq!(sync.best_queued_number(), 100);
    // the block that was queued last is what the peers share with the node
    assert_eq!(sync.peer(1).unwrap().common_number, 95);
    assert!(outbox.is_empty());
    assert_eq!(state(&sync, 1), PeerSyncState::Available);
}

#[test]
fn announced_blocks_come_by_broadcast() {
    let mut sync = node_at(100);
    connect(&mut sync, 1, 100, BlockStatus::InChain, 0);
    connect(&mut sync, 2, 100, BlockStatus::InChain, 0);
    let mut outbox = Vec::new();
    sync.on_block_announce(
        &mut outbox,
        2,
        hash(101),
        &Header { number: 101, parent_hash: hash(100) },
        &Ok(BlockStatus::InChain),
        &Ok(BlockStatus::Unknown),
        0,
    );
    assert_eq!(outbox, vec![Action::Send { to: 2, request: new_blocks(101, 1) }]);
    assert_eq!(sync.peer(2).unwrap().best_number, 101);
    assert_eq!(sync.peer(2).unwrap().best_hash, hash(101));
    assert_eq!(sync.peer(2).unwrap().common_number, 100);
    let mut outbox = Vec::new();
    let batch = sync.on_block_data(
        &mut outbox,
        2,
        &new_blocks(101, 1),
        BlockResponse { id: 0, blocks: vec![block(101)] },
        Ok(None),
    );
    assert_eq!(batch, Some((BlockOrigin::NetworkBroadcast, vec![incoming(101, 2)])));
    assert_eq!(sync.best_queued_number(), 101);
    assert_eq!(sync.peer(1).unwrap().common_number, 100);
    assert_eq!(sync.peer(2).unwrap().common_number, 101);
}

#[test]
fn announcement_of_a_known_block_raises_the_common_block() {
    let mut sync = node_at(100);
    connect(&mut sync, 1, 50, BlockStatus::InChain, 0);
    let mut outbox = Vec::new();
    sync.on_block_announce(
        &mut outbox,
        1,
        hash(90),
        &Header { number: 90, parent_hash: hash(89) },
        &Ok(BlockStatus::Unknown),
        &Ok(BlockStatus::InChain),
        0,
    );
    assert!(outbox.is_empty());
    let peer = sync.peer(1).unwrap();
    assert_eq!((peer.common_number, peer.best_number), (90, 90));
    // an older announcement does not lower it
    sync.on_block_announce(
        &mut outbox,
        1,
        hash(60),
        &Header { number: 60, parent_hash: hash(59) },
        &Ok(BlockStatus::InChain),
        &Ok(BlockStatus::InChain),
        0,
    );
    assert!(outbox.is_empty());
    let peer = sync.peer(1).unwrap();
    assert_eq!((peer.common_number, peer.best_number), (90, 90));
    assert_eq!(peer.recently_announced.len(), 2);
}

#[test]
fn announcement_of_the_genesis_block_is_ignored() {
    let mut sync = node_at(100);
    connect(&mut sync, 1, 50, BlockStatus::InChain, 0);
    let mut outbox = Vec::new();
    sync.on_block_announce(
        &mut outbox,
        1,
        fork(0),
        &Header { number: 0, parent_hash: fork(0) },
        &Ok(BlockStatus::Unknown),
        &Ok(BlockStatus::Unknown),
        0,
    );
    sync.on_block_announce(
        &mut outbox,
        5,
        fork(7),
        &Header { number: 7, parent_hash: fork(6) },
        &Ok(BlockStatus::Unknown),
        &Ok(BlockStatus::Unknown),
        0,
    );
    assert!(outbox.is_empty());
    assert!(sync.peer(1).unwrap().recently_announced.is_empty());
}

#[test]
fn announcement_does_not_disturb_an_ancestor_search() {
    let mut sync = node_at(100);
    connect(&mut sync, 1, 50, BlockStatus::Unknown, 0);
    assert_eq!(state(&sync, 1), PeerSyncState::AncestorSearch(50));
    let mut outbox = Vec::new();
    sync.on_block_announce(
        &mut outbox,
        1,
        fork(120),
        &Header { number: 120, parent_hash: fork(119) },
        &Ok(BlockStatus::InChain),
        &Ok(BlockStatus::Unknown),
        0,
    );
    assert!(outbox.is_empty());
    let peer = sync.peer(1).unwrap();
    assert_eq!(peer.state, PeerSyncState::AncestorSearch(50));
    assert_eq!((peer.common_number, peer.best_number), (0, 120));
    assert_eq!(peer.recently_announced.len(), 1);
}

#[test]
fn announcements_are_kept_up_to_sixty_four() {
    let mut sync = node_at(1000);
    connect(&mut sync, 1, 1000, BlockStatus::InChain, 0);
    let mut outbox = Vec::new();
    for n in 1..=70u64 {
        sync.on_block_announce(
            &mut outbox,
            1,
            hash(n),
            &Header { number: n, parent_hash: hash(n - 1) },
            &Ok(BlockStatus::InChain),
            &Ok(BlockStatus::InChain),
            0,
        );
    }
    let peer = sync.peer(1).unwrap();
    assert_eq!(peer.recently_announced.len(), 64);
    assert_eq!(peer.recently_announced.front(), Some(&hash(7)));
    assert_eq!(peer.recently_announced.back(), Some(&hash(70)));
}

#[test]
fn announced_block_that_is_downloaded_is_not_asked_for_twice() {
    let mut sync = node_at(100);
    connect(&mut sync, 1, 100, BlockStatus::InChain, 0);
    connect(&mut sync, 2, 100, BlockStatus::InChain, 0);
    let header = Header { number: 99, parent_hash: hash(98) };
    let mut outbox = Vec::new();
    sync.on_block_announce(
        &mut outbox,
        1,
        fork(99),
        &header,
        &Ok(BlockStatus::InChain),
        &Ok(BlockStatus::Unknown),
        0,
    );
    assert_eq!(outbox.len(), 1);
    sync.on_block_announce(
        &mut outbox,
        2,
        fork(99),
        &header,
        &Ok(BlockStatus::InChain),
        &Ok(BlockStatus::Unknown),
        0,
    );
    assert_eq!(outbox.len(), 1);
    assert_eq!(state(&sync, 2), PeerSyncState::Available);
    // a child of the block that is being downloaded counts as one with a known parent
    sync.on_block_announce(
        &mut outbox,
        2,
        fork(100),
        &Header { number: 100, parent_hash: fork(99) },
        &Ok(BlockStatus::Unknown),
        &Ok(BlockStatus::Unknown),
        0,
    );
    assert_eq!(
        outbox[1],
        Action::Send { to: 2, request: stale(fork(100), Direction::Ascending, 1) }
    );
}

#[test]
fn block_queued_moves_the_common_blocks() {
    let mut sync = node_at(100);
    connect(&mut sync, 1, 150, BlockStatus::InChain, 0);
    connect(&mut sync, 2, 120, BlockStatus::Unknown, 0);
    assert_eq!(state(&sync, 2), PeerSyncState::AncestorSearch(100));
    sync.block_queued(&hash(130), 130);
    assert_eq!(sync.best_queued_number(), 130);
    assert_eq!(sync.best_queued_hash(), hash(130));
    assert_eq!(sync.peer(1).unwrap().common_number, 130);
    assert_eq!(sync.peer(2).unwrap().common_number, 120);
    assert_eq!(state(&sync, 2), PeerSyncState::Available);
    // a lower block does not lower the best queued one
    sync.update_chain_info(&hash(110), &Header { number: 110, parent_hash: hash(109) });
    assert_eq!(sync.best_queued_number(), 130);
    assert_eq!(sync.best_queued_hash(), hash(130));
    assert_eq!(sync.peer(1).unwrap().common_number, 110);
    sync.block_imported(&hash(110), 110);
    assert_eq!(sync.best_queued_number(), 130);
}

#[test]
fn justification_answers_that_are_wrong() {
    let mut sync = node_at(100);
    connect(&mut sync, 1, 100, BlockStatus::InChain, 0);
    connect(&mut sync, 2, 100, BlockStatus::InChain, 0);
    let mut outbox = Vec::new();
    sync.request_justification(&mut outbox, &hash(50), 50, 0);
    sync.request_justification(&mut outbox, &hash(51), 51, 0);
    assert_eq!(outbox.len(), 2);

    let mut outbox = Vec::new();
    sync.on_block_justification_data(
        &mut outbox,
        1,
        &justification_request(hash(50)),
        BlockResponse { id: 0, blocks: vec![] },
        0,
    );
    // an empty answer: the peer is unhelpful and available again, and its
    // request waits first in the queue for another attempt
    assert_eq!(outbox, vec![Action::Report { who: 1, fault: Fault::EmptyJustification }]);
    assert_eq!(state(&sync, 1), PeerSyncState::Available);
    assert_eq!(sync.justification_request_of(1), None);
    assert!(sync.is_justification_requested(&hash(50), 50));
    assert_eq!(
        sync.queued_justifications(),
        vec![PendingJustification { hash: hash(50), number: 50 }]
    );

    let mut outbox = Vec::new();
    sync.on_block_justification_data(
        &mut outbox,
        2,
        &justification_request(hash(51)),
        BlockResponse { id: 0, blocks: vec![block(77)] },
        0,
    );
    // an answer for another block: the same, but the peer is bad
    assert_eq!(outbox, vec![Action::Report { who: 2, fault: Fault::JustificationMismatch }]);
    assert_eq!(state(&sync, 2), PeerSyncState::Available);
    assert_eq!(sync.justification_request_of(2), None);
    assert_eq!(
        sync.queued_justifications(),
        vec![
            PendingJustification { hash: hash(51), number: 51 },
            PendingJustification { hash: hash(50), number: 50 },
        ]
    );
    // the next dispatch issues both again
    let mut outbox = Vec::new();
    sync.tick(&mut outbox, 0);
    assert_eq!(
        outbox,
        vec![
            Action::Send { to: 1, request: justification_request(hash(51)) },
            Action::Send { to: 2, request: justification_request(hash(50)) },
        ]
    );
}

#[test]
fn rejected_justification_goes_to_the_next_peer() {
    let mut sync = node_at(100);
    connect(&mut sync, 1, 100, BlockStatus::InChain, 0);
    connect(&mut sync, 2, 100, BlockStatus::InChain, 0);
    let mut outbox = Vec::new();
    sync.request_justification(&mut outbox, &hash(50), 50, 0);
    let mut answer = block(50);
    answer.justification = Some(vec![1]);
    let mut outbox = Vec::new();
    sync.on_block_justification_data(
        &mut outbox,
        1,
        &justification_request(hash(50)),
        BlockResponse { id: 0, blocks: vec![answer] },
        0,
    );
    assert_eq!(outbox.len(), 1);
    // nothing moves until the verdict is in
    assert_eq!(state(&sync, 1), PeerSyncState::DownloadingJustification(hash(50)));
    let mut outbox = Vec::new();
    sync.on_justification_import(&mut outbox, 1, false, 0);
    assert_eq!(outbox, vec![Action::Report { who: 1, fault: Fault::InvalidJustification }]);
    assert_eq!(state(&sync, 1), PeerSyncState::Available);
    assert_eq!(sync.justification_request_of(1), None);
    assert!(sync.is_justification_requested(&hash(50), 50));
    assert_eq!(
        sync.queued_justifications(),
        vec![PendingJustification { hash: hash(50), number: 50 }]
    );
    // a verdict for a peer that waits for none changes nothing
    let mut outbox = Vec::new();
    sync.on_justification_import(&mut outbox, 2, false, 0);
    sync.on_justification_import(&mut outbox, 9, true, 0);
    assert!(outbox.is_empty());
    assert_eq!(state(&sync, 2), PeerSyncState::Available);
}

#[test]
fn unexpected_block_data_yields_an_empty_batch() {
    let mut sync = node_at(100);
    connect(&mut sync, 1, 100, BlockStatus::InChain, 0);
    let mut outbox = Vec::new();
    let batch = sync.on_block_data(
        &mut outbox,
        1,
        &new_blocks(1, 1),
        BlockResponse { id: 0, blocks: vec![block(101)] },
        Ok(None),
    );
    assert_eq!(batch, Some((BlockOrigin::NetworkInitialSync, vec![])));
    let batch = sync.on_block_data(
        &mut outbox,
        8,
        &new_blocks(1, 1),
        BlockResponse { id: 0, blocks: vec![block(101)] },
        Ok(None),
    );
    assert_eq!(batch, Some((BlockOrigin::NetworkInitialSync, vec![])));
    assert!(outbox.is_empty());
    assert_eq!(sync.best_queued_number(), 100);
}

#[test]
fn disconnect_releases_what_the_peer_held() {
    let mut sync = node_at(0);
    assert_eq!(connect(&mut sync, 1, 100, BlockStatus::Unknown, 0).len(), 1);
    assert_eq!(sync.download_of(1).map(|d| (d.start, d.len)), Some((1, 100)));
    connect(&mut sync, 2, 100, BlockStatus::Unknown, 3000);
    assert_eq!(state(&sync, 2), PeerSyncState::Available);
    sync.peer_disconnected(1);
    assert!(sync.peer(1).is_none());
    assert_eq!(sync.download_of(1), None);
    assert_eq!(sync.connected_peers(), vec![2]);
    assert_eq!(state(&sync, 2), PeerSyncState::Available);
    // the range of the peer that left is asked of the other when the
    // synchronisation is maintained
    let mut outbox = Vec::new();
    sync.maintain_sync(&mut outbox, 0, 0);
    assert_eq!(outbox, vec![Action::Send { to: 2, request: new_blocks(1, 100) }]);
}

#[test]
fn disconnect_hands_the_justification_request_on() {
    let mut sync = node_at(100);
    connect(&mut sync, 1, 100, BlockStatus::InChain, 0);
    connect(&mut sync, 2, 100, BlockStatus::InChain, 0);
    let mut outbox = Vec::new();
    sync.request_justification(&mut outbox, &hash(50), 50, 0);
    assert_eq!(outbox, vec![Action::Send { to: 1, request: justification_request(hash(50)) }]);
    sync.request_justification(&mut outbox, &hash(60), 60, 0);
    sync.peer_disconnected(1);
    // the request of the peer that left is kept and is first in the queue
    assert_eq!(sync.justification_request_of(1), None);
    assert!(sync.is_justification_requested(&hash(50), 50));
    assert_eq!(state(&sync, 2), PeerSyncState::DownloadingJustification(hash(60)));
    assert_eq!(
        sync.queued_justifications(),
        vec![PendingJustification { hash: hash(50), number: 50 }]
    );
    sync.peer_disconnected(2);
    assert_eq!(
        sync.queued_justifications(),
        vec![
            PendingJustification { hash: hash(60), number: 60 },
            PendingJustification { hash: hash(50), number: 50 },
        ]
    );
    assert!(sync.connected_peers().is_empty());
    // a peer that connects is asked at the next dispatch
    connect(&mut sync, 3, 100, BlockStatus::InChain, 0);
    let mut outbox = Vec::new();
    sync.tick(&mut outbox, 0);
    assert_eq!(outbox, vec![Action::Send { to: 3, request: justification_request(hash(60)) }]);
}

#[test]
fn finalization_drops_old_requests() {
    let mut sync = node_at(100);
    let mut outbox = Vec::new();
    sync.request_justification(&mut outbox, &hash(50), 50, 0);
    sync.request_justification(&mut outbox, &hash(60), 60, 0);
    sync.request_justification(&mut outbox, &hash(70), 70, 0);
    assert!(outbox.is_empty());
    sync.block_finalized(&hash(60), 60);
    assert_eq!(
        sync.queued_justifications(),
        vec![PendingJustification { hash: hash(70), number: 70 }]
    );
    assert!(!sync.is_justification_requested(&hash(50), 50));
    assert!(!sync.is_justification_requested(&hash(60), 60));
    assert!(sync.is_justification_requested(&hash(70), 70));
}

#[test]
fn restart_reconnects_the_peers() {
    let mut sync = node_at(100);
    connect(&mut sync, 1, 150, BlockStatus::InChain, 0);
    connect(&mut sync, 2, 150, BlockStatus::InChain, 0);
    connect(&mut sync, 3, 150, BlockStatus::InChain, 0);
    let mut outbox = Vec::new();
    sync.block_queued(&hash(120), 120);
    sync.maintain_sync(&mut outbox, 0, 0);
    assert_eq!(outbox.len(), 1);
    assert_eq!(sync.best_queued_number(), 120);

    let reports = vec![
        PeerReport {
            who: 3,
            info: PeerInfo { best_hash: fork(150), best_number: 150 },
            status: Ok(BlockStatus::Unknown),
        },
        PeerReport {
            who: 1,
            info: PeerInfo { best_hash: hash(90), best_number: 90 },
            status: Ok(BlockStatus::InChain),
        },
    ];
    let mut outbox = Vec::new();
    sync.restart(&mut outbox, Ok(info(100)), &reports, 0);
    assert_eq!(sync.best_queued_number(), 100);
    assert_eq!(sync.best_queued_hash(), hash(100));
    // peer 2 has no report and stays away
    assert_eq!(sync.connected_peers(), vec![1, 3]);
    assert_eq!(state(&sync, 1), PeerSyncState::Available);
    assert_eq!(sync.peer(1).unwrap().common_number, 90);
    assert_eq!(state(&sync, 3), PeerSyncState::AncestorSearch(100));
    assert_eq!(outbox.len(), 1);
    assert_eq!(sync.download_of(1), None);

    // where the chain cannot be read the node starts from the genesis block
    let mut outbox = Vec::new();
    sync.restart(&mut outbox, Err(ClientError), &reports, 0);
    assert_eq!(sync.best_queued_number(), 0);
    assert_eq!(sync.best_queued_hash(), hash(0));
    assert_eq!(state(&sync, 3), PeerSyncState::DownloadingNew(1));
}

#[test]
fn clear_forgets_peers_and_blocks() {
    let mut sync = node_at(0);
    connect(&mut sync, 1, 100, BlockStatus::Unknown, 0);
    sync.clear();
    assert!(sync.connected_peers().is_empty());
    assert_eq!(sync.status(), Status { state: SyncState::Idle, best_seen_block: None });
    assert_eq!(sync.best_queued_number(), 0);
}

#[test]
fn mid_sync_peer_may_have_a_common_block_above_its_best() {
    // the one way in which a common block gets above the best block of a peer
    let mut sync = node_at(100);
    assert!(connect(&mut sync, 1, 50, BlockStatus::Unknown, 6).is_empty());
    let peer = sync.peer(1).unwrap();
    assert_eq!((peer.common_number, peer.best_number), (100, 50));
    sync.block_queued(&hash(101), 101);
    let peer = sync.peer(1).unwrap();
    assert_eq!((peer.common_number, peer.best_number), (50, 50));
}
