//! The chain synchronisation engine. Every entry point takes the event and
//! what the local node observed (the time, the load of the import queue, what
//! the chain knows of a block), changes the state, and appends the effects to
//! perform to an outbox, in order.

use crate::accounting::{
    lemma_accounted_kept, lemma_answering, lemma_block_finalized_accounted,
    lemma_block_queued_accounted, lemma_connected_accounted, lemma_connected_outsiders,
    lemma_dispatch_accounted, lemma_download_finished_accounted, lemma_download_new_accounted,
    lemma_maintain_sync_accounted, lemma_new_peer_accounted, lemma_released_accounted,
    lemma_request_justification_accounted, lemma_request_stale_accounted,
    lemma_same_tips_outsiders,
};
use crate::blocks::{lemma_released_downloads, BlockCollection, Download};
use crate::invariants::{
    lemma_answered, lemma_block_finalized, lemma_block_queued, lemma_connected, lemma_dispatch,
    lemma_download_new, lemma_maintain_sync, lemma_released, lemma_request_justification,
    lemma_request_stale,
};
use crate::justifications::{is_first_request, PendingJustification, PendingJustifications};
use crate::model::{
    is_first_report, outruns, report_for, spec_block_status, spec_is_known, PeerReport, Status,
    SyncState, SyncView,
};
use crate::peers::{
    is_first_peer, lemma_peer_index_found, peer_index, PeerSync, PeerSyncState, Peers,
};
use crate::primitives::{
    ancestry_request, into_incoming, reversed, Action, BlockAttributes, BlockHash, BlockNumber,
    BlockOrigin, BlockRequest, BlockResponse, BlockStatus, ClientError, ClientInfo, Direction,
    Fault, FromBlock, Header, IncomingBlock, PeerId, PeerInfo, Roles, MAJOR_SYNC_BLOCKS,
    MAX_BLOCKS_TO_REQUEST, MAX_IMPORTING_BLOCKS, MAX_UNKNOWN_FORK_DOWNLOAD_LEN,
};
use std::collections::VecDeque;
use vstd::prelude::*;

verus! {

/// Relay chain sync strategy.
pub struct ChainSync {
    genesis_hash: BlockHash,
    peers: Peers,
    blocks: BlockCollection,
    best_queued_number: BlockNumber,
    best_queued_hash: BlockHash,
    required_block_attributes: BlockAttributes,
    justifications: PendingJustifications,
}

impl View for ChainSync {
    type V = SyncView;

    closed spec fn view(&self) -> SyncView {
        SyncView {
            genesis_hash: self.genesis_hash,
            peers: self.peers@,
            blocks: self.blocks@,
            best_queued_number: self.best_queued_number,
            best_queued_hash: self.best_queued_hash,
            required_block_attributes: self.required_block_attributes,
            justifications: self.justifications@,
        }
    }
}

/// Get block status, taking into account import queue: a block that the
/// queue is importing is queued, whatever the chain says.
pub fn block_status(importing: bool, chain: Result<BlockStatus, ClientError>) -> (r: Result<
    BlockStatus,
    ClientError,
>)
    ensures
        r == spec_block_status(importing, chain),
{
    if importing {
        return Ok(BlockStatus::Queued);
    }
    chain
}

/// Whether a block with this status is known to the node.
pub fn is_known(status: &Result<BlockStatus, ClientError>) -> (b: bool)
    ensures
        b == spec_is_known(*status),
{
    match status {
        Ok(s) => match s {
            BlockStatus::Unknown => false,
            _ => true,
        },
        Err(_) => false,
    }
}

impl ChainSync {
    /// Create a new instance.
    pub fn new(role: Roles, info: &ClientInfo) -> (sync: ChainSync)
        ensures
            sync@ == SyncView::init(role, *info),
            sync@.wf(),
            sync@.tips_ordered(),
            sync@.accounted(),
    {
        let required_block_attributes = BlockAttributes {
            header: true,
            body: role.full || role.authority,
            justification: true,
        };
        ChainSync {
            genesis_hash: info.chain.genesis_hash,
            peers: Peers::new(),
            blocks: BlockCollection::new(),
            best_queued_hash: match info.best_queued_hash {
                Some(h) => h,
                None => info.chain.best_hash,
            },
            best_queued_number: match info.best_queued_number {
                Some(n) => n,
                None => info.chain.best_number,
            },
            justifications: PendingJustifications::new(),
            required_block_attributes,
        }
    }

    /// The hash of the genesis block.
    pub fn genesis_hash(&self) -> (h: BlockHash)
        ensures
            h == self@.genesis_hash,
    {
        self.genesis_hash
    }

    /// The number of the best block that was queued for import.
    pub fn best_queued_number(&self) -> (n: BlockNumber)
        ensures
            n == self@.best_queued_number,
    {
        self.best_queued_number
    }

    /// The hash of the best block that was queued for import.
    pub fn best_queued_hash(&self) -> (h: BlockHash)
        ensures
            h == self@.best_queued_hash,
    {
        self.best_queued_hash
    }

    /// The parts of a block that the node asks for.
    pub fn required_block_attributes(&self) -> (a: BlockAttributes)
        ensures
            a == self@.required_block_attributes,
    {
        self.required_block_attributes
    }

    /// The record of `who`, if it is connected.
    pub fn peer(&self, who: PeerId) -> (r: Option<&PeerSync>)
        ensures
            match r {
                Some(p) => peer_index(self@.peers, who) matches Some(i) && p@ == self@.peers[i],
                None => peer_index(self@.peers, who) is None,
            },
    {
        match self.peers.position(who) {
            Some(i) => Some(self.peers.get(i)),
            None => None,
        }
    }

    /// The connected peers, in the order in which they connected.
    pub fn connected_peers(&self) -> (r: Vec<PeerId>)
        ensures
            r@ == Seq::new(self@.peers.len(), |i: int| self@.peers[i].who),
    {
        self.peers.ids()
    }

    /// The range of new blocks that `who` is asked for.
    pub fn download_of(&self, who: PeerId) -> (r: Option<Download>)
        requires
            self@.wf(),
        ensures
            r == self@.blocks.download_of(who),
    {
        self.blocks.download_of(who)
    }

    /// The justification request that was issued to `who`.
    pub fn justification_request_of(&self, who: PeerId) -> (r: Option<PendingJustification>)
        ensures
            r == self@.justifications.request_of(who),
    {
        self.justifications.request_of(who)
    }

    /// Whether the justification of this block is still asked for.
    pub fn is_justification_requested(&self, hash: &BlockHash, number: BlockNumber) -> (b: bool)
        ensures
            b == self@.justifications.requested.contains(
                PendingJustification { hash: *hash, number },
            ),
    {
        self.justifications.is_requested(&PendingJustification { hash: *hash, number })
    }

    /// The justification requests that wait to be issued, oldest first.
    pub fn queued_justifications(&self) -> (r: Vec<PendingJustification>)
        ensures
            r@ == self@.justifications.queue,
    {
        self.justifications.queued()
    }

    /// The highest best block among the peers.
    pub fn best_seen_block(&self) -> (r: Option<BlockNumber>)
        ensures
            r == crate::peers::spec_best_seen(self@.peers),
    {
        self.peers.best_seen()
    }

    /// Returns sync status.
    pub fn status(&self) -> (s: Status)
        ensures
            s == self@.status(),
    {
        let best_seen = self.best_seen_block();
        let state = match best_seen {
            Some(n) => if n > self.best_queued_number && n - self.best_queued_number
                > MAJOR_SYNC_BLOCKS as u64 {
                SyncState::Downloading
            } else {
                SyncState::Idle
            },
            None => SyncState::Idle,
        };
        Status { state, best_seen_block: best_seen }
    }

    /// Asks an available peer for a stale block.
    fn request_stale(
        &mut self,
        outbox: &mut Vec<Action>,
        who: PeerId,
        hash: &BlockHash,
        direction: Direction,
        max: u32,
    )
        requires
            old(self)@.wf(),
        ensures
            final(self)@ == old(self)@.request_stale(who, *hash, direction, max).state,
            final(outbox)@ == old(outbox)@ + old(self)@.request_stale(
                who,
                *hash,
                direction,
                max,
            ).actions,
            final(self)@.wf(),
            old(self)@.tips_ordered() ==> final(self)@.tips_ordered(),
            old(self)@.accounted() ==> final(self)@.accounted(),
    {
        proof {
            lemma_request_stale(old(self)@, who, *hash, direction, max);
            if old(self)@.accounted() {
                lemma_request_stale_accounted(old(self)@, who, *hash, direction, max);
            }
        }
        match self.peers.position(who) {
            Some(i) => {
                match self.peers.get(i).state {
                    PeerSyncState::Available => {
                        let request = BlockRequest {
                            id: 0,
                            fields: self.required_block_attributes,
                            from: FromBlock::Hash(*hash),
                            to: None,
                            direction,
                            max: Some(max),
                        };
                        self.peers.set_state(i, PeerSyncState::DownloadingStale(*hash));
                        outbox.push(Action::Send { to: who, request });
                        assert(outbox@ =~= old(outbox)@ + seq![Action::Send { to: who, request }]);
                        return ;
                    },
                    _ => {},
                }
            },
            None => {},
        }
        assert(outbox@ =~= old(outbox)@ + Seq::<Action>::empty());
    }

    /// Download old block with known parent.
    pub fn download_stale(&mut self, outbox: &mut Vec<Action>, who: PeerId, hash: &BlockHash)
        requires
            old(self)@.wf(),
        ensures
            final(self)@ == old(self)@.download_stale(who, *hash).state,
            final(outbox)@ == old(outbox)@ + old(self)@.download_stale(who, *hash).actions,
            final(self)@.wf(),
            old(self)@.tips_ordered() ==> final(self)@.tips_ordered(),
            old(self)@.accounted() ==> final(self)@.accounted(),
    {
        self.request_stale(outbox, who, hash, Direction::Ascending, 1)
    }

    /// Download old block with unknown parent.
    pub fn download_unknown_stale(
        &mut self,
        outbox: &mut Vec<Action>,
        who: PeerId,
        hash: &BlockHash,
    )
        requires
            old(self)@.wf(),
        ensures
            final(self)@ == old(self)@.download_unknown_stale(who, *hash).state,
            final(outbox)@ == old(outbox)@ + old(self)@.download_unknown_stale(who, *hash).actions,
            final(self)@.wf(),
            old(self)@.tips_ordered() ==> final(self)@.tips_ordered(),
            old(self)@.accounted() ==> final(self)@.accounted(),
    {
        self.request_stale(outbox, who, hash, Direction::Descending, MAX_UNKNOWN_FORK_DOWNLOAD_LEN)
    }

    /// Issue a request for a peer to download new blocks, if any are
    /// available. While the import queue holds more than
    /// `MAX_IMPORTING_BLOCKS`, nothing is asked.
    pub fn download_new(&mut self, outbox: &mut Vec<Action>, who: PeerId, importing_count: usize)
        requires
            old(self)@.wf(),
        ensures
            final(self)@ == old(self)@.download_new(who, importing_count).state,
            final(outbox)@ == old(outbox)@ + old(self)@.download_new(who, importing_count).actions,
            final(self)@.wf(),
            old(self)@.tips_ordered() ==> final(self)@.tips_ordered(),
            old(self)@.accounted() ==> final(self)@.accounted(),
            final(self)@.best_queued_number == old(self)@.best_queued_number,
            importing_count > MAX_IMPORTING_BLOCKS ==> final(self)@ == old(self)@ && final(outbox)@
                == old(outbox)@,
    {
        proof {
            lemma_download_new(old(self)@, who, importing_count);
            if old(self)@.accounted() {
                lemma_download_new_accounted(old(self)@, who, importing_count);
            }
        }
        match self.peers.position(who) {
            Some(i) => {
                // when there are too many blocks in the queue, do not try to
                // download new blocks
                if importing_count <= MAX_IMPORTING_BLOCKS {
                    let peer = self.peers.get(i);
                    match peer.state {
                        PeerSyncState::Available => {
                            let best = peer.best_number;
                            let common = peer.common_number;
                            match self.blocks.needed_blocks(
                                who,
                                MAX_BLOCKS_TO_REQUEST,
                                best,
                                common,
                            ) {
                                Some(range) => {
                                    let request = BlockRequest {
                                        id: 0,
                                        fields: self.required_block_attributes,
                                        from: FromBlock::Number(range.start),
                                        to: None,
                                        direction: Direction::Ascending,
                                        max: Some((range.end - range.start) as u32),
                                    };
                                    self.peers.set_state(
                                        i,
                                        PeerSyncState::DownloadingNew(range.start),
                                    );
                                    outbox.push(Action::Send { to: who, request });
                                    assert(outbox@ =~= old(outbox)@ + seq![
                                        Action::Send { to: who, request },
                                    ]);
                                    return ;
                                },
                                None => {},
                            }
                        },
                        _ => {},
                    }
                }
            },
            None => {},
        }
        assert(outbox@ =~= old(outbox)@ + Seq::<Action>::empty());
    }

    /// Dispatches the pending justification requests.
    fn dispatch(&mut self, outbox: &mut Vec<Action>, now: u64)
        requires
            old(self)@.wf(),
        ensures
            final(self)@ == old(self)@.dispatch(now).state,
            final(outbox)@ == old(outbox)@ + old(self)@.dispatch(now).actions,
            final(self)@.wf(),
            old(self)@.tips_ordered() ==> final(self)@.tips_ordered(),
            old(self)@.accounted() ==> final(self)@.accounted(),
    {
        proof {
            lemma_dispatch(old(self)@, now);
            if old(self)@.accounted() {
                lemma_dispatch_accounted(old(self)@, now);
            }
        }
        self.justifications.dispatch(&mut self.peers, now, outbox);
    }

    /// Maintain the sync process (download new blocks, fetch justifications).
    pub fn maintain_sync(&mut self, outbox: &mut Vec<Action>, now: u64, importing_count: usize)
        requires
            old(self)@.wf(),
        ensures
            final(self)@ == old(self)@.maintain_sync(now, importing_count).state,
            final(outbox)@ == old(outbox)@ + old(self)@.maintain_sync(now, importing_count).actions,
            final(self)@.wf(),
            old(self)@.tips_ordered() ==> final(self)@.tips_ordered(),
            old(self)@.accounted() ==> final(self)@.accounted(),
            final(self)@.best_queued_number == old(self)@.best_queued_number,
    {
        proof {
            lemma_maintain_sync(old(self)@, now, importing_count);
            if old(self)@.accounted() {
                lemma_maintain_sync_accounted(old(self)@, now, importing_count);
            }
        }
        let peers = self.peers.ids();
        let mut k: usize = 0;
        while k < peers.len()
            invariant
                k <= peers@.len(),
                peers@.len() == old(self)@.peers.len(),
                forall|i: int| 0 <= i < peers@.len() ==> peers@[i] == old(self)@.peers[i].who,
                old(self)@.wf(),
                self@.wf(),
                self@ == old(self)@.download_all(k as int, importing_count).state,
                outbox@ == old(outbox)@ + old(self)@.download_all(k as int, importing_count).actions,
            decreases peers.len() - k,
        {
            let ghost done = old(self)@.download_all(k as int, importing_count);
            self.download_new(outbox, peers[k], importing_count);
            k += 1;
            proof {
                let next = done.state.download_new(peers@[k - 1], importing_count);
                assert(outbox@ =~= old(outbox)@ + (done.actions + next.actions));
            }
        }
        let ghost done = old(self)@.download_all(peers@.len() as int, importing_count);
        self.dispatch(outbox, now);
        proof {
            let next = done.state.dispatch(now);
            assert(outbox@ =~= old(outbox)@ + (done.actions + next.actions));
        }
    }

    /// Called periodically to perform any time-based actions.
    pub fn tick(&mut self, outbox: &mut Vec<Action>, now: u64)
        requires
            old(self)@.wf(),
        ensures
            final(self)@ == old(self)@.dispatch(now).state,
            final(outbox)@ == old(outbox)@ + old(self)@.dispatch(now).actions,
            final(self)@.wf(),
            old(self)@.tips_ordered() ==> final(self)@.tips_ordered(),
            old(self)@.accounted() ==> final(self)@.accounted(),
            final(self)@.best_queued_number == old(self)@.best_queued_number,
    {
        proof {
            lemma_dispatch(old(self)@, now);
        }
        self.dispatch(outbox, now);
    }

    /// Request a justification for the given block.
    ///
    /// Queues a new justification request and tries to dispatch all pending
    /// requests.
    pub fn request_justification(
        &mut self,
        outbox: &mut Vec<Action>,
        hash: &BlockHash,
        number: BlockNumber,
        now: u64,
    )
        requires
            old(self)@.wf(),
        ensures
            final(self)@ == old(self)@.request_justification(*hash, number, now).state,
            final(outbox)@ == old(outbox)@ + old(self)@.request_justification(
                *hash,
                number,
                now,
            ).actions,
            final(self)@.wf(),
            old(self)@.tips_ordered() ==> final(self)@.tips_ordered(),
            old(self)@.accounted() ==> final(self)@.accounted(),
            final(self)@.best_queued_number == old(self)@.best_queued_number,
    {
        proof {
            lemma_request_justification(old(self)@, *hash, number, now);
            if old(self)@.accounted() {
                lemma_request_justification_accounted(old(self)@, *hash, number, now);
            }
        }
        self.justifications.queue_request(&PendingJustification { hash: *hash, number });
        self.justifications.dispatch(&mut self.peers, now, outbox);
    }

    /// Notify about successful import of the given block.
    pub fn block_imported(&mut self, hash: &BlockHash, number: BlockNumber)
        ensures
            *final(self) == *old(self),
    {
    }

    /// Notify about finalization of the given block.
    pub fn block_finalized(&mut self, hash: &BlockHash, number: BlockNumber)
        requires
            old(self)@.wf(),
        ensures
            final(self)@ == old(self)@.block_finalized(number),
            final(self)@.wf(),
            old(self)@.tips_ordered() ==> final(self)@.tips_ordered(),
            old(self)@.accounted() && old(self)@.justifications.issued_above(number)
                ==> final(self)@.accounted(),
            final(self)@.best_queued_number == old(self)@.best_queued_number,
            final(self)@.justifications.above(number),
    {
        proof {
            lemma_block_finalized(old(self)@, number);
            if old(self)@.accounted() && old(self)@.justifications.issued_above(number) {
                lemma_block_finalized_accounted(old(self)@, number);
            }
        }
        self.justifications.collect_garbage(number);
    }

    /// Records that a block was queued for import.
    pub fn block_queued(&mut self, hash: &BlockHash, number: BlockNumber)
        requires
            old(self)@.wf(),
        ensures
            final(self)@ == old(self)@.block_queued(*hash, number),
            final(self)@.wf(),
            old(self)@.tips_ordered() ==> final(self)@.tips_ordered(),
            old(self)@.accounted() ==> final(self)@.accounted(),
            final(self)@.best_queued_number >= old(self)@.best_queued_number,
    {
        proof {
            lemma_block_queued(old(self)@, *hash, number);
            if old(self)@.accounted() {
                lemma_block_queued_accounted(old(self)@, *hash, number);
            }
        }
        if number > self.best_queued_number {
            self.best_queued_number = number;
            self.best_queued_hash = *hash;
        }
        // update common blocks
        self.peers.block_queued(number);
    }

    /// Records that the chain has a new best block.
    pub fn update_chain_info(&mut self, hash: &BlockHash, best_header: &Header)
        requires
            old(self)@.wf(),
        ensures
            final(self)@ == old(self)@.block_queued(*hash, best_header.number),
            final(self)@.wf(),
            old(self)@.tips_ordered() ==> final(self)@.tips_ordered(),
            old(self)@.accounted() ==> final(self)@.accounted(),
            final(self)@.best_queued_number >= old(self)@.best_queued_number,
    {
        self.block_queued(hash, best_header.number)
    }

    /// Records a peer that just connected.
    fn connect(
        &mut self,
        who: PeerId,
        common_number: BlockNumber,
        info: &PeerInfo,
        state: PeerSyncState,
    )
        requires
            old(self)@.wf(),
            state == PeerSyncState::Available || (state matches PeerSyncState::AncestorSearch(n)
                && n <= info.best_number),
        ensures
            final(self)@ == old(self)@.connected(who, common_number, *info, state),
            final(self)@.wf(),
            old(self)@.tips_ordered() && common_number <= info.best_number
                ==> final(self)@.tips_ordered(),
            old(self)@.accounted() && peer_index(old(self)@.peers, who) is None
                ==> final(self)@.accounted(),
            forall|w: PeerId|
                w != who && peer_index(old(self)@.peers, w) is None ==> peer_index(
                    final(self)@.peers,
                    w,
                ) is None,
    {
        proof {
            lemma_connected(old(self)@, who, common_number, *info, state);
            lemma_connected_outsiders(old(self)@, who, common_number, *info, state);
            if old(self)@.accounted() && peer_index(old(self)@.peers, who) is None {
                lemma_connected_accounted(old(self)@, who, common_number, *info, state);
            }
        }
        self.peers.insert(
            PeerSync {
                who,
                common_number,
                best_hash: info.best_hash,
                best_number: info.best_number,
                state,
                recently_announced: VecDeque::new(),
            },
        );
    }

    /// Handle new connected peer. `info` is the tip that the peer
    /// advertised, if it is known, and `status` what the node knows of that
    /// block.
    pub fn new_peer(
        &mut self,
        outbox: &mut Vec<Action>,
        who: PeerId,
        info: Option<PeerInfo>,
        status: Result<BlockStatus, ClientError>,
        importing_count: usize,
    )
        requires
            old(self)@.wf(),
        ensures
            final(self)@ == old(self)@.new_peer(who, info, status, importing_count).state,
            final(outbox)@ == old(outbox)@ + old(self)@.new_peer(
                who,
                info,
                status,
                importing_count,
            ).actions,
            final(self)@.wf(),
            old(self)@.tips_ordered() && !outruns(
                old(self)@.best_queued_number,
                info,
                status,
                importing_count,
            ) ==> final(self)@.tips_ordered(),
            old(self)@.accounted() && peer_index(old(self)@.peers, who) is None
                ==> final(self)@.accounted(),
            forall|w: PeerId|
                w != who && peer_index(old(self)@.peers, w) is None ==> peer_index(
                    final(self)@.peers,
                    w,
                ) is None,
            final(self)@.best_queued_number == old(self)@.best_queued_number,
    {
        proof {
            if old(self)@.accounted() && peer_index(old(self)@.peers, who) is None {
                lemma_new_peer_accounted(old(self)@, who, info, status, importing_count);
            }
        }
        let info = match info {
            Some(info) => info,
            None => {
                assert(outbox@ =~= old(outbox)@ + Seq::<Action>::empty());
                return ;
            },
        };
        match status {
            Err(_) => {
                outbox.push(Action::Report { who, fault: Fault::StatusReadError });
                assert(outbox@ =~= old(outbox)@ + seq![
                    Action::Report { who, fault: Fault::StatusReadError },
                ]);
            },
            Ok(BlockStatus::KnownBad) => {
                outbox.push(Action::Report { who, fault: Fault::KnownBadBest });
                assert(outbox@ =~= old(outbox)@ + seq![
                    Action::Report { who, fault: Fault::KnownBadBest },
                ]);
            },
            Ok(BlockStatus::Unknown) => {
                if info.best_number == 0 {
                    outbox.push(Action::Report { who, fault: Fault::UnknownGenesis });
                    assert(outbox@ =~= old(outbox)@ + seq![
                        Action::Report { who, fault: Fault::UnknownGenesis },
                    ]);
                } else if importing_count > MAJOR_SYNC_BLOCKS {
                    // when actively syncing the common point moves too fast
                    let common = self.best_queued_number;
                    self.connect(who, common, &info, PeerSyncState::Available);
                    assert(outbox@ =~= old(outbox)@ + Seq::<Action>::empty());
                } else if self.best_queued_number > 0 {
                    let our_best = self.best_queued_number;
                    let common_best = if our_best <= info.best_number {
                        our_best
                    } else {
                        info.best_number
                    };
                    self.connect(who, 0, &info, PeerSyncState::AncestorSearch(common_best));
                    self.request_ancestry(outbox, who, common_best);
                } else {
                    // we are at genesis, just start downloading
                    self.connect(who, 0, &info, PeerSyncState::Available);
                    proof {
                        lemma_download_new(self@, who, importing_count);
                        lemma_same_tips_outsiders(
                            self@.peers,
                            self@.download_new(who, importing_count).state.peers,
                        );
                    }
                    self.download_new(outbox, who, importing_count);
                }
            },
            Ok(_) => {
                self.connect(who, info.best_number, &info, PeerSyncState::Available);
                assert(outbox@ =~= old(outbox)@ + Seq::<Action>::empty());
            },
        }
    }

    /// Asks a peer which block it has at height `block`.
    fn request_ancestry(&self, outbox: &mut Vec<Action>, who: PeerId, block: BlockNumber)
        ensures
            final(outbox)@ == old(outbox)@ + seq![
                Action::Send { to: who, request: crate::primitives::spec_ancestry_request(block) },
            ],
    {
        outbox.push(Action::Send { to: who, request: ancestry_request(block) });
        assert(outbox@ =~= old(outbox)@ + seq![
            Action::Send { to: who, request: crate::primitives::spec_ancestry_request(block) },
        ]);
    }

    /// Whether some peer is downloading the stale block `hash`.
    pub fn is_already_downloading(&self, hash: &BlockHash) -> (b: bool)
        ensures
            b == crate::peers::spec_downloading_stale(self@.peers, *hash),
    {
        self.peers.downloading_stale(hash)
    }

    /// Handle disconnected peer: its record is dropped, the range that it
    /// was asked for is released, and the justification request that was
    /// issued to it goes back to the front of the queue. Nothing is sent.
    pub fn peer_disconnected(&mut self, who: PeerId)
        requires
            old(self)@.wf(),
        ensures
            final(self)@ == old(self)@.released(who),
            final(self)@.wf(),
            old(self)@.tips_ordered() ==> final(self)@.tips_ordered(),
            old(self)@.accounted() ==> final(self)@.accounted(),
            final(self)@.best_queued_number == old(self)@.best_queued_number,
            peer_index(final(self)@.peers, who) is None,
            !final(self)@.blocks.has_download(who),
            !final(self)@.has_request(who),
            old(self)@.justifications.request_of(who) matches Some(r) ==> final(self)@.awaits(r),
    {
        proof {
            lemma_released(old(self)@, who);
            if old(self)@.accounted() {
                lemma_released_accounted(old(self)@, who);
            }
        }
        self.blocks.clear_peer_download(who);
        self.peers.remove(who);
        self.justifications.peer_disconnected(who);
        proof {
            if self@.has_request(who) {
                let k = choose|k: int|
                    0 <= k < self@.justifications.in_flight.len() && (
                    #[trigger] self@.justifications.in_flight[k]).who == who;
                assert(is_first_request(self@.justifications.in_flight, who, k));
            }
        }
    }

    /// The first report about `who`.
    fn report_for(reports: &Vec<PeerReport>, who: PeerId) -> (r: Option<PeerReport>)
        ensures
            r == report_for(reports@, who),
            r matches Some(x) ==> exists|i: int| 0 <= i < reports@.len() && reports@[i] == x,
    {
        let mut i: usize = 0;
        while i < reports.len()
            invariant
                i <= reports@.len(),
                forall|j: int| 0 <= j < i ==> (#[trigger] reports@[j]).who != who,
            decreases reports.len() - i,
        {
            if reports[i].who == who {
                assert(is_first_report(reports@, who, i as int));
                return Some(reports[i]);
            }
            i += 1;
        }
        None
    }

    /// Restart the sync process: the best queued block is read again from
    /// `info`, the downloaded blocks are forgotten, and every peer connects
    /// again with the report about it in `reports`. The import queue is to be
    /// emptied before `importing_count` is read.
    pub fn restart(
        &mut self,
        outbox: &mut Vec<Action>,
        info: Result<ClientInfo, ClientError>,
        reports: &Vec<PeerReport>,
        importing_count: usize,
    )
        requires
            old(self)@.wf(),
        ensures
            final(self)@ == old(self)@.restart(info, reports@, importing_count).state,
            final(outbox)@ == old(outbox)@ + old(self)@.restart(
                info,
                reports@,
                importing_count,
            ).actions,
            final(self)@.wf(),
            (forall|k: int|
                0 <= k < reports@.len() ==> !outruns(
                    final(self)@.best_queued_number,
                    Some((#[trigger] reports@[k]).info),
                    reports@[k].status,
                    importing_count,
                )) ==> final(self)@.tips_ordered(),
            old(self)@.justifications.in_flight.len() == 0 ==> final(self)@.accounted(),
    {
        self.blocks.clear();
        match info {
            Ok(info) => {
                self.best_queued_hash = match info.best_queued_hash {
                    Some(h) => h,
                    None => info.chain.best_hash,
                };
                self.best_queued_number = match info.best_queued_number {
                    Some(n) => n,
                    None => info.chain.best_number,
                };
            },
            Err(_) => {
                self.best_queued_hash = self.genesis_hash;
                self.best_queued_number = 0;
            },
        }
        let ids = self.peers.ids();
        self.peers.clear();
        let ghost start = self@;
        assert(outbox@ =~= old(outbox)@ + Seq::<Action>::empty());
        proof {
            assert forall|j: int| 0 <= j < ids@.len() implies peer_index(
                self@.peers,
                #[trigger] ids@[j],
            ) is None by {
                assert forall|a: int| !is_first_peer(self@.peers, ids@[j], a) by {}
            }
        }
        let mut k: usize = 0;
        while k < ids.len()
            invariant
                k <= ids@.len(),
                self@.wf(),
                self@.best_queued_number == start.best_queued_number,
                (forall|k: int|
                    0 <= k < reports@.len() ==> !outruns(
                        start.best_queued_number,
                        Some((#[trigger] reports@[k]).info),
                        reports@[k].status,
                        importing_count,
                    )) ==> self@.tips_ordered(),
                old(self)@.wf(),
                ids@ == Seq::new(old(self)@.peers.len(), |i: int| old(self)@.peers[i].who),
                old(self)@.justifications.in_flight.len() == 0 ==> self@.accounted(),
                forall|j: int| k <= j < ids@.len() ==> peer_index(self@.peers, #[trigger] ids@[j]) is None,
                self@ == start.reconnect(ids@, k as int, reports@, importing_count).state,
                outbox@ == old(outbox)@ + start.reconnect(
                    ids@,
                    k as int,
                    reports@,
                    importing_count,
                ).actions,
            decreases ids.len() - k,
        {
            let ghost done = start.reconnect(ids@, k as int, reports@, importing_count);
            proof {
                assert forall|j: int| k < j < ids@.len() implies ids@[j] != ids@[k as int] by {
                    assert(old(self)@.peers[k as int].who != old(self)@.peers[j].who);
                }
            }
            match Self::report_for(reports, ids[k]) {
                Some(r) => {
                    self.new_peer(outbox, ids[k], Some(r.info), r.status, importing_count);
                    proof {
                        let next = done.state.new_peer(
                            ids@[k as int],
                            Some(r.info),
                            r.status,
                            importing_count,
                        );
                        assert(outbox@ =~= old(outbox)@ + (done.actions + next.actions));
                    }
                },
                None => {
                    assert(outbox@ =~= old(outbox)@ + (done.actions + Seq::<Action>::empty()));
                },
            }
            k += 1;
        }
    }

    /// Clear all sync data.
    pub fn clear(&mut self)
        requires
            old(self)@.wf(),
        ensures
            final(self)@ == old(self)@.clear(),
            final(self)@.wf(),
            final(self)@.tips_ordered(),
            old(self)@.justifications.in_flight.len() == 0 ==> final(self)@.accounted(),
            final(self)@.best_queued_number == old(self)@.best_queued_number,
    {
        self.blocks.clear();
        self.peers.clear();
    }

    /// Hands a batch on: works out how it reached the node and queues its
    /// last block.
    fn accept(&mut self, new_blocks: Vec<IncomingBlock>) -> (r: Option<
        (BlockOrigin, Vec<IncomingBlock>),
    >)
        requires
            old(self)@.wf(),
        ensures
            final(self)@ == old(self)@.accept(new_blocks@).state,
            r matches Some((origin, batch)) && old(self)@.accept(new_blocks@).batch == Some(
                (origin, batch@),
            ),
            final(self)@.wf(),
            old(self)@.tips_ordered() ==> final(self)@.tips_ordered(),
            old(self)@.accounted() ==> final(self)@.accounted(),
            final(self)@.best_queued_number >= old(self)@.best_queued_number,
    {
        let is_recent = if new_blocks.len() > 0 {
            self.peers.recently_announced(&new_blocks[0].hash)
        } else {
            false
        };
        let origin = if is_recent {
            BlockOrigin::NetworkBroadcast
        } else {
            BlockOrigin::NetworkInitialSync
        };
        if new_blocks.len() > 0 {
            let last = &new_blocks[new_blocks.len() - 1];
            match last.header {
                Some(header) => {
                    let hash = last.hash;
                    self.block_queued(&hash, header.number);
                },
                None => {},
            }
        }
        Some((origin, new_blocks))
    }

    /// The block at which the ancestor search of `who` stands, if the peer is
    /// searching: the height at which `on_block_data` wants to know the hash
    /// of the local chain.
    pub fn ancestor_search_height(&self, who: PeerId) -> (r: Option<BlockNumber>)
        ensures
            r == (match peer_index(self@.peers, who) {
                Some(i) => match self@.peers[i].state {
                    PeerSyncState::AncestorSearch(n) => Some(n),
                    _ => None,
                },
                None => None,
            }),
    {
        match self.peers.position(who) {
            Some(i) => match self.peers.get(i).state {
                PeerSyncState::AncestorSearch(n) => Some(n),
                _ => None,
            },
            None => None,
        }
    }

    /// Handle new block data. `ours` is the hash that the local chain has at
    /// the height at which the ancestor search of `who` stands; it is read
    /// only if that peer is searching.
    pub fn on_block_data(
        &mut self,
        outbox: &mut Vec<Action>,
        who: PeerId,
        request: &BlockRequest,
        response: BlockResponse,
        ours: Result<Option<BlockHash>, ClientError>,
    ) -> (r: Option<(BlockOrigin, Vec<IncomingBlock>)>)
        requires
            old(self)@.wf(),
        ensures
            final(self)@ == old(self)@.on_block_data(
                who,
                request.direction,
                response.blocks@,
                ours,
            ).state,
            final(outbox)@ == old(outbox)@ + old(self)@.on_block_data(
                who,
                request.direction,
                response.blocks@,
                ours,
            ).actions,
            match r {
                Some((origin, batch)) => old(self)@.on_block_data(
                    who,
                    request.direction,
                    response.blocks@,
                    ours,
                ).batch == Some((origin, batch@)),
                None => old(self)@.on_block_data(
                    who,
                    request.direction,
                    response.blocks@,
                    ours,
                ).batch is None,
            },
            final(self)@.wf(),
            old(self)@.tips_ordered() ==> final(self)@.tips_ordered(),
            old(self)@.accounted() ==> final(self)@.accounted(),
            final(self)@.best_queued_number >= old(self)@.best_queued_number,
    {
        let new_blocks: Vec<IncomingBlock> = match self.peers.position(who) {
            Some(i) => {
                proof {
                    lemma_peer_index_found(self@.peers, who);
                }
                let mut blocks = response.blocks;
                if request.direction == Direction::Descending {
                    blocks = reversed(blocks);
                }
                match self.peers.get(i).state {
                    PeerSyncState::DownloadingNew(start) => {
                        proof {
                            lemma_released_downloads(self@.blocks, who);
                        }
                        self.blocks.clear_peer_download(who);
                        self.peers.set_state(i, PeerSyncState::Available);
                        self.blocks.insert(start, blocks, who);
                        let ghost filled = self@;
                        assert(filled.wf()) by {
                            assert forall|a: int| 0 <= a < filled.peers.len() implies ((
                            #[trigger] filled.peers[a]).state matches PeerSyncState::DownloadingNew(
                                st,
                            ) ==> filled.blocks.downloading(filled.peers[a].who, st)) by {
                                if a != i {
                                    assert(filled.peers[a] == old(self)@.peers[a]);
                                    if let PeerSyncState::DownloadingNew(st) = filled.peers[a].state {
                                        assert(old(self)@.blocks.downloading(
                                            filled.peers[a].who,
                                            st,
                                        ));
                                        assert(old(self)@.blocks.released(who).downloading(
                                            filled.peers[a].who,
                                            st,
                                        ));
                                    }
                                }
                            }
                        }
                        let ready = if self.best_queued_number < u64::MAX {
                            self.blocks.drain(self.best_queued_number + 1)
                        } else {
                            Vec::new()
                        };
                        assert(ready@ == filled.ready());
                        assert(self@ == filled.after_ready());
                        assert(self@.wf());
                        proof {
                            if old(self)@.accounted() {
                                lemma_download_finished_accounted(old(self)@, i as int, self@);
                            }
                        }
                        ready
                    },
                    PeerSyncState::DownloadingStale(_) => {
                        self.peers.set_state(i, PeerSyncState::Available);
                        let marked = into_incoming(blocks, Some(who));
                        assert(self@.wf());
                        proof {
                            if old(self)@.accounted() {
                                lemma_accounted_kept(old(self)@, self@);
                            }
                        }
                        marked
                    },
                    PeerSyncState::AncestorSearch(n) => {
                        if blocks.len() == 0 {
                            outbox.push(Action::Report { who, fault: Fault::EmptyAncestry });
                            assert(outbox@ =~= old(outbox)@ + seq![
                                Action::Report { who, fault: Fault::EmptyAncestry },
                            ]);
                            return None;
                        }
                        let theirs = blocks[0].hash;
                        match ours {
                            Ok(hash) => {
                                let found = match hash {
                                    Some(h) => h == theirs,
                                    None => false,
                                };
                                if found {
                                    let common = self.peers.get(i).common_number;
                                    self.peers.set_common(
                                        i,
                                        if common < n {
                                            n
                                        } else {
                                            common
                                        },
                                    );
                                    self.peers.set_state(i, PeerSyncState::Available);
                                    assert(self@.peers =~= old(self)@.peers.update(
                                        i as int,
                                        old(self)@.peers[i as int].with_common(
                                            crate::model::spec_max(
                                                old(self)@.peers[i as int].common_number,
                                                n,
                                            ),
                                        ).with_state(PeerSyncState::Available),
                                    ));
                                    assert(self@.wf());
                                    proof {
                                        if old(self)@.accounted() {
                                            lemma_accounted_kept(old(self)@, self@);
                                        }
                                    }
                                    Vec::new()
                                } else if n > 0 {
                                    let lower = n - 1;
                                    self.peers.set_state(i, PeerSyncState::AncestorSearch(lower));
                                    proof {
                                        if old(self)@.accounted() {
                                            lemma_accounted_kept(old(self)@, self@);
                                        }
                                    }
                                    self.request_ancestry(outbox, who, lower);
                                    return None;
                                } else {
                                    // genesis mismatch
                                    outbox.push(
                                        Action::Report { who, fault: Fault::GenesisMismatch },
                                    );
                                    assert(outbox@ =~= old(outbox)@ + seq![
                                        Action::Report { who, fault: Fault::GenesisMismatch },
                                    ]);
                                    return None;
                                }
                            },
                            Err(_) => {
                                outbox.push(
                                    Action::Report { who, fault: Fault::AncestryReadError },
                                );
                                assert(outbox@ =~= old(outbox)@ + seq![
                                    Action::Report { who, fault: Fault::AncestryReadError },
                                ]);
                                return None;
                            },
                        }
                    },
                    _ => Vec::new(),
                }
            },
            None => Vec::new(),
        };
        assert(outbox@ =~= old(outbox)@ + Seq::<Action>::empty());
        self.accept(new_blocks)
    }

    /// Handle new justification data. The peer is available again. An empty
    /// answer, or one for another block, is reported, and the request goes
    /// back to the front of the queue. Where the peer provided the
    /// justification that it was asked for, the one effect is
    /// `Action::ImportJustification`, and the verdict of the import queue is
    /// to be handed to `on_justification_import`. `now` is the time of an
    /// answer without a justification.
    pub fn on_block_justification_data(
        &mut self,
        outbox: &mut Vec<Action>,
        who: PeerId,
        request: &BlockRequest,
        response: BlockResponse,
        now: u64,
    )
        requires
            old(self)@.wf(),
        ensures
            final(self)@ == old(self)@.on_block_justification_data(
                who,
                response.blocks@,
                now,
            ).state,
            final(outbox)@ == old(outbox)@ + old(self)@.on_block_justification_data(
                who,
                response.blocks@,
                now,
            ).actions,
            final(self)@.wf(),
            old(self)@.tips_ordered() ==> final(self)@.tips_ordered(),
            old(self)@.accounted() ==> final(self)@.accounted(),
            final(self)@.best_queued_number == old(self)@.best_queued_number,
    {
        match self.peers.position(who) {
            Some(i) => {
                proof {
                    lemma_peer_index_found(self@.peers, who);
                    if old(self)@.accounted() && self@.peers[i as int].state is DownloadingJustification {
                        lemma_answering(old(self)@, i as int, None, now);
                    }
                    lemma_answered(
                        old(self)@.with_peer(
                            i as int,
                            old(self)@.peers[i as int].with_state(PeerSyncState::Available),
                        ),
                        who,
                        None,
                        now,
                    );
                }
                match self.peers.get(i).state {
                    PeerSyncState::DownloadingJustification(hash) => {
                        let mut blocks = response.blocks;
                        // we only request one justification at a time
                        if blocks.len() == 0 {
                            self.peers.set_state(i, PeerSyncState::Available);
                            self.justifications.peer_disconnected(who);
                            outbox.push(Action::Report { who, fault: Fault::EmptyJustification });
                            assert(outbox@ =~= old(outbox)@ + seq![
                                Action::Report { who, fault: Fault::EmptyJustification },
                            ]);
                            return ;
                        }
                        let first = blocks.swap_remove(0);
                        if !(first.hash == hash) {
                            self.peers.set_state(i, PeerSyncState::Available);
                            self.justifications.peer_disconnected(who);
                            outbox.push(
                                Action::Report { who, fault: Fault::JustificationMismatch },
                            );
                            assert(outbox@ =~= old(outbox)@ + seq![
                                Action::Report { who, fault: Fault::JustificationMismatch },
                            ]);
                            return ;
                        }
                        match first.justification {
                            Some(justification) => {
                                match self.justifications.request_of(who) {
                                    Some(r) => {
                                        let import = Action::ImportJustification {
                                            who,
                                            hash: r.hash,
                                            number: r.number,
                                            justification,
                                        };
                                        outbox.push(import);
                                        assert(outbox@ =~= old(outbox)@ + seq![import]);
                                        return ;
                                    },
                                    None => {
                                        self.peers.set_state(i, PeerSyncState::Available);
                                    },
                                }
                            },
                            None => {
                                self.peers.set_state(i, PeerSyncState::Available);
                                self.justifications.on_response(who, None, now, outbox);
                                return ;
                            },
                        }
                    },
                    _ => {},
                }
            },
            None => {},
        }
        assert(outbox@ =~= old(outbox)@ + Seq::<Action>::empty());
    }

    /// Handle the verdict of the import queue on the justification that
    /// `who` provided. The peer is available again. A justification that was
    /// imported settles the request; for one that was rejected the peer is
    /// reported and the request is queued again, first in line.
    pub fn on_justification_import(
        &mut self,
        outbox: &mut Vec<Action>,
        who: PeerId,
        success: bool,
        now: u64,
    )
        requires
            old(self)@.wf(),
        ensures
            final(self)@ == old(self)@.on_justification_import(who, success, now).state,
            final(outbox)@ == old(outbox)@ + old(self)@.on_justification_import(
                who,
                success,
                now,
            ).actions,
            final(self)@.wf(),
            old(self)@.tips_ordered() ==> final(self)@.tips_ordered(),
            old(self)@.accounted() ==> final(self)@.accounted(),
            final(self)@.best_queued_number == old(self)@.best_queued_number,
    {
        match self.peers.position(who) {
            Some(i) => {
                proof {
                    lemma_peer_index_found(self@.peers, who);
                    if old(self)@.accounted() && self@.peers[i as int].state is DownloadingJustification {
                        lemma_answering(old(self)@, i as int, Some(success), now);
                    }
                    lemma_answered(
                        old(self)@.with_peer(
                            i as int,
                            old(self)@.peers[i as int].with_state(PeerSyncState::Available),
                        ),
                        who,
                        Some(success),
                        now,
                    );
                }
                match self.peers.get(i).state {
                    PeerSyncState::DownloadingJustification(_) => {
                        self.peers.set_state(i, PeerSyncState::Available);
                        self.justifications.on_response(who, Some(success), now, outbox);
                        return ;
                    },
                    _ => {},
                }
            },
            None => {},
        }
        assert(outbox@ =~= old(outbox)@ + Seq::<Action>::empty());
    }

    /// Handle new block announcement. `parent_status` and `status` are what
    /// the node knows of the parent of the announced block and of the block
    /// itself.
    pub fn on_block_announce(
        &mut self,
        outbox: &mut Vec<Action>,
        who: PeerId,
        hash: BlockHash,
        header: &Header,
        parent_status: &Result<BlockStatus, ClientError>,
        status: &Result<BlockStatus, ClientError>,
        importing_count: usize,
    )
        requires
            old(self)@.wf(),
        ensures
            final(self)@ == old(self)@.on_block_announce(
                who,
                hash,
                *header,
                *parent_status,
                *status,
                importing_count,
            ).state,
            final(outbox)@ == old(outbox)@ + old(self)@.on_block_announce(
                who,
                hash,
                *header,
                *parent_status,
                *status,
                importing_count,
            ).actions,
            final(self)@.wf(),
            old(self)@.tips_ordered() ==> final(self)@.tips_ordered(),
            old(self)@.accounted() ==> final(self)@.accounted(),
            final(self)@.best_queued_number == old(self)@.best_queued_number,
    {
        let number = header.number;
        if number == 0 {
            // an announcement of the genesis block is ignored
            assert(outbox@ =~= old(outbox)@ + Seq::<Action>::empty());
            return ;
        }
        let known_parent = is_known(parent_status);
        let known = is_known(status);
        match self.peers.position(who) {
            Some(i) => {
                proof {
                    lemma_peer_index_found(self@.peers, who);
                }
                self.peers.announce(i, hash, number);
                assert(self@.wf());
                proof {
                    if old(self)@.accounted() {
                        lemma_accounted_kept(old(self)@, self@);
                    }
                }
                match self.peers.get(i).state {
                    PeerSyncState::AncestorSearch(_) => {
                        assert(outbox@ =~= old(outbox)@ + Seq::<Action>::empty());
                        return ;
                    },
                    _ => {},
                }
                let common = self.peers.get(i).common_number;
                if header.parent_hash == self.best_queued_hash || known_parent {
                    self.peers.set_common(
                        i,
                        if common >= number - 1 {
                            common
                        } else {
                            number - 1
                        },
                    );
                } else if known {
                    self.peers.set_common(
                        i,
                        if common >= number {
                            common
                        } else {
                            number
                        },
                    );
                }
                assert(self@.peers =~= old(self)@.on_block_announce_noted(
                    i as int,
                    hash,
                    *header,
                    known_parent,
                    known,
                ).peers);
                assert(self@.wf());
                proof {
                    if old(self)@.accounted() {
                        lemma_accounted_kept(old(self)@, self@);
                    }
                }
            },
            None => {
                assert(outbox@ =~= old(outbox)@ + Seq::<Action>::empty());
                return ;
            },
        }
        if !(known || self.is_already_downloading(&hash)) {
            if number <= self.best_queued_number {
                if !(known_parent || self.is_already_downloading(&header.parent_hash)) {
                    self.download_unknown_stale(outbox, who, &hash);
                } else {
                    self.download_stale(outbox, who, &hash);
                }
            } else {
                self.download_new(outbox, who, importing_count);
            }
        } else {
            assert(outbox@ =~= old(outbox)@ + Seq::<Action>::empty());
        }
    }
}

} // verus!
