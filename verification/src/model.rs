//! The synchronisation engine as a mathematical state machine: its state as
//! plain sequences, and what each event makes of a state.

use crate::blocks::{drained, CollectionView, Download};
use crate::justifications::{JustificationsView, PendingJustification};
use crate::peers::{
    peer_index, peers_wf, spec_best_seen, spec_downloading_stale, spec_insert,
    spec_recently_announced, spec_remove, PeerSyncState, PeerView,
};
use crate::primitives::{
    spec_ancestry_request, spec_incoming_all, Action, BlockAttributes, BlockData, BlockHash,
    BlockNumber, BlockOrigin, BlockRequest, BlockStatus, ClientError, ClientInfo, Direction,
    Fault, FromBlock, Header, IncomingBlock, PeerId, PeerInfo, Roles, MAJOR_SYNC_BLOCKS,
    MAX_BLOCKS_TO_REQUEST, MAX_IMPORTING_BLOCKS, MAX_UNKNOWN_FORK_DOWNLOAD_LEN,
};
use vstd::prelude::*;

verus! {

/// Reported sync state.
#[derive(Clone, Copy, Eq, PartialEq, Debug, Structural)]
pub enum SyncState {
    /// Initial sync is complete, keep-up sync is active.
    Idle,
    /// Actively catching up with the chain.
    Downloading,
}

/// Syncing status and statistics.
#[derive(Clone, Copy, Eq, PartialEq, Debug)]
pub struct Status {
    /// Current global sync state.
    pub state: SyncState,
    /// Target sync block number.
    pub best_seen_block: Option<BlockNumber>,
}

impl Status {
    /// Whether the synchronization status is doing major downloading work or
    /// is near the head of the chain.
    pub fn is_major_syncing(&self) -> (b: bool)
        ensures
            b == (self.state == SyncState::Downloading),
    {
        match self.state {
            SyncState::Idle => false,
            SyncState::Downloading => true,
        }
    }
}

/// What the node knows of a peer that it reconnects to: the tip that the
/// peer advertised, and what the node knows of that block.
#[derive(Clone, Copy, Eq, PartialEq, Debug)]
pub struct PeerReport {
    pub who: PeerId,
    pub info: PeerInfo,
    pub status: Result<BlockStatus, ClientError>,
}

/// The state of the engine.
pub struct SyncView {
    pub genesis_hash: BlockHash,
    pub peers: Seq<PeerView>,
    pub blocks: CollectionView,
    pub best_queued_number: BlockNumber,
    pub best_queued_hash: BlockHash,
    pub required_block_attributes: BlockAttributes,
    pub justifications: JustificationsView,
}

/// What an event leads to: the next state, and the effects to perform.
pub struct Step {
    pub state: SyncView,
    pub actions: Seq<Action>,
}

/// What a block response leads to: the next state, the effects to perform,
/// and the batch for the import queue, if the response was taken.
pub struct DataStep {
    pub state: SyncView,
    pub actions: Seq<Action>,
    pub batch: Option<(BlockOrigin, Seq<IncomingBlock>)>,
}

impl Step {
    /// This step, followed by `next`.
    pub open spec fn followed_by(self, next: Step) -> Step {
        Step { state: next.state, actions: self.actions + next.actions }
    }
}

/// The status of a block: queued where the import queue is importing it, else
/// what the chain says.
pub open spec fn spec_block_status(
    importing: bool,
    chain: Result<BlockStatus, ClientError>,
) -> Result<BlockStatus, ClientError> {
    if importing {
        Ok(BlockStatus::Queued)
    } else {
        chain
    }
}

/// A block is known where its status was read and is not `Unknown`.
pub open spec fn spec_is_known(status: Result<BlockStatus, ClientError>) -> bool {
    match status {
        Ok(s) => s != BlockStatus::Unknown,
        Err(_) => false,
    }
}

/// Every node asks for headers and justifications; full nodes and
/// authorities ask for bodies too.
pub open spec fn spec_required_attributes(role: Roles) -> BlockAttributes {
    BlockAttributes { header: true, body: role.full || role.authority, justification: true }
}

/// The best queued block of the local chain: the one it reports as queued,
/// else its best block.
pub open spec fn spec_best_queued(info: ClientInfo) -> (BlockHash, BlockNumber) {
    (
        match info.best_queued_hash {
            Some(h) => h,
            None => info.chain.best_hash,
        },
        match info.best_queued_number {
            Some(n) => n,
            None => info.chain.best_number,
        },
    )
}

/// `i` is the first report about `who`.
pub open spec fn is_first_report(reports: Seq<PeerReport>, who: PeerId, i: int) -> bool {
    &&& 0 <= i < reports.len()
    &&& reports[i].who == who
    &&& forall|j: int| 0 <= j < i ==> (#[trigger] reports[j]).who != who
}

/// The first report about `who`.
pub open spec fn report_for(reports: Seq<PeerReport>, who: PeerId) -> Option<PeerReport> {
    if exists|i: int| is_first_report(reports, who, i) {
        Some(reports[choose|i: int| is_first_report(reports, who, i)])
    } else {
        None
    }
}

/// A peer that connects with this tip is taken to share the best queued
/// block with the node although its own best block is lower: its best block
/// is unknown and not the genesis block, and the import queue holds more
/// than `MAJOR_SYNC_BLOCKS`.
pub open spec fn outruns(
    best_queued_number: BlockNumber,
    info: Option<PeerInfo>,
    status: Result<BlockStatus, ClientError>,
    importing_count: usize,
) -> bool {
    &&& info matches Some(i)
    &&& status == Ok::<BlockStatus, ClientError>(BlockStatus::Unknown)
    &&& i.best_number != 0
    &&& importing_count > MAJOR_SYNC_BLOCKS
    &&& best_queued_number > i.best_number
}

/// The greater of two numbers.
pub open spec fn spec_max(a: BlockNumber, b: BlockNumber) -> BlockNumber {
    if a >= b {
        a
    } else {
        b
    }
}

/// The peers with nothing but their states changed.
pub open spec fn same_tips(before: Seq<PeerView>, after: Seq<PeerView>) -> bool {
    &&& before.len() == after.len()
    &&& forall|i: int|
        0 <= i < before.len() ==> #[trigger] after[i] == before[i].with_state(after[i].state)
}

impl SyncView {
    /// The engine of a node that starts from `info` with no peer.
    pub open spec fn init(role: Roles, info: ClientInfo) -> SyncView {
        SyncView {
            genesis_hash: info.chain.genesis_hash,
            peers: Seq::empty(),
            blocks: CollectionView::empty(),
            best_queued_hash: spec_best_queued(info).0,
            best_queued_number: spec_best_queued(info).1,
            required_block_attributes: spec_required_attributes(role),
            justifications: JustificationsView::empty(),
        }
    }

    /// The parts are well formed; a peer that downloads new blocks is asked
    /// for a range that begins where its state says; and a request that was
    /// issued to a peer that downloads a justification is for the block that
    /// its state names.
    pub open spec fn wf(self) -> bool {
        &&& peers_wf(self.peers)
        &&& self.blocks.wf()
        &&& self.justifications.wf()
        &&& forall|i: int|
            0 <= i < self.peers.len() ==> ((#[trigger] self.peers[i]).state matches PeerSyncState::DownloadingNew(
                s,
            ) ==> self.blocks.downloading(self.peers[i].who, s))
        &&& forall|i: int, k: int|
            0 <= i < self.peers.len() && 0 <= k < self.justifications.in_flight.len() && (
            #[trigger] self.peers[i]).who == (#[trigger] self.justifications.in_flight[k]).who ==> (
            self.peers[i].state matches PeerSyncState::DownloadingJustification(h)
                ==> self.justifications.in_flight[k].request.hash == h)
    }

    /// `who` is connected and in `state`.
    pub open spec fn peer_in_state(self, who: PeerId, state: PeerSyncState) -> bool {
        exists|i: int|
            0 <= i < self.peers.len() && (#[trigger] self.peers[i]).who == who
                && self.peers[i].state == state
    }

    /// A justification request is issued to `who`.
    pub open spec fn has_request(self, who: PeerId) -> bool {
        exists|k: int|
            0 <= k < self.justifications.in_flight.len() && (
            #[trigger] self.justifications.in_flight[k]).who == who
    }

    /// Every range that is asked for, and every justification request that
    /// was issued, belongs to a connected peer whose state names it; and
    /// every peer that downloads a justification was issued a request. In a
    /// well-formed state this makes the state of a peer say exactly what is
    /// outstanding with it.
    pub open spec fn accounted(self) -> bool {
        &&& forall|k: int|
            0 <= k < self.blocks.downloads.len() ==> self.peer_in_state(
                (#[trigger] self.blocks.downloads[k]).who,
                PeerSyncState::DownloadingNew(self.blocks.downloads[k].start),
            )
        &&& forall|k: int|
            0 <= k < self.justifications.in_flight.len() ==> self.peer_in_state(
                (#[trigger] self.justifications.in_flight[k]).who,
                PeerSyncState::DownloadingJustification(
                    self.justifications.in_flight[k].request.hash,
                ),
            )
        &&& forall|i: int|
            0 <= i < self.peers.len() && (
            #[trigger] self.peers[i]).state is DownloadingJustification ==> self.has_request(
                self.peers[i].who,
            )
    }

    /// The common block of no peer is above its best block.
    pub open spec fn tips_ordered(self) -> bool {
        forall|i: int|
            0 <= i < self.peers.len() ==> (#[trigger] self.peers[i]).common_number
                <= self.peers[i].best_number
    }

    /// Nothing happens.
    pub open spec fn quiet(self) -> Step {
        Step { state: self, actions: Seq::empty() }
    }

    /// Only `who` is reported.
    pub open spec fn report(self, who: PeerId, fault: Fault) -> Step {
        Step { state: self, actions: seq![Action::Report { who, fault }] }
    }

    pub open spec fn with_peer(self, i: int, peer: PeerView) -> SyncView {
        SyncView { peers: self.peers.update(i, peer), ..self }
    }

    /// The status: downloading where the best block that any peer has is more
    /// than `MAJOR_SYNC_BLOCKS` above the best queued one.
    pub open spec fn status(self) -> Status {
        let best_seen = spec_best_seen(self.peers);
        Status {
            state: match best_seen {
                Some(n) => if n - self.best_queued_number > MAJOR_SYNC_BLOCKS {
                    SyncState::Downloading
                } else {
                    SyncState::Idle
                },
                None => SyncState::Idle,
            },
            best_seen_block: best_seen,
        }
    }

    /// The request for a block at or below the best queued one.
    pub open spec fn stale_request(self, hash: BlockHash, direction: Direction, max: u32) -> BlockRequest {
        BlockRequest {
            id: 0,
            fields: self.required_block_attributes,
            from: FromBlock::Hash(hash),
            to: None,
            direction,
            max: Some(max),
        }
    }

    /// The request for the new blocks from `start` up to `end`.
    pub open spec fn new_request(self, start: BlockNumber, end: BlockNumber) -> BlockRequest {
        BlockRequest {
            id: 0,
            fields: self.required_block_attributes,
            from: FromBlock::Number(start),
            to: None,
            direction: Direction::Ascending,
            max: Some((end - start) as u32),
        }
    }

    /// An available peer is asked for `max` blocks from `hash` and is then
    /// downloading that stale block; of another peer nothing is asked.
    pub open spec fn request_stale(
        self,
        who: PeerId,
        hash: BlockHash,
        direction: Direction,
        max: u32,
    ) -> Step {
        match peer_index(self.peers, who) {
            Some(i) => if self.peers[i].state == PeerSyncState::Available {
                Step {
                    state: self.with_peer(
                        i,
                        self.peers[i].with_state(PeerSyncState::DownloadingStale(hash)),
                    ),
                    actions: seq![
                        Action::Send { to: who, request: self.stale_request(hash, direction, max) },
                    ],
                }
            } else {
                self.quiet()
            },
            None => self.quiet(),
        }
    }

    /// Download old block with known parent.
    pub open spec fn download_stale(self, who: PeerId, hash: BlockHash) -> Step {
        self.request_stale(who, hash, Direction::Ascending, 1)
    }

    /// Download old block with unknown parent.
    pub open spec fn download_unknown_stale(self, who: PeerId, hash: BlockHash) -> Step {
        self.request_stale(who, hash, Direction::Descending, MAX_UNKNOWN_FORK_DOWNLOAD_LEN)
    }

    /// Unless the import queue holds more than `MAX_IMPORTING_BLOCKS`, an
    /// available peer is asked for the range of new blocks that is needed of
    /// it, if there is one, and is then downloading from the start of that
    /// range.
    pub open spec fn download_new(self, who: PeerId, importing_count: usize) -> Step {
        match peer_index(self.peers, who) {
            Some(i) => if importing_count <= MAX_IMPORTING_BLOCKS && self.peers[i].state
                == PeerSyncState::Available {
                match self.blocks.needed_range(
                    who,
                    MAX_BLOCKS_TO_REQUEST,
                    self.peers[i].best_number,
                    self.peers[i].common_number,
                ) {
                    Some((start, end)) => Step {
                        state: SyncView {
                            blocks: self.blocks.assigned(
                                Download { who, start, len: (end - start) as u64 },
                            ),
                            peers: self.peers.update(
                                i,
                                self.peers[i].with_state(PeerSyncState::DownloadingNew(start)),
                            ),
                            ..self
                        },
                        actions: seq![
                            Action::Send { to: who, request: self.new_request(start, end) },
                        ],
                    },
                    None => self.quiet(),
                }
            } else {
                self.quiet()
            },
            None => self.quiet(),
        }
    }

    /// New blocks are asked of the first `k` peers, one peer after the other.
    pub open spec fn download_all(self, k: int, importing_count: usize) -> Step
        decreases k,
    {
        if k <= 0 {
            self.quiet()
        } else {
            let done = self.download_all(k - 1, importing_count);
            done.followed_by(done.state.download_new(self.peers[k - 1].who, importing_count))
        }
    }

    /// The pending justification requests are dispatched.
    pub open spec fn dispatch(self, now: u64) -> Step {
        let d = self.justifications.dispatch(self.peers, now);
        Step {
            state: SyncView { peers: d.peers, justifications: d.justifications, ..self },
            actions: d.actions,
        }
    }

    /// New blocks are asked of every peer, then the pending justification
    /// requests are dispatched.
    pub open spec fn maintain_sync(self, now: u64, importing_count: usize) -> Step {
        let d = self.download_all(self.peers.len() as int, importing_count);
        d.followed_by(d.state.dispatch(now))
    }

    /// The request is queued, then the pending requests are dispatched.
    pub open spec fn request_justification(
        self,
        hash: BlockHash,
        number: BlockNumber,
        now: u64,
    ) -> Step {
        (SyncView {
            justifications: self.justifications.queue_request(
                PendingJustification { hash, number },
            ),
            ..self
        }).dispatch(now)
    }

    /// The justification requests for blocks up to `number` are dropped.
    pub open spec fn block_finalized(self, number: BlockNumber) -> SyncView {
        SyncView { justifications: self.justifications.collect_garbage(number), ..self }
    }

    /// Block `hash` at height `number` was queued for import: it is the best
    /// queued block if it is higher than that; every ancestor search is
    /// abandoned; and every peer has in common with the node what is lower,
    /// this block or its own best.
    pub open spec fn block_queued(self, hash: BlockHash, number: BlockNumber) -> SyncView {
        SyncView {
            best_queued_number: if number > self.best_queued_number {
                number
            } else {
                self.best_queued_number
            },
            best_queued_hash: if number > self.best_queued_number {
                hash
            } else {
                self.best_queued_hash
            },
            peers: Seq::new(self.peers.len(), |i: int| self.peers[i].queued(number)),
            ..self
        }
    }

    /// A peer connected. `info` is the tip it advertised and `status` what
    /// the node knows of that block.
    pub open spec fn new_peer(
        self,
        who: PeerId,
        info: Option<PeerInfo>,
        status: Result<BlockStatus, ClientError>,
        importing_count: usize,
    ) -> Step {
        match info {
            None => self.quiet(),
            Some(info) => match status {
                Err(_) => self.report(who, Fault::StatusReadError),
                Ok(BlockStatus::KnownBad) => self.report(who, Fault::KnownBadBest),
                Ok(BlockStatus::Unknown) => if info.best_number == 0 {
                    self.report(who, Fault::UnknownGenesis)
                } else if importing_count > MAJOR_SYNC_BLOCKS {
                    // when actively syncing the common point moves too fast
                    self.connected(
                        who,
                        self.best_queued_number,
                        info,
                        PeerSyncState::Available,
                    ).quiet()
                } else if self.best_queued_number > 0 {
                    let common_best = if self.best_queued_number <= info.best_number {
                        self.best_queued_number
                    } else {
                        info.best_number
                    };
                    Step {
                        state: self.connected(
                            who,
                            0,
                            info,
                            PeerSyncState::AncestorSearch(common_best),
                        ),
                        actions: seq![
                            Action::Send { to: who, request: spec_ancestry_request(common_best) },
                        ],
                    }
                } else {
                    // at genesis, just start downloading
                    self.connected(who, 0, info, PeerSyncState::Available).download_new(
                        who,
                        importing_count,
                    )
                },
                Ok(_) => self.connected(who, info.best_number, info, PeerSyncState::Available).quiet(),
            },
        }
    }

    /// The state with the record of a peer that just connected.
    pub open spec fn connected(
        self,
        who: PeerId,
        common_number: BlockNumber,
        info: PeerInfo,
        state: PeerSyncState,
    ) -> SyncView {
        SyncView {
            peers: spec_insert(
                self.peers,
                PeerView::fresh(who, common_number, info.best_hash, info.best_number, state),
            ),
            ..self
        }
    }

    /// The blocks that are ready for import, and the state without them.
    pub open spec fn ready(self) -> Seq<IncomingBlock> {
        if self.best_queued_number < u64::MAX {
            drained(self.blocks.ranges, self.best_queued_number + 1)
        } else {
            Seq::empty()
        }
    }

    pub open spec fn after_ready(self) -> SyncView {
        if self.best_queued_number < u64::MAX {
            SyncView {
                blocks: self.blocks.after_drain((self.best_queued_number + 1) as u64),
                ..self
            }
        } else {
            self
        }
    }

    /// A batch goes to the import queue: it came by broadcast if some peer
    /// announced its first block recently, and its last block, if it has a
    /// header, is queued. Nothing is sent.
    pub open spec fn accept(self, batch: Seq<IncomingBlock>) -> DataStep {
        let origin = if batch.len() > 0 && spec_recently_announced(self.peers, batch[0].hash) {
            BlockOrigin::NetworkBroadcast
        } else {
            BlockOrigin::NetworkInitialSync
        };
        let queued = if batch.len() > 0 && batch.last().header is Some {
            self.block_queued(batch.last().hash, batch.last().header->0.number)
        } else {
            self
        };
        DataStep { state: queued, actions: Seq::empty(), batch: Some((origin, batch)) }
    }

    /// Only effects, and no batch.
    pub open spec fn declined(self, actions: Seq<Action>) -> DataStep {
        DataStep { state: self, actions, batch: None }
    }

    /// The peer at place `i`, searching for a common ancestor at height `n`,
    /// answered with a block of hash `theirs`, where the local chain has
    /// `ours` at that height.
    pub open spec fn ancestor_step(
        self,
        i: int,
        n: BlockNumber,
        theirs: BlockHash,
        ours: Result<Option<BlockHash>, ClientError>,
    ) -> DataStep {
        let peer = self.peers[i];
        match ours {
            Ok(hash) => if hash == Some(theirs) {
                self.with_peer(
                    i,
                    peer.with_common(spec_max(peer.common_number, n)).with_state(
                        PeerSyncState::Available,
                    ),
                ).accept(Seq::empty())
            } else if n > 0 {
                let lower = (n - 1) as u64;
                self.with_peer(i, peer.with_state(PeerSyncState::AncestorSearch(lower))).declined(
                    seq![Action::Send { to: peer.who, request: spec_ancestry_request(lower) }],
                )
            } else {
                self.declined(seq![Action::Report { who: peer.who, fault: Fault::GenesisMismatch }])
            },
            Err(_) => self.declined(
                seq![Action::Report { who: peer.who, fault: Fault::AncestryReadError }],
            ),
        }
    }

    /// A peer answered a block request. `direction` is that of the request,
    /// and `ours` is the hash of the local chain at the height at which the
    /// peer's ancestor search stands, if it is searching.
    pub open spec fn on_block_data(
        self,
        who: PeerId,
        direction: Direction,
        response: Seq<BlockData>,
        ours: Result<Option<BlockHash>, ClientError>,
    ) -> DataStep {
        let blocks = if direction == Direction::Descending {
            response.reverse()
        } else {
            response
        };
        match peer_index(self.peers, who) {
            None => self.accept(Seq::empty()),
            Some(i) => {
                let peer = self.peers[i];
                match peer.state {
                    PeerSyncState::DownloadingNew(start) => {
                        let filled = SyncView {
                            blocks: self.blocks.released(who).inserted(start, blocks, who),
                            peers: self.peers.update(i, peer.with_state(PeerSyncState::Available)),
                            ..self
                        };
                        filled.after_ready().accept(filled.ready())
                    },
                    PeerSyncState::DownloadingStale(_) => self.with_peer(
                        i,
                        peer.with_state(PeerSyncState::Available),
                    ).accept(spec_incoming_all(blocks, Some(who))),
                    PeerSyncState::AncestorSearch(n) => if blocks.len() == 0 {
                        self.declined(seq![Action::Report { who, fault: Fault::EmptyAncestry }])
                    } else {
                        self.ancestor_step(i, n, blocks[0].hash, ours)
                    },
                    _ => self.accept(Seq::empty()),
                }
            },
        }
    }

    /// The request `r` stands first in the queue.
    pub open spec fn awaits(self, r: PendingJustification) -> bool {
        self.justifications.queue.len() > 0 && self.justifications.queue[0] == r
    }

    /// The state once the request that was issued to `who` is taken back
    /// and stands first in the queue again.
    pub open spec fn requeued(self, who: PeerId) -> SyncView {
        SyncView { justifications: self.justifications.peer_disconnected(who), ..self }
    }

    /// A peer answered a justification request. The peer is available again.
    /// For an empty answer, or one for another block, the peer is reported
    /// and the request goes back to the front of the queue. Where the answer
    /// holds the justification of the block that was asked for and the
    /// request is still issued to the peer, the import queue is to judge it,
    /// and nothing else happens until its verdict is in.
    pub open spec fn on_block_justification_data(
        self,
        who: PeerId,
        response: Seq<BlockData>,
        now: u64,
    ) -> Step {
        match peer_index(self.peers, who) {
            Some(i) => match self.peers[i].state {
                PeerSyncState::DownloadingJustification(hash) => {
                    let idle = self.with_peer(
                        i,
                        self.peers[i].with_state(PeerSyncState::Available),
                    );
                    if response.len() == 0 {
                        idle.requeued(who).report(who, Fault::EmptyJustification)
                    } else if response[0].hash != hash {
                        idle.requeued(who).report(who, Fault::JustificationMismatch)
                    } else {
                        match (response[0].justification, self.justifications.request_of(who)) {
                            (Some(justification), Some(r)) => Step {
                                state: self,
                                actions: seq![
                                    Action::ImportJustification {
                                        who,
                                        hash: r.hash,
                                        number: r.number,
                                        justification,
                                    },
                                ],
                            },
                            (Some(_), None) => idle.quiet(),
                            (None, _) => idle.answered(who, None, now),
                        }
                    }
                },
                _ => self.quiet(),
            },
            None => self.quiet(),
        }
    }

    /// The answer of `who` is recorded.
    pub open spec fn answered(self, who: PeerId, verdict: Option<bool>, now: u64) -> Step {
        let r = self.justifications.on_response(who, verdict, now);
        Step { state: SyncView { justifications: r.justifications, ..self }, actions: r.actions }
    }

    /// The import queue judged the justification that `who` provided. A
    /// verdict for a peer that is not downloading a justification changes
    /// nothing.
    pub open spec fn on_justification_import(
        self,
        who: PeerId,
        success: bool,
        now: u64,
    ) -> Step {
        match peer_index(self.peers, who) {
            Some(i) => match self.peers[i].state {
                PeerSyncState::DownloadingJustification(_) => self.with_peer(
                    i,
                    self.peers[i].with_state(PeerSyncState::Available),
                ).answered(who, Some(success), now),
                _ => self.quiet(),
            },
            None => self.quiet(),
        }
    }

    /// The state once the announcement of the peer at place `i` is noted: the
    /// announcement is remembered, and the common block of the peer is raised
    /// to the parent of the announced block where the node has that parent,
    /// or to the block itself where the node has it.
    pub open spec fn on_block_announce_noted(
        self,
        i: int,
        hash: BlockHash,
        header: Header,
        known_parent: bool,
        known: bool,
    ) -> SyncView {
        let announced = self.peers[i].announce(hash, header.number);
        self.with_peer(
            i,
            if header.parent_hash == self.best_queued_hash || known_parent {
                announced.with_common(
                    spec_max(announced.common_number, (header.number - 1) as u64),
                )
            } else if known {
                announced.with_common(spec_max(announced.common_number, header.number))
            } else {
                announced
            },
        )
    }

    /// A peer announced a block. `parent_status` and `status` are what the
    /// node knows of the parent of the block and of the block.
    pub open spec fn on_block_announce(
        self,
        who: PeerId,
        hash: BlockHash,
        header: Header,
        parent_status: Result<BlockStatus, ClientError>,
        status: Result<BlockStatus, ClientError>,
        importing_count: usize,
    ) -> Step {
        let number = header.number;
        let known_parent = spec_is_known(parent_status);
        let known = spec_is_known(status);
        match peer_index(self.peers, who) {
            Some(i) => if number == 0 {
                self.quiet()
            } else {
                let announced = self.peers[i].announce(hash, number);
                if announced.state is AncestorSearch {
                    self.with_peer(i, announced).quiet()
                } else {
                    let noted = self.on_block_announce_noted(i, hash, header, known_parent, known);
                    if known || spec_downloading_stale(noted.peers, hash) {
                        noted.quiet()
                    } else if number <= self.best_queued_number {
                        if !(known_parent || spec_downloading_stale(
                            noted.peers,
                            header.parent_hash,
                        )) {
                            noted.download_unknown_stale(who, hash)
                        } else {
                            noted.download_stale(who, hash)
                        }
                    } else {
                        noted.download_new(who, importing_count)
                    }
                }
            },
            None => self.quiet(),
        }
    }

    /// A peer disconnected: its record is gone, the range that it was asked
    /// for is free for other peers, and the justification request that was
    /// issued to it stands first in the queue again.
    pub open spec fn released(self, who: PeerId) -> SyncView {
        SyncView {
            blocks: self.blocks.released(who),
            peers: spec_remove(self.peers, who),
            justifications: self.justifications.peer_disconnected(who),
            ..self
        }
    }

    /// The first `k` of the peers `ids` connect again, one after the other,
    /// each with the first report about it; a peer without a report stays
    /// away.
    pub open spec fn reconnect(
        self,
        ids: Seq<PeerId>,
        k: int,
        reports: Seq<PeerReport>,
        importing_count: usize,
    ) -> Step
        decreases k,
    {
        if k <= 0 {
            self.quiet()
        } else {
            let done = self.reconnect(ids, k - 1, reports, importing_count);
            done.followed_by(
                match report_for(reports, ids[k - 1]) {
                    Some(r) => done.state.new_peer(
                        ids[k - 1],
                        Some(r.info),
                        r.status,
                        importing_count,
                    ),
                    None => done.state.quiet(),
                },
            )
        }
    }

    /// The synchronisation starts over from what the local chain reports:
    /// the downloaded blocks are forgotten, and every peer connects again.
    pub open spec fn restart(
        self,
        info: Result<ClientInfo, ClientError>,
        reports: Seq<PeerReport>,
        importing_count: usize,
    ) -> Step {
        let tip = match info {
            Ok(info) => spec_best_queued(info),
            Err(_) => (self.genesis_hash, 0u64),
        };
        (SyncView {
            blocks: CollectionView::empty(),
            peers: Seq::empty(),
            best_queued_hash: tip.0,
            best_queued_number: tip.1,
            ..self
        }).reconnect(
            Seq::new(self.peers.len(), |i: int| self.peers[i].who),
            self.peers.len() as int,
            reports,
            importing_count,
        )
    }

    /// All peers and all downloaded blocks are forgotten.
    pub open spec fn clear(self) -> SyncView {
        SyncView { blocks: CollectionView::empty(), peers: Seq::empty(), ..self }
    }
}

} // verus!
