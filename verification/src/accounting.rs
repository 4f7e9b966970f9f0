//! The state of a peer says exactly what is outstanding with it: which steps
//! of the engine keep that so.

use crate::blocks::{lemma_assigned, lemma_needed_range, lemma_released_downloads, Download};
use crate::invariants::{lemma_dispatch, lemma_download_all};
use crate::justifications::{
    candidates, eligible, from_peer, is_first_request, lemma_candidates, lemma_plan, plan, recent,
    request_index, served_by, PeerRequest,
};
use crate::model::SyncView;
use crate::peers::{
    is_first_peer, lemma_peer_index_found, peer_index, PeerSyncState, PeerView,
};
use crate::primitives::{BlockHash, BlockNumber, Direction, PeerId, MAX_BLOCKS_TO_REQUEST};
use vstd::prelude::*;

verus! {

/// The request at place `m` goes to an available peer, and that peer gets no
/// other.
pub open spec fn goes_to_available(
    peers: Seq<PeerView>,
    issued: Seq<PeerRequest>,
    m: int,
) -> bool {
    exists|i: int|
        0 <= i < peers.len() && (#[trigger] peers[i]).who == issued[m].who && peers[i].state
            == PeerSyncState::Available && request_index(issued, peers[i].who) == Some(m)
}

/// One outstanding request: in a well-formed state in which everything is
/// accounted for, a peer downloads new blocks from a number exactly if it is
/// asked for a range that begins there; it downloads the justification of a
/// block exactly if a request for that block is issued to it; and in any
/// other state it is asked for no range and no request is issued to it.
pub proof fn law_one_outstanding_request(s: SyncView, i: int)
    requires
        s.wf(),
        s.accounted(),
        0 <= i < s.peers.len(),
    ensures
        forall|start: BlockNumber|
            s.peers[i].state == PeerSyncState::DownloadingNew(start) <==> s.blocks.downloading(
                s.peers[i].who,
                start,
            ),
        forall|hash: BlockHash|
            s.peers[i].state == PeerSyncState::DownloadingJustification(hash) <==> (exists|k: int|
                0 <= k < s.justifications.in_flight.len() && (
                #[trigger] s.justifications.in_flight[k]).who == s.peers[i].who
                    && s.justifications.in_flight[k].request.hash == hash),
        s.peers[i].state is Available || s.peers[i].state is AncestorSearch
            || s.peers[i].state is DownloadingStale ==> !s.blocks.has_download(s.peers[i].who)
            && !s.has_request(s.peers[i].who),
        s.peers[i].state is DownloadingNew ==> !s.has_request(s.peers[i].who),
        s.peers[i].state is DownloadingJustification ==> !s.blocks.has_download(s.peers[i].who),
{
    lemma_owner(s, i);
    let who = s.peers[i].who;
    assert forall|hash: BlockHash|
        s.peers[i].state == PeerSyncState::DownloadingJustification(hash) implies (exists|k: int|
        0 <= k < s.justifications.in_flight.len() && (#[trigger] s.justifications.in_flight[k]).who
            == who && s.justifications.in_flight[k].request.hash == hash) by {
        assert(s.has_request(who));
        let k = choose|k: int|
            0 <= k < s.justifications.in_flight.len() && (
            #[trigger] s.justifications.in_flight[k]).who == who;
        assert(s.justifications.in_flight[k].request.hash == hash);
    }
}

/// What is asked of a peer is what its state names.
pub proof fn lemma_owner(s: SyncView, i: int)
    requires
        s.wf(),
        s.accounted(),
        0 <= i < s.peers.len(),
    ensures
        forall|k: int|
            0 <= k < s.blocks.downloads.len() && (#[trigger] s.blocks.downloads[k]).who
                == s.peers[i].who ==> s.peers[i].state == PeerSyncState::DownloadingNew(
                s.blocks.downloads[k].start,
            ),
        forall|k: int|
            0 <= k < s.justifications.in_flight.len() && (
            #[trigger] s.justifications.in_flight[k]).who == s.peers[i].who ==> s.peers[i].state
                == PeerSyncState::DownloadingJustification(
                s.justifications.in_flight[k].request.hash,
            ),
{
    let who = s.peers[i].who;
    assert forall|k: int|
        0 <= k < s.blocks.downloads.len() && (#[trigger] s.blocks.downloads[k]).who
            == who implies s.peers[i].state == PeerSyncState::DownloadingNew(
        s.blocks.downloads[k].start,
    ) by {
        let st = PeerSyncState::DownloadingNew(s.blocks.downloads[k].start);
        assert(s.peer_in_state(who, st));
        let j = choose|j: int|
            0 <= j < s.peers.len() && (#[trigger] s.peers[j]).who == who && s.peers[j].state == st;
        assert(j == i);
    }
    assert forall|k: int|
        0 <= k < s.justifications.in_flight.len() && (
        #[trigger] s.justifications.in_flight[k]).who == who implies s.peers[i].state
        == PeerSyncState::DownloadingJustification(s.justifications.in_flight[k].request.hash) by {
        let st = PeerSyncState::DownloadingJustification(
            s.justifications.in_flight[k].request.hash,
        );
        assert(s.peer_in_state(who, st));
        let j = choose|j: int|
            0 <= j < s.peers.len() && (#[trigger] s.peers[j]).who == who && s.peers[j].state == st;
        assert(j == i);
    }
}

/// Changing the state of a peer of which nothing is asked, to a state that
/// names nothing, keeps everything accounted for.
pub proof fn lemma_idle_state_accounted(s: SyncView, i: int, state: PeerSyncState)
    requires
        s.wf(),
        s.accounted(),
        0 <= i < s.peers.len(),
        !(s.peers[i].state is DownloadingNew),
        !(s.peers[i].state is DownloadingJustification),
        !(state is DownloadingNew),
        !(state is DownloadingJustification),
    ensures
        s.with_peer(i, s.peers[i].with_state(state)).accounted(),
{
    let n = s.with_peer(i, s.peers[i].with_state(state));
    lemma_owner(s, i);
    assert forall|k: int| 0 <= k < n.blocks.downloads.len() implies n.peer_in_state(
        (#[trigger] n.blocks.downloads[k]).who,
        PeerSyncState::DownloadingNew(n.blocks.downloads[k].start),
    ) by {
        let st = PeerSyncState::DownloadingNew(s.blocks.downloads[k].start);
        assert(s.peer_in_state(s.blocks.downloads[k].who, st));
        let j = choose|j: int|
            0 <= j < s.peers.len() && (#[trigger] s.peers[j]).who == s.blocks.downloads[k].who
                && s.peers[j].state == st;
        assert(n.peers[j] == s.peers[j]);
    }
    assert forall|k: int| 0 <= k < n.justifications.in_flight.len() implies n.peer_in_state(
        (#[trigger] n.justifications.in_flight[k]).who,
        PeerSyncState::DownloadingJustification(n.justifications.in_flight[k].request.hash),
    ) by {
        let st = PeerSyncState::DownloadingJustification(
            s.justifications.in_flight[k].request.hash,
        );
        assert(s.peer_in_state(s.justifications.in_flight[k].who, st));
        let j = choose|j: int|
            0 <= j < s.peers.len() && (#[trigger] s.peers[j]).who
                == s.justifications.in_flight[k].who && s.peers[j].state == st;
        assert(n.peers[j] == s.peers[j]);
    }
    assert forall|j: int|
        0 <= j < n.peers.len() && (
        #[trigger] n.peers[j]).state is DownloadingJustification implies n.has_request(
        n.peers[j].who,
    ) by {
        assert(j != i);
        assert(n.peers[j] == s.peers[j]);
        assert(s.has_request(s.peers[j].who));
        let k = choose|k: int|
            0 <= k < s.justifications.in_flight.len() && (
            #[trigger] s.justifications.in_flight[k]).who == s.peers[j].who;
        assert(n.justifications.in_flight[k].who == n.peers[j].who);
    }
}

/// Asking a peer for a stale block keeps everything accounted for.
pub proof fn lemma_request_stale_accounted(
    s: SyncView,
    who: PeerId,
    hash: BlockHash,
    direction: Direction,
    max: u32,
)
    requires
        s.wf(),
        s.accounted(),
    ensures
        s.request_stale(who, hash, direction, max).state.accounted(),
{
    lemma_peer_index_found(s.peers, who);
    match peer_index(s.peers, who) {
        Some(i) => {
            if s.peers[i].state == PeerSyncState::Available {
                lemma_idle_state_accounted(s, i, PeerSyncState::DownloadingStale(hash));
            }
        },
        None => {},
    }
}

/// Asking a peer for new blocks keeps everything accounted for.
pub proof fn lemma_download_new_accounted(s: SyncView, who: PeerId, importing_count: usize)
    requires
        s.wf(),
        s.accounted(),
    ensures
        s.download_new(who, importing_count).state.accounted(),
{
    lemma_peer_index_found(s.peers, who);
    let n = s.download_new(who, importing_count).state;
    match peer_index(s.peers, who) {
        Some(i) => {
            let peer = s.peers[i];
            lemma_needed_range(
                s.blocks,
                who,
                MAX_BLOCKS_TO_REQUEST,
                peer.best_number,
                peer.common_number,
            );
            if n != s {
                let (start, end) = s.blocks.needed_range(
                    who,
                    MAX_BLOCKS_TO_REQUEST,
                    peer.best_number,
                    peer.common_number,
                )->0;
                let d = Download { who, start, len: (end - start) as u64 };
                lemma_assigned(s.blocks, d);
                lemma_owner(s, i);
                assert forall|k: int| 0 <= k < n.blocks.downloads.len() implies n.peer_in_state(
                    (#[trigger] n.blocks.downloads[k]).who,
                    PeerSyncState::DownloadingNew(n.blocks.downloads[k].start),
                ) by {
                    let e = n.blocks.downloads[k];
                    if e.who == who {
                        assert(n.blocks.downloading(who, e.start));
                        assert(n.peers[i].who == who);
                    } else {
                        assert(n.blocks.downloading(e.who, e.start));
                        assert(s.blocks.downloading(e.who, e.start));
                        let a = choose|a: int|
                            0 <= a < s.blocks.downloads.len() && (#[trigger] s.blocks.downloads[a]).who
                                == e.who && s.blocks.downloads[a].start == e.start;
                        let st = PeerSyncState::DownloadingNew(e.start);
                        assert(s.peer_in_state(s.blocks.downloads[a].who, st));
                        let j = choose|j: int|
                            0 <= j < s.peers.len() && (#[trigger] s.peers[j]).who == e.who
                                && s.peers[j].state == st;
                        assert(n.peers[j] == s.peers[j]);
                    }
                }
                assert forall|k: int|
                    0 <= k < n.justifications.in_flight.len() implies n.peer_in_state(
                    (#[trigger] n.justifications.in_flight[k]).who,
                    PeerSyncState::DownloadingJustification(
                        n.justifications.in_flight[k].request.hash,
                    ),
                ) by {
                    let st = PeerSyncState::DownloadingJustification(
                        s.justifications.in_flight[k].request.hash,
                    );
                    assert(s.peer_in_state(s.justifications.in_flight[k].who, st));
                    let j = choose|j: int|
                        0 <= j < s.peers.len() && (#[trigger] s.peers[j]).who
                            == s.justifications.in_flight[k].who && s.peers[j].state == st;
                    assert(n.peers[j] == s.peers[j]);
                }
                assert forall|j: int|
                    0 <= j < n.peers.len() && (
                    #[trigger] n.peers[j]).state is DownloadingJustification implies n.has_request(
                    n.peers[j].who,
                ) by {
                    assert(n.peers[j] == s.peers[j]);
                    assert(s.has_request(s.peers[j].who));
                }
            }
        },
        None => {},
    }
}

/// Asking the first `k` peers for new blocks keeps everything accounted for.
pub proof fn lemma_download_all_accounted(s: SyncView, k: int, importing_count: usize)
    requires
        s.wf(),
        s.accounted(),
        k <= s.peers.len(),
    ensures
        s.download_all(k, importing_count).state.accounted(),
    decreases k,
{
    if k > 0 {
        lemma_download_all_accounted(s, k - 1, importing_count);
        lemma_download_all(s, k - 1, importing_count);
        lemma_download_new_accounted(
            s.download_all(k - 1, importing_count).state,
            s.peers[k - 1].who,
            importing_count,
        );
    }
}

/// Dispatching the justification requests keeps everything accounted for.
pub proof fn lemma_dispatch_accounted(s: SyncView, now: u64)
    requires
        s.wf(),
        s.accounted(),
    ensures
        s.dispatch(now).state.accounted(),
{
    let j = s.justifications;
    let n = s.dispatch(now).state;
    lemma_dispatch(s, now);
    if j.queue.len() > 0 {
        let history = j.history.filter(recent(now));
        let cands = candidates(s.peers, j.in_flight);
        let p = plan(cands, j.queue, history);
        lemma_candidates(s.peers, j.in_flight);
        lemma_plan(cands, j.queue, history);
        // a peer that a request is issued to was available
        assert forall|m: int| 0 <= m < p.issued.len() implies #[trigger] goes_to_available(
            s.peers,
            p.issued,
            m,
        ) by {
            let e = p.issued[m];
            assert(served_by(cands, e, history));
            let c = choose|c: int|
                0 <= c < cands.len() && (#[trigger] cands[c]).who == e.who && eligible(
                    cands[c],
                    e.request,
                    history,
                );
            assert(from_peer(s.peers, j.in_flight, cands[c]));
            let i = choose|i: int|
                0 <= i < s.peers.len() && crate::justifications::is_candidate(
                    #[trigger] s.peers[i],
                    j.in_flight,
                ) && cands[c] == crate::justifications::candidate_of(s.peers[i]);
            assert(s.peers[i].who == e.who);
            assert(is_first_request(p.issued, e.who, m)) by {
                assert forall|b: int| 0 <= b < m implies (#[trigger] p.issued[b]).who != e.who by {
                    assert(p.issued[b].who != p.issued[m].who);
                }
            }
            let m2 = request_index(p.issued, e.who)->0;
            assert(is_first_request(p.issued, e.who, m2));
            if m2 < m {
                assert(p.issued[m2].who != p.issued[m].who);
            }
            if m < m2 {
                assert(p.issued[m].who != p.issued[m2].who);
            }
            assert(s.peers[i].state == PeerSyncState::Available);
            assert(request_index(p.issued, s.peers[i].who) == Some(m));
        }
        // a peer whose state changes was available
        assert forall|i: int| 0 <= i < s.peers.len() implies (#[trigger] n.peers[i]) == s.peers[i]
            || s.peers[i].state == PeerSyncState::Available by {
            match request_index(p.issued, s.peers[i].who) {
                Some(m) => {
                    assert(is_first_request(p.issued, s.peers[i].who, m));
                    assert(goes_to_available(s.peers, p.issued, m));
                    let i2 = choose|i2: int|
                        0 <= i2 < s.peers.len() && (#[trigger] s.peers[i2]).who == p.issued[m].who
                            && s.peers[i2].state == PeerSyncState::Available && request_index(
                            p.issued,
                            s.peers[i2].who,
                        ) == Some(m);
                    assert(i2 == i);
                },
                None => {},
            }
        }
        assert forall|k: int| 0 <= k < n.blocks.downloads.len() implies n.peer_in_state(
            (#[trigger] n.blocks.downloads[k]).who,
            PeerSyncState::DownloadingNew(n.blocks.downloads[k].start),
        ) by {
            let st = PeerSyncState::DownloadingNew(s.blocks.downloads[k].start);
            assert(s.peer_in_state(s.blocks.downloads[k].who, st));
            let i = choose|i: int|
                0 <= i < s.peers.len() && (#[trigger] s.peers[i]).who == s.blocks.downloads[k].who
                    && s.peers[i].state == st;
            assert(n.peers[i] == s.peers[i]);
        }
        assert forall|k: int| 0 <= k < n.justifications.in_flight.len() implies n.peer_in_state(
            (#[trigger] n.justifications.in_flight[k]).who,
            PeerSyncState::DownloadingJustification(n.justifications.in_flight[k].request.hash),
        ) by {
            if k < j.in_flight.len() {
                assert(n.justifications.in_flight[k] == j.in_flight[k]);
                let st = PeerSyncState::DownloadingJustification(j.in_flight[k].request.hash);
                assert(s.peer_in_state(j.in_flight[k].who, st));
                let i = choose|i: int|
                    0 <= i < s.peers.len() && (#[trigger] s.peers[i]).who == j.in_flight[k].who
                        && s.peers[i].state == st;
                assert(n.peers[i] == s.peers[i]);
            } else {
                let m = k - j.in_flight.len();
                assert(n.justifications.in_flight[k] == p.issued[m]);
                assert(goes_to_available(s.peers, p.issued, m));
                let i = choose|i: int|
                    0 <= i < s.peers.len() && (#[trigger] s.peers[i]).who == p.issued[m].who
                        && s.peers[i].state == PeerSyncState::Available && request_index(
                        p.issued,
                        s.peers[i].who,
                    ) == Some(m);
                assert(n.peers[i].who == p.issued[m].who);
                assert(n.peers[i].state == PeerSyncState::DownloadingJustification(
                    p.issued[m].request.hash,
                ));
            }
        }
        assert forall|i: int|
            0 <= i < n.peers.len() && (
            #[trigger] n.peers[i]).state is DownloadingJustification implies n.has_request(
            n.peers[i].who,
        ) by {
            match request_index(p.issued, s.peers[i].who) {
                Some(m) => {
                    assert(is_first_request(p.issued, s.peers[i].who, m));
                    assert(n.justifications.in_flight[j.in_flight.len() + m] == p.issued[m]);
                },
                None => {
                    assert(n.peers[i] == s.peers[i]);
                    assert(s.has_request(s.peers[i].who));
                    let k = choose|k: int|
                        0 <= k < j.in_flight.len() && (#[trigger] j.in_flight[k]).who
                            == s.peers[i].who;
                    assert(n.justifications.in_flight[k] == j.in_flight[k]);
                },
            }
        }
    }
}

/// Maintaining the synchronisation keeps everything accounted for.
pub proof fn lemma_maintain_sync_accounted(s: SyncView, now: u64, importing_count: usize)
    requires
        s.wf(),
        s.accounted(),
    ensures
        s.maintain_sync(now, importing_count).state.accounted(),
{
    lemma_download_all(s, s.peers.len() as int, importing_count);
    lemma_download_all_accounted(s, s.peers.len() as int, importing_count);
    lemma_dispatch_accounted(s.download_all(s.peers.len() as int, importing_count).state, now);
}

/// Everything stays accounted for where the downloads and the issued
/// requests stay, and no peer moves into or out of a state that names one.
pub proof fn lemma_accounted_kept(s: SyncView, n: SyncView)
    requires
        s.accounted(),
        n.peers.len() == s.peers.len(),
        forall|i: int|
            0 <= i < s.peers.len() ==> (#[trigger] n.peers[i]).who == s.peers[i].who && (
            n.peers[i].state == s.peers[i].state || (!(s.peers[i].state is DownloadingNew) && !(
            s.peers[i].state is DownloadingJustification) && !(n.peers[i].state is DownloadingNew)
                && !(n.peers[i].state is DownloadingJustification))),
        n.blocks.downloads == s.blocks.downloads,
        n.justifications.in_flight == s.justifications.in_flight,
    ensures
        n.accounted(),
{
    assert forall|k: int| 0 <= k < n.blocks.downloads.len() implies n.peer_in_state(
        (#[trigger] n.blocks.downloads[k]).who,
        PeerSyncState::DownloadingNew(n.blocks.downloads[k].start),
    ) by {
        let st = PeerSyncState::DownloadingNew(s.blocks.downloads[k].start);
        assert(s.peer_in_state(s.blocks.downloads[k].who, st));
        let j = choose|j: int|
            0 <= j < s.peers.len() && (#[trigger] s.peers[j]).who == s.blocks.downloads[k].who
                && s.peers[j].state == st;
        assert(n.peers[j].who == s.peers[j].who);
    }
    assert forall|k: int| 0 <= k < n.justifications.in_flight.len() implies n.peer_in_state(
        (#[trigger] n.justifications.in_flight[k]).who,
        PeerSyncState::DownloadingJustification(n.justifications.in_flight[k].request.hash),
    ) by {
        let st = PeerSyncState::DownloadingJustification(
            s.justifications.in_flight[k].request.hash,
        );
        assert(s.peer_in_state(s.justifications.in_flight[k].who, st));
        let j = choose|j: int|
            0 <= j < s.peers.len() && (#[trigger] s.peers[j]).who
                == s.justifications.in_flight[k].who && s.peers[j].state == st;
        assert(n.peers[j].who == s.peers[j].who);
    }
    assert forall|j: int|
        0 <= j < n.peers.len() && (
        #[trigger] n.peers[j]).state is DownloadingJustification implies n.has_request(
        n.peers[j].who,
    ) by {
        assert(n.peers[j].who == s.peers[j].who);
        assert(s.peers[j].state is DownloadingJustification);
        assert(s.has_request(s.peers[j].who));
        let k = choose|k: int|
            0 <= k < s.justifications.in_flight.len() && (
            #[trigger] s.justifications.in_flight[k]).who == s.peers[j].who;
        assert(n.justifications.in_flight[k].who == n.peers[j].who);
    }
}

/// Queueing a block for import keeps everything accounted for.
pub proof fn lemma_block_queued_accounted(s: SyncView, hash: BlockHash, number: BlockNumber)
    requires
        s.accounted(),
    ensures
        s.block_queued(hash, number).accounted(),
{
    lemma_accounted_kept(s, s.block_queued(hash, number));
}

/// A peer that was not connected and connects in a state that names nothing
/// keeps everything accounted for.
pub proof fn lemma_connected_accounted(
    s: SyncView,
    who: PeerId,
    common_number: BlockNumber,
    info: crate::primitives::PeerInfo,
    state: PeerSyncState,
)
    requires
        s.wf(),
        s.accounted(),
        peer_index(s.peers, who) is None,
        !(state is DownloadingNew),
        !(state is DownloadingJustification),
    ensures
        s.connected(who, common_number, info, state).accounted(),
{
    let n = s.connected(who, common_number, info, state);
    assert forall|i: int| 0 <= i < s.peers.len() implies #[trigger] n.peers[i] == s.peers[i] by {}
    assert forall|k: int| 0 <= k < n.blocks.downloads.len() implies n.peer_in_state(
        (#[trigger] n.blocks.downloads[k]).who,
        PeerSyncState::DownloadingNew(n.blocks.downloads[k].start),
    ) by {
        let st = PeerSyncState::DownloadingNew(s.blocks.downloads[k].start);
        assert(s.peer_in_state(s.blocks.downloads[k].who, st));
        let j = choose|j: int|
            0 <= j < s.peers.len() && (#[trigger] s.peers[j]).who == s.blocks.downloads[k].who
                && s.peers[j].state == st;
        assert(n.peers[j] == s.peers[j]);
    }
    assert forall|k: int| 0 <= k < n.justifications.in_flight.len() implies n.peer_in_state(
        (#[trigger] n.justifications.in_flight[k]).who,
        PeerSyncState::DownloadingJustification(n.justifications.in_flight[k].request.hash),
    ) by {
        let st = PeerSyncState::DownloadingJustification(
            s.justifications.in_flight[k].request.hash,
        );
        assert(s.peer_in_state(s.justifications.in_flight[k].who, st));
        let j = choose|j: int|
            0 <= j < s.peers.len() && (#[trigger] s.peers[j]).who
                == s.justifications.in_flight[k].who && s.peers[j].state == st;
        assert(n.peers[j] == s.peers[j]);
    }
    assert forall|j: int|
        0 <= j < n.peers.len() && (
        #[trigger] n.peers[j]).state is DownloadingJustification implies n.has_request(
        n.peers[j].who,
    ) by {
        assert(j < s.peers.len());
        assert(n.peers[j] == s.peers[j]);
        assert(s.has_request(s.peers[j].who));
        let k = choose|k: int|
            0 <= k < s.justifications.in_flight.len() && (
            #[trigger] s.justifications.in_flight[k]).who == s.peers[j].who;
        assert(n.justifications.in_flight[k].who == n.peers[j].who);
    }
}

/// A peer that was not connected and connects keeps everything accounted
/// for.
pub proof fn lemma_new_peer_accounted(
    s: SyncView,
    who: PeerId,
    info: Option<crate::primitives::PeerInfo>,
    status: Result<crate::primitives::BlockStatus, crate::primitives::ClientError>,
    importing_count: usize,
)
    requires
        s.wf(),
        s.accounted(),
        peer_index(s.peers, who) is None,
    ensures
        s.new_peer(who, info, status, importing_count).state.accounted(),
{
    match info {
        Some(info) => {
            let common_best = if s.best_queued_number <= info.best_number {
                s.best_queued_number
            } else {
                info.best_number
            };
            lemma_connected_accounted(
                s,
                who,
                s.best_queued_number,
                info,
                PeerSyncState::Available,
            );
            lemma_connected_accounted(s, who, info.best_number, info, PeerSyncState::Available);
            lemma_connected_accounted(s, who, 0, info, PeerSyncState::Available);
            lemma_connected_accounted(
                s,
                who,
                0,
                info,
                PeerSyncState::AncestorSearch(common_best),
            );
            crate::invariants::lemma_connected(s, who, 0, info, PeerSyncState::Available);
            lemma_download_new_accounted(
                s.connected(who, 0, info, PeerSyncState::Available),
                who,
                importing_count,
            );
        },
        None => {},
    }
}

/// Once a peer disconnected, everything is accounted for as before.
pub proof fn lemma_released_accounted(s: SyncView, who: PeerId)
    requires
        s.wf(),
        s.accounted(),
    ensures
        s.released(who).accounted(),
{
    let n = s.released(who);
    lemma_peer_index_found(s.peers, who);
    lemma_released_downloads(s.blocks, who);
    crate::blocks::lemma_released_wf(s.blocks, who);
    crate::justifications::lemma_peer_disconnected_wf(s.justifications, who);
    // where a peer other than the one that left stood, it stands, moved up
    // by one place if it stood behind
    assert forall|j: int|
        0 <= j < s.peers.len() && (#[trigger] s.peers[j]).who != who implies n.peers.contains(
        s.peers[j],
    ) by {
        match peer_index(s.peers, who) {
            Some(i) => {
                let a = if j < i {
                    j
                } else {
                    j - 1
                };
                assert(n.peers[a] == s.peers[j]);
            },
            None => {
                assert(n.peers[j] == s.peers[j]);
            },
        }
    }
    assert forall|a: int| 0 <= a < n.peers.len() implies s.peers.contains(#[trigger] n.peers[a])
        && n.peers[a].who != who by {
        match peer_index(s.peers, who) {
            Some(i) => {
                let j = if a < i {
                    a
                } else {
                    a + 1
                };
                assert(s.peers[j] == n.peers[a]);
            },
            None => {
                assert(s.peers[a] == n.peers[a]);
            },
        }
    }
    let kept = n.blocks.downloads;
    assert forall|k: int| 0 <= k < kept.len() implies n.peer_in_state(
        (#[trigger] kept[k]).who,
        PeerSyncState::DownloadingNew(kept[k].start),
    ) by {
        crate::seqs::lemma_filter_member(s.blocks.downloads, crate::blocks::not_of(who), k);
        let a = choose|a: int| 0 <= a < s.blocks.downloads.len() && s.blocks.downloads[a] == kept[k];
        let st = PeerSyncState::DownloadingNew(s.blocks.downloads[a].start);
        assert(s.peer_in_state(s.blocks.downloads[a].who, st));
        let j = choose|j: int|
            0 <= j < s.peers.len() && (#[trigger] s.peers[j]).who == s.blocks.downloads[a].who
                && s.peers[j].state == st;
        assert(n.peers.contains(s.peers[j]));
        let b = choose|b: int| 0 <= b < n.peers.len() && n.peers[b] == s.peers[j];
        assert(n.peers[b].who == kept[k].who);
    }
    let flying = n.justifications.in_flight;
    let before = s.justifications.in_flight;
    assert forall|k: int| 0 <= k < flying.len() implies before.contains(#[trigger] flying[k])
        && flying[k].who != who by {
        match request_index(before, who) {
            Some(i) => {
                assert(is_first_request(before, who, i));
                let a = if k < i {
                    k
                } else {
                    k + 1
                };
                assert(before[a] == flying[k]);
            },
            None => {
                assert(before[k] == flying[k]);
                if before[k].who == who {
                    assert(is_first_request(before, who, k));
                }
            },
        }
    }
    assert forall|k: int| 0 <= k < flying.len() implies n.peer_in_state(
        (#[trigger] flying[k]).who,
        PeerSyncState::DownloadingJustification(flying[k].request.hash),
    ) by {
        assert(before.contains(flying[k]));
        let a = choose|a: int| 0 <= a < before.len() && before[a] == flying[k];
        let st = PeerSyncState::DownloadingJustification(before[a].request.hash);
        assert(s.peer_in_state(before[a].who, st));
        let j = choose|j: int|
            0 <= j < s.peers.len() && (#[trigger] s.peers[j]).who == before[a].who
                && s.peers[j].state == st;
        assert(n.peers.contains(s.peers[j]));
        let b = choose|b: int| 0 <= b < n.peers.len() && n.peers[b] == s.peers[j];
        assert(n.peers[b].who == flying[k].who);
    }
    assert forall|b: int|
        0 <= b < n.peers.len() && (
        #[trigger] n.peers[b]).state is DownloadingJustification implies n.has_request(
        n.peers[b].who,
    ) by {
        assert(s.peers.contains(n.peers[b]));
        let j = choose|j: int| 0 <= j < s.peers.len() && s.peers[j] == n.peers[b];
        assert(s.has_request(s.peers[j].who));
        let k = choose|k: int| 0 <= k < before.len() && (#[trigger] before[k]).who == s.peers[j].who;
        match request_index(before, who) {
            Some(i) => {
                assert(is_first_request(before, who, i));
                let a = if k < i {
                    k
                } else {
                    k - 1
                };
                assert(flying[a] == before[k]);
                assert(flying[a].who == n.peers[b].who);
            },
            None => {
                assert(flying[k].who == n.peers[b].who);
            },
        }
    }
}

/// A peer that finished downloading new blocks, and gave its range up, keeps
/// everything accounted for.
pub proof fn lemma_download_finished_accounted(s: SyncView, i: int, n: SyncView)
    requires
        s.wf(),
        s.accounted(),
        0 <= i < s.peers.len(),
        s.peers[i].state is DownloadingNew,
        n.peers == s.peers.update(i, s.peers[i].with_state(PeerSyncState::Available)),
        n.blocks.downloads == s.blocks.released(s.peers[i].who).downloads,
        n.justifications.in_flight == s.justifications.in_flight,
    ensures
        n.accounted(),
{
    let who = s.peers[i].who;
    lemma_owner(s, i);
    lemma_released_downloads(s.blocks, who);
    crate::blocks::lemma_released_wf(s.blocks, who);
    let kept = n.blocks.downloads;
    assert forall|k: int| 0 <= k < kept.len() implies n.peer_in_state(
        (#[trigger] kept[k]).who,
        PeerSyncState::DownloadingNew(kept[k].start),
    ) by {
        crate::seqs::lemma_filter_member(s.blocks.downloads, crate::blocks::not_of(who), k);
        let a = choose|a: int| 0 <= a < s.blocks.downloads.len() && s.blocks.downloads[a] == kept[k];
        let st = PeerSyncState::DownloadingNew(s.blocks.downloads[a].start);
        assert(s.peer_in_state(s.blocks.downloads[a].who, st));
        let j = choose|j: int|
            0 <= j < s.peers.len() && (#[trigger] s.peers[j]).who == s.blocks.downloads[a].who
                && s.peers[j].state == st;
        assert(n.peers[j] == s.peers[j]);
    }
    assert forall|k: int| 0 <= k < n.justifications.in_flight.len() implies n.peer_in_state(
        (#[trigger] n.justifications.in_flight[k]).who,
        PeerSyncState::DownloadingJustification(n.justifications.in_flight[k].request.hash),
    ) by {
        let st = PeerSyncState::DownloadingJustification(
            s.justifications.in_flight[k].request.hash,
        );
        assert(s.peer_in_state(s.justifications.in_flight[k].who, st));
        let j = choose|j: int|
            0 <= j < s.peers.len() && (#[trigger] s.peers[j]).who
                == s.justifications.in_flight[k].who && s.peers[j].state == st;
        assert(n.peers[j] == s.peers[j]);
    }
    assert forall|j: int|
        0 <= j < n.peers.len() && (
        #[trigger] n.peers[j]).state is DownloadingJustification implies n.has_request(
        n.peers[j].who,
    ) by {
        assert(n.peers[j] == s.peers[j]);
        assert(s.has_request(s.peers[j].who));
        let k = choose|k: int|
            0 <= k < s.justifications.in_flight.len() && (
            #[trigger] s.justifications.in_flight[k]).who == s.peers[j].who;
        assert(n.justifications.in_flight[k].who == n.peers[j].who);
    }
}

/// A peer that downloaded a justification is available, and the request
/// that was issued to it is no longer issued to it: everything stays
/// accounted for. Such a peer had a request.
pub proof fn lemma_settled_accounted(s: SyncView, i: int, n: SyncView)
    requires
        s.wf(),
        s.accounted(),
        0 <= i < s.peers.len(),
        s.peers[i].state is DownloadingJustification,
        n.peers == s.peers.update(i, s.peers[i].with_state(PeerSyncState::Available)),
        n.blocks.downloads == s.blocks.downloads,
        request_index(s.justifications.in_flight, s.peers[i].who) matches Some(at)
            ==> n.justifications.in_flight == s.justifications.in_flight.remove(at),
    ensures
        n.accounted(),
        request_index(s.justifications.in_flight, s.peers[i].who) is Some,
{
    let who = s.peers[i].who;
    lemma_owner(s, i);
    let before = s.justifications.in_flight;
    let flying = n.justifications.in_flight;
    assert(s.has_request(who));
    let k0 = choose|k: int| 0 <= k < before.len() && (#[trigger] before[k]).who == who;
    assert(is_first_request(before, who, k0));
    let at = request_index(before, who)->0;
    assert(is_first_request(before, who, at));
    assert(flying == before.remove(at));
    assert forall|k: int| 0 <= k < flying.len() implies #[trigger] flying[k] == before[if k < at {
        k
    } else {
        k + 1
    }] by {}
    assert forall|k: int| 0 <= k < n.blocks.downloads.len() implies n.peer_in_state(
        (#[trigger] n.blocks.downloads[k]).who,
        PeerSyncState::DownloadingNew(n.blocks.downloads[k].start),
    ) by {
        let st = PeerSyncState::DownloadingNew(s.blocks.downloads[k].start);
        assert(s.peer_in_state(s.blocks.downloads[k].who, st));
        let j = choose|j: int|
            0 <= j < s.peers.len() && (#[trigger] s.peers[j]).who == s.blocks.downloads[k].who
                && s.peers[j].state == st;
        assert(n.peers[j] == s.peers[j]);
    }
    assert forall|k: int| 0 <= k < flying.len() implies n.peer_in_state(
        (#[trigger] flying[k]).who,
        PeerSyncState::DownloadingJustification(flying[k].request.hash),
    ) by {
        let a = if k < at {
            k
        } else {
            k + 1
        };
        assert(flying[k] == before[a]);
        assert(before[a].who != before[at].who);
        let st = PeerSyncState::DownloadingJustification(before[a].request.hash);
        assert(s.peer_in_state(before[a].who, st));
        let j = choose|j: int|
            0 <= j < s.peers.len() && (#[trigger] s.peers[j]).who == before[a].who
                && s.peers[j].state == st;
        assert(n.peers[j] == s.peers[j]);
    }
    assert forall|j: int|
        0 <= j < n.peers.len() && (
        #[trigger] n.peers[j]).state is DownloadingJustification implies n.has_request(
        n.peers[j].who,
    ) by {
        assert(n.peers[j] == s.peers[j]);
        assert(s.has_request(s.peers[j].who));
        let k = choose|k: int| 0 <= k < before.len() && (#[trigger] before[k]).who == s.peers[j].who;
        let a = if k < at {
            k
        } else {
            k - 1
        };
        assert(flying[a] == before[k]);
        assert(flying[a].who == n.peers[j].who);
    }
}

/// The peer at place `i` answered the justification request that was issued
/// to it, with a justification or without, or failed to answer it and the
/// request went back to the queue: the peer is available, and everything
/// stays accounted for. Such a peer had a request.
pub proof fn lemma_answering(s: SyncView, i: int, verdict: Option<bool>, now: u64)
    requires
        s.wf(),
        s.accounted(),
        0 <= i < s.peers.len(),
        s.peers[i].state is DownloadingJustification,
    ensures
        s.with_peer(i, s.peers[i].with_state(PeerSyncState::Available)).answered(
            s.peers[i].who,
            verdict,
            now,
        ).state.accounted(),
        s.with_peer(i, s.peers[i].with_state(PeerSyncState::Available)).requeued(
            s.peers[i].who,
        ).accounted(),
        s.justifications.request_of(s.peers[i].who) is Some,
{
    let who = s.peers[i].who;
    let idle = s.with_peer(i, s.peers[i].with_state(PeerSyncState::Available));
    lemma_settled_accounted(s, i, idle.answered(who, verdict, now).state);
    lemma_settled_accounted(s, i, idle.requeued(who));
}

/// Dropping the justification requests up to a finalized block keeps
/// everything accounted for where no such request is issued to a peer.
pub proof fn lemma_block_finalized_accounted(s: SyncView, number: BlockNumber)
    requires
        s.accounted(),
        s.justifications.issued_above(number),
    ensures
        s.block_finalized(number).accounted(),
{
    crate::seqs::lemma_filter_all(
        s.justifications.in_flight,
        crate::justifications::issued_above(number),
    );
    lemma_accounted_kept(s, s.block_finalized(number));
}

/// Queueing and dispatching a justification request keeps everything
/// accounted for.
pub proof fn lemma_request_justification_accounted(
    s: SyncView,
    hash: BlockHash,
    number: BlockNumber,
    now: u64,
)
    requires
        s.wf(),
        s.accounted(),
    ensures
        s.request_justification(hash, number, now).state.accounted(),
{
    let r = crate::justifications::PendingJustification { hash, number };
    crate::justifications::lemma_queue_request_wf(s.justifications, r);
    let q = SyncView { justifications: s.justifications.queue_request(r), ..s };
    lemma_accounted_kept(s, q);
    assert(q.wf());
    lemma_dispatch_accounted(q, now);
}

/// Peers with nothing but their states changed are the same peers.
pub proof fn lemma_same_tips_outsiders(before: Seq<PeerView>, after: Seq<PeerView>)
    requires
        crate::model::same_tips(before, after),
    ensures
        forall|w: PeerId|
            peer_index(before, w) is None ==> #[trigger] peer_index(after, w) is None,
{
    assert forall|w: PeerId| peer_index(before, w) is None implies #[trigger] peer_index(
        after,
        w,
    ) is None by {
        if peer_index(after, w) is Some {
            let i = peer_index(after, w)->0;
            assert(is_first_peer(after, w, i));
            assert(after[i] == before[i].with_state(after[i].state));
            assert forall|j: int| 0 <= j < i implies (#[trigger] before[j]).who != w by {
                assert(after[j] == before[j].with_state(after[j].state));
            }
            assert(is_first_peer(before, w, i));
        }
    }
}

/// A peer that connects brings no other peer with it.
pub proof fn lemma_connected_outsiders(
    s: SyncView,
    who: PeerId,
    common_number: BlockNumber,
    info: crate::primitives::PeerInfo,
    state: PeerSyncState,
)
    ensures
        forall|w: PeerId|
            w != who && peer_index(s.peers, w) is None ==> #[trigger] peer_index(
                s.connected(who, common_number, info, state).peers,
                w,
            ) is None,
{
    let n = s.connected(who, common_number, info, state);
    assert forall|w: PeerId| w != who && peer_index(s.peers, w) is None implies #[trigger] peer_index(
        n.peers,
        w,
    ) is None by {
        if peer_index(n.peers, w) is Some {
            let i = peer_index(n.peers, w)->0;
            assert(is_first_peer(n.peers, w, i));
            match peer_index(s.peers, who) {
                Some(at) => {
                    assert(is_first_peer(s.peers, who, at));
                    assert(i != at);
                    assert(n.peers[i] == s.peers[i]);
                    assert forall|j: int| 0 <= j < i implies (#[trigger] s.peers[j]).who != w by {
                        if j != at {
                            assert(n.peers[j] == s.peers[j]);
                        }
                    }
                },
                None => {
                    assert(i < s.peers.len());
                    assert(n.peers[i] == s.peers[i]);
                    assert forall|j: int| 0 <= j < i implies (#[trigger] s.peers[j]).who != w by {
                        assert(n.peers[j] == s.peers[j]);
                    }
                },
            }
            assert(is_first_peer(s.peers, w, i));
        }
    }
}

} // verus!
