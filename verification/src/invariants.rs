//! What every step of the engine keeps: the well-formedness of its state,
//! and what it leaves untouched.

use crate::blocks::{lemma_assigned, lemma_needed_range, Download};
use crate::justifications::{
    candidates, from_peer, is_first_request, lemma_candidates, lemma_dispatch_wf, lemma_plan, plan,
    recent, request_index, served_by,
};
use crate::model::{same_tips, SyncView};
use crate::peers::{is_first_peer, lemma_peer_index_found, peer_index, PeerSyncState};
use crate::primitives::{BlockHash, BlockNumber, Direction, PeerId, MAX_BLOCKS_TO_REQUEST};
use vstd::prelude::*;

verus! {

/// The two states have the same chain and ask for the same parts of a block.
pub open spec fn same_chain(before: SyncView, after: SyncView) -> bool {
    &&& after.genesis_hash == before.genesis_hash
    &&& after.best_queued_number == before.best_queued_number
    &&& after.best_queued_hash == before.best_queued_hash
    &&& after.required_block_attributes == before.required_block_attributes
}

/// Asking a peer for a stale block keeps the state well formed and changes
/// nothing but the state of that peer.
pub proof fn lemma_request_stale(
    s: SyncView,
    who: PeerId,
    hash: BlockHash,
    direction: Direction,
    max: u32,
)
    requires
        s.wf(),
    ensures
        s.request_stale(who, hash, direction, max).state.wf(),
        same_chain(s, s.request_stale(who, hash, direction, max).state),
        same_tips(s.peers, s.request_stale(who, hash, direction, max).state.peers),
        s.request_stale(who, hash, direction, max).state.blocks == s.blocks,
        s.request_stale(who, hash, direction, max).state.justifications == s.justifications,
{
    lemma_peer_index_found(s.peers, who);
}

/// Asking a peer for new blocks keeps the state well formed and changes
/// nothing but the state of that peer and the downloads.
pub proof fn lemma_download_new(s: SyncView, who: PeerId, importing_count: usize)
    requires
        s.wf(),
    ensures
        s.download_new(who, importing_count).state.wf(),
        same_chain(s, s.download_new(who, importing_count).state),
        same_tips(s.peers, s.download_new(who, importing_count).state.peers),
        s.download_new(who, importing_count).state.blocks.ranges == s.blocks.ranges,
        s.download_new(who, importing_count).state.justifications == s.justifications,
{
    lemma_peer_index_found(s.peers, who);
    match peer_index(s.peers, who) {
        Some(i) => {
            let peer = s.peers[i];
            lemma_needed_range(
                s.blocks,
                who,
                MAX_BLOCKS_TO_REQUEST,
                peer.best_number,
                peer.common_number,
            );
            match s.blocks.needed_range(
                who,
                MAX_BLOCKS_TO_REQUEST,
                peer.best_number,
                peer.common_number,
            ) {
                Some((start, end)) => {
                    let d = Download { who, start, len: (end - start) as u64 };
                    lemma_assigned(s.blocks, d);
                },
                None => {},
            }
        },
        None => {},
    }
}

/// Asking the first `k` peers for new blocks keeps the state well formed and
/// changes nothing but the states of peers and the downloads.
pub proof fn lemma_download_all(s: SyncView, k: int, importing_count: usize)
    requires
        s.wf(),
        k <= s.peers.len(),
    ensures
        s.download_all(k, importing_count).state.wf(),
        same_chain(s, s.download_all(k, importing_count).state),
        same_tips(s.peers, s.download_all(k, importing_count).state.peers),
        s.download_all(k, importing_count).state.blocks.ranges == s.blocks.ranges,
        s.download_all(k, importing_count).state.justifications == s.justifications,
    decreases k,
{
    if k > 0 {
        lemma_download_all(s, k - 1, importing_count);
        let done = s.download_all(k - 1, importing_count).state;
        lemma_download_new(done, s.peers[k - 1].who, importing_count);
        let next = done.download_new(s.peers[k - 1].who, importing_count).state;
        assert forall|i: int| 0 <= i < s.peers.len() implies #[trigger] next.peers[i]
            == s.peers[i].with_state(next.peers[i].state) by {
            assert(done.peers[i] == s.peers[i].with_state(done.peers[i].state));
            assert(next.peers[i] == done.peers[i].with_state(next.peers[i].state));
        }
    }
}

/// Dispatching the justification requests keeps the state well formed and
/// changes nothing but the states of peers and the requests.
pub proof fn lemma_dispatch(s: SyncView, now: u64)
    requires
        s.wf(),
    ensures
        s.dispatch(now).state.wf(),
        same_chain(s, s.dispatch(now).state),
        same_tips(s.peers, s.dispatch(now).state.peers),
        s.dispatch(now).state.blocks == s.blocks,
{
    let j = s.justifications;
    let n = s.dispatch(now).state;
    lemma_dispatch_wf(j, s.peers, now);
    if j.queue.len() > 0 {
        let history = j.history.filter(recent(now));
        let cands = candidates(s.peers, j.in_flight);
        let p = plan(cands, j.queue, history);
        lemma_candidates(s.peers, j.in_flight);
        lemma_plan(cands, j.queue, history);
        assert forall|k: int| 0 <= k < n.justifications.in_flight.len() implies (
        #[trigger] n.justifications.in_flight[k]) == (if k < j.in_flight.len() {
            j.in_flight[k]
        } else {
            p.issued[k - j.in_flight.len()]
        }) by {}
        // a peer that a request is issued to had none and was available
        assert forall|m: int| 0 <= m < p.issued.len() implies (forall|o: int|
            0 <= o < j.in_flight.len() ==> (#[trigger] j.in_flight[o]).who != (
            #[trigger] p.issued[m]).who) by {
            let e = p.issued[m];
            assert(served_by(cands, e, history));
            let c = choose|c: int|
                0 <= c < cands.len() && (#[trigger] cands[c]).who == e.who && crate::justifications::eligible(
                    cands[c],
                    e.request,
                    history,
                );
            assert(from_peer(s.peers, j.in_flight, cands[c]));
            assert forall|o: int| 0 <= o < j.in_flight.len() implies (#[trigger] j.in_flight[o]).who
                != e.who by {
                if j.in_flight[o].who == e.who {
                    assert(is_first_request(j.in_flight, e.who, o));
                }
            }
        }
        assert forall|i: int, k: int|
            0 <= i < n.peers.len() && 0 <= k < n.justifications.in_flight.len() && (
            #[trigger] n.peers[i]).who == (#[trigger] n.justifications.in_flight[k]).who implies (
        n.peers[i].state matches PeerSyncState::DownloadingJustification(h)
            ==> n.justifications.in_flight[k].request.hash == h) by {
            let w = s.peers[i].who;
            match request_index(p.issued, w) {
                Some(m) => {
                    assert(is_first_request(p.issued, w, m));
                    if k < j.in_flight.len() {
                        assert(j.in_flight[k].who != p.issued[m].who);
                    } else {
                        let m2 = k - j.in_flight.len();
                        if m2 != m {
                            assert(p.issued[m2].who != p.issued[m].who);
                        }
                    }
                },
                None => {
                    if k >= j.in_flight.len() {
                        let m2 = k - j.in_flight.len();
                        assert(p.issued[m2].who == w);
                        assert(is_first_request(p.issued, w, m2));
                    } else {
                        assert(s.peers[i].who == j.in_flight[k].who);
                    }
                },
            }
        }
        assert forall|i: int| 0 <= i < n.peers.len() implies ((
        #[trigger] n.peers[i]).state matches PeerSyncState::DownloadingNew(st)
            ==> n.blocks.downloading(n.peers[i].who, st)) by {
            assert(s.peers[i].who == n.peers[i].who);
        }
    }
}

/// Maintaining the synchronisation keeps the state well formed and changes
/// nothing but the states of peers, the downloads and the requests.
pub proof fn lemma_maintain_sync(s: SyncView, now: u64, importing_count: usize)
    requires
        s.wf(),
    ensures
        s.maintain_sync(now, importing_count).state.wf(),
        same_chain(s, s.maintain_sync(now, importing_count).state),
        same_tips(s.peers, s.maintain_sync(now, importing_count).state.peers),
        s.maintain_sync(now, importing_count).state.blocks.ranges == s.blocks.ranges,
{
    lemma_download_all(s, s.peers.len() as int, importing_count);
    let d = s.download_all(s.peers.len() as int, importing_count).state;
    lemma_dispatch(d, now);
    let n = d.dispatch(now).state;
    assert forall|i: int| 0 <= i < s.peers.len() implies #[trigger] n.peers[i]
        == s.peers[i].with_state(n.peers[i].state) by {
        assert(d.peers[i] == s.peers[i].with_state(d.peers[i].state));
        assert(n.peers[i] == d.peers[i].with_state(n.peers[i].state));
    }
}

/// Queueing a block for import keeps the state well formed, and the best
/// queued block does not get lower.
pub proof fn lemma_block_queued(s: SyncView, hash: BlockHash, number: BlockNumber)
    requires
        s.wf(),
    ensures
        s.block_queued(hash, number).wf(),
        s.block_queued(hash, number).tips_ordered(),
        s.block_queued(hash, number).best_queued_number >= s.best_queued_number,
{
    let n = s.block_queued(hash, number);
    assert forall|i: int| 0 <= i < n.peers.len() implies #[trigger] n.peers[i]
        == s.peers[i].queued(number) by {}
    assert forall|i: int| 0 <= i < n.peers.len() implies ((
    #[trigger] n.peers[i]).state matches PeerSyncState::DownloadingNew(st)
        ==> n.blocks.downloading(n.peers[i].who, st)) by {
        assert(n.peers[i] == s.peers[i].queued(number));
    }
}

/// Dropping the justification requests up to a finalized block keeps the
/// state well formed.
pub proof fn lemma_block_finalized(s: SyncView, number: BlockNumber)
    requires
        s.wf(),
    ensures
        s.block_finalized(number).wf(),
{
    let n = s.block_finalized(number);
    crate::justifications::lemma_collect_garbage_wf(s.justifications, number);
    assert forall|i: int, k: int|
        0 <= i < n.peers.len() && 0 <= k < n.justifications.in_flight.len() && (
        #[trigger] n.peers[i]).who == (#[trigger] n.justifications.in_flight[k]).who implies (
    n.peers[i].state matches PeerSyncState::DownloadingJustification(h)
        ==> n.justifications.in_flight[k].request.hash == h) by {
        crate::seqs::lemma_filter_member(
            s.justifications.in_flight,
            crate::justifications::issued_above(number),
            k,
        );
        let a = choose|a: int|
            0 <= a < s.justifications.in_flight.len() && s.justifications.in_flight[a]
                == n.justifications.in_flight[k];
        assert(s.peers[i].who == s.justifications.in_flight[a].who);
    }
}

/// Queueing and dispatching a justification request keeps the state well
/// formed.
pub proof fn lemma_request_justification(
    s: SyncView,
    hash: BlockHash,
    number: BlockNumber,
    now: u64,
)
    requires
        s.wf(),
    ensures
        s.request_justification(hash, number, now).state.wf(),
        same_chain(s, s.request_justification(hash, number, now).state),
{
    let r = crate::justifications::PendingJustification { hash, number };
    crate::justifications::lemma_queue_request_wf(s.justifications, r);
    let q = SyncView { justifications: s.justifications.queue_request(r), ..s };
    assert(q.wf());
    lemma_dispatch(q, now);
}

/// Recording a peer that connected keeps the state well formed.
pub proof fn lemma_connected(
    s: SyncView,
    who: PeerId,
    common_number: BlockNumber,
    info: crate::primitives::PeerInfo,
    state: PeerSyncState,
)
    requires
        s.wf(),
        state == PeerSyncState::Available || (state matches PeerSyncState::AncestorSearch(n) && n
            <= info.best_number),
    ensures
        s.connected(who, common_number, info, state).wf(),
        same_chain(s, s.connected(who, common_number, info, state)),
        s.connected(who, common_number, info, state).blocks == s.blocks,
        s.connected(who, common_number, info, state).justifications == s.justifications,
{
    lemma_peer_index_found(s.peers, who);
    let n = s.connected(who, common_number, info, state);
    match peer_index(s.peers, who) {
        Some(i) => {
            assert forall|a: int| 0 <= a < n.peers.len() implies (#[trigger] n.peers[a]).who
                == s.peers[a].who by {}
        },
        None => {
            assert forall|a: int| 0 <= a < s.peers.len() implies #[trigger] n.peers[a]
                == s.peers[a] by {}
        },
    }
}

/// Once a peer disconnected it is gone from the peers, it is asked for no
/// range, no justification request is issued to it, and the request that was
/// issued to it stands at the front of the queue. The state stays well
/// formed.
pub proof fn lemma_released(s: SyncView, who: PeerId)
    requires
        s.wf(),
    ensures
        s.released(who).wf(),
        same_chain(s, s.released(who)),
        peer_index(s.released(who).peers, who) is None,
        !s.released(who).blocks.has_download(who),
        request_index(s.released(who).justifications.in_flight, who) is None,
        s.justifications.request_of(who) matches Some(r) ==> s.released(who).justifications.queue.len()
            > 0 && s.released(who).justifications.queue[0] == r,
        s.tips_ordered() ==> s.released(who).tips_ordered(),
{
    let n = s.released(who);
    lemma_peer_index_found(s.peers, who);
    crate::blocks::lemma_released_wf(s.blocks, who);
    crate::blocks::lemma_released_downloads(s.blocks, who);
    crate::justifications::lemma_peer_disconnected_wf(s.justifications, who);
    match peer_index(s.peers, who) {
        Some(i) => {
            assert forall|a: int| 0 <= a < n.peers.len() implies #[trigger] n.peers[a]
                == s.peers[if a < i {
                a
            } else {
                a + 1
            }] by {}
        },
        None => {},
    }
    assert forall|a: int| 0 <= a < n.peers.len() implies (#[trigger] n.peers[a]).who != who by {}
    assert(peer_index(n.peers, who) is None) by {
        assert forall|a: int| !is_first_peer(n.peers, who, a) by {}
    }
    match request_index(s.justifications.in_flight, who) {
        Some(k) => {
            assert forall|a: int| 0 <= a < n.justifications.in_flight.len() implies (
            #[trigger] n.justifications.in_flight[a]) == s.justifications.in_flight[if a < k {
                a
            } else {
                a + 1
            }] by {}
        },
        None => {},
    }
}

/// Recording the answer of a peer to the request that was issued to it, or
/// taking that request back into the queue, keeps the state well formed.
pub proof fn lemma_answered(s: SyncView, who: PeerId, verdict: Option<bool>, now: u64)
    requires
        s.wf(),
    ensures
        s.answered(who, verdict, now).state.wf(),
        s.requeued(who).wf(),
        same_chain(s, s.answered(who, verdict, now).state),
        same_chain(s, s.requeued(who)),
{
    let j = s.justifications;
    let n = s.answered(who, verdict, now).state;
    let q = s.requeued(who);
    crate::justifications::lemma_on_response_wf(j, who, verdict, now);
    crate::justifications::lemma_peer_disconnected_wf(j, who);
    match request_index(j.in_flight, who) {
        Some(k) => {
            assert(is_first_request(j.in_flight, who, k));
            assert forall|a: int| 0 <= a < n.justifications.in_flight.len() implies (
            #[trigger] n.justifications.in_flight[a]) == j.in_flight[if a < k {
                a
            } else {
                a + 1
            }] by {}
            assert forall|a: int| 0 <= a < q.justifications.in_flight.len() implies (
            #[trigger] q.justifications.in_flight[a]) == j.in_flight[if a < k {
                a
            } else {
                a + 1
            }] by {}
        },
        None => {},
    }
}

} // verus!
