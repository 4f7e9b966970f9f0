//! Laws of the engine that relate several of its steps.

use crate::accounting::goes_to_available;
use crate::blocks::{lemma_assigned, lemma_needed_range, Download};
use crate::invariants::{lemma_dispatch, lemma_download_all, lemma_download_new, lemma_released};
use crate::justifications::{
    candidate_of, candidates, distinct_candidates, eligible, first_eligible, from_peer,
    gets_request, is_candidate, is_first_eligible, is_first_request, is_recent, lemma_candidates,
    lemma_collect_garbage_wf, lemma_dispatch_wf, lemma_plan, plan, recent, refused, request_index,
    requests_of, rotate, sends, served_by, Attempt, Candidate, JustificationsView, PeerRequest,
    PendingJustification,
};
use crate::model::SyncView;
use crate::peers::{
    is_first_peer, lemma_peer_index_found, peer_index, peers_wf, PeerSyncState, PeerView,
};
use crate::primitives::{
    Action, BlockNumber, Fault, PeerId, Severity, MAX_BLOCKS_TO_REQUEST, MAX_IMPORTING_BLOCKS,
};
use crate::seqs::lemma_filter_keeps;
use vstd::prelude::*;

verus! {

/// Every request that was issued to a peer, and every request that waits in
/// the queue, is among the requests that are kept track of.
pub proof fn law_requests_are_tracked(j: JustificationsView)
    requires
        j.wf(),
    ensures
        forall|k: int|
            0 <= k < j.in_flight.len() ==> j.requested.contains((#[trigger] j.in_flight[k]).request),
        forall|i: int| 0 <= i < j.queue.len() ==> j.requested.contains(#[trigger] j.queue[i]),
{
}

/// When a peer answers the request that was issued to it with no
/// justification, the peer is reported as useless, the answer goes on record
/// with its time, and the request is still kept track of and is first in the
/// queue again.
pub proof fn law_refusal_is_recorded(j: JustificationsView, who: PeerId, now: u64)
    requires
        j.wf(),
        j.request_of(who) is Some,
    ensures
        j.on_response(who, None, now).actions == seq![
            Action::Report { who, fault: Fault::MissingJustification },
        ],
        Fault::MissingJustification.spec_severity() == Severity::Useless,
        j.on_response(who, None, now).justifications.requested.contains(j.request_of(who)->0),
        refused(j.on_response(who, None, now).justifications.history, who, j.request_of(who)->0),
        j.on_response(who, None, now).justifications.history.last() == (Attempt {
            request: j.request_of(who)->0,
            who,
            at: now,
        }),
        j.on_response(who, None, now).justifications.queue[0] == j.request_of(who)->0,
        request_index(j.on_response(who, None, now).justifications.in_flight, who) is None,
{
    let n = j.on_response(who, None, now).justifications;
    let k = request_index(j.in_flight, who)->0;
    assert(is_first_request(j.in_flight, who, k));
    assert(j.requested.contains(j.in_flight[k].request));
    assert(n.history[n.history.len() - 1].who == who);
    assert forall|a: int| !is_first_request(n.in_flight, who, a) by {
        if 0 <= a < n.in_flight.len() {
            if a < k {
                assert(n.in_flight[a] == j.in_flight[a]);
            } else {
                assert(n.in_flight[a] == j.in_flight[a + 1]);
                assert(j.in_flight[a + 1].who != j.in_flight[k].who);
            }
        }
    }
}

/// Retry throttling: a dispatch issues no request to a peer that answered
/// that request with no justification less than `JUSTIFICATION_RETRY_WAIT`
/// before, and it keeps that answer on record.
pub proof fn law_retry_is_throttled(j: JustificationsView, peers: Seq<PeerView>, now: u64, a: int)
    requires
        j.wf(),
        peers_wf(peers),
        j.queue.len() > 0,
        0 <= a < j.history.len(),
        is_recent(j.history[a], now),
    ensures
        forall|k: int|
            j.in_flight.len() <= k < j.dispatch(peers, now).justifications.in_flight.len() ==> !((
            #[trigger] j.dispatch(peers, now).justifications.in_flight[k]).who == j.history[a].who
                && j.dispatch(peers, now).justifications.in_flight[k].request
                == j.history[a].request),
        refused(
            j.dispatch(peers, now).justifications.history,
            j.history[a].who,
            j.history[a].request,
        ),
        j.dispatch(peers, now).justifications.history.contains(j.history[a]),
{
    let history = j.history.filter(recent(now));
    let cands = candidates(peers, j.in_flight);
    let p = plan(cands, j.queue, history);
    let n = j.dispatch(peers, now).justifications;
    lemma_candidates(peers, j.in_flight);
    lemma_plan(cands, j.queue, history);
    lemma_filter_keeps(j.history, recent(now), a);
    let kept = choose|i: int| 0 <= i < history.len() && history[i] == j.history[a];
    assert(history[kept].who == j.history[a].who);
    assert(refused(history, j.history[a].who, j.history[a].request));
    assert forall|k: int| j.in_flight.len() <= k < n.in_flight.len() implies !((
    #[trigger] n.in_flight[k]).who == j.history[a].who && n.in_flight[k].request
        == j.history[a].request) by {
        let e = p.issued[k - j.in_flight.len()];
        assert(n.in_flight[k] == e);
        assert(served_by(cands, e, history));
    }
}

/// Where some candidate at or before place `c` is eligible for a request,
/// there is a first one.
pub proof fn lemma_first_eligible(
    cands: Seq<Candidate>,
    r: PendingJustification,
    history: Seq<Attempt>,
    c: int,
)
    requires
        0 <= c < cands.len(),
        eligible(cands[c], r, history),
    ensures
        first_eligible(cands, r, history) matches Some(i) && is_first_eligible(
            cands,
            r,
            history,
            i,
        ) && i <= c,
    decreases c,
{
    if exists|b: int| 0 <= b < c && eligible(#[trigger] cands[b], r, history) {
        let b = choose|b: int| 0 <= b < c && eligible(#[trigger] cands[b], r, history);
        lemma_first_eligible(cands, r, history, b);
    } else {
        assert(is_first_eligible(cands, r, history, c));
    }
    let i = first_eligible(cands, r, history)->0;
    assert(is_first_eligible(cands, r, history, i));
    if i > c {
        assert(!eligible(cands[c], r, history));
    }
}

/// Fairness: of the requests in the queue that some candidate can serve, the
/// oldest is issued first, to the first candidate that can serve it.
pub proof fn law_oldest_is_served_first(
    cands: Seq<Candidate>,
    queue: Seq<PendingJustification>,
    history: Seq<Attempt>,
    j: int,
    c: int,
)
    requires
        0 <= j < queue.len(),
        0 <= c < cands.len(),
        eligible(cands[c], queue[j], history),
        forall|i: int, b: int|
            0 <= i < j && 0 <= b < cands.len() ==> !eligible(
                #[trigger] cands[b],
                #[trigger] queue[i],
                history,
            ),
    ensures
        plan(cands, queue, history).issued.len() > 0,
        plan(cands, queue, history).issued[0].request == queue[j],
        first_eligible(cands, queue[j], history) matches Some(i) && plan(
            cands,
            queue,
            history,
        ).issued[0].who == cands[i].who,
    decreases j,
{
    if j == 0 {
        lemma_first_eligible(cands, queue[0], history, c);
    } else {
        assert forall|i: int| !is_first_eligible(cands, queue[0], history, i) by {
            if 0 <= i < cands.len() {
                assert(!eligible(cands[i], queue[0], history));
            }
        }
        let tail = queue.drop_first();
        assert(tail[j - 1] == queue[j]);
        assert forall|i: int, b: int| 0 <= i < j - 1 && 0 <= b < cands.len() implies !eligible(
            #[trigger] cands[b],
            #[trigger] tail[i],
            history,
        ) by {
            assert(tail[i] == queue[i + 1]);
        }
        law_oldest_is_served_first(cands, tail, history, j - 1, c);
    }
}

/// Backpressure: while the import queue holds more than
/// `MAX_IMPORTING_BLOCKS`, asking the peers for new blocks changes nothing
/// and sends nothing.
pub proof fn lemma_download_all_held_back(s: SyncView, k: int, importing_count: usize)
    requires
        importing_count > MAX_IMPORTING_BLOCKS,
    ensures
        s.download_all(k, importing_count) == s.quiet(),
    decreases k,
{
    if k > 0 {
        lemma_download_all_held_back(s, k - 1, importing_count);
        let done = s.download_all(k - 1, importing_count);
        let next = done.state.download_new(s.peers[k - 1].who, importing_count);
        assert(next == s.quiet());
        assert(done.actions + next.actions =~= Seq::<Action>::empty());
    }
}

/// Backpressure: while the import queue holds more than
/// `MAX_IMPORTING_BLOCKS`, no peer is asked for new blocks, and maintaining
/// the synchronisation does no more than dispatch the justification
/// requests.
pub proof fn law_backpressure(s: SyncView, who: PeerId, now: u64, importing_count: usize)
    requires
        importing_count > MAX_IMPORTING_BLOCKS,
    ensures
        s.download_new(who, importing_count) == s.quiet(),
        s.maintain_sync(now, importing_count) == s.dispatch(now),
{
    lemma_download_all_held_back(s, s.peers.len() as int, importing_count);
    let d = s.download_all(s.peers.len() as int, importing_count);
    assert(d.actions + d.state.dispatch(now).actions =~= s.dispatch(now).actions);
}

/// A dispatch issues requests only to connected peers.
pub proof fn lemma_dispatch_outsider(s: SyncView, who: PeerId, now: u64)
    requires
        s.wf(),
        peer_index(s.peers, who) is None,
        request_index(s.justifications.in_flight, who) is None,
    ensures
        request_index(s.dispatch(now).state.justifications.in_flight, who) is None,
        peer_index(s.dispatch(now).state.peers, who) is None,
{
    let j = s.justifications;
    let n = s.dispatch(now).state;
    lemma_peer_index_found(s.peers, who);
    lemma_dispatch(s, now);
    assert forall|i: int| 0 <= i < n.peers.len() implies (#[trigger] n.peers[i]).who != who by {
        assert(n.peers[i] == s.peers[i].with_state(n.peers[i].state));
    }
    assert forall|i: int| !is_first_peer(n.peers, who, i) by {}
    if j.queue.len() > 0 {
        let history = j.history.filter(recent(now));
        let cands = candidates(s.peers, j.in_flight);
        let p = plan(cands, j.queue, history);
        lemma_candidates(s.peers, j.in_flight);
        lemma_plan(cands, j.queue, history);
        assert forall|k: int| !is_first_request(n.justifications.in_flight, who, k) by {
            if 0 <= k < n.justifications.in_flight.len() {
                if k < j.in_flight.len() {
                    assert(n.justifications.in_flight[k] == j.in_flight[k]);
                    if j.in_flight[k].who == who {
                        assert(is_first_request(j.in_flight, who, k));
                    }
                } else {
                    let e = p.issued[k - j.in_flight.len()];
                    assert(n.justifications.in_flight[k] == e);
                    assert(served_by(cands, e, history));
                    let c = choose|c: int|
                        0 <= c < cands.len() && (#[trigger] cands[c]).who == e.who && eligible(
                            cands[c],
                            e.request,
                            history,
                        );
                    assert(from_peer(s.peers, j.in_flight, cands[c]));
                }
            }
        }
    }
}

/// Asking the first `k` peers for new blocks gives no download to a peer
/// that is not connected.
pub proof fn lemma_download_all_outsider(s: SyncView, who: PeerId, k: int, importing_count: usize)
    requires
        s.wf(),
        k <= s.peers.len(),
        peer_index(s.peers, who) is None,
        !s.blocks.has_download(who),
    ensures
        !s.download_all(k, importing_count).state.blocks.has_download(who),
        peer_index(s.download_all(k, importing_count).state.peers, who) is None,
    decreases k,
{
    lemma_peer_index_found(s.peers, who);
    if k > 0 {
        lemma_download_all_outsider(s, who, k - 1, importing_count);
        lemma_download_all(s, k - 1, importing_count);
        let done = s.download_all(k - 1, importing_count).state;
        let w = s.peers[k - 1].who;
        lemma_download_new(done, w, importing_count);
        lemma_peer_index_found(done.peers, w);
        let next = done.download_new(w, importing_count).state;
        match peer_index(done.peers, w) {
            Some(i) => {
                let peer = done.peers[i];
                lemma_needed_range(
                    done.blocks,
                    w,
                    MAX_BLOCKS_TO_REQUEST,
                    peer.best_number,
                    peer.common_number,
                );
                match done.blocks.needed_range(
                    w,
                    MAX_BLOCKS_TO_REQUEST,
                    peer.best_number,
                    peer.common_number,
                ) {
                    Some((start, end)) => {
                        lemma_assigned(
                            done.blocks,
                            Download { who: w, start, len: (end - start) as u64 },
                        );
                    },
                    None => {},
                }
            },
            None => {},
        }
        assert forall|i: int| 0 <= i < next.peers.len() implies (#[trigger] next.peers[i]).who
            != who by {
            assert(next.peers[i] == done.peers[i].with_state(next.peers[i].state));
            assert(done.peers[i] == s.peers[i].with_state(done.peers[i].state));
        }
        assert forall|i: int| !is_first_peer(next.peers, who, i) by {}
    }
}

/// Disconnect releases: once a peer disconnected it is not among the peers,
/// it is asked for no range of blocks, and no justification request is
/// issued to it. The request that was issued to it is still kept track of
/// and stands first in the queue. The record of every other peer stays.
pub proof fn law_disconnect_releases(s: SyncView, who: PeerId)
    requires
        s.wf(),
    ensures
        s.released(who).wf(),
        peer_index(s.released(who).peers, who) is None,
        !s.released(who).blocks.has_download(who),
        !s.released(who).has_request(who),
        s.justifications.request_of(who) matches Some(r) ==> s.released(who).awaits(r)
            && s.released(who).justifications.requested.contains(r),
        forall|i: int|
            0 <= i < s.peers.len() && (#[trigger] s.peers[i]).who != who ==> s.released(
                who,
            ).peers.contains(s.peers[i]),
{
    let n = s.released(who);
    lemma_released(s, who);
    lemma_peer_index_found(s.peers, who);
    if n.has_request(who) {
        let k = choose|k: int|
            0 <= k < n.justifications.in_flight.len() && (
            #[trigger] n.justifications.in_flight[k]).who == who;
        assert(is_first_request(n.justifications.in_flight, who, k));
    }
    match request_index(s.justifications.in_flight, who) {
        Some(k) => {
            assert(is_first_request(s.justifications.in_flight, who, k));
            assert(s.justifications.requested.contains(s.justifications.in_flight[k].request));
        },
        None => {},
    }
    assert forall|i: int|
        0 <= i < s.peers.len() && (#[trigger] s.peers[i]).who != who implies n.peers.contains(
        s.peers[i],
    ) by {
        match peer_index(s.peers, who) {
            Some(at) => {
                let a = if i < at {
                    i
                } else {
                    i - 1
                };
                assert(n.peers[a] == s.peers[i]);
            },
            None => {
                assert(n.peers[i] == s.peers[i]);
            },
        }
    }
}

/// A peer that is not connected, is asked for no range and has no request
/// issued to it stays so when the synchronisation is maintained: nothing is
/// asked of a peer that left.
pub proof fn law_absent_peer_stays_out(
    s: SyncView,
    who: PeerId,
    now: u64,
    importing_count: usize,
)
    requires
        s.wf(),
        peer_index(s.peers, who) is None,
        !s.blocks.has_download(who),
        request_index(s.justifications.in_flight, who) is None,
    ensures
        peer_index(s.maintain_sync(now, importing_count).state.peers, who) is None,
        !s.maintain_sync(now, importing_count).state.blocks.has_download(who),
        request_index(
            s.maintain_sync(now, importing_count).state.justifications.in_flight,
            who,
        ) is None,
{
    lemma_download_all_outsider(s, who, s.peers.len() as int, importing_count);
    lemma_download_all(s, s.peers.len() as int, importing_count);
    let d = s.download_all(s.peers.len() as int, importing_count).state;
    lemma_dispatch_outsider(d, who, now);
}

/// Finalization: once a block was finalized, no justification request for a
/// block at or below it is kept, be it waiting, issued or answered.
pub proof fn law_finalization_collects(s: SyncView, number: BlockNumber)
    requires
        s.wf(),
    ensures
        s.block_finalized(number).justifications.above(number),
        s.block_finalized(number).wf(),
{
    lemma_collect_garbage_wf(s.justifications, number);
    crate::invariants::lemma_block_finalized(s, number);
}

/// No request is lost and none is doubled when a queue is shared out: the
/// requests of the queue are those that are issued, those that nobody can
/// serve and those that were not looked at, each as often as it stood in the
/// queue.
pub proof fn lemma_plan_keeps_requests(
    cands: Seq<Candidate>,
    queue: Seq<PendingJustification>,
    history: Seq<Attempt>,
)
    ensures
        queue.to_multiset() =~= plan(cands, queue, history).rest.to_multiset().add(
            plan(cands, queue, history).unhandled.to_multiset(),
        ).add(requests_of(plan(cands, queue, history).issued).to_multiset()),
    decreases queue.len(),
{
    broadcast use vstd::multiset::group_multiset_axioms;

    let p = plan(cands, queue, history);
    let none = Seq::<PendingJustification>::empty();
    none.to_multiset_ensures();
    if cands.len() == 0 || queue.len() == 0 {
        assert(requests_of(p.issued) =~= none);
        assert(p.unhandled =~= none);
    } else {
        let head = queue[0];
        let tail = queue.drop_first();
        assert(queue =~= seq![head] + tail);
        vstd::seq_lib::lemma_multiset_commutative(seq![head], tail);
        match first_eligible(cands, head, history) {
            Some(i) => {
                let q = plan(rotate(cands, i), tail, history);
                lemma_plan_keeps_requests(rotate(cands, i), tail, history);
                assert(requests_of(p.issued) =~= seq![head] + requests_of(q.issued));
                vstd::seq_lib::lemma_multiset_commutative(seq![head], requests_of(q.issued));
            },
            None => {
                let q = plan(cands, tail, history);
                lemma_plan_keeps_requests(cands, tail, history);
                assert(p.unhandled =~= seq![head] + q.unhandled);
                vstd::seq_lib::lemma_multiset_commutative(seq![head], q.unhandled);
            },
        }
    }
}

/// Fairness: a request that nobody could serve can be served by no candidate
/// that is left without a request; and a request is left unlooked at only
/// where each candidate got one.
pub proof fn law_nothing_is_passed_over(
    cands: Seq<Candidate>,
    queue: Seq<PendingJustification>,
    history: Seq<Attempt>,
)
    requires
        distinct_candidates(cands),
    ensures
        forall|u: int, c: int|
            0 <= u < plan(cands, queue, history).unhandled.len() && 0 <= c < cands.len()
                && !gets_request(plan(cands, queue, history).issued, (#[trigger] cands[c]).who)
                ==> !eligible(cands[c], #[trigger] plan(cands, queue, history).unhandled[u], history),
        plan(cands, queue, history).rest.len() > 0 ==> plan(cands, queue, history).issued.len()
            == cands.len(),
        plan(cands, queue, history).issued.len() <= cands.len(),
    decreases queue.len(),
{
    let p = plan(cands, queue, history);
    if cands.len() == 0 || queue.len() == 0 {
    } else {
        let head = queue[0];
        let tail = queue.drop_first();
        match first_eligible(cands, head, history) {
            Some(i) => {
                assert(is_first_eligible(cands, head, history, i));
                let turned = rotate(cands, i);
                let q = plan(turned, tail, history);
                assert forall|k: int| 0 <= k < turned.len() implies #[trigger] turned[k]
                    == cands[if k < cands.len() - i - 1 {
                    k + i + 1
                } else {
                    k - (cands.len() - i - 1)
                }] by {}
                assert(distinct_candidates(turned));
                law_nothing_is_passed_over(turned, tail, history);
                let first = PeerRequest { who: cands[i].who, request: head };
                assert(p.issued == seq![first] + q.issued);
                assert(p.issued[0] == first);
                assert forall|u: int, c: int|
                    0 <= u < p.unhandled.len() && 0 <= c < cands.len() && !gets_request(
                        p.issued,
                        (#[trigger] cands[c]).who,
                    ) implies !eligible(cands[c], #[trigger] p.unhandled[u], history) by {
                    assert(c != i);
                    let k = if c > i {
                        c - i - 1
                    } else {
                        c + (cands.len() - i - 1)
                    };
                    assert(turned[k] == cands[c]);
                    if gets_request(q.issued, cands[c].who) {
                        let m = choose|m: int|
                            0 <= m < q.issued.len() && (#[trigger] q.issued[m]).who == cands[c].who;
                        assert(p.issued[m + 1] == q.issued[m]);
                    }
                }
            },
            None => {
                let q = plan(cands, tail, history);
                law_nothing_is_passed_over(cands, tail, history);
                assert(p.unhandled == seq![head] + q.unhandled);
                assert forall|u: int, c: int|
                    0 <= u < p.unhandled.len() && 0 <= c < cands.len() && !gets_request(
                        p.issued,
                        (#[trigger] cands[c]).who,
                    ) implies !eligible(cands[c], #[trigger] p.unhandled[u], history) by {
                    if u == 0 {
                        if eligible(cands[c], head, history) {
                            lemma_first_eligible(cands, head, history, c);
                        }
                    } else {
                        assert(p.unhandled[u] == q.unhandled[u - 1]);
                    }
                }
            },
        }
    }
}

/// What a dispatch does, peer by peer and request by request:
/// - the requests that were issued before stay issued, and the new ones
///   follow them; one message is sent for each new one, to its peer;
/// - a request is issued only to a peer that was available and had none,
///   that has the block, and that did not refuse the request within the
///   wait; no peer gets two;
/// - a peer that gets a request then downloads the justification of its
///   block, and every other peer is as it was;
/// - the requests that are kept track of are the same, and the requests of
///   the old queue are those of the new queue and those newly issued, none
///   lost and none doubled.
pub proof fn law_dispatch(j: JustificationsView, peers: Seq<PeerView>, now: u64)
    requires
        j.wf(),
        peers_wf(peers),
    ensures
        j.dispatch(peers, now).justifications.wf(),
        j.dispatch(peers, now).justifications.requested == j.requested,
        j.dispatch(peers, now).justifications.in_flight == j.in_flight + j.issued(peers, now),
        j.dispatch(peers, now).actions == sends(j.issued(peers, now)),
        forall|m: int|
            0 <= m < j.issued(peers, now).len() ==> goes_to_available(
                peers,
                #[trigger] j.issued(peers, now),
                m,
            ),
        forall|m: int|
            0 <= m < j.issued(peers, now).len() ==> request_index(
                j.in_flight,
                (#[trigger] j.issued(peers, now)[m]).who,
            ) is None && served_by(
                candidates(peers, j.in_flight),
                j.issued(peers, now)[m],
                j.history.filter(recent(now)),
            ),
        forall|a: int, b: int|
            0 <= a < b < j.issued(peers, now).len() ==> (#[trigger] j.issued(peers, now)[a]).who
                != (#[trigger] j.issued(peers, now)[b]).who,
        j.dispatch(peers, now).peers.len() == peers.len(),
        forall|i: int|
            0 <= i < peers.len() ==> (#[trigger] j.dispatch(peers, now).peers[i]) == (
            match request_index(j.issued(peers, now), peers[i].who) {
                Some(m) => peers[i].with_state(
                    PeerSyncState::DownloadingJustification(j.issued(peers, now)[m].request.hash),
                ),
                None => peers[i],
            }),
        j.queue.to_multiset() =~= j.dispatch(peers, now).justifications.queue.to_multiset().add(
            requests_of(j.issued(peers, now)).to_multiset(),
        ),
{
    broadcast use vstd::multiset::group_multiset_axioms;

    lemma_dispatch_wf(j, peers, now);
    let issued = j.issued(peers, now);
    let none = Seq::<PendingJustification>::empty();
    none.to_multiset_ensures();
    if j.queue.len() == 0 {
        assert(j.in_flight + issued =~= j.in_flight);
        assert(sends(issued) =~= Seq::<Action>::empty());
        assert(requests_of(issued) =~= none);
    } else {
        let history = j.history.filter(recent(now));
        let cands = candidates(peers, j.in_flight);
        let p = plan(cands, j.queue, history);
        lemma_candidates(peers, j.in_flight);
        lemma_plan(cands, j.queue, history);
        lemma_plan_keeps_requests(cands, j.queue, history);
        vstd::seq_lib::lemma_multiset_commutative(p.rest, p.unhandled);
        assert forall|m: int| 0 <= m < issued.len() implies #[trigger] goes_to_available(
            peers,
            issued,
            m,
        ) && request_index(j.in_flight, issued[m].who) is None by {
            let e = issued[m];
            assert(served_by(cands, e, history));
            let c = choose|c: int|
                0 <= c < cands.len() && (#[trigger] cands[c]).who == e.who && eligible(
                    cands[c],
                    e.request,
                    history,
                );
            assert(from_peer(peers, j.in_flight, cands[c]));
            let i = choose|i: int|
                0 <= i < peers.len() && is_candidate(#[trigger] peers[i], j.in_flight) && cands[c]
                    == candidate_of(peers[i]);
            assert(peers[i].who == e.who);
            assert(is_first_request(issued, e.who, m)) by {
                assert forall|b: int| 0 <= b < m implies (#[trigger] issued[b]).who != e.who by {
                    assert(issued[b].who != issued[m].who);
                }
            }
            let m2 = request_index(issued, e.who)->0;
            assert(is_first_request(issued, e.who, m2));
            if m2 < m {
                assert(issued[m2].who != issued[m].who);
            }
            if m < m2 {
                assert(issued[m].who != issued[m2].who);
            }
            assert(peers[i].state == PeerSyncState::Available);
            assert(request_index(issued, peers[i].who) == Some(m));
        }
    }
}

} // verus!
