//! Pending justification requests: which blocks still lack their finality
//! proof, which peer is asked for which, and which peers answered with
//! nothing a short while ago.

use crate::peers::{peer_index, peers_wf, PeerSyncState, PeerView, Peers};
use crate::primitives::{
    justification_request, spec_justification_request, Action, BlockHash, BlockNumber, Fault,
    PeerId, JUSTIFICATION_RETRY_WAIT,
};
use crate::seqs::{
    lemma_filter_keeps, lemma_filter_member, lemma_filter_order, retain, retain_deque,
};
use std::collections::VecDeque;
use vstd::prelude::*;

verus! {

/// A request for the justification of the block with this hash and number.
#[derive(Copy, Clone, Debug, PartialEq, Eq, Structural)]
pub struct PendingJustification {
    pub hash: BlockHash,
    pub number: BlockNumber,
}

/// A request that a peer has been asked to answer.
#[derive(Copy, Clone, Debug, PartialEq, Eq, Structural)]
pub struct PeerRequest {
    pub who: PeerId,
    pub request: PendingJustification,
}

/// A request that a peer answered without a justification, and when.
#[derive(Copy, Clone, Debug, PartialEq, Eq, Structural)]
pub struct Attempt {
    pub request: PendingJustification,
    pub who: PeerId,
    /// In milliseconds, on the clock that `now` is read from.
    pub at: u64,
}

/// A peer that a request may be issued to.
#[derive(Copy, Clone, Debug, PartialEq, Eq, Structural)]
pub struct Candidate {
    pub who: PeerId,
    pub best_number: BlockNumber,
}

/// Manages pending block justification requests.
pub struct PendingJustifications {
    justifications: Vec<PendingJustification>,
    pending_requests: VecDeque<PendingJustification>,
    peer_requests: Vec<PeerRequest>,
    previous_requests: Vec<Attempt>,
}

/// The pending requests as plain sequences.
pub struct JustificationsView {
    /// Every request that is kept track of, each once.
    pub requested: Seq<PendingJustification>,
    /// The requests that wait to be issued, oldest first.
    pub queue: Seq<PendingJustification>,
    /// The requests that were issued, with their peers.
    pub in_flight: Seq<PeerRequest>,
    /// The answers without a justification.
    pub history: Seq<Attempt>,
}

/// What a dispatch leads to.
pub struct Dispatched {
    pub justifications: JustificationsView,
    pub peers: Seq<PeerView>,
    pub actions: Seq<Action>,
}

/// What a response leads to.
pub struct Responded {
    pub justifications: JustificationsView,
    pub actions: Seq<Action>,
}

/// How the queue is shared out among the candidates.
pub struct Plan {
    /// The requests that are issued, in the order of issue.
    pub issued: Seq<PeerRequest>,
    /// The requests that no candidate can serve.
    pub unhandled: Seq<PendingJustification>,
    /// The requests that were not looked at, as no candidate was left.
    pub rest: Seq<PendingJustification>,
}

pub open spec fn above(n: BlockNumber) -> spec_fn(PendingJustification) -> bool {
    |r: PendingJustification| r.number > n
}

pub open spec fn issued_above(n: BlockNumber) -> spec_fn(PeerRequest) -> bool {
    |r: PeerRequest| r.request.number > n
}

pub open spec fn attempt_above(n: BlockNumber) -> spec_fn(Attempt) -> bool {
    |a: Attempt| a.request.number > n
}

pub open spec fn other_than(r: PendingJustification) -> spec_fn(PendingJustification) -> bool {
    |x: PendingJustification| x != r
}

pub open spec fn not_for(r: PendingJustification) -> spec_fn(Attempt) -> bool {
    |a: Attempt| a.request != r
}

/// The attempt was made less than `JUSTIFICATION_RETRY_WAIT` before `now`.
pub open spec fn is_recent(a: Attempt, now: u64) -> bool {
    now - a.at < JUSTIFICATION_RETRY_WAIT
}

pub open spec fn recent(now: u64) -> spec_fn(Attempt) -> bool {
    |a: Attempt| is_recent(a, now)
}

/// `i` is the first place at which a request of `who` stands.
pub open spec fn is_first_request(in_flight: Seq<PeerRequest>, who: PeerId, i: int) -> bool {
    &&& 0 <= i < in_flight.len()
    &&& in_flight[i].who == who
    &&& forall|j: int| 0 <= j < i ==> (#[trigger] in_flight[j]).who != who
}

/// Where the request issued to `who` stands.
pub open spec fn request_index(in_flight: Seq<PeerRequest>, who: PeerId) -> Option<int> {
    if exists|i: int| is_first_request(in_flight, who, i) {
        Some(choose|i: int| is_first_request(in_flight, who, i))
    } else {
        None
    }
}

/// `who` answered request `r` without a justification.
pub open spec fn refused(history: Seq<Attempt>, who: PeerId, r: PendingJustification) -> bool {
    exists|i: int|
        0 <= i < history.len() && (#[trigger] history[i]).who == who && history[i].request == r
}

/// The candidate has the block and did not refuse the request.
pub open spec fn eligible(c: Candidate, r: PendingJustification, history: Seq<Attempt>) -> bool {
    c.best_number >= r.number && !refused(history, c.who, r)
}

/// `i` is the first candidate that is eligible for `r`.
pub open spec fn is_first_eligible(
    cands: Seq<Candidate>,
    r: PendingJustification,
    history: Seq<Attempt>,
    i: int,
) -> bool {
    &&& 0 <= i < cands.len()
    &&& eligible(cands[i], r, history)
    &&& forall|j: int| 0 <= j < i ==> !eligible(#[trigger] cands[j], r, history)
}

pub open spec fn first_eligible(
    cands: Seq<Candidate>,
    r: PendingJustification,
    history: Seq<Attempt>,
) -> Option<int> {
    if exists|i: int| is_first_eligible(cands, r, history, i) {
        Some(choose|i: int| is_first_eligible(cands, r, history, i))
    } else {
        None
    }
}

/// The candidates once candidate `i` is taken: those behind it come first,
/// those that were passed over go to the back.
pub open spec fn rotate(cands: Seq<Candidate>, i: int) -> Seq<Candidate> {
    cands.subrange(i + 1, cands.len() as int) + cands.subrange(0, i)
}

/// Shares the queue out: each request in turn goes to the first candidate
/// that is eligible for it, and that candidate leaves; a request that no
/// candidate is eligible for is unhandled.
pub open spec fn plan(
    cands: Seq<Candidate>,
    queue: Seq<PendingJustification>,
    history: Seq<Attempt>,
) -> Plan
    decreases queue.len(),
{
    if cands.len() == 0 || queue.len() == 0 {
        Plan { issued: Seq::empty(), unhandled: Seq::empty(), rest: queue }
    } else {
        match first_eligible(cands, queue[0], history) {
            Some(i) => {
                let p = plan(rotate(cands, i), queue.drop_first(), history);
                Plan {
                    issued: seq![PeerRequest { who: cands[i].who, request: queue[0] }] + p.issued,
                    ..p
                }
            },
            None => {
                let p = plan(cands, queue.drop_first(), history);
                Plan { unhandled: seq![queue[0]] + p.unhandled, ..p }
            },
        }
    }
}

/// A request may be issued to a peer of which nothing is asked and to which
/// no request was issued.
pub open spec fn is_candidate(p: PeerView, in_flight: Seq<PeerRequest>) -> bool {
    p.state == PeerSyncState::Available && request_index(in_flight, p.who) is None
}

pub open spec fn candidate_of(p: PeerView) -> Candidate {
    Candidate { who: p.who, best_number: p.best_number }
}

/// The peers that a request may be issued to, in their order.
pub open spec fn candidates(peers: Seq<PeerView>, in_flight: Seq<PeerRequest>) -> Seq<Candidate>
    decreases peers.len(),
{
    if peers.len() == 0 {
        Seq::empty()
    } else {
        let rest = candidates(peers.drop_last(), in_flight);
        if is_candidate(peers.last(), in_flight) {
            rest.push(candidate_of(peers.last()))
        } else {
            rest
        }
    }
}

/// The peers once the requests of `issued` are issued: each peer that got one
/// is downloading the justification of that block.
pub open spec fn issue_all(peers: Seq<PeerView>, issued: Seq<PeerRequest>) -> Seq<PeerView> {
    Seq::new(
        peers.len(),
        |i: int|
            match request_index(issued, peers[i].who) {
                Some(k) => peers[i].with_state(
                    PeerSyncState::DownloadingJustification(issued[k].request.hash),
                ),
                None => peers[i],
            },
    )
}

/// The requests of `issued`, without their peers.
pub open spec fn requests_of(issued: Seq<PeerRequest>) -> Seq<PendingJustification> {
    Seq::new(issued.len(), |k: int| issued[k].request)
}

/// `who` gets one of the requests of `issued`.
pub open spec fn gets_request(issued: Seq<PeerRequest>, who: PeerId) -> bool {
    exists|k: int| 0 <= k < issued.len() && (#[trigger] issued[k]).who == who
}

/// The messages that issue the requests of `issued`.
pub open spec fn sends(issued: Seq<PeerRequest>) -> Seq<Action> {
    Seq::new(
        issued.len(),
        |k: int|
            Action::Send {
                to: issued[k].who,
                request: spec_justification_request(issued[k].request.hash),
            },
    )
}

impl JustificationsView {
    pub open spec fn empty() -> JustificationsView {
        JustificationsView {
            requested: Seq::empty(),
            queue: Seq::empty(),
            in_flight: Seq::empty(),
            history: Seq::empty(),
        }
    }

    /// Every request that waits or was issued is kept track of, and none
    /// stands twice among them; none is kept track of twice; no peer was
    /// issued two.
    pub open spec fn wf(self) -> bool {
        &&& self.requested.no_duplicates()
        &&& self.queue.no_duplicates()
        &&& forall|i: int|
            0 <= i < self.queue.len() ==> self.requested.contains(#[trigger] self.queue[i])
        &&& forall|i: int|
            0 <= i < self.in_flight.len() ==> self.requested.contains(
                (#[trigger] self.in_flight[i]).request,
            )
        &&& forall|i: int, j: int|
            0 <= i < j < self.in_flight.len() ==> (#[trigger] self.in_flight[i]).who != (
            #[trigger] self.in_flight[j]).who && self.in_flight[i].request
                != self.in_flight[j].request
        &&& forall|i: int, j: int|
            0 <= i < self.queue.len() && 0 <= j < self.in_flight.len() ==> #[trigger] self.queue[i]
                != (#[trigger] self.in_flight[j]).request
    }

    /// Every request that is issued to a peer is for a block above `n`.
    pub open spec fn issued_above(self, n: BlockNumber) -> bool {
        forall|i: int|
            0 <= i < self.in_flight.len() ==> (#[trigger] self.in_flight[i]).request.number > n
    }

    /// Every request, waiting, issued or answered, is for a block above `n`.
    pub open spec fn above(self, n: BlockNumber) -> bool {
        &&& forall|i: int|
            0 <= i < self.requested.len() ==> (#[trigger] self.requested[i]).number > n
        &&& forall|i: int| 0 <= i < self.queue.len() ==> (#[trigger] self.queue[i]).number > n
        &&& forall|i: int|
            0 <= i < self.in_flight.len() ==> (#[trigger] self.in_flight[i]).request.number > n
        &&& forall|i: int|
            0 <= i < self.history.len() ==> (#[trigger] self.history[i]).request.number > n
    }

    /// The request that was issued to `who`.
    pub open spec fn request_of(self, who: PeerId) -> Option<PendingJustification> {
        match request_index(self.in_flight, who) {
            Some(i) => Some(self.in_flight[i].request),
            None => None,
        }
    }

    /// A request that is new is kept track of and goes to the back of
    /// the queue.
    pub open spec fn queue_request(self, r: PendingJustification) -> JustificationsView {
        if self.requested.contains(r) {
            self
        } else {
            JustificationsView { requested: self.requested.push(r), queue: self.queue.push(r), ..self }
        }
    }

    /// The request that was issued to `who` goes back to the front of the
    /// queue.
    pub open spec fn peer_disconnected(self, who: PeerId) -> JustificationsView {
        match request_index(self.in_flight, who) {
            Some(i) => JustificationsView {
                in_flight: self.in_flight.remove(i),
                queue: seq![self.in_flight[i].request] + self.queue,
                ..self
            },
            None => self,
        }
    }

    /// `who` answered the request that was issued to it; without such a
    /// request nothing happens. `verdict` is `None` where the answer held no
    /// justification, and else says whether the import queue accepted the
    /// justification. An accepted justification settles the request. Where
    /// it is rejected the peer is reported as bad; where there is none the
    /// peer is reported as useless and the answer is recorded with its time;
    /// either way the request goes back to the front of the queue.
    pub open spec fn on_response(self, who: PeerId, verdict: Option<bool>, now: u64) -> Responded {
        match request_index(self.in_flight, who) {
            None => Responded { justifications: self, actions: Seq::empty() },
            Some(i) => {
                let r = self.in_flight[i].request;
                let in_flight = self.in_flight.remove(i);
                match verdict {
                    Some(true) => Responded {
                        justifications: JustificationsView {
                            requested: self.requested.filter(other_than(r)),
                            in_flight,
                            history: self.history.filter(not_for(r)),
                            ..self
                        },
                        actions: Seq::empty(),
                    },
                    Some(false) => Responded {
                        justifications: JustificationsView {
                            in_flight,
                            queue: seq![r] + self.queue,
                            ..self
                        },
                        actions: seq![Action::Report { who, fault: Fault::InvalidJustification }],
                    },
                    None => Responded {
                        justifications: JustificationsView {
                            in_flight,
                            queue: seq![r] + self.queue,
                            history: self.history.push(Attempt { request: r, who, at: now }),
                            ..self
                        },
                        actions: seq![Action::Report { who, fault: Fault::MissingJustification }],
                    },
                }
            },
        }
    }

    /// Every request for a block at or below `best_finalized` is dropped.
    pub open spec fn collect_garbage(self, best_finalized: BlockNumber) -> JustificationsView {
        JustificationsView {
            requested: self.requested.filter(above(best_finalized)),
            queue: self.queue.filter(above(best_finalized)),
            in_flight: self.in_flight.filter(issued_above(best_finalized)),
            history: self.history.filter(attempt_above(best_finalized)),
        }
    }

    /// The requests that a dispatch issues, in the order of issue.
    pub open spec fn issued(self, peers: Seq<PeerView>, now: u64) -> Seq<PeerRequest> {
        if self.queue.len() == 0 {
            Seq::empty()
        } else {
            plan(
                candidates(peers, self.in_flight),
                self.queue,
                self.history.filter(recent(now)),
            ).issued
        }
    }

    /// The queue is shared out among the peers that a request may be issued
    /// to, after the attempts older than `JUSTIFICATION_RETRY_WAIT` are
    /// forgotten. The unhandled requests go to the back of the queue. With an
    /// empty queue nothing happens.
    pub open spec fn dispatch(self, peers: Seq<PeerView>, now: u64) -> Dispatched {
        if self.queue.len() == 0 {
            Dispatched { justifications: self, peers, actions: Seq::empty() }
        } else {
            let history = self.history.filter(recent(now));
            let p = plan(candidates(peers, self.in_flight), self.queue, history);
            Dispatched {
                justifications: JustificationsView {
                    requested: self.requested,
                    queue: p.rest + p.unhandled,
                    in_flight: self.in_flight + p.issued,
                    history,
                },
                peers: issue_all(peers, p.issued),
                actions: sends(p.issued),
            }
        }
    }
}

impl View for PendingJustifications {
    type V = JustificationsView;

    closed spec fn view(&self) -> JustificationsView {
        JustificationsView {
            requested: self.justifications@,
            queue: self.pending_requests@,
            in_flight: self.peer_requests@,
            history: self.previous_requests@,
        }
    }
}

impl PendingJustifications {
    /// Nothing is pending.
    pub fn new() -> (j: PendingJustifications)
        ensures
            j@ == JustificationsView::empty(),
            j@.wf(),
    {
        PendingJustifications {
            justifications: Vec::new(),
            pending_requests: VecDeque::new(),
            peer_requests: Vec::new(),
            previous_requests: Vec::new(),
        }
    }

    /// Whether the justification `r` is still asked for.
    pub fn is_requested(&self, r: &PendingJustification) -> (b: bool)
        ensures
            b == self@.requested.contains(*r),
    {
        let mut i: usize = 0;
        while i < self.justifications.len()
            invariant
                i <= self.justifications@.len(),
                forall|j: int| 0 <= j < i ==> self.justifications@[j] != *r,
            decreases self.justifications.len() - i,
        {
            if self.justifications[i] == *r {
                return true;
            }
            i += 1;
        }
        false
    }

    /// Where the request issued to `who` stands.
    fn request_position(&self, who: PeerId) -> (r: Option<usize>)
        ensures
            match r {
                Some(i) => request_index(self@.in_flight, who) == Some(i as int)
                    && i < self@.in_flight.len() && self@.in_flight[i as int].who == who,
                None => request_index(self@.in_flight, who) is None,
            },
    {
        let mut i: usize = 0;
        while i < self.peer_requests.len()
            invariant
                i <= self.peer_requests@.len(),
                forall|j: int| 0 <= j < i ==> (#[trigger] self.peer_requests@[j]).who != who,
            decreases self.peer_requests.len() - i,
        {
            if self.peer_requests[i].who == who {
                assert(is_first_request(self@.in_flight, who, i as int));
                return Some(i);
            }
            i += 1;
        }
        None
    }

    /// The request that was issued to `who`.
    pub fn request_of(&self, who: PeerId) -> (r: Option<PendingJustification>)
        ensures
            r == self@.request_of(who),
    {
        match self.request_position(who) {
            Some(i) => Some(self.peer_requests[i].request),
            None => None,
        }
    }

    /// The requests that wait to be issued, oldest first.
    pub fn queued(&self) -> (r: Vec<PendingJustification>)
        ensures
            r@ == self@.queue,
    {
        let mut r: Vec<PendingJustification> = Vec::new();
        let mut i: usize = 0;
        while i < self.pending_requests.len()
            invariant
                i <= self.pending_requests@.len(),
                r@ == self.pending_requests@.take(i as int),
            decreases self.pending_requests.len() - i,
        {
            r.push(self.pending_requests[i]);
            assert(self.pending_requests@.take(i + 1) =~= self.pending_requests@.take(
                i as int,
            ).push(self.pending_requests@[i as int]));
            i += 1;
        }
        assert(self.pending_requests@.take(i as int) =~= self.pending_requests@);
        r
    }

    /// Whether `who` answered `request` without a justification.
    pub fn refused(&self, who: PeerId, request: &PendingJustification) -> (b: bool)
        ensures
            b == refused(self@.history, who, *request),
    {
        let mut i: usize = 0;
        while i < self.previous_requests.len()
            invariant
                i <= self.previous_requests@.len(),
                forall|j: int|
                    0 <= j < i ==> !((#[trigger] self.previous_requests@[j]).who == who
                        && self.previous_requests@[j].request == *request),
            decreases self.previous_requests.len() - i,
        {
            if self.previous_requests[i].who == who && self.previous_requests[i].request
                == *request {
                return true;
            }
            i += 1;
        }
        false
    }

    /// Queue a justification request (without dispatching it).
    pub fn queue_request(&mut self, justification: &PendingJustification)
        requires
            old(self)@.wf(),
        ensures
            final(self)@ == old(self)@.queue_request(*justification),
            final(self)@.wf(),
    {
        if self.is_requested(justification) {
            return ;
        }
        self.justifications.push(*justification);
        self.pending_requests.push_back(*justification);
        proof {
            lemma_queue_request_wf(old(self)@, *justification);
        }
    }

    /// Retry any pending request if a peer disconnected.
    pub fn peer_disconnected(&mut self, who: PeerId)
        requires
            old(self)@.wf(),
        ensures
            final(self)@ == old(self)@.peer_disconnected(who),
            final(self)@.wf(),
    {
        match self.request_position(who) {
            Some(i) => {
                let entry = self.peer_requests.remove(i);
                self.pending_requests.push_front(entry.request);
            },
            None => {},
        }
        proof {
            lemma_peer_disconnected_wf(old(self)@, who);
        }
    }

    /// Processes the response for the request previously sent to the given
    /// peer. Queues a retry and reports the peer in case the import failed
    /// or the response held no justification.
    pub fn on_response(
        &mut self,
        who: PeerId,
        verdict: Option<bool>,
        now: u64,
        outbox: &mut Vec<Action>,
    )
        requires
            old(self)@.wf(),
        ensures
            final(self)@ == old(self)@.on_response(who, verdict, now).justifications,
            final(outbox)@ == old(outbox)@ + old(self)@.on_response(who, verdict, now).actions,
            final(self)@.wf(),
    {
        proof {
            lemma_on_response_wf(old(self)@, who, verdict, now);
        }
        match self.request_position(who) {
            Some(i) => {
                let request = self.peer_requests.remove(i).request;
                match verdict {
                    Some(true) => {
                        let keep = |x: &PendingJustification| -> (b: bool)
                            ensures
                                b == (*x != request),
                            {
                                !(*x == request)
                            };
                        retain(&mut self.justifications, keep, Ghost(other_than(request)));
                        let keep_attempt = |a: &Attempt| -> (b: bool)
                            ensures
                                b == (a.request != request),
                            {
                                !(a.request == request)
                            };
                        retain(&mut self.previous_requests, keep_attempt, Ghost(not_for(request)));
                        assert(outbox@ =~= old(outbox)@ + Seq::<Action>::empty());
                    },
                    Some(false) => {
                        outbox.push(Action::Report { who, fault: Fault::InvalidJustification });
                        self.pending_requests.push_front(request);
                        assert(outbox@ =~= old(outbox)@ + seq![
                            Action::Report { who, fault: Fault::InvalidJustification },
                        ]);
                    },
                    None => {
                        outbox.push(Action::Report { who, fault: Fault::MissingJustification });
                        self.previous_requests.push(Attempt { request, who, at: now });
                        self.pending_requests.push_front(request);
                        assert(outbox@ =~= old(outbox)@ + seq![
                            Action::Report { who, fault: Fault::MissingJustification },
                        ]);
                    },
                }
            },
            None => {
                assert(outbox@ =~= old(outbox)@ + Seq::<Action>::empty());
            },
        }
    }

    /// Forgets the attempts that are older than `JUSTIFICATION_RETRY_WAIT`.
    fn purge(&mut self, now: u64)
        ensures
            final(self)@ == (JustificationsView {
                history: old(self)@.history.filter(recent(now)),
                ..old(self)@
            }),
    {
        let keep = |a: &Attempt| -> (b: bool)
            ensures
                b == is_recent(*a, now),
            {
                now < a.at || now - a.at < JUSTIFICATION_RETRY_WAIT
            };
        retain(&mut self.previous_requests, keep, Ghost(recent(now)));
    }

    /// The peers that a request may be issued to.
    fn candidates(&self, peers: &Peers) -> (c: VecDeque<Candidate>)
        ensures
            c@ == candidates(peers@, self@.in_flight),
    {
        let mut c: VecDeque<Candidate> = VecDeque::new();
        let mut i: usize = 0;
        while i < peers.len()
            invariant
                i <= peers@.len(),
                c@ == candidates(peers@.take(i as int), self@.in_flight),
            decreases peers@.len() - i,
        {
            let p = peers.get(i);
            proof {
                assert(peers@.take(i + 1).drop_last() =~= peers@.take(i as int));
                assert(peers@.take(i + 1).last() == peers@[i as int]);
            }
            if p.state == PeerSyncState::Available && self.request_position(p.who).is_none() {
                c.push_back(Candidate { who: p.who, best_number: p.best_number });
            }
            i += 1;
        }
        assert(peers@.take(i as int) =~= peers@);
        c
    }

    /// Dispatches all possible pending requests to the given peers. Peers are
    /// filtered according to the current known best block (a request for the
    /// justification of block 10 is not sent to a peer at block 2), and a
    /// peer is not asked again for a request that it answered with nothing
    /// less than `JUSTIFICATION_RETRY_WAIT` ago.
    pub fn dispatch(&mut self, peers: &mut Peers, now: u64, outbox: &mut Vec<Action>)
        requires
            old(self)@.wf(),
            peers_wf(old(peers)@),
        ensures
            final(self)@ == old(self)@.dispatch(old(peers)@, now).justifications,
            final(peers)@ == old(self)@.dispatch(old(peers)@, now).peers,
            final(outbox)@ == old(outbox)@ + old(self)@.dispatch(old(peers)@, now).actions,
            final(self)@.wf(),
            peers_wf(final(peers)@),
    {
        proof {
            lemma_dispatch_wf(old(self)@, old(peers)@, now);
        }
        if self.pending_requests.len() == 0 {
            assert(outbox@ =~= old(outbox)@ + Seq::<Action>::empty());
            return ;
        }
        self.purge(now);
        let mut available = self.candidates(peers);
        let mut last_peer: Option<PeerId> = if available.len() > 0 {
            Some(available[available.len() - 1].who)
        } else {
            None
        };
        let mut unhandled: VecDeque<PendingJustification> = VecDeque::new();

        let ghost peers0 = old(peers)@;
        let ghost in_flight0 = old(self)@.in_flight;
        let ghost history = self@.history;
        let ghost cands0 = available@;
        let ghost queue0 = self@.queue;
        let ghost mut base = available@;
        let ghost mut tested: int = 0;
        let ghost mut issued = Seq::<PeerRequest>::empty();
        proof {
            lemma_candidates(peers0, in_flight0);
            assert(peers@ =~= issue_all(peers0, issued)) by {
                assert forall|i: int| 0 <= i < peers0.len() implies request_index(
                    issued,
                    #[trigger] peers0[i].who,
                ) is None by {}
            }
            assert(outbox@ =~= old(outbox)@ + sends(issued));
            assert(self@.in_flight =~= in_flight0 + issued);
            assert(base =~= available@.subrange(available@.len() - tested, available@.len() as int)
                + available@.subrange(0, available@.len() - tested));
        }

        while available.len() > 0 && self.pending_requests.len() > 0
            invariant
                peers_wf(peers0),
                self@.requested == old(self)@.requested,
                self@.history == history,
                self@.in_flight == in_flight0 + issued,
                peers@ == issue_all(peers0, issued),
                outbox@ == old(outbox)@ + sends(issued),
                0 <= tested,
                tested < available@.len() || (tested == 0 && available@.len() == 0),
                base.len() == available@.len(),
                base == available@.subrange(available@.len() - tested, available@.len() as int)
                    + available@.subrange(0, available@.len() - tested),
                tested > 0 ==> self@.queue.len() > 0,
                forall|k: int|
                    0 <= k < tested ==> !eligible(#[trigger] base[k], self@.queue[0], history),
                last_peer == (if base.len() > 0 {
                    Some(base.last().who)
                } else {
                    None
                }),
                forall|a: int, b: int|
                    0 <= a < b < base.len() ==> (#[trigger] base[a]).who != (#[trigger] base[b]).who,
                forall|a: int, k: int|
                    0 <= a < base.len() && 0 <= k < issued.len() ==> (#[trigger] base[a]).who != (
                    #[trigger] issued[k]).who,
                forall|a: int, b: int|
                    0 <= a < b < issued.len() ==> (#[trigger] issued[a]).who != (
                    #[trigger] issued[b]).who,
                plan(cands0, queue0, history).issued == issued + plan(
                    base,
                    self@.queue,
                    history,
                ).issued,
                plan(cands0, queue0, history).unhandled == unhandled@ + plan(
                    base,
                    self@.queue,
                    history,
                ).unhandled,
                plan(cands0, queue0, history).rest == plan(base, self@.queue, history).rest,
            decreases self@.queue.len(), available@.len() - tested,
        {
            let ghost before = available@;
            let ghost queue = self@.queue;
            let ghost sofar = plan(base, queue, history);
            let cand = available.pop_front().unwrap();
            let request = self.pending_requests[0];
            assert(cand == base[tested]);
            let peer_eligible = cand.best_number >= request.number && !self.refused(
                cand.who,
                &request,
            );
            if !peer_eligible {
                available.push_back(cand);
                let full_turn = match last_peer {
                    Some(last) => last == cand.who,
                    None => false,
                };
                if full_turn {
                    // every peer was tried and none can answer this request
                    last_peer = Some(available[available.len() - 1].who);
                    let r = self.pending_requests.pop_front().unwrap();
                    let ghost handled = unhandled@;
                    unhandled.push_back(r);
                    proof {
                        assert(tested == base.len() - 1);
                        assert forall|i: int| !is_first_eligible(base, request, history, i) by {}
                        assert(available@ =~= base);
                        assert(self@.queue =~= queue.drop_first());
                        let next = plan(base, self@.queue, history);
                        assert(sofar.unhandled == seq![request] + next.unhandled);
                        assert(unhandled@ + next.unhandled =~= handled + sofar.unhandled);
                        tested = 0;
                        assert(base =~= available@.subrange(
                            available@.len() - tested,
                            available@.len() as int,
                        ) + available@.subrange(0, available@.len() - tested));
                    }
                } else {
                    proof {
                        tested = tested + 1;
                        assert(base =~= available@.subrange(
                            available@.len() - tested,
                            available@.len() as int,
                        ) + available@.subrange(0, available@.len() - tested));
                    }
                }
            } else {
                last_peer = if available.len() > 0 {
                    Some(available[available.len() - 1].who)
                } else {
                    None
                };
                let r = self.pending_requests.pop_front().unwrap();
                let entry = PeerRequest { who: cand.who, request: r };
                self.peer_requests.push(entry);
                let ghost peers1 = peers@;
                match peers.position(cand.who) {
                    Some(slot) => {
                        peers.set_state(slot, PeerSyncState::DownloadingJustification(r.hash));
                    },
                    None => {},
                }
                let ghost sent = outbox@;
                outbox.push(Action::Send { to: cand.who, request: justification_request(r.hash) });
                proof {
                    assert(is_first_eligible(base, request, history, tested));
                    assert(first_eligible(base, request, history) == Some(tested));
                    assert(available@ =~= rotate(base, tested));
                    assert(self@.queue =~= queue.drop_first());
                    let next = plan(available@, self@.queue, history);
                    assert(sofar.issued == seq![entry] + next.issued);
                    let more = issued.push(entry);
                    assert(more + next.issued =~= issued + sofar.issued);
                    assert(self@.in_flight =~= in_flight0 + more);
                    assert(outbox@ =~= old(outbox)@ + sends(more)) by {
                        assert(sends(more) =~= sends(issued).push(
                            Action::Send {
                                to: cand.who,
                                request: spec_justification_request(r.hash),
                            },
                        ));
                    }
                    lemma_issue_one(peers0, issued, entry);
                    assert(peers@ == issue_all(peers0, more));
                    issued = more;
                    base = available@;
                    tested = 0;
                    assert(base =~= available@.subrange(
                        available@.len() - tested,
                        available@.len() as int,
                    ) + available@.subrange(0, available@.len() - tested));
                }
            }
        }
        let ghost left = self@.queue;
        let ghost handled = unhandled@;
        self.pending_requests.append(&mut unhandled);
        proof {
            let p = plan(cands0, queue0, history);
            assert(plan(base, left, history).unhandled =~= Seq::<PendingJustification>::empty());
            assert(plan(base, left, history).issued =~= Seq::<PeerRequest>::empty());
            assert(p.rest == left);
            assert(p.unhandled =~= handled);
            assert(p.issued =~= issued);
        }
    }

    /// Removes any pending justification requests for blocks at or below the
    /// given best finalized.
    pub fn collect_garbage(&mut self, best_finalized: BlockNumber)
        requires
            old(self)@.wf(),
        ensures
            final(self)@ == old(self)@.collect_garbage(best_finalized),
            final(self)@.wf(),
            final(self)@.above(best_finalized),
    {
        let keep = |r: &PendingJustification| -> (b: bool)
            ensures
                b == (r.number > best_finalized),
            {
                r.number > best_finalized
            };
        retain(&mut self.justifications, keep, Ghost(above(best_finalized)));
        let keep_queued = |r: &PendingJustification| -> (b: bool)
            ensures
                b == (r.number > best_finalized),
            {
                r.number > best_finalized
            };
        retain_deque(&mut self.pending_requests, keep_queued, Ghost(above(best_finalized)));
        let keep_issued = |r: &PeerRequest| -> (b: bool)
            ensures
                b == (r.request.number > best_finalized),
            {
                r.request.number > best_finalized
            };
        retain(&mut self.peer_requests, keep_issued, Ghost(issued_above(best_finalized)));
        let keep_attempt = |a: &Attempt| -> (b: bool)
            ensures
                b == (a.request.number > best_finalized),
            {
                a.request.number > best_finalized
            };
        retain(&mut self.previous_requests, keep_attempt, Ghost(attempt_above(best_finalized)));
        proof {
            lemma_collect_garbage_wf(old(self)@, best_finalized);
        }
    }
}

/// `c` stands for a peer of `peers` that a request may be issued to.
pub open spec fn from_peer(peers: Seq<PeerView>, in_flight: Seq<PeerRequest>, c: Candidate) -> bool {
    exists|i: int|
        0 <= i < peers.len() && is_candidate(#[trigger] peers[i], in_flight) && c == candidate_of(
            peers[i],
        )
}

/// The candidate to which `e` is issued is among `cands` and is eligible for
/// the request.
pub open spec fn served_by(cands: Seq<Candidate>, e: PeerRequest, history: Seq<Attempt>) -> bool {
    exists|c: int|
        0 <= c < cands.len() && (#[trigger] cands[c]).who == e.who && eligible(
            cands[c],
            e.request,
            history,
        )
}

/// No two of the candidates are the same peer.
pub open spec fn distinct_candidates(cands: Seq<Candidate>) -> bool {
    forall|a: int, b: int|
        0 <= a < b < cands.len() ==> (#[trigger] cands[a]).who != (#[trigger] cands[b]).who
}

/// The candidates are peers that a request may be issued to, each once.
pub proof fn lemma_candidates(peers: Seq<PeerView>, in_flight: Seq<PeerRequest>)
    requires
        peers_wf(peers),
    ensures
        distinct_candidates(candidates(peers, in_flight)),
        forall|k: int|
            0 <= k < candidates(peers, in_flight).len() ==> from_peer(
                peers,
                in_flight,
                #[trigger] candidates(peers, in_flight)[k],
            ),
        forall|i: int|
            0 <= i < peers.len() && is_candidate(#[trigger] peers[i], in_flight) ==> candidates(
                peers,
                in_flight,
            ).contains(candidate_of(peers[i])),
    decreases peers.len(),
{
    if peers.len() > 0 {
        let front = peers.drop_last();
        let c0 = candidates(front, in_flight);
        let c = candidates(peers, in_flight);
        assert(peers_wf(front)) by {
            assert forall|i: int| 0 <= i < front.len() implies #[trigger] front[i] == peers[i] by {}
        }
        lemma_candidates(front, in_flight);
        assert forall|k: int| 0 <= k < c.len() implies from_peer(peers, in_flight, #[trigger] c[k]) by {
            if k < c0.len() {
                assert(from_peer(front, in_flight, c0[k]));
                let i = choose|i: int|
                    0 <= i < front.len() && is_candidate(#[trigger] front[i], in_flight) && c0[k]
                        == candidate_of(front[i]);
                assert(peers[i] == front[i]);
            } else {
                assert(c[k] == candidate_of(peers[peers.len() - 1]));
            }
        }
        assert forall|a: int, b: int| 0 <= a < b < c.len() implies (#[trigger] c[a]).who != (
        #[trigger] c[b]).who by {
            if b == c0.len() {
                assert(from_peer(front, in_flight, c0[a]));
                let i = choose|i: int|
                    0 <= i < front.len() && is_candidate(#[trigger] front[i], in_flight) && c0[a]
                        == candidate_of(front[i]);
                assert(peers[i] == front[i]);
                assert(peers[i].who != peers[peers.len() - 1].who);
            }
        }
        assert forall|i: int|
            0 <= i < peers.len() && is_candidate(#[trigger] peers[i], in_flight) implies c.contains(
            candidate_of(peers[i]),
        ) by {
            if i < front.len() {
                assert(front[i] == peers[i]);
                assert(c0.contains(candidate_of(front[i])));
                let k = choose|k: int| 0 <= k < c0.len() && c0[k] == candidate_of(front[i]);
                assert(c[k] == candidate_of(peers[i]));
            } else {
                assert(c[c.len() - 1] == candidate_of(peers[i]));
            }
        }
    }
}

/// Issuing one more request, to a peer that got none yet, sets the state of
/// that peer and of no other.
proof fn lemma_issue_one(peers: Seq<PeerView>, issued: Seq<PeerRequest>, entry: PeerRequest)
    requires
        peers_wf(peers),
        forall|k: int| 0 <= k < issued.len() ==> (#[trigger] issued[k]).who != entry.who,
    ensures
        issue_all(peers, issued.push(entry)) == (match peer_index(
            issue_all(peers, issued),
            entry.who,
        ) {
            Some(slot) => issue_all(peers, issued).update(
                slot,
                issue_all(peers, issued)[slot].with_state(
                    PeerSyncState::DownloadingJustification(entry.request.hash),
                ),
            ),
            None => issue_all(peers, issued),
        }),
{
    let before = issue_all(peers, issued);
    let more = issued.push(entry);
    let after = issue_all(peers, more);
    crate::peers::lemma_peer_index_found(before, entry.who);
    assert(peers_wf(before));
    assert forall|i: int| 0 <= i < peers.len() implies #[trigger] after[i] == (if peers[i].who
        == entry.who {
        before[i].with_state(PeerSyncState::DownloadingJustification(entry.request.hash))
    } else {
        before[i]
    }) by {
        let w = peers[i].who;
        if w == entry.who {
            assert(is_first_request(more, w, issued.len() as int));
            assert(request_index(issued, w) is None) by {
                assert forall|k: int| !is_first_request(issued, w, k) by {}
            }
        } else {
            assert forall|k: int| is_first_request(more, w, k) <==> is_first_request(
                issued,
                w,
                k,
            ) by {
                if 0 <= k < issued.len() {
                    assert(more[k] == issued[k]);
                    assert forall|j: int| 0 <= j < k implies #[trigger] more[j] == issued[j] by {}
                    assert forall|j: int| 0 <= j < k implies #[trigger] issued[j] == more[j] by {}
                } else if k == issued.len() {
                    assert(more[k] == entry);
                }
            }
            match request_index(issued, w) {
                Some(k1) => {
                    assert(is_first_request(more, w, k1));
                    let k2 = request_index(more, w).unwrap();
                    assert(is_first_request(more, w, k2));
                    assert(k1 == k2) by {
                        if k1 < k2 {
                            assert(more[k1].who == w);
                        }
                        if k2 < k1 {
                            assert(more[k2].who == w);
                        }
                    }
                    assert(more[k1] == issued[k1]);
                },
                None => {},
            }
        }
    }
    match peer_index(before, entry.who) {
        Some(slot) => {
            assert(after =~= before.update(
                slot,
                before[slot].with_state(
                    PeerSyncState::DownloadingJustification(entry.request.hash),
                ),
            ));
        },
        None => {
            assert(after =~= before);
        },
    }
}

/// What a plan is made of: the issued requests, the unhandled ones and the
/// rest are requests of the queue, none of them twice; each issued request
/// went to a candidate that is eligible for it, and no candidate got two.
pub proof fn lemma_plan(
    cands: Seq<Candidate>,
    queue: Seq<PendingJustification>,
    history: Seq<Attempt>,
)
    requires
        distinct_candidates(cands),
        queue.no_duplicates(),
    ensures
        forall|k: int|
            0 <= k < plan(cands, queue, history).issued.len() ==> queue.contains(
                (#[trigger] plan(cands, queue, history).issued[k]).request,
            ) && served_by(cands, plan(cands, queue, history).issued[k], history),
        forall|k: int|
            0 <= k < plan(cands, queue, history).unhandled.len() ==> queue.contains(
                #[trigger] plan(cands, queue, history).unhandled[k],
            ),
        forall|k: int|
            0 <= k < plan(cands, queue, history).rest.len() ==> queue.contains(
                #[trigger] plan(cands, queue, history).rest[k],
            ),
        forall|a: int, b: int|
            0 <= a < b < plan(cands, queue, history).issued.len() ==> (#[trigger] plan(
                cands,
                queue,
                history,
            ).issued[a]).who != (#[trigger] plan(cands, queue, history).issued[b]).who && plan(
                cands,
                queue,
                history,
            ).issued[a].request != plan(cands, queue, history).issued[b].request,
        plan(cands, queue, history).unhandled.no_duplicates(),
        plan(cands, queue, history).rest.no_duplicates(),
        forall|a: int, b: int|
            0 <= a < plan(cands, queue, history).issued.len() && 0 <= b < plan(
                cands,
                queue,
                history,
            ).unhandled.len() ==> (#[trigger] plan(cands, queue, history).issued[a]).request
                != #[trigger] plan(cands, queue, history).unhandled[b],
        forall|a: int, b: int|
            0 <= a < plan(cands, queue, history).issued.len() && 0 <= b < plan(
                cands,
                queue,
                history,
            ).rest.len() ==> (#[trigger] plan(cands, queue, history).issued[a]).request
                != #[trigger] plan(cands, queue, history).rest[b],
        forall|a: int, b: int|
            0 <= a < plan(cands, queue, history).unhandled.len() && 0 <= b < plan(
                cands,
                queue,
                history,
            ).rest.len() ==> #[trigger] plan(cands, queue, history).unhandled[a]
                != #[trigger] plan(cands, queue, history).rest[b],
    decreases queue.len(),
{
    let p = plan(cands, queue, history);
    if cands.len() == 0 || queue.len() == 0 {
    } else {
        let head = queue[0];
        let tail = queue.drop_first();
        assert forall|k: int| 0 <= k < tail.len() implies #[trigger] tail[k] == queue[k + 1] by {}
        assert(tail.no_duplicates());
        assert forall|x: PendingJustification| tail.contains(x) implies queue.contains(x) && x
            != head by {
            let k = choose|k: int| 0 <= k < tail.len() && tail[k] == x;
            assert(queue[k + 1] == x);
        }
        match first_eligible(cands, head, history) {
            Some(i) => {
                assert(is_first_eligible(cands, head, history, i));
                let turned = rotate(cands, i);
                assert forall|k: int| 0 <= k < turned.len() implies #[trigger] turned[k]
                    == cands[if k < cands.len() - i - 1 {
                    k + i + 1
                } else {
                    k - (cands.len() - i - 1)
                }] by {}
                assert(distinct_candidates(turned));
                let q = plan(turned, tail, history);
                lemma_plan(turned, tail, history);
                let first = PeerRequest { who: cands[i].who, request: head };
                assert(p.issued == seq![first] + q.issued);
                assert forall|k: int| 0 <= k < p.issued.len() implies #[trigger] p.issued[k] == (
                if k == 0 {
                    first
                } else {
                    q.issued[k - 1]
                }) by {}
                assert forall|k: int| 0 < k < p.issued.len() implies (#[trigger] p.issued[k]).who
                    != first.who && p.issued[k].request != head && served_by(
                    cands,
                    p.issued[k],
                    history,
                ) && queue.contains(p.issued[k].request) by {
                    let e = q.issued[k - 1];
                    assert(served_by(turned, e, history));
                    let c = choose|c: int|
                        0 <= c < turned.len() && (#[trigger] turned[c]).who == e.who && eligible(
                            turned[c],
                            e.request,
                            history,
                        );
                    let c0 = if c < cands.len() - i - 1 {
                        c + i + 1
                    } else {
                        c - (cands.len() - i - 1)
                    };
                    assert(turned[c] == cands[c0]);
                    assert(cands[c0].who != cands[i].who);
                    assert(tail.contains(e.request));
                }
                assert(queue[0] == head);
                assert(served_by(cands, first, history));
                assert forall|k: int| 0 <= k < p.unhandled.len() implies queue.contains(
                    #[trigger] p.unhandled[k],
                ) && p.unhandled[k] != head by {
                    assert(tail.contains(q.unhandled[k]));
                }
                assert forall|k: int| 0 <= k < p.rest.len() implies queue.contains(
                    #[trigger] p.rest[k],
                ) && p.rest[k] != head by {
                    assert(tail.contains(q.rest[k]));
                }
            },
            None => {
                let q = plan(cands, tail, history);
                lemma_plan(cands, tail, history);
                assert(p.unhandled == seq![head] + q.unhandled);
                assert forall|k: int| 0 <= k < p.unhandled.len() implies #[trigger] p.unhandled[k]
                    == (if k == 0 {
                    head
                } else {
                    q.unhandled[k - 1]
                }) by {}
                assert(queue[0] == head);
                assert forall|k: int| 0 < k < p.unhandled.len() implies queue.contains(
                    #[trigger] p.unhandled[k],
                ) && p.unhandled[k] != head by {
                    assert(tail.contains(q.unhandled[k - 1]));
                }
                assert forall|k: int| 0 <= k < p.issued.len() implies queue.contains(
                    (#[trigger] p.issued[k]).request,
                ) && p.issued[k].request != head by {
                    assert(tail.contains(q.issued[k].request));
                }
                assert forall|k: int| 0 <= k < p.rest.len() implies queue.contains(
                    #[trigger] p.rest[k],
                ) && p.rest[k] != head by {
                    assert(tail.contains(q.rest[k]));
                }
            },
        }
    }
}

/// A dispatch keeps the requests and the peers well formed.
pub proof fn lemma_dispatch_wf(j: JustificationsView, peers: Seq<PeerView>, now: u64)
    requires
        j.wf(),
        peers_wf(peers),
    ensures
        j.dispatch(peers, now).justifications.wf(),
        peers_wf(j.dispatch(peers, now).peers),
{
    if j.queue.len() > 0 {
        let history = j.history.filter(recent(now));
        let cands = candidates(peers, j.in_flight);
        let p = plan(cands, j.queue, history);
        let n = j.dispatch(peers, now).justifications;
        lemma_candidates(peers, j.in_flight);
        lemma_plan(cands, j.queue, history);
        assert forall|k: int| 0 <= k < n.queue.len() implies #[trigger] n.queue[k] == (if k
            < p.rest.len() {
            p.rest[k]
        } else {
            p.unhandled[k - p.rest.len()]
        }) by {}
        assert forall|k: int| 0 <= k < n.in_flight.len() implies #[trigger] n.in_flight[k] == (if k
            < j.in_flight.len() {
            j.in_flight[k]
        } else {
            p.issued[k - j.in_flight.len()]
        }) by {}
        assert forall|k: int| 0 <= k < n.queue.len() implies j.queue.contains(
            #[trigger] n.queue[k],
        ) by {}
        assert forall|k: int| 0 <= k < p.issued.len() implies j.queue.contains(
            (#[trigger] p.issued[k]).request,
        ) && (forall|o: int|
            0 <= o < j.in_flight.len() ==> (#[trigger] j.in_flight[o]).who != p.issued[k].who) by {
            let e = p.issued[k];
            assert(served_by(cands, e, history));
            let c = choose|c: int|
                0 <= c < cands.len() && (#[trigger] cands[c]).who == e.who && eligible(
                    cands[c],
                    e.request,
                    history,
                );
            assert(from_peer(peers, j.in_flight, cands[c]));
            assert(request_index(j.in_flight, e.who) is None);
            assert forall|o: int| 0 <= o < j.in_flight.len() implies (#[trigger] j.in_flight[o]).who
                != e.who by {
                if j.in_flight[o].who == e.who {
                    assert(is_first_request(j.in_flight, e.who, o));
                }
            }
        }
        assert forall|x: PendingJustification| j.queue.contains(x) implies n.requested.contains(
            x,
        ) by {
            let k = choose|k: int| 0 <= k < j.queue.len() && j.queue[k] == x;
            assert(j.requested.contains(j.queue[k]));
        }
        assert(n.queue.no_duplicates()) by {
            assert forall|a: int, b: int| 0 <= a < b < n.queue.len() implies n.queue[a]
                != n.queue[b] by {
                if b < p.rest.len() {
                    assert(p.rest[a] != p.rest[b]);
                } else if a >= p.rest.len() {
                    assert(p.unhandled[a - p.rest.len()] != p.unhandled[b - p.rest.len()]);
                } else {
                    assert(p.unhandled[b - p.rest.len()] != p.rest[a]);
                }
            }
        }
        assert forall|a: int, b: int| 0 <= a < b < n.in_flight.len() implies (
        #[trigger] n.in_flight[a]).who != (#[trigger] n.in_flight[b]).who && n.in_flight[a].request
            != n.in_flight[b].request by {
            if b < j.in_flight.len() {
            } else if a >= j.in_flight.len() {
                assert(p.issued[a - j.in_flight.len()].who != p.issued[b - j.in_flight.len()].who);
            } else {
                let e = p.issued[b - j.in_flight.len()];
                assert(j.queue.contains(e.request));
                let k = choose|k: int| 0 <= k < j.queue.len() && j.queue[k] == e.request;
                assert(j.queue[k] != j.in_flight[a].request);
            }
        }
        assert forall|a: int, b: int|
            0 <= a < n.queue.len() && 0 <= b < n.in_flight.len() implies #[trigger] n.queue[a] != (
        #[trigger] n.in_flight[b]).request by {
            if b < j.in_flight.len() {
                assert(j.queue.contains(n.queue[a]));
                let k = choose|k: int| 0 <= k < j.queue.len() && j.queue[k] == n.queue[a];
                assert(j.queue[k] != j.in_flight[b].request);
            } else {
                let e = p.issued[b - j.in_flight.len()];
                if a < p.rest.len() {
                    assert(e.request != p.rest[a]);
                } else {
                    assert(e.request != p.unhandled[a - p.rest.len()]);
                }
            }
        }
        assert forall|i: int| 0 <= i < n.in_flight.len() implies n.requested.contains(
            (#[trigger] n.in_flight[i]).request,
        ) by {
            if i < j.in_flight.len() {
                assert(j.requested.contains(j.in_flight[i].request));
            } else {
                assert(j.queue.contains(p.issued[i - j.in_flight.len()].request));
            }
        }
    }
}

/// Queueing a request keeps the requests well formed.
pub proof fn lemma_queue_request_wf(j: JustificationsView, r: PendingJustification)
    requires
        j.wf(),
    ensures
        j.queue_request(r).wf(),
{
    if !j.requested.contains(r) {
        let n = j.queue_request(r);
        assert forall|i: int| 0 <= i < n.queue.len() implies n.requested.contains(
            #[trigger] n.queue[i],
        ) by {
            if i < j.queue.len() {
                let k = choose|k: int| 0 <= k < j.requested.len() && j.requested[k] == j.queue[i];
                assert(n.requested[k] == n.queue[i]);
            } else {
                assert(n.requested[j.requested.len() as int] == r);
            }
        }
        assert forall|i: int| 0 <= i < n.in_flight.len() implies n.requested.contains(
            (#[trigger] n.in_flight[i]).request,
        ) by {
            let k = choose|k: int| 0 <= k < j.requested.len() && j.requested[k] == j.in_flight[i].request;
            assert(n.requested[k] == n.in_flight[i].request);
        }
        assert forall|a: int, b: int| 0 <= a < b < n.queue.len() implies n.queue[a]
            != n.queue[b] by {
            if b == j.queue.len() {
                assert(j.requested.contains(j.queue[a]));
            }
        }
        assert forall|a: int, b: int|
            0 <= a < n.queue.len() && 0 <= b < n.in_flight.len() implies #[trigger] n.queue[a] != (
        #[trigger] n.in_flight[b]).request by {
            if a == j.queue.len() {
                assert(j.requested.contains(j.in_flight[b].request));
            }
        }
    }
}

/// Taking a request back from a peer keeps the requests well formed.
pub proof fn lemma_peer_disconnected_wf(j: JustificationsView, who: PeerId)
    requires
        j.wf(),
    ensures
        j.peer_disconnected(who).wf(),
        request_index(j.peer_disconnected(who).in_flight, who) is None,
{
    let n = j.peer_disconnected(who);
    match request_index(j.in_flight, who) {
        Some(i) => {
            assert(is_first_request(j.in_flight, who, i));
            lemma_requeued_wf(j, i);
            assert forall|k: int| !is_first_request(n.in_flight, who, k) by {
                if 0 <= k < n.in_flight.len() {
                    if k < i {
                        assert(n.in_flight[k] == j.in_flight[k]);
                    } else {
                        assert(n.in_flight[k] == j.in_flight[k + 1]);
                    }
                }
            }
        },
        None => {},
    }
}

/// Moving the request at place `i` from the issued ones to the front of the
/// queue keeps the requests well formed.
proof fn lemma_requeued_wf(j: JustificationsView, i: int)
    requires
        j.wf(),
        0 <= i < j.in_flight.len(),
    ensures
        (JustificationsView {
            in_flight: j.in_flight.remove(i),
            queue: seq![j.in_flight[i].request] + j.queue,
            ..j
        }).wf(),
{
    let r = j.in_flight[i].request;
    let n = JustificationsView { in_flight: j.in_flight.remove(i), queue: seq![r] + j.queue, ..j };
    assert forall|k: int| 0 <= k < n.in_flight.len() implies #[trigger] n.in_flight[k]
        == j.in_flight[if k < i {
        k
    } else {
        k + 1
    }] by {}
    assert forall|k: int| 0 <= k < n.queue.len() implies #[trigger] n.queue[k] == (if k == 0 {
        r
    } else {
        j.queue[k - 1]
    }) by {}
    assert forall|a: int, b: int| 0 <= a < b < n.queue.len() implies n.queue[a] != n.queue[b] by {
        if a == 0 {
            assert(j.queue[b - 1] != j.in_flight[i].request);
        } else {
            assert(j.queue[a - 1] != j.queue[b - 1]);
        }
    }
    assert forall|k: int| 0 <= k < n.queue.len() implies n.requested.contains(
        #[trigger] n.queue[k],
    ) by {
        if k > 0 {
            assert(j.requested.contains(j.queue[k - 1]));
        }
    }
    assert forall|a: int, b: int|
        0 <= a < n.queue.len() && 0 <= b < n.in_flight.len() implies #[trigger] n.queue[a] != (
    #[trigger] n.in_flight[b]).request by {
        let b0 = if b < i {
            b
        } else {
            b + 1
        };
        if a == 0 {
            assert(j.in_flight[i].request != j.in_flight[b0].request);
        } else {
            assert(j.queue[a - 1] != j.in_flight[b0].request);
        }
    }
}

/// Handling a response keeps the requests well formed.
pub proof fn lemma_on_response_wf(
    j: JustificationsView,
    who: PeerId,
    verdict: Option<bool>,
    now: u64,
)
    requires
        j.wf(),
    ensures
        j.on_response(who, verdict, now).justifications.wf(),
{
    match request_index(j.in_flight, who) {
        Some(i) => {
            assert(is_first_request(j.in_flight, who, i));
            lemma_requeued_wf(j, i);
            let r = j.in_flight[i].request;
            if verdict == Some(true) {
                let n = j.on_response(who, verdict, now).justifications;
                let keep = other_than(r);
                assert forall|k: int| 0 <= k < n.in_flight.len() implies #[trigger] n.in_flight[k]
                    == j.in_flight[if k < i {
                    k
                } else {
                    k + 1
                }] by {}
                assert forall|a: int, b: int| 0 <= a < b < n.requested.len() implies n.requested[a]
                    != n.requested[b] by {
                    lemma_filter_order(j.requested, keep, a, b);
                }
                assert forall|k: int| 0 <= k < n.queue.len() implies n.requested.contains(
                    #[trigger] n.queue[k],
                ) by {
                    assert(j.queue[k] != j.in_flight[i].request);
                    let t = choose|t: int| 0 <= t < j.requested.len() && j.requested[t] == j.queue[k];
                    lemma_filter_keeps(j.requested, keep, t);
                }
                assert forall|k: int| 0 <= k < n.in_flight.len() implies n.requested.contains(
                    (#[trigger] n.in_flight[k]).request,
                ) by {
                    let k0 = if k < i {
                        k
                    } else {
                        k + 1
                    };
                    assert(j.in_flight[k0].request != j.in_flight[i].request);
                    let t = choose|t: int|
                        0 <= t < j.requested.len() && j.requested[t] == j.in_flight[k0].request;
                    lemma_filter_keeps(j.requested, keep, t);
                }
            }
        },
        None => {},
    }
}

/// Dropping the requests at or below a finalized block keeps the requests
/// well formed, and leaves none at or below that block.
pub proof fn lemma_collect_garbage_wf(j: JustificationsView, best_finalized: BlockNumber)
    requires
        j.wf(),
    ensures
        j.collect_garbage(best_finalized).wf(),
        j.collect_garbage(best_finalized).above(best_finalized),
        forall|i: int|
            0 <= i < j.collect_garbage(best_finalized).requested.len() ==> (
            #[trigger] j.collect_garbage(best_finalized).requested[i]).number > best_finalized,
        forall|i: int|
            0 <= i < j.collect_garbage(best_finalized).queue.len() ==> (#[trigger] j.collect_garbage(
                best_finalized,
            ).queue[i]).number > best_finalized,
        forall|i: int|
            0 <= i < j.collect_garbage(best_finalized).in_flight.len() ==> (
            #[trigger] j.collect_garbage(best_finalized).in_flight[i]).request.number
                > best_finalized,
        forall|i: int|
            0 <= i < j.collect_garbage(best_finalized).history.len() ==> (
            #[trigger] j.collect_garbage(best_finalized).history[i]).request.number
                > best_finalized,
{
    let n = j.collect_garbage(best_finalized);
    assert forall|i: int| 0 <= i < n.requested.len() implies (#[trigger] n.requested[i]).number
        > best_finalized by {
        lemma_filter_member(j.requested, above(best_finalized), i);
    }
    assert forall|i: int| 0 <= i < n.queue.len() implies (#[trigger] n.queue[i]).number
        > best_finalized && n.requested.contains(n.queue[i]) by {
        lemma_filter_member(j.queue, above(best_finalized), i);
        let a = choose|a: int| 0 <= a < j.queue.len() && j.queue[a] == n.queue[i];
        assert(j.requested.contains(j.queue[a]));
        let t = choose|t: int| 0 <= t < j.requested.len() && j.requested[t] == j.queue[a];
        lemma_filter_keeps(j.requested, above(best_finalized), t);
    }
    assert forall|i: int| 0 <= i < n.in_flight.len() implies (
    #[trigger] n.in_flight[i]).request.number > best_finalized && n.requested.contains(
        n.in_flight[i].request,
    ) by {
        lemma_filter_member(j.in_flight, issued_above(best_finalized), i);
        let a = choose|a: int| 0 <= a < j.in_flight.len() && j.in_flight[a] == n.in_flight[i];
        assert(j.requested.contains(j.in_flight[a].request));
        let t = choose|t: int| 0 <= t < j.requested.len() && j.requested[t] == j.in_flight[a].request;
        lemma_filter_keeps(j.requested, above(best_finalized), t);
    }
    assert forall|i: int| 0 <= i < n.history.len() implies (
    #[trigger] n.history[i]).request.number > best_finalized by {
        lemma_filter_member(j.history, attempt_above(best_finalized), i);
    }
    assert forall|a: int, b: int| 0 <= a < b < n.requested.len() implies n.requested[a]
        != n.requested[b] by {
        lemma_filter_order(j.requested, above(best_finalized), a, b);
    }
    assert forall|a: int, b: int| 0 <= a < b < n.queue.len() implies n.queue[a] != n.queue[b] by {
        lemma_filter_order(j.queue, above(best_finalized), a, b);
    }
    assert forall|a: int, b: int| 0 <= a < b < n.in_flight.len() implies (
    #[trigger] n.in_flight[a]).who != (#[trigger] n.in_flight[b]).who && n.in_flight[a].request
        != n.in_flight[b].request by {
        lemma_filter_order(j.in_flight, issued_above(best_finalized), a, b);
    }
    assert forall|a: int, b: int|
        0 <= a < n.queue.len() && 0 <= b < n.in_flight.len() implies #[trigger] n.queue[a] != (
    #[trigger] n.in_flight[b]).request by {
        lemma_filter_member(j.queue, above(best_finalized), a);
        lemma_filter_member(j.in_flight, issued_above(best_finalized), b);
    }
}

} // verus!
