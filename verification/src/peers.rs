//! Peer records: what each connected peer advertised and what it is
//! currently asked for.

use crate::primitives::{BlockHash, BlockNumber, PeerId, ANNOUNCE_HISTORY_SIZE};
use std::collections::VecDeque;
use vstd::prelude::*;

verus! {

/// What a peer is currently asked for. A peer has at most one outstanding
/// request, and this state says which.
#[derive(Copy, Clone, Eq, PartialEq, Debug, Structural)]
pub enum PeerSyncState {
    /// Searching for the highest block that the peer and the node share, at
    /// this height.
    AncestorSearch(BlockNumber),
    /// Nothing is asked of the peer.
    Available,
    /// Downloading the blocks that follow the chain from this number.
    DownloadingNew(BlockNumber),
    /// Downloading a block at or below the best queued one.
    DownloadingStale(BlockHash),
    /// Downloading the justification of this block.
    DownloadingJustification(BlockHash),
}

/// The record of one connected peer.
pub struct PeerSync {
    pub who: PeerId,
    /// The highest block known to be on both the node's and the peer's chain.
    pub common_number: BlockNumber,
    pub best_hash: BlockHash,
    pub best_number: BlockNumber,
    pub state: PeerSyncState,
    /// The hashes the peer announced last, oldest first.
    pub recently_announced: VecDeque<BlockHash>,
}

/// A peer record with its announcements as a sequence.
pub struct PeerView {
    pub who: PeerId,
    pub common_number: BlockNumber,
    pub best_hash: BlockHash,
    pub best_number: BlockNumber,
    pub state: PeerSyncState,
    pub recently_announced: Seq<BlockHash>,
}

impl View for PeerSync {
    type V = PeerView;

    open spec fn view(&self) -> PeerView {
        PeerView {
            who: self.who,
            common_number: self.common_number,
            best_hash: self.best_hash,
            best_number: self.best_number,
            state: self.state,
            recently_announced: self.recently_announced@,
        }
    }
}

/// The announcements of a peer after it announced `hash`: the oldest ones
/// make room so that no more than `ANNOUNCE_HISTORY_SIZE` are kept.
pub open spec fn spec_announce(recent: Seq<BlockHash>, hash: BlockHash) -> Seq<BlockHash> {
    let kept = if recent.len() >= ANNOUNCE_HISTORY_SIZE {
        recent.skip(recent.len() - ANNOUNCE_HISTORY_SIZE + 1)
    } else {
        recent
    };
    kept.push(hash)
}

impl PeerView {
    /// A peer that just connected.
    pub open spec fn fresh(
        who: PeerId,
        common_number: BlockNumber,
        best_hash: BlockHash,
        best_number: BlockNumber,
        state: PeerSyncState,
    ) -> PeerView {
        PeerView {
            who,
            common_number,
            best_hash,
            best_number,
            state,
            recently_announced: Seq::empty(),
        }
    }

    pub open spec fn with_state(self, state: PeerSyncState) -> PeerView {
        PeerView { state, ..self }
    }

    pub open spec fn with_common(self, common_number: BlockNumber) -> PeerView {
        PeerView { common_number, ..self }
    }

    /// The record after the peer announced block `hash` at height `number`:
    /// the hash is remembered, and the peer's best block is raised where the
    /// announced one is higher.
    pub open spec fn announce(self, hash: BlockHash, number: BlockNumber) -> PeerView {
        let recently_announced = spec_announce(self.recently_announced, hash);
        if number > self.best_number {
            PeerView { best_number: number, best_hash: hash, recently_announced, ..self }
        } else {
            PeerView { recently_announced, ..self }
        }
    }

    /// The record once a block at height `number` was queued for import: an
    /// ancestor search is abandoned, and the common block is the lower of
    /// that block and the peer's best.
    pub open spec fn queued(self, number: BlockNumber) -> PeerView {
        PeerView {
            state: if self.state is AncestorSearch {
                PeerSyncState::Available
            } else {
                self.state
            },
            common_number: if self.best_number >= number {
                number
            } else {
                self.best_number
            },
            ..self
        }
    }

    /// The announcements are bounded, and an ancestor search stays at or below
    /// the peer's best block.
    pub open spec fn wf(self) -> bool {
        &&& self.recently_announced.len() <= ANNOUNCE_HISTORY_SIZE
        &&& self.state matches PeerSyncState::AncestorSearch(n) ==> n <= self.best_number
    }
}

/// `i` is the first place at which `who` stands in `peers`.
pub open spec fn is_first_peer(peers: Seq<PeerView>, who: PeerId, i: int) -> bool {
    &&& 0 <= i < peers.len()
    &&& peers[i].who == who
    &&& forall|j: int| 0 <= j < i ==> (#[trigger] peers[j]).who != who
}

/// Where `who` stands in `peers`, if it is connected.
pub open spec fn peer_index(peers: Seq<PeerView>, who: PeerId) -> Option<int> {
    if exists|i: int| is_first_peer(peers, who, i) {
        Some(choose|i: int| is_first_peer(peers, who, i))
    } else {
        None
    }
}

/// Every record is well formed and no peer has two.
pub open spec fn peers_wf(peers: Seq<PeerView>) -> bool {
    &&& forall|i: int| 0 <= i < peers.len() ==> (#[trigger] peers[i]).wf()
    &&& forall|i: int, j: int|
        0 <= i < j < peers.len() ==> (#[trigger] peers[i]).who != (#[trigger] peers[j]).who
}

/// The records once `peer` connected: it takes the place of an earlier
/// record of the same peer, or the last place.
pub open spec fn spec_insert(peers: Seq<PeerView>, peer: PeerView) -> Seq<PeerView> {
    match peer_index(peers, peer.who) {
        Some(i) => peers.update(i, peer),
        None => peers.push(peer),
    }
}

/// The records once `who` is gone.
pub open spec fn spec_remove(peers: Seq<PeerView>, who: PeerId) -> Seq<PeerView> {
    match peer_index(peers, who) {
        Some(i) => peers.remove(i),
        None => peers,
    }
}

/// The highest best block among `peers`, if there is a peer.
pub open spec fn spec_best_seen(peers: Seq<PeerView>) -> Option<BlockNumber>
    decreases peers.len(),
{
    if peers.len() == 0 {
        None
    } else {
        let last = peers.last().best_number;
        match spec_best_seen(peers.drop_last()) {
            Some(best) => if best >= last {
                Some(best)
            } else {
                Some(last)
            },
            None => Some(last),
        }
    }
}

/// Some peer announced `hash` recently.
pub open spec fn spec_recently_announced(peers: Seq<PeerView>, hash: BlockHash) -> bool {
    exists|i: int, k: int|
        0 <= i < peers.len() && 0 <= k < peers[i].recently_announced.len()
            && #[trigger] peers[i].recently_announced[k] == hash
}

/// Some peer is downloading the stale block `hash`.
pub open spec fn spec_downloading_stale(peers: Seq<PeerView>, hash: BlockHash) -> bool {
    exists|i: int|
        0 <= i < peers.len() && (#[trigger] peers[i]).state == PeerSyncState::DownloadingStale(
            hash,
        )
}

/// A peer that is found stands where it is found; one that is not stands
/// nowhere.
pub proof fn lemma_peer_index_found(peers: Seq<PeerView>, who: PeerId)
    requires
        peers_wf(peers),
    ensures
        match peer_index(peers, who) {
            Some(i) => 0 <= i < peers.len() && peers[i].who == who,
            None => forall|j: int| 0 <= j < peers.len() ==> (#[trigger] peers[j]).who != who,
        },
{
    if peer_index(peers, who) is None {
        assert forall|j: int| 0 <= j < peers.len() implies (#[trigger] peers[j]).who != who by {
            if peers[j].who == who {
                assert(is_first_peer(peers, who, j));
            }
        }
    }
}

/// The best block seen is the best block of some peer, and no peer has a
/// higher one; none is seen exactly if there is no peer.
pub proof fn lemma_best_seen(peers: Seq<PeerView>)
    ensures
        match spec_best_seen(peers) {
            Some(best) => (exists|i: int|
                0 <= i < peers.len() && (#[trigger] peers[i]).best_number == best) && forall|
                i: int,
            | 0 <= i < peers.len() ==> (#[trigger] peers[i]).best_number <= best,
            None => peers.len() == 0,
        },
    decreases peers.len(),
{
    if peers.len() > 0 {
        let front = peers.drop_last();
        lemma_best_seen(front);
        let best = spec_best_seen(peers)->0;
        assert forall|i: int| 0 <= i < peers.len() implies (#[trigger] peers[i]).best_number
            <= best by {
            if i < front.len() {
                assert(front[i] == peers[i]);
            }
        }
        match spec_best_seen(front) {
            Some(b) => {
                if b >= peers.last().best_number {
                    let i = choose|i: int|
                        0 <= i < front.len() && (#[trigger] front[i]).best_number == b;
                    assert(peers[i] == front[i]);
                } else {
                    assert(peers[peers.len() - 1].best_number == best);
                }
            },
            None => {
                assert(peers[peers.len() - 1].best_number == best);
            },
        }
    }
}

/// The connected peers, in the order in which they connected.
pub struct Peers {
    entries: Vec<PeerSync>,
}

impl View for Peers {
    type V = Seq<PeerView>;

    closed spec fn view(&self) -> Seq<PeerView> {
        Seq::new(self.entries@.len(), |i: int| self.entries@[i]@)
    }
}

impl Peers {
    /// No peer.
    pub fn new() -> (p: Peers)
        ensures
            p@ == Seq::<PeerView>::empty(),
    {
        let p = Peers { entries: Vec::new() };
        assert(p@ =~= Seq::<PeerView>::empty());
        p
    }

    /// The number of connected peers.
    pub fn len(&self) -> (n: usize)
        ensures
            n == self@.len(),
    {
        self.entries.len()
    }

    /// The record at place `i`.
    pub fn get(&self, i: usize) -> (p: &PeerSync)
        requires
            i < self@.len(),
        ensures
            p@ == self@[i as int],
    {
        &self.entries[i]
    }

    /// The place of `who`.
    pub fn position(&self, who: PeerId) -> (r: Option<usize>)
        ensures
            match r {
                Some(i) => peer_index(self@, who) == Some(i as int) && i < self@.len()
                    && self@[i as int].who == who,
                None => peer_index(self@, who) is None,
            },
    {
        let mut i: usize = 0;
        while i < self.entries.len()
            invariant
                i <= self.entries@.len(),
                forall|j: int| 0 <= j < i ==> (#[trigger] self@[j]).who != who,
            decreases self.entries.len() - i,
        {
            if self.entries[i].who == who {
                assert(is_first_peer(self@, who, i as int));
                return Some(i);
            }
            i += 1;
        }
        None
    }

    /// Forgets every peer.
    pub fn clear(&mut self)
        ensures
            final(self)@ == Seq::<PeerView>::empty(),
    {
        self.entries.clear();
        assert(self@ =~= Seq::<PeerView>::empty());
    }

    /// Records a peer that connected.
    pub fn insert(&mut self, peer: PeerSync)
        ensures
            final(self)@ == spec_insert(old(self)@, peer@),
    {
        match self.position(peer.who) {
            Some(i) => {
                self.entries[i] = peer;
                assert(self@ =~= old(self)@.update(i as int, peer@));
            },
            None => {
                self.entries.push(peer);
                assert(self@ =~= old(self)@.push(peer@));
            },
        }
    }

    /// Forgets `who`.
    pub fn remove(&mut self, who: PeerId)
        ensures
            final(self)@ == spec_remove(old(self)@, who),
    {
        match self.position(who) {
            Some(i) => {
                let _ = self.entries.remove(i);
                assert(self@ =~= old(self)@.remove(i as int));
            },
            None => {},
        }
    }

    /// Sets what the peer at place `i` is asked for.
    pub fn set_state(&mut self, i: usize, state: PeerSyncState)
        requires
            i < old(self)@.len(),
        ensures
            final(self)@ == old(self)@.update(i as int, old(self)@[i as int].with_state(state)),
    {
        self.entries[i].state = state;
        assert(self@ =~= old(self)@.update(i as int, old(self)@[i as int].with_state(state)));
    }

    /// Sets the common block of the peer at place `i`.
    pub fn set_common(&mut self, i: usize, common_number: BlockNumber)
        requires
            i < old(self)@.len(),
        ensures
            final(self)@ == old(self)@.update(
                i as int,
                old(self)@[i as int].with_common(common_number),
            ),
    {
        self.entries[i].common_number = common_number;
        assert(self@ =~= old(self)@.update(
            i as int,
            old(self)@[i as int].with_common(common_number),
        ));
    }

    /// Records that the peer at place `i` announced block `hash` at height
    /// `number`.
    pub fn announce(&mut self, i: usize, hash: BlockHash, number: BlockNumber)
        requires
            i < old(self)@.len(),
        ensures
            final(self)@ == old(self)@.update(i as int, old(self)@[i as int].announce(hash, number)),
    {
        let ghost before = self.entries@[i as int].recently_announced@;
        while self.entries[i].recently_announced.len() >= ANNOUNCE_HISTORY_SIZE
            invariant
                i < self.entries@.len(),
                self.entries@.len() == old(self).entries@.len(),
                forall|j: int|
                    0 <= j < self.entries@.len() && j != i ==> self.entries@[j] == old(
                        self,
                    ).entries@[j],
                self.entries@[i as int].who == old(self).entries@[i as int].who,
                self.entries@[i as int].common_number == old(self).entries@[i as int].common_number,
                self.entries@[i as int].best_hash == old(self).entries@[i as int].best_hash,
                self.entries@[i as int].best_number == old(self).entries@[i as int].best_number,
                self.entries@[i as int].state == old(self).entries@[i as int].state,
                self.entries@[i as int].recently_announced@.len() <= before.len(),
                before.len() < ANNOUNCE_HISTORY_SIZE
                    ==> self.entries@[i as int].recently_announced@.len() == before.len(),
                before.len() >= ANNOUNCE_HISTORY_SIZE
                    ==> self.entries@[i as int].recently_announced@.len()
                    >= ANNOUNCE_HISTORY_SIZE - 1,
                self.entries@[i as int].recently_announced@ == before.skip(
                    before.len() - self.entries@[i as int].recently_announced@.len(),
                ),
            decreases self.entries@[i as int].recently_announced@.len(),
        {
            let _ = self.entries[i].recently_announced.pop_front();
        }
        self.entries[i].recently_announced.push_back(hash);
        if number > self.entries[i].best_number {
            self.entries[i].best_number = number;
            self.entries[i].best_hash = hash;
        }
        assert(self.entries@[i as int].recently_announced@ =~= spec_announce(before, hash));
        assert(self@ =~= old(self)@.update(i as int, old(self)@[i as int].announce(hash, number)));
    }

    /// Records that a block at height `number` was queued for import.
    pub fn block_queued(&mut self, number: BlockNumber)
        ensures
            final(self)@ == Seq::new(old(self)@.len(), |i: int| old(self)@[i].queued(number)),
    {
        let mut i: usize = 0;
        while i < self.entries.len()
            invariant
                i <= self.entries@.len(),
                self@.len() == old(self)@.len(),
                forall|j: int| 0 <= j < i ==> #[trigger] self@[j] == old(self)@[j].queued(number),
                forall|j: int| i <= j < self@.len() ==> #[trigger] self@[j] == old(self)@[j],
            decreases self.entries.len() - i,
        {
            let ghost before = self@;
            match self.entries[i].state {
                PeerSyncState::AncestorSearch(_) => {
                    // abort the search
                    self.entries[i].state = PeerSyncState::Available;
                },
                _ => {},
            }
            if self.entries[i].best_number >= number {
                self.entries[i].common_number = number;
            } else {
                self.entries[i].common_number = self.entries[i].best_number;
            }
            assert(self@ =~= before.update(i as int, before[i as int].queued(number)));
            i += 1;
        }
        assert(self@ =~= Seq::new(old(self)@.len(), |i: int| old(self)@[i].queued(number)));
    }

    /// The connected peers.
    pub fn ids(&self) -> (r: Vec<PeerId>)
        ensures
            r@ == Seq::new(self@.len(), |i: int| self@[i].who),
    {
        let mut r: Vec<PeerId> = Vec::new();
        let mut i: usize = 0;
        while i < self.entries.len()
            invariant
                i <= self.entries@.len(),
                r@.len() == i,
                forall|j: int| 0 <= j < i ==> r@[j] == self@[j].who,
            decreases self.entries.len() - i,
        {
            r.push(self.entries[i].who);
            i += 1;
        }
        assert(r@ =~= Seq::new(self@.len(), |i: int| self@[i].who));
        r
    }

    /// The highest best block among the peers.
    pub fn best_seen(&self) -> (r: Option<BlockNumber>)
        ensures
            r == spec_best_seen(self@),
    {
        let mut best: Option<BlockNumber> = None;
        let mut i: usize = 0;
        while i < self.entries.len()
            invariant
                i <= self.entries@.len(),
                best == spec_best_seen(self@.take(i as int)),
            decreases self.entries.len() - i,
        {
            let n = self.entries[i].best_number;
            proof {
                assert(self@.take(i + 1).drop_last() =~= self@.take(i as int));
                assert(self@.take(i + 1).last() == self@[i as int]);
            }
            best = match best {
                Some(b) => if b >= n {
                    Some(b)
                } else {
                    Some(n)
                },
                None => Some(n),
            };
            i += 1;
        }
        assert(self@.take(i as int) =~= self@);
        best
    }

    /// Whether some peer announced `hash` recently.
    pub fn recently_announced(&self, hash: &BlockHash) -> (r: bool)
        ensures
            r == spec_recently_announced(self@, *hash),
    {
        let mut i: usize = 0;
        while i < self.entries.len()
            invariant
                i <= self.entries@.len(),
                forall|a: int, k: int|
                    0 <= a < i && 0 <= k < self@[a].recently_announced.len()
                        ==> #[trigger] self@[a].recently_announced[k] != *hash,
            decreases self.entries.len() - i,
        {
            let mut k: usize = 0;
            while k < self.entries[i].recently_announced.len()
                invariant
                    i < self.entries@.len(),
                    k <= self@[i as int].recently_announced.len(),
                    forall|b: int|
                        0 <= b < k ==> #[trigger] self@[i as int].recently_announced[b] != *hash,
                decreases self@[i as int].recently_announced.len() - k,
            {
                if self.entries[i].recently_announced[k] == *hash {
                    assert(self@[i as int].recently_announced[k as int] == *hash);
                    return true;
                }
                k += 1;
            }
            i += 1;
        }
        false
    }

    /// Whether some peer is downloading the stale block `hash`.
    pub fn downloading_stale(&self, hash: &BlockHash) -> (r: bool)
        ensures
            r == spec_downloading_stale(self@, *hash),
    {
        let mut i: usize = 0;
        while i < self.entries.len()
            invariant
                i <= self.entries@.len(),
                forall|j: int|
                    0 <= j < i ==> (#[trigger] self@[j]).state != PeerSyncState::DownloadingStale(
                        *hash,
                    ),
            decreases self.entries.len() - i,
        {
            if self.entries[i].state == PeerSyncState::DownloadingStale(*hash) {
                assert(self@[i as int].state == PeerSyncState::DownloadingStale(*hash));
                return true;
            }
            i += 1;
        }
        false
    }
}

} // verus!
