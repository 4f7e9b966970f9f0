//! The block collection: block ranges that were downloaded and wait to be
//! handed to the import queue, and the range each peer is currently asked for.
//!
//! Blocks are numbered by position: the block at index `i` of a range that
//! starts at `start` stands for number `start + i`.

use crate::primitives::{
    into_incoming, spec_incoming_all, BlockData, BlockNumber, IncomingBlock, PeerId,
};
use crate::seqs::{lemma_filter_keeps, lemma_filter_member, lemma_filter_order};
use core::ops::Range;
use vstd::prelude::*;

verus! {

/// A range of block numbers that one peer has been asked for.
#[derive(Clone, Copy, Debug, PartialEq, Eq, Structural)]
pub struct Download {
    pub who: PeerId,
    pub start: BlockNumber,
    pub len: u64,
}

impl Download {
    /// One past the last number of the range.
    pub open spec fn end(self) -> int {
        self.start + self.len
    }

    pub open spec fn covers(self, n: int) -> bool {
        self.start <= n < self.end()
    }
}

/// A downloaded range.
pub struct BlockRange {
    start: BlockNumber,
    blocks: Vec<IncomingBlock>,
}

/// A downloaded range, as a sequence of blocks from `start` upwards.
pub struct RangeView {
    pub start: BlockNumber,
    pub blocks: Seq<IncomingBlock>,
}

impl RangeView {
    /// One past the last number of the range.
    pub open spec fn end(self) -> int {
        self.start + self.blocks.len()
    }

    pub open spec fn covers(self, n: int) -> bool {
        self.start <= n < self.end()
    }
}

impl View for BlockRange {
    type V = RangeView;

    closed spec fn view(&self) -> RangeView {
        RangeView { start: self.start, blocks: self.blocks@ }
    }
}

/// Downloaded ranges by ascending start, and the ranges in flight.
pub struct BlockCollection {
    ranges: Vec<BlockRange>,
    downloads: Vec<Download>,
}

/// The collection as plain sequences.
pub struct CollectionView {
    pub ranges: Seq<RangeView>,
    pub downloads: Seq<Download>,
}

/// Keeps the downloads of every peer but `who`.
pub open spec fn not_of(who: PeerId) -> spec_fn(Download) -> bool {
    |d: Download| d.who != who
}

/// One of the ranges holds block `n`.
pub open spec fn covered(ranges: Seq<RangeView>, n: int) -> bool {
    exists|i: int| 0 <= i < ranges.len() && (#[trigger] ranges[i]).covers(n)
}

/// The ranges are not empty and ascend strictly by start.
pub open spec fn ascending(ranges: Seq<RangeView>) -> bool {
    &&& forall|i: int| 0 <= i < ranges.len() ==> (#[trigger] ranges[i]).blocks.len() > 0
    &&& forall|i: int, j: int|
        0 <= i < j < ranges.len() ==> (#[trigger] ranges[i]).start < (#[trigger] ranges[j]).start
}

/// `b` is block `n` as the first range that holds it has it.
pub open spec fn supplies(ranges: Seq<RangeView>, n: int, b: IncomingBlock) -> bool {
    exists|i: int|
        0 <= i < ranges.len() && (#[trigger] ranges[i]).covers(n) && b == ranges[i].blocks[n
            - ranges[i].start] && forall|j: int| 0 <= j < i ==> !(#[trigger] ranges[j]).covers(n)
}

/// Where draining continues after range `r`, having reached `from`.
pub open spec fn drain_step(r: RangeView, from: int) -> int {
    if r.end() > from {
        r.end()
    } else {
        from
    }
}

/// The blocks that draining from `from` hands out: of every range, in
/// ascending order of start, the blocks not handed out yet, up to the first
/// range that starts beyond what was reached.
pub open spec fn drained(ranges: Seq<RangeView>, from: int) -> Seq<IncomingBlock>
    decreases ranges.len(),
{
    if ranges.len() == 0 || ranges[0].start > from {
        Seq::empty()
    } else {
        let r = ranges[0];
        let fresh = if r.end() > from {
            r.blocks.skip(from - r.start)
        } else {
            Seq::empty()
        };
        fresh + drained(ranges.drop_first(), drain_step(r, from))
    }
}

/// The ranges that draining from `from` leaves behind.
pub open spec fn undrained(ranges: Seq<RangeView>, from: int) -> Seq<RangeView>
    decreases ranges.len(),
{
    if ranges.len() == 0 || ranges[0].start > from {
        ranges
    } else {
        undrained(ranges.drop_first(), drain_step(ranges[0], from))
    }
}

/// The first number that draining from `from` does not reach.
pub open spec fn drain_end(ranges: Seq<RangeView>, from: int) -> int
    decreases ranges.len(),
{
    if ranges.len() == 0 || ranges[0].start > from {
        from
    } else {
        drain_end(ranges.drop_first(), drain_step(ranges[0], from))
    }
}

/// How many of the ranges start below `start`, where they ascend.
pub open spec fn lower_bound(ranges: Seq<RangeView>, start: BlockNumber) -> int
    decreases ranges.len(),
{
    if ranges.len() == 0 || ranges[0].start >= start {
        0
    } else {
        1 + lower_bound(ranges.drop_first(), start)
    }
}

impl CollectionView {
    /// Ranges are not empty, end within the numbers and ascend strictly by
    /// start; no peer has two downloads, and a download is not empty.
    pub open spec fn wf(self) -> bool {
        &&& forall|i: int|
            0 <= i < self.ranges.len() ==> (#[trigger] self.ranges[i]).blocks.len() > 0
                && self.ranges[i].end() <= u64::MAX
        &&& forall|i: int, j: int|
            0 <= i < j < self.ranges.len() ==> (#[trigger] self.ranges[i]).start < (
            #[trigger] self.ranges[j]).start
        &&& forall|i: int|
            0 <= i < self.downloads.len() ==> (#[trigger] self.downloads[i]).len > 0
                && self.downloads[i].end() <= u64::MAX
        &&& forall|i: int, j: int|
            0 <= i < j < self.downloads.len() ==> (#[trigger] self.downloads[i]).who != (
            #[trigger] self.downloads[j]).who
    }

    /// Block `n` has been downloaded.
    pub open spec fn has_block(self, n: int) -> bool {
        covered(self.ranges, n)
    }

    /// Block `n` is being downloaded by a peer other than `who`.
    pub open spec fn assigned_elsewhere(self, who: PeerId, n: int) -> bool {
        exists|i: int|
            0 <= i < self.downloads.len() && (#[trigger] self.downloads[i]).who != who
                && self.downloads[i].covers(n)
    }

    /// Block `n` is of no use to `who`: it is here, or another peer is asked for it.
    pub open spec fn taken(self, who: PeerId, n: int) -> bool {
        self.has_block(n) || self.assigned_elsewhere(who, n)
    }

    /// The lowest number in `lo ..= hi` that is not taken.
    pub open spec fn first_free(self, who: PeerId, lo: int, hi: int) -> Option<int>
        decreases hi - lo + 1,
    {
        if lo > hi {
            None
        } else if !self.taken(who, lo) {
            Some(lo)
        } else {
            self.first_free(who, lo + 1, hi)
        }
    }

    /// How many numbers from `from` upwards are free, up to `cap` of them.
    pub open spec fn free_run(self, who: PeerId, from: int, cap: int) -> int
        decreases cap,
    {
        if cap <= 0 || self.taken(who, from) {
            0
        } else {
            1 + self.free_run(who, from + 1, cap - 1)
        }
    }

    /// The highest number that can be asked of a peer whose best block is
    /// `peer_best`: the end of a range must be a number too.
    pub open spec fn ceiling(peer_best: BlockNumber) -> int {
        if peer_best < u64::MAX {
            peer_best as int
        } else {
            u64::MAX - 1
        }
    }

    /// The range to ask `who` for, as start and end: the lowest run of free
    /// numbers above `common` and up to `peer_best`, of at most `count` numbers.
    pub open spec fn needed_range(
        self,
        who: PeerId,
        count: usize,
        peer_best: BlockNumber,
        common: BlockNumber,
    ) -> Option<(BlockNumber, BlockNumber)> {
        let hi = Self::ceiling(peer_best);
        match self.first_free(who, common + 1, hi) {
            None => None,
            Some(s) => {
                let room = hi - s + 1;
                let cap = if count <= room {
                    count as int
                } else {
                    room
                };
                let len = self.free_run(who, s, cap);
                if len > 0 {
                    Some((s as u64, (s + len) as u64))
                } else {
                    None
                }
            },
        }
    }

    /// The range that `who` is asked for.
    pub open spec fn download_of(self, who: PeerId) -> Option<Download> {
        if exists|i: int| 0 <= i < self.downloads.len() && (#[trigger] self.downloads[i]).who == who {
            let i = choose|i: int|
                0 <= i < self.downloads.len() && (#[trigger] self.downloads[i]).who == who;
            Some(self.downloads[i])
        } else {
            None
        }
    }

    /// The collection once `who` is asked for nothing.
    pub open spec fn released(self, who: PeerId) -> CollectionView {
        CollectionView { downloads: self.downloads.filter(not_of(who)), ..self }
    }

    /// The collection once `d.who` is asked for `d` and nothing else.
    pub open spec fn assigned(self, d: Download) -> CollectionView {
        CollectionView { downloads: self.downloads.filter(not_of(d.who)).push(d), ..self }
    }

    /// The collection once the blocks of a response that starts at `start` are
    /// recorded. Blocks whose number would not fit are dropped; a range that
    /// starts at `start` already stays unless the new one is longer.
    pub open spec fn inserted(
        self,
        start: BlockNumber,
        blocks: Seq<BlockData>,
        who: PeerId,
    ) -> CollectionView {
        let room = u64::MAX - start;
        let kept = if blocks.len() > room {
            blocks.take(room)
        } else {
            blocks
        };
        let i = lower_bound(self.ranges, start);
        let entry = RangeView { start, blocks: spec_incoming_all(kept, Some(who)) };
        if kept.len() == 0 {
            self
        } else if i < self.ranges.len() && self.ranges[i].start == start {
            if self.ranges[i].blocks.len() >= kept.len() {
                self
            } else {
                CollectionView { ranges: self.ranges.update(i, entry), ..self }
            }
        } else {
            CollectionView { ranges: self.ranges.insert(i, entry), ..self }
        }
    }

    /// The collection once it has been drained from `from`.
    pub open spec fn after_drain(self, from: BlockNumber) -> CollectionView {
        CollectionView { ranges: undrained(self.ranges, from as int), ..self }
    }

    /// `who` is asked for a range that begins at `start`.
    pub open spec fn downloading(self, who: PeerId, start: BlockNumber) -> bool {
        exists|k: int|
            0 <= k < self.downloads.len() && (#[trigger] self.downloads[k]).who == who
                && self.downloads[k].start == start
    }

    /// `who` is asked for a range.
    pub open spec fn has_download(self, who: PeerId) -> bool {
        exists|k: int| 0 <= k < self.downloads.len() && (#[trigger] self.downloads[k]).who == who
    }

    pub open spec fn empty() -> CollectionView {
        CollectionView { ranges: Seq::empty(), downloads: Seq::empty() }
    }
}

impl View for BlockCollection {
    type V = CollectionView;

    closed spec fn view(&self) -> CollectionView {
        CollectionView {
            ranges: Seq::new(self.ranges@.len(), |i: int| self.ranges@[i]@),
            downloads: self.downloads@,
        }
    }
}

/// Where every number from `lo` up to `n` is taken, the search for a free
/// number may start at `n`.
proof fn lemma_first_free_skip(c: CollectionView, who: PeerId, lo: int, n: int, hi: int)
    requires
        lo <= n,
        forall|m: int| lo <= m < n ==> c.taken(who, m),
    ensures
        c.first_free(who, lo, hi) == c.first_free(who, n, hi),
    decreases n - lo,
{
    if lo < n {
        if lo > hi {
            assert(c.first_free(who, n, hi) is None);
        } else {
            assert(c.taken(who, lo));
            lemma_first_free_skip(c, who, lo + 1, n, hi);
        }
    }
}

/// A run of `len` free numbers that stops at the cap or at a taken number is
/// the free run.
proof fn lemma_free_run(c: CollectionView, who: PeerId, from: int, cap: int, len: int)
    requires
        0 <= len <= cap,
        forall|m: int| from <= m < from + len ==> !c.taken(who, m),
        len == cap || c.taken(who, from + len),
    ensures
        c.free_run(who, from, cap) == len,
    decreases len,
{
    if len > 0 {
        assert(!c.taken(who, from));
        lemma_free_run(c, who, from + 1, cap - 1, len - 1);
    }
}

/// The position at which the ranges stop starting below `start`.
proof fn lemma_lower_bound(ranges: Seq<RangeView>, start: BlockNumber, i: int)
    requires
        0 <= i <= ranges.len(),
        forall|j: int| 0 <= j < i ==> (#[trigger] ranges[j]).start < start,
        i == ranges.len() || ranges[i].start >= start,
    ensures
        lower_bound(ranges, start) == i,
    decreases i,
{
    if i > 0 {
        assert(ranges[0].start < start);
        let rest = ranges.drop_first();
        assert forall|j: int| 0 <= j < i - 1 implies (#[trigger] rest[j]).start < start by {
            assert(rest[j] == ranges[j + 1]);
        }
        lemma_lower_bound(rest, start, i - 1);
    }
}

impl BlockCollection {
    /// An empty collection.
    pub fn new() -> (c: BlockCollection)
        ensures
            c@ == CollectionView::empty(),
            c@.wf(),
    {
        let c = BlockCollection { ranges: Vec::new(), downloads: Vec::new() };
        assert(c@.ranges =~= Seq::empty());
        c
    }

    /// Forgets every range and every download.
    pub fn clear(&mut self)
        ensures
            final(self)@ == CollectionView::empty(),
            final(self)@.wf(),
    {
        self.ranges.clear();
        self.downloads.clear();
        assert(self@.ranges =~= Seq::empty());
    }

    /// The range that `who` is asked for at present.
    pub fn download_of(&self, who: PeerId) -> (r: Option<Download>)
        requires
            self@.wf(),
        ensures
            r == self@.download_of(who),
    {
        let mut i: usize = 0;
        while i < self.downloads.len()
            invariant
                self@.wf(),
                i <= self.downloads@.len(),
                forall|j: int| 0 <= j < i ==> (#[trigger] self.downloads@[j]).who != who,
            decreases self.downloads.len() - i,
        {
            if self.downloads[i].who == who {
                assert(self@.downloads[i as int].who == who);
                return Some(self.downloads[i]);
            }
            i += 1;
        }
        None
    }

    /// Releases the range that `who` is asked for, so that another peer may be
    /// asked for it.
    pub fn clear_peer_download(&mut self, who: PeerId)
        requires
            old(self)@.wf(),
        ensures
            final(self)@ == old(self)@.released(who),
            final(self)@.wf(),
    {
        let ghost orig = self.downloads@;
        let mut kept: Vec<Download> = Vec::new();
        let mut i: usize = 0;
        while i < self.downloads.len()
            invariant
                i <= self.downloads@.len(),
                self.downloads@ == orig,
                self.ranges == old(self).ranges,
                kept@ == orig.take(i as int).filter(not_of(who)),
            decreases self.downloads.len() - i,
        {
            let d = self.downloads[i];
            proof {
                assert(orig.take(i + 1) =~= orig.take(i as int).push(d));
                orig.take(i as int).lemma_filter_push(d, not_of(who));
            }
            if d.who != who {
                kept.push(d);
            }
            i += 1;
        }
        assert(orig.take(i as int) =~= orig);
        self.downloads = kept;
        proof {
            lemma_released_wf(old(self)@, who);
        }
    }

    /// The end of a downloaded range, or of another peer's download, that
    /// holds `n`.
    fn covering_end(&self, who: PeerId, n: BlockNumber) -> (r: Option<BlockNumber>)
        requires
            self@.wf(),
        ensures
            match r {
                Some(e) => n < e && forall|m: int| n <= m < e ==> self@.taken(who, m),
                None => !self@.taken(who, n as int),
            },
    {
        let mut i: usize = 0;
        while i < self.ranges.len()
            invariant
                self@.wf(),
                i <= self.ranges@.len(),
                forall|j: int| 0 <= j < i ==> !(#[trigger] self@.ranges[j]).covers(n as int),
            decreases self.ranges.len() - i,
        {
            let len = self.ranges[i].blocks.len() as u64;
            let start = self.ranges[i].start;
            assert(self@.ranges[i as int].start == start && self@.ranges[i as int].blocks.len()
                == len);
            if start <= n && n - start < len {
                let end = start + len;
                assert forall|m: int| n <= m < end implies self@.taken(who, m) by {
                    assert(self@.ranges[i as int].covers(m));
                }
                return Some(end);
            }
            i += 1;
        }
        let mut k: usize = 0;
        while k < self.downloads.len()
            invariant
                self@.wf(),
                k <= self.downloads@.len(),
                !self@.has_block(n as int),
                forall|j: int|
                    0 <= j < k ==> !((#[trigger] self@.downloads[j]).who != who
                        && self@.downloads[j].covers(n as int)),
            decreases self.downloads.len() - k,
        {
            let d = self.downloads[k];
            assert(self@.downloads[k as int] == d);
            if d.who != who && d.start <= n && n - d.start < d.len {
                let end = d.start + d.len;
                assert forall|m: int| n <= m < end implies self@.taken(who, m) by {
                    assert(self@.downloads[k as int].covers(m));
                }
                return Some(end);
            }
            k += 1;
        }
        None
    }

    /// Cuts the free run `start .. end` back to where the next downloaded
    /// range, or the next download of another peer, begins.
    fn free_until(&self, who: PeerId, start: BlockNumber, end: BlockNumber) -> (r: BlockNumber)
        requires
            self@.wf(),
            !self@.taken(who, start as int),
            start <= end,
        ensures
            start <= r <= end,
            forall|m: int| start <= m < r ==> !self@.taken(who, m),
            r == end || self@.taken(who, r as int),
    {
        let mut e: BlockNumber = end;
        let mut i: usize = 0;
        while i < self.ranges.len()
            invariant
                self@.wf(),
                !self@.taken(who, start as int),
                i <= self.ranges@.len(),
                start <= e <= end,
                e == end || self@.taken(who, e as int),
                forall|j: int|
                    0 <= j < i ==> (#[trigger] self@.ranges[j]).end() <= start
                        || self@.ranges[j].start >= e,
            decreases self.ranges.len() - i,
        {
            let s = self.ranges[i].start;
            assert(self@.ranges[i as int].start == s);
            assert(!self@.ranges[i as int].covers(start as int));
            if s > start && s < e {
                e = s;
                assert(self@.ranges[i as int].covers(e as int));
            }
            i += 1;
        }
        let mut k: usize = 0;
        while k < self.downloads.len()
            invariant
                self@.wf(),
                !self@.taken(who, start as int),
                k <= self.downloads@.len(),
                start <= e <= end,
                e == end || self@.taken(who, e as int),
                forall|j: int|
                    0 <= j < self.ranges@.len() ==> (#[trigger] self@.ranges[j]).end() <= start
                        || self@.ranges[j].start >= e,
                forall|j: int|
                    0 <= j < k ==> (#[trigger] self@.downloads[j]).who == who
                        || self@.downloads[j].end() <= start || self@.downloads[j].start >= e,
            decreases self.downloads.len() - k,
        {
            let d = self.downloads[k];
            assert(self@.downloads[k as int] == d);
            assert(!(d.who != who && d.covers(start as int)));
            if d.who != who && d.start > start && d.start < e {
                e = d.start;
                assert(self@.downloads[k as int].covers(e as int));
            }
            k += 1;
        }
        assert forall|m: int| start <= m < e implies !self@.taken(who, m) by {
            if self@.has_block(m) {
                let j = choose|j: int|
                    0 <= j < self@.ranges.len() && (#[trigger] self@.ranges[j]).covers(m);
                assert(false);
            }
            if self@.assigned_elsewhere(who, m) {
                let j = choose|j: int|
                    0 <= j < self@.downloads.len() && (#[trigger] self@.downloads[j]).who != who
                        && self@.downloads[j].covers(m);
                assert(false);
            }
        }
        e
    }

    /// Picks the range to ask `who` for and marks it as being downloaded by
    /// that peer: the lowest run of numbers above `common` and up to
    /// `peer_best` that are neither here nor asked of another peer, `count`
    /// numbers at most. An earlier download of `who` is released.
    pub fn needed_blocks(
        &mut self,
        who: PeerId,
        count: usize,
        peer_best: BlockNumber,
        common: BlockNumber,
    ) -> (r: Option<Range<BlockNumber>>)
        requires
            old(self)@.wf(),
        ensures
            final(self)@.wf(),
            match old(self)@.needed_range(who, count, peer_best, common) {
                Some((start, end)) => {
                    &&& r matches Some(range)
                    &&& range.start == start
                    &&& range.end == end
                    &&& start < end
                    &&& end - start <= count
                    &&& final(self)@ == old(self)@.assigned(
                        Download { who, start, len: (end - start) as u64 },
                    )
                },
                None => r is None && final(self)@ == old(self)@,
            },
    {
        let hi: BlockNumber = if peer_best < u64::MAX {
            peer_best
        } else {
            u64::MAX - 1
        };
        if common >= hi {
            return None;
        }
        let mut n: BlockNumber = common + 1;
        loop
            invariant
                self@.wf(),
                *self == *old(self),
                hi == CollectionView::ceiling(peer_best),
                common < n <= hi,
                forall|m: int| common + 1 <= m < n ==> self@.taken(who, m),
            ensures
                !self@.taken(who, n as int),
            decreases hi - n,
        {
            match self.covering_end(who, n) {
                Some(e) => {
                    if e > hi {
                        proof {
                            lemma_first_free_skip(self@, who, common + 1, hi + 1, hi as int);
                        }
                        return None;
                    }
                    n = e;
                },
                None => {
                    break ;
                },
            }
        }
        proof {
            lemma_first_free_skip(self@, who, common + 1, n as int, hi as int);
        }
        let room: u64 = hi - n + 1;
        let cap: u64 = if count as u64 <= room {
            count as u64
        } else {
            room
        };
        if cap == 0 {
            return None;
        }
        let end = self.free_until(who, n, n + cap);
        proof {
            lemma_free_run(self@, who, n as int, cap as int, end - n);
            lemma_released_wf(self@, who);
        }
        self.clear_peer_download(who);
        self.downloads.push(Download { who, start: n, len: end - n });
        Some(n..end)
    }

    /// Records the blocks of a response from `who` that starts at `start`.
    pub fn insert(&mut self, start: BlockNumber, blocks: Vec<BlockData>, who: PeerId)
        requires
            old(self)@.wf(),
        ensures
            final(self)@ == old(self)@.inserted(start, blocks@, who),
            final(self)@.wf(),
    {
        let mut blocks = blocks;
        let ghost given = blocks@;
        let room: u64 = u64::MAX - start;
        if blocks.len() as u64 > room {
            blocks.truncate(room as usize);
        }
        let ghost kept = blocks@;
        assert(kept == if given.len() > room {
            given.take(room as int)
        } else {
            given
        });
        if blocks.len() == 0 {
            return ;
        }
        let count = blocks.len();
        let mut i: usize = 0;
        while i < self.ranges.len() && self.ranges[i].start < start
            invariant
                i <= self.ranges@.len(),
                *self == *old(self),
                forall|j: int| 0 <= j < i ==> (#[trigger] self@.ranges[j]).start < start,
            decreases self.ranges.len() - i,
        {
            i += 1;
        }
        proof {
            lemma_lower_bound(self@.ranges, start, i as int);
        }
        let entry = BlockRange { start, blocks: into_incoming(blocks, Some(who)) };
        assert(entry@.blocks =~= spec_incoming_all(kept, Some(who)));
        if i < self.ranges.len() && self.ranges[i].start == start {
            if self.ranges[i].blocks.len() < count {
                self.ranges[i] = entry;
                assert(self@.ranges =~= old(self)@.ranges.update(i as int, entry@));
            }
        } else {
            self.ranges.insert(i, entry);
            assert(self@.ranges =~= old(self)@.ranges.insert(i as int, entry@));
        }
    }

    /// Hands out the longest run of downloaded blocks that starts at `from`
    /// and forgets every range it passed.
    pub fn drain(&mut self, from: BlockNumber) -> (out: Vec<IncomingBlock>)
        requires
            old(self)@.wf(),
        ensures
            out@ == drained(old(self)@.ranges, from as int),
            final(self)@ == old(self)@.after_drain(from),
            final(self)@.wf(),
    {
        let mut out: Vec<IncomingBlock> = Vec::new();
        let mut next: BlockNumber = from;
        while self.ranges.len() > 0 && self.ranges[0].start <= next
            invariant
                self@.wf(),
                self.downloads == old(self).downloads,
                out@ + drained(self@.ranges, next as int) == drained(
                    old(self)@.ranges,
                    from as int,
                ),
                undrained(self@.ranges, next as int) == undrained(old(self)@.ranges, from as int),
            decreases self.ranges.len(),
        {
            let ghost before = self@.ranges;
            let ghost done = out@;
            let ghost v0 = self@;
            let r = self.ranges.remove(0);
            assert(self@.downloads == v0.downloads);
            assert(self@.ranges =~= before.drop_first());
            assert(r@ == before[0]);
            assert forall|i: int| 0 <= i < self@.ranges.len() implies #[trigger] self@.ranges[i]
                == before[i + 1] by {}
            assert(self@.wf());
            let end: BlockNumber = r.start + r.blocks.len() as u64;
            if end > next {
                let skip = (next - r.start) as usize;
                let mut blocks = r.blocks;
                let mut fresh = blocks.split_off(skip);
                let ghost added = fresh@;
                assert(added =~= before[0].blocks.skip(next - before[0].start));
                out.append(&mut fresh);
                assert(out@ + drained(self@.ranges, end as int) =~= done + (added + drained(
                    self@.ranges,
                    end as int,
                )));
                next = end;
            } else {
                assert(Seq::<IncomingBlock>::empty() + drained(self@.ranges, next as int)
                    =~= drained(self@.ranges, next as int));
            }
        }
        assert(out@ + Seq::<IncomingBlock>::empty() =~= out@);
        out
    }
}

/// Releasing a peer's download keeps the collection well formed.
pub proof fn lemma_released_wf(c: CollectionView, who: PeerId)
    requires
        c.wf(),
    ensures
        c.released(who).wf(),
        forall|i: int|
            0 <= i < c.released(who).downloads.len() ==> (#[trigger] c.released(
                who,
            ).downloads[i]).who != who,
{
    let kept = c.downloads.filter(not_of(who));
    assert forall|i: int| 0 <= i < kept.len() implies (#[trigger] kept[i]).len > 0
        && kept[i].end() <= u64::MAX && kept[i].who != who by {
        lemma_filter_member(c.downloads, not_of(who), i);
    }
    assert forall|i: int, j: int| 0 <= i < j < kept.len() implies (#[trigger] kept[i]).who != (
    #[trigger] kept[j]).who by {
        lemma_filter_order(c.downloads, not_of(who), i, j);
    }
}

/// Releasing a peer's download leaves that peer without one and every other
/// peer with the one it had.
pub proof fn lemma_released_downloads(c: CollectionView, who: PeerId)
    requires
        c.wf(),
    ensures
        !c.released(who).has_download(who),
        forall|w: PeerId, s: BlockNumber|
            w != who ==> (#[trigger] c.released(who).downloading(w, s) <==> c.downloading(w, s)),
        forall|w: PeerId|
            w != who ==> (#[trigger] c.released(who).has_download(w) <==> c.has_download(w)),
{
    let kept = c.released(who).downloads;
    lemma_released_wf(c, who);
    assert forall|w: PeerId, s: BlockNumber| w != who implies (#[trigger] c.released(
        who,
    ).downloading(w, s) <==> c.downloading(w, s)) by {
        if c.released(who).downloading(w, s) {
            let k = choose|k: int|
                0 <= k < kept.len() && (#[trigger] kept[k]).who == w && kept[k].start == s;
            lemma_filter_member(c.downloads, not_of(who), k);
            let a = choose|a: int| 0 <= a < c.downloads.len() && c.downloads[a] == kept[k];
            assert(c.downloads[a].who == w);
        }
        if c.downloading(w, s) {
            let a = choose|a: int|
                0 <= a < c.downloads.len() && (#[trigger] c.downloads[a]).who == w
                    && c.downloads[a].start == s;
            lemma_filter_keeps(c.downloads, not_of(who), a);
            let k = choose|k: int| 0 <= k < kept.len() && kept[k] == c.downloads[a];
            assert(kept[k].who == w);
        }
    }
    assert forall|w: PeerId| w != who implies (#[trigger] c.released(who).has_download(w)
        <==> c.has_download(w)) by {
        if c.released(who).has_download(w) {
            let k = choose|k: int| 0 <= k < kept.len() && (#[trigger] kept[k]).who == w;
            lemma_filter_member(c.downloads, not_of(who), k);
            let a = choose|a: int| 0 <= a < c.downloads.len() && c.downloads[a] == kept[k];
            assert(c.downloads[a].who == w);
        }
        if c.has_download(w) {
            let a = choose|a: int| 0 <= a < c.downloads.len() && (#[trigger] c.downloads[a]).who == w;
            lemma_filter_keeps(c.downloads, not_of(who), a);
            let k = choose|k: int| 0 <= k < kept.len() && kept[k] == c.downloads[a];
            assert(kept[k].who == w);
        }
    }
}

/// Asking a peer for a range gives that peer this download and leaves every
/// other peer with the one it had.
pub proof fn lemma_assigned(c: CollectionView, d: Download)
    requires
        c.wf(),
        d.len > 0,
        d.end() <= u64::MAX,
    ensures
        c.assigned(d).wf(),
        c.assigned(d).downloading(d.who, d.start),
        forall|s: BlockNumber| #[trigger] c.assigned(d).downloading(d.who, s) ==> s == d.start,
        forall|w: PeerId, s: BlockNumber|
            w != d.who ==> (#[trigger] c.assigned(d).downloading(w, s) <==> c.downloading(w, s)),
        forall|w: PeerId|
            w != d.who ==> (#[trigger] c.assigned(d).has_download(w) <==> c.has_download(w)),
{
    let kept = c.released(d.who).downloads;
    let all = c.assigned(d).downloads;
    lemma_released_wf(c, d.who);
    lemma_released_downloads(c, d.who);
    assert(all == kept.push(d));
    assert(all[kept.len() as int] == d);
    assert forall|k: int| 0 <= k < kept.len() implies #[trigger] all[k] == kept[k] by {}
    assert forall|s: BlockNumber| #[trigger] c.assigned(d).downloading(d.who, s) implies s
        == d.start by {
        let k = choose|k: int|
            0 <= k < all.len() && (#[trigger] all[k]).who == d.who && all[k].start == s;
        if k < kept.len() {
            assert(kept[k].who != d.who);
        }
    }
    assert forall|w: PeerId, s: BlockNumber| w != d.who implies (#[trigger] c.assigned(
        d,
    ).downloading(w, s) <==> c.downloading(w, s)) by {
        if c.assigned(d).downloading(w, s) {
            let k = choose|k: int|
                0 <= k < all.len() && (#[trigger] all[k]).who == w && all[k].start == s;
            assert(kept[k].who == w);
            assert(c.released(d.who).downloading(w, s));
        }
        if c.downloading(w, s) {
            assert(c.released(d.who).downloading(w, s));
            let k = choose|k: int|
                0 <= k < kept.len() && (#[trigger] kept[k]).who == w && kept[k].start == s;
            assert(all[k].who == w);
        }
    }
    assert forall|w: PeerId| w != d.who implies (#[trigger] c.assigned(d).has_download(w)
        <==> c.has_download(w)) by {
        if c.assigned(d).has_download(w) {
            let k = choose|k: int| 0 <= k < all.len() && (#[trigger] all[k]).who == w;
            assert(kept[k].who == w);
            assert(c.released(d.who).has_download(w));
        }
        if c.has_download(w) {
            assert(c.released(d.who).has_download(w));
            let k = choose|k: int| 0 <= k < kept.len() && (#[trigger] kept[k]).who == w;
            assert(all[k].who == w);
        }
    }
}

/// Draining hands out a gap-free run of blocks and no block twice: from
/// `from` up to the first number that no range holds, one block for each
/// number, taken from the first range that holds it. The ranges left behind
/// start beyond the end of the run.
pub proof fn lemma_drain(ranges: Seq<RangeView>, from: int)
    requires
        ascending(ranges),
    ensures
        from <= drain_end(ranges, from),
        drained(ranges, from).len() == drain_end(ranges, from) - from,
        !covered(ranges, drain_end(ranges, from)),
        forall|n: int|
            from <= n < drain_end(ranges, from) ==> #[trigger] supplies(
                ranges,
                n,
                drained(ranges, from)[n - from],
            ),
        forall|k: int|
            0 <= k < undrained(ranges, from).len() ==> (#[trigger] undrained(
                ranges,
                from,
            )[k]).start > drain_end(ranges, from),
        forall|k: int|
            0 <= k < undrained(ranges, from).len() ==> (#[trigger] undrained(ranges, from)[k])
                == ranges[ranges.len() - undrained(ranges, from).len() + k],
        undrained(ranges, from).len() <= ranges.len(),
    decreases ranges.len(),
{
    if ranges.len() == 0 {
    } else if ranges[0].start > from {
        assert forall|i: int| 0 <= i < ranges.len() implies !(#[trigger] ranges[i]).covers(
            from,
        ) by {
            if i > 0 {
                assert(ranges[0].start < ranges[i].start);
            }
        }
    } else {
        let r = ranges[0];
        let rest = ranges.drop_first();
        let next = drain_step(r, from);
        let end = drain_end(ranges, from);
        assert forall|i: int| 0 <= i < rest.len() implies #[trigger] rest[i] == ranges[i + 1] by {}
        assert(ascending(rest));
        lemma_drain(rest, next);
        let fresh = if r.end() > from {
            r.blocks.skip(from - r.start)
        } else {
            Seq::empty()
        };
        assert(drained(ranges, from) == fresh + drained(rest, next));
        assert(!covered(ranges, end)) by {
            assert forall|i: int| 0 <= i < ranges.len() implies !(#[trigger] ranges[i]).covers(
                end,
            ) by {
                if i > 0 {
                    assert(rest[i - 1] == ranges[i]);
                    assert(!rest[i - 1].covers(end));
                }
            }
        }
        assert forall|n: int| from <= n < end implies #[trigger] supplies(
            ranges,
            n,
            drained(ranges, from)[n - from],
        ) by {
            if n < next {
                assert(ranges[0].covers(n));
                assert(drained(ranges, from)[n - from] == r.blocks[n - r.start]);
            } else {
                let b = drained(rest, next)[n - next];
                assert(supplies(rest, n, b));
                assert(drained(ranges, from)[n - from] == b);
                let i = choose|i: int|
                    0 <= i < rest.len() && (#[trigger] rest[i]).covers(n) && b == rest[i].blocks[n
                        - rest[i].start] && forall|j: int|
                        0 <= j < i ==> !(#[trigger] rest[j]).covers(n);
                assert(ranges[i + 1].covers(n));
                assert forall|j: int| 0 <= j < i + 1 implies !(#[trigger] ranges[j]).covers(n) by {
                    if j > 0 {
                        assert(rest[j - 1] == ranges[j]);
                    }
                }
            }
        }
        assert forall|k: int| 0 <= k < undrained(ranges, from).len() implies (#[trigger] undrained(
            ranges,
            from,
        )[k]) == ranges[ranges.len() - undrained(ranges, from).len() + k] by {
            assert(undrained(rest, next)[k] == rest[rest.len() - undrained(rest, next).len() + k]);
        }
    }
}

/// The first free number is free, lies within the bounds, and every number
/// before it is taken; there is none only where every number is taken.
pub proof fn lemma_first_free(c: CollectionView, who: PeerId, lo: int, hi: int)
    ensures
        match c.first_free(who, lo, hi) {
            Some(s) => lo <= s <= hi && !c.taken(who, s) && forall|m: int|
                lo <= m < s ==> c.taken(who, m),
            None => forall|m: int| lo <= m <= hi ==> c.taken(who, m),
        },
    decreases hi - lo + 1,
{
    if lo <= hi && c.taken(who, lo) {
        lemma_first_free(c, who, lo + 1, hi);
    }
}

/// A free run is within its cap, holds free numbers only, and stops at the
/// cap or at a taken number.
pub proof fn lemma_free_run_bounds(c: CollectionView, who: PeerId, from: int, cap: int)
    requires
        0 <= cap,
    ensures
        0 <= c.free_run(who, from, cap) <= cap,
        forall|m: int| from <= m < from + c.free_run(who, from, cap) ==> !c.taken(who, m),
        c.free_run(who, from, cap) == cap || c.taken(who, from + c.free_run(who, from, cap)),
    decreases cap,
{
    if cap > 0 && !c.taken(who, from) {
        lemma_free_run_bounds(c, who, from + 1, cap - 1);
    }
}

/// The range to ask a peer for is the lowest run of free numbers above the
/// common block and up to the peer's best: every number between the common
/// block and its start is taken, every number in it is free, and it ends at
/// `count` numbers, at the peer's best block or before a taken number.
pub proof fn lemma_needed_range(
    c: CollectionView,
    who: PeerId,
    count: usize,
    peer_best: BlockNumber,
    common: BlockNumber,
)
    ensures
        match c.needed_range(who, count, peer_best, common) {
            Some((start, end)) => {
                &&& common < start < end
                &&& end - 1 <= CollectionView::ceiling(peer_best)
                &&& end - start <= count
                &&& forall|m: int| common < m < start ==> c.taken(who, m)
                &&& forall|m: int| start <= m < end ==> !c.taken(who, m)
                &&& (end - start == count || end - 1 == CollectionView::ceiling(peer_best)
                    || c.taken(who, end as int))
            },
            None => count == 0 || forall|m: int|
                common < m <= CollectionView::ceiling(peer_best) ==> c.taken(who, m),
        },
{
    let hi = CollectionView::ceiling(peer_best);
    lemma_first_free(c, who, common + 1, hi);
    match c.first_free(who, common + 1, hi) {
        Some(s) => {
            let room = hi - s + 1;
            let cap = if count <= room {
                count as int
            } else {
                room
            };
            lemma_free_run_bounds(c, who, s, cap);
        },
        None => {},
    }
}

} // verus!
