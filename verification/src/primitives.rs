//! Plain values the synchronisation engine works on: block identity, the
//! request/response shapes of the block protocol, what the local chain and the
//! import queue report, and the effects the engine asks its driver to perform.

use vstd::prelude::*;

verus! {

/// Identifies a connected peer.
pub type PeerId = usize;

/// Height of a block; the genesis block has number 0.
pub type BlockNumber = u64;

/// Maximum blocks to request in a single packet.
pub const MAX_BLOCKS_TO_REQUEST: usize = 128;

/// Maximum blocks to store in the import queue.
pub const MAX_IMPORTING_BLOCKS: usize = 2048;

/// Number of blocks in the queue that prevents ancestry search.
pub const MAJOR_SYNC_BLOCKS: usize = 5;

/// Time to wait before trying to get a justification from the same peer, in
/// milliseconds.
pub const JUSTIFICATION_RETRY_WAIT: u64 = 10_000;

/// Number of recently announced blocks to track for each peer.
pub const ANNOUNCE_HISTORY_SIZE: usize = 64;

/// Max number of blocks to download for unknown forks.
pub const MAX_UNKNOWN_FORK_DOWNLOAD_LEN: u32 = 32;

/// A 256-bit block hash, as four words. The engine only ever compares hashes.
#[derive(Clone, Copy, Debug, PartialEq, Eq, Structural, Hash)]
pub struct BlockHash(pub u64, pub u64, pub u64, pub u64);

/// The part of a block header the engine reads.
#[derive(Clone, Copy, Debug, PartialEq, Eq, Structural)]
pub struct Header {
    pub number: BlockNumber,
    pub parent_hash: BlockHash,
}

/// A block as a peer sends it.
#[derive(Clone, Debug, PartialEq, Eq)]
pub struct BlockData {
    pub hash: BlockHash,
    pub header: Option<Header>,
    pub body: Option<Vec<Vec<u8>>>,
    pub justification: Option<Vec<u8>>,
}

/// A block as it is handed to the import queue, with the peer it came from.
#[derive(Clone, Debug, PartialEq, Eq)]
pub struct IncomingBlock {
    pub hash: BlockHash,
    pub header: Option<Header>,
    pub body: Option<Vec<Vec<u8>>>,
    pub justification: Option<Vec<u8>>,
    pub origin: Option<PeerId>,
}

/// Which parts of a block a request asks for.
#[derive(Clone, Copy, Debug, PartialEq, Eq, Structural)]
pub struct BlockAttributes {
    pub header: bool,
    pub body: bool,
    pub justification: bool,
}

/// Order in which a peer lists the blocks of a response.
#[derive(Clone, Copy, Debug, PartialEq, Eq, Structural)]
pub enum Direction {
    Ascending,
    Descending,
}

/// Where a requested run of blocks starts.
#[derive(Clone, Copy, Debug, PartialEq, Eq, Structural)]
pub enum FromBlock {
    Hash(BlockHash),
    Number(BlockNumber),
}

/// A request for a run of blocks.
#[derive(Clone, Copy, Debug, PartialEq, Eq, Structural)]
pub struct BlockRequest {
    pub id: u64,
    pub fields: BlockAttributes,
    pub from: FromBlock,
    pub to: Option<BlockHash>,
    pub direction: Direction,
    pub max: Option<u32>,
}

/// A peer's answer to a `BlockRequest`.
#[derive(Clone, Debug, PartialEq, Eq)]
pub struct BlockResponse {
    pub id: u64,
    pub blocks: Vec<BlockData>,
}

/// What the local node knows of a block.
#[derive(Clone, Copy, Debug, PartialEq, Eq, Structural)]
pub enum BlockStatus {
    InChain,
    Queued,
    KnownBad,
    Unknown,
}

/// How a batch of blocks reached the node.
#[derive(Clone, Copy, Debug, PartialEq, Eq, Structural)]
pub enum BlockOrigin {
    NetworkInitialSync,
    NetworkBroadcast,
}

/// The local chain failed to answer a query.
#[derive(Clone, Copy, Debug, PartialEq, Eq, Structural)]
pub struct ClientError;

/// Roles the local node plays in the network.
#[derive(Clone, Copy, Debug, PartialEq, Eq, Structural)]
pub struct Roles {
    pub full: bool,
    pub light: bool,
    pub authority: bool,
}

/// Tip and genesis of the committed chain.
#[derive(Clone, Copy, Debug, PartialEq, Eq, Structural)]
pub struct ChainInfo {
    pub genesis_hash: BlockHash,
    pub best_hash: BlockHash,
    pub best_number: BlockNumber,
}

/// Snapshot of the local chain: the committed tip and, where blocks are queued
/// ahead of it, the best queued block.
#[derive(Clone, Copy, Debug, PartialEq, Eq)]
pub struct ClientInfo {
    pub chain: ChainInfo,
    pub best_queued_hash: Option<BlockHash>,
    pub best_queued_number: Option<BlockNumber>,
}

/// The tip a peer advertised.
#[derive(Clone, Copy, Debug, PartialEq, Eq, Structural)]
pub struct PeerInfo {
    pub best_hash: BlockHash,
    pub best_number: BlockNumber,
}

/// How heavily a peer is penalised. `Bad` disconnects the peer as well.
#[derive(Clone, Copy, Debug, PartialEq, Eq, Structural)]
pub enum Severity {
    Bad,
    Useless,
}

/// Why a peer is reported.
#[derive(Clone, Copy, Debug, PartialEq, Eq, Structural)]
pub enum Fault {
    /// The local chain could not be read while the peer was being classified.
    StatusReadError,
    /// The peer's best block is known to be bad.
    KnownBadBest,
    /// The peer's best block is unknown and claims to be the genesis block.
    UnknownGenesis,
    /// The ancestor search reached the genesis block without agreement.
    GenesisMismatch,
    /// The local chain could not be read during the ancestor search.
    AncestryReadError,
    /// The peer answered an ancestry request with no block.
    EmptyAncestry,
    /// The peer answered a justification request with another block.
    JustificationMismatch,
    /// The peer answered a justification request with no block.
    EmptyJustification,
    /// The peer answered a justification request with the block, but
    /// without its justification.
    MissingJustification,
    /// The import queue rejected the justification the peer provided.
    InvalidJustification,
}

impl Fault {
    /// Misbehaviour is `Bad`; a failure the peer is not to blame for, an
    /// empty answer, or an answer without the justification, is `Useless`.
    pub open spec fn spec_severity(self) -> Severity {
        match self {
            Fault::StatusReadError
            | Fault::AncestryReadError
            | Fault::EmptyJustification
            | Fault::MissingJustification => Severity::Useless,
            _ => Severity::Bad,
        }
    }

    /// The severity a peer is reported with for this fault.
    #[verifier::when_used_as_spec(spec_severity)]
    pub fn severity(self) -> (s: Severity)
        ensures
            s == self.spec_severity(),
    {
        match self {
            Fault::StatusReadError => Severity::Useless,
            Fault::AncestryReadError => Severity::Useless,
            Fault::EmptyJustification => Severity::Useless,
            Fault::MissingJustification => Severity::Useless,
            _ => Severity::Bad,
        }
    }
}

/// An effect the engine asks its driver to perform, in the order given.
#[derive(Clone, Debug, PartialEq, Eq)]
pub enum Action {
    /// Send a block request to a peer.
    Send { to: PeerId, request: BlockRequest },
    /// Report a peer.
    Report { who: PeerId, fault: Fault },
    /// Hand a justification to the import queue; its verdict goes back to the
    /// engine through `ChainSync::on_justification_import`.
    ImportJustification { who: PeerId, hash: BlockHash, number: BlockNumber, justification: Vec<u8> },
}

/// Header and justification: what an ancestry request and every node asks for.
pub open spec fn spec_basic_attributes() -> BlockAttributes {
    BlockAttributes { header: true, body: false, justification: true }
}

/// Justification only.
pub open spec fn spec_justification_only() -> BlockAttributes {
    BlockAttributes { header: false, body: false, justification: true }
}

/// The request that asks a peer for the justification of block `hash`.
pub open spec fn spec_justification_request(hash: BlockHash) -> BlockRequest {
    BlockRequest {
        id: 0,
        fields: spec_justification_only(),
        from: FromBlock::Hash(hash),
        to: None,
        direction: Direction::Ascending,
        max: Some(1u32),
    }
}

/// The request that asks a peer which block it has at height `number`.
pub open spec fn spec_ancestry_request(number: BlockNumber) -> BlockRequest {
    BlockRequest {
        id: 0,
        fields: spec_basic_attributes(),
        from: FromBlock::Number(number),
        to: None,
        direction: Direction::Ascending,
        max: Some(1u32),
    }
}

#[verifier::when_used_as_spec(spec_justification_request)]
pub fn justification_request(hash: BlockHash) -> (r: BlockRequest)
    ensures
        r == spec_justification_request(hash),
{
    BlockRequest {
        id: 0,
        fields: BlockAttributes { header: false, body: false, justification: true },
        from: FromBlock::Hash(hash),
        to: None,
        direction: Direction::Ascending,
        max: Some(1u32),
    }
}

#[verifier::when_used_as_spec(spec_ancestry_request)]
pub fn ancestry_request(number: BlockNumber) -> (r: BlockRequest)
    ensures
        r == spec_ancestry_request(number),
{
    BlockRequest {
        id: 0,
        fields: BlockAttributes { header: true, body: false, justification: true },
        from: FromBlock::Number(number),
        to: None,
        direction: Direction::Ascending,
        max: Some(1u32),
    }
}

/// A block of a response as the import queue takes it, marked with its source.
pub open spec fn spec_incoming(block: BlockData, origin: Option<PeerId>) -> IncomingBlock {
    IncomingBlock {
        hash: block.hash,
        header: block.header,
        body: block.body,
        justification: block.justification,
        origin,
    }
}

/// The blocks of a response, each marked with its source.
pub open spec fn spec_incoming_all(blocks: Seq<BlockData>, origin: Option<PeerId>) -> Seq<
    IncomingBlock,
> {
    Seq::new(blocks.len(), |i: int| spec_incoming(blocks[i], origin))
}

/// The elements of `v` in opposite order.
pub fn reversed<T>(v: Vec<T>) -> (out: Vec<T>)
    ensures
        out@ == v@.reverse(),
{
    let mut v = v;
    let ghost orig = v@;
    let mut out: Vec<T> = Vec::new();
    while v.len() > 0
        invariant
            v@ == orig.take(v@.len() as int),
            out@.len() + v@.len() == orig.len(),
            forall|i: int| 0 <= i < out@.len() ==> out@[i] == orig[orig.len() - 1 - i],
        decreases v.len(),
    {
        let x = v.pop().unwrap();
        out.push(x);
    }
    assert(out@ =~= orig.reverse());
    out
}

/// Marks every block of a response with the peer it came from.
pub fn into_incoming(blocks: Vec<BlockData>, origin: Option<PeerId>) -> (out: Vec<IncomingBlock>)
    ensures
        out@ == spec_incoming_all(blocks@, origin),
{
    let ghost orig = blocks@;
    let mut rest = reversed(blocks);
    let mut out: Vec<IncomingBlock> = Vec::new();
    while rest.len() > 0
        invariant
            rest@ == orig.reverse().take(rest@.len() as int),
            out@.len() + rest@.len() == orig.len(),
            forall|i: int| 0 <= i < out@.len() ==> out@[i] == spec_incoming(orig[i], origin),
        decreases rest.len(),
    {
        let b = rest.pop().unwrap();
        out.push(
            IncomingBlock {
                hash: b.hash,
                header: b.header,
                body: b.body,
                justification: b.justification,
                origin,
            },
        );
    }
    assert(out@ =~= spec_incoming_all(orig, origin));
    out
}

} // verus!
