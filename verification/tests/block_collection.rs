use chain_sync::blocks::BlockCollection;
use chain_sync::primitives::{
    into_incoming, reversed, BlockData, BlockHash, Header, IncomingBlock,
};

fn hash(n: u64) -> BlockHash {
    BlockHash(0, 0, 0, n)
}

fn block(n: u64) -> BlockData {
    BlockData {
        hash: hash(n),
        header: Some(Header { number: n, parent_hash: hash(n.wrapping_sub(1)) }),
        body: None,
        justification: None,
    }
}

fn blocks(from: u64, to: u64) -> Vec<BlockData> {
    (from..to).map(block).collect()
}

fn incoming(n: u64, who: usize) -> IncomingBlock {
    IncomingBlock {
        hash: hash(n),
        header: Some(Header { number: n, parent_hash: hash(n.wrapping_sub(1)) }),
        body: None,
        justification: None,
        origin: Some(who),
    }
}

fn numbers(batch: &[IncomingBlock]) -> Vec<u64> {
    batch.iter().map(|b| b.header.unwrap().number).collect()
}

#[test]
fn empty_collection_needs_the_first_blocks() {
    let mut c = BlockCollection::new();
    assert_eq!(c.needed_blocks(0, 40, 150, 0), Some(1..41));
    assert_eq!(c.download_of(0).map(|d| (d.start, d.len)), Some((1, 40)));
    assert!(c.drain(1).is_empty());
}

#[test]
fn ranges_are_shared_out_among_peers() {
    let mut c = BlockCollection::new();
    assert_eq!(c.needed_blocks(0, 40, 150, 0), Some(1..41));
    assert_eq!(c.needed_blocks(1, 40, 150, 0), Some(41..81));
    assert_eq!(c.needed_blocks(2, 40, 150, 60), Some(81..121));
    // the last peer gets what is left up to its best block
    assert_eq!(c.needed_blocks(3, 40, 150, 0), Some(121..151));
    assert_eq!(c.needed_blocks(4, 40, 150, 0), None);
}

#[test]
fn range_is_cropped_to_the_best_block_of_the_peer() {
    let mut c = BlockCollection::new();
    assert_eq!(c.needed_blocks(0, 128, 10, 0), Some(1..11));
    assert_eq!(c.needed_blocks(1, 128, 10, 10), None);
    assert_eq!(c.needed_blocks(2, 128, 5, 7), None);
    assert_eq!(c.needed_blocks(3, 0, 50, 10), None);
}

#[test]
fn range_starts_above_the_common_block() {
    let mut c = BlockCollection::new();
    assert_eq!(c.needed_blocks(0, 10, 100, 30), Some(31..41));
    // the numbers below what another peer downloads are free for a peer that
    // shares less with the node, up to the start of that download
    assert_eq!(c.needed_blocks(1, 128, 100, 20), Some(21..31));
    assert_eq!(c.needed_blocks(2, 128, 100, 20), Some(41..101));
}

#[test]
fn a_peer_has_one_download() {
    let mut c = BlockCollection::new();
    assert_eq!(c.needed_blocks(0, 10, 100, 0), Some(1..11));
    // asked again, the same peer gives up what it was asked for
    assert_eq!(c.needed_blocks(0, 5, 100, 0), Some(1..6));
    assert_eq!(c.download_of(0).map(|d| (d.start, d.len)), Some((1, 5)));
    assert_eq!(c.needed_blocks(1, 10, 100, 0), Some(6..16));
}

#[test]
fn released_range_is_asked_of_another_peer() {
    let mut c = BlockCollection::new();
    assert_eq!(c.needed_blocks(0, 40, 150, 0), Some(1..41));
    assert_eq!(c.needed_blocks(1, 40, 150, 0), Some(41..81));
    c.clear_peer_download(0);
    assert_eq!(c.download_of(0), None);
    assert_eq!(c.needed_blocks(2, 40, 150, 0), Some(1..41));
    c.clear_peer_download(7);
    assert_eq!(c.download_of(1).map(|d| (d.start, d.len)), Some((41, 40)));
}

#[test]
fn drain_hands_out_the_contiguous_head() {
    let mut c = BlockCollection::new();
    assert_eq!(c.needed_blocks(0, 40, 150, 0), Some(1..41));
    assert_eq!(c.needed_blocks(1, 40, 150, 0), Some(41..81));
    assert_eq!(c.needed_blocks(2, 40, 150, 0), Some(81..121));

    // the second range arrives first: nothing to hand out yet
    c.clear_peer_download(1);
    c.insert(41, blocks(41, 81), 1);
    assert!(c.drain(1).is_empty());

    c.clear_peer_download(0);
    c.insert(1, blocks(1, 11), 0);
    let head = c.drain(1);
    assert_eq!(head, (1..11).map(|n| incoming(n, 0)).collect::<Vec<_>>());
    // blocks 11 to 40 are missing and can be asked of a peer again
    assert!(c.drain(11).is_empty());
    assert_eq!(c.needed_blocks(0, 40, 150, 10), Some(11..41));
    c.clear_peer_download(0);
    c.insert(11, blocks(11, 41), 0);
    let rest = c.drain(11);
    assert_eq!(numbers(&rest), (11..81).collect::<Vec<_>>());
    assert_eq!(rest[29].origin, Some(0));
    assert_eq!(rest[30].origin, Some(1));
    assert!(c.drain(81).is_empty());
}

#[test]
fn overlapping_ranges_yield_each_block_once() {
    let mut c = BlockCollection::new();
    c.insert(1, blocks(1, 11), 0);
    c.insert(5, blocks(5, 21), 1);
    c.insert(8, blocks(8, 13), 2);
    c.insert(30, blocks(30, 35), 3);
    let head = c.drain(1);
    assert_eq!(numbers(&head), (1..21).collect::<Vec<_>>());
    assert_eq!(head[9].origin, Some(0));
    assert_eq!(head[10].origin, Some(1));
    // what lies beyond the gap stays
    assert!(c.drain(21).is_empty());
    assert_eq!(numbers(&c.drain(30)), (30..35).collect::<Vec<_>>());
}

#[test]
fn drain_skips_what_lies_below_its_start() {
    let mut c = BlockCollection::new();
    c.insert(5, blocks(5, 15), 0);
    assert_eq!(numbers(&c.drain(11)), vec![11, 12, 13, 14]);
    assert!(c.drain(5).is_empty());
}

#[test]
fn insert_keeps_the_longer_range_at_a_start() {
    let mut c = BlockCollection::new();
    c.insert(1, blocks(1, 6), 0);
    c.insert(1, blocks(1, 4), 1);
    c.insert(1, vec![], 2);
    assert_eq!(c.drain(1), (1..6).map(|n| incoming(n, 0)).collect::<Vec<_>>());
    c.insert(1, blocks(1, 3), 0);
    c.insert(1, blocks(1, 6), 1);
    assert_eq!(c.drain(1), (1..6).map(|n| incoming(n, 1)).collect::<Vec<_>>());
}

#[test]
fn downloaded_blocks_are_not_asked_for() {
    let mut c = BlockCollection::new();
    c.insert(1, blocks(1, 11), 0);
    c.insert(21, blocks(21, 31), 0);
    assert_eq!(c.needed_blocks(1, 128, 100, 0), Some(11..21));
    assert_eq!(c.needed_blocks(2, 128, 100, 0), Some(31..101));
}

#[test]
fn numbers_stay_within_the_range_of_numbers() {
    let mut c = BlockCollection::new();
    assert_eq!(c.needed_blocks(0, 128, u64::MAX, u64::MAX - 3), Some(u64::MAX - 2..u64::MAX));
    assert_eq!(c.needed_blocks(1, 128, u64::MAX, u64::MAX - 1), None);
    assert_eq!(c.needed_blocks(1, 128, u64::MAX, u64::MAX), None);
    c.insert(u64::MAX - 1, blocks(5, 9), 2);
    let head = c.drain(u64::MAX - 1);
    assert_eq!(head.len(), 1);
    assert_eq!(head[0].hash, hash(5));
}

#[test]
fn clear_forgets_everything() {
    let mut c = BlockCollection::new();
    assert_eq!(c.needed_blocks(0, 40, 150, 0), Some(1..41));
    c.insert(41, blocks(41, 50), 1);
    c.clear();
    assert_eq!(c.download_of(0), None);
    assert!(c.drain(41).is_empty());
    assert_eq!(c.needed_blocks(1, 40, 150, 0), Some(1..41));
}

#[test]
fn reversed_turns_a_list_round() {
    assert_eq!(reversed(vec![1, 2, 3]), vec![3, 2, 1]);
    assert_eq!(reversed(Vec::<u8>::new()), Vec::<u8>::new());
}

#[test]
fn into_incoming_marks_the_source() {
    assert_eq!(into_incoming(blocks(3, 5), Some(9)), vec![incoming(3, 9), incoming(4, 9)]);
    let unmarked = into_incoming(blocks(3, 4), None);
    assert_eq!(unmarked[0].origin, None);
}
