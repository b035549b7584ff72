use snarkos_ledger::ledger::Ledger;
use snarkos_ledger::objects::{BlockHeaderHash, BlockRecord};

fn hash_of(n: u32, side: u8) -> BlockHeaderHash {
    let mut bytes = [0u8; 32];
    bytes[0] = (n % 256) as u8;
    bytes[1] = (n / 256) as u8;
    bytes[2] = side;
    BlockHeaderHash(bytes)
}

/// A chain of the given height whose blocks above `fork` carry the `side` mark.
fn chain(height: u32, fork: u32, side: u8) -> Ledger {
    let mut ledger =
        Ledger::new(BlockRecord { hash: hash_of(0, 0), digest: vec![0], transactions: vec![] }).unwrap();
    for n in 1..=height {
        let mark = if n > fork { side } else { 0 };
        ledger
            .commit_block(BlockRecord { hash: hash_of(n, mark), digest: vec![n as u8], transactions: vec![] })
            .unwrap();
    }
    ledger
}

fn heights(height: u32) -> Vec<u32> {
    let ledger = chain(height, height, 0);
    ledger
        .get_block_locator_hashes()
        .unwrap()
        .iter()
        .map(|h| h.0[0] as u32 + 256 * h.0[1] as u32)
        .collect()
}

#[test]
fn locator_of_genesis_only_is_empty() {
    assert_eq!(heights(0), Vec::<u32>::new());
}

#[test]
fn locator_of_short_chains_is_dense() {
    assert_eq!(heights(1), vec![1]);
    assert_eq!(heights(5), vec![5, 4, 3, 2, 1]);
    assert_eq!(heights(21), (2..=21).rev().collect::<Vec<u32>>());
}

#[test]
fn locator_ends_with_genesis_when_the_step_passes_the_last_height() {
    let mut h20: Vec<u32> = (1..=20).rev().collect();
    h20.push(0);
    assert_eq!(heights(20), h20);
    let mut h22: Vec<u32> = (3..=22).rev().collect();
    h22.extend_from_slice(&[1, 0]);
    assert_eq!(heights(22), h22);
}

#[test]
fn locator_doubles_its_step_after_twenty() {
    let mut h30: Vec<u32> = (11..=30).rev().collect();
    h30.extend_from_slice(&[9, 5, 0]);
    assert_eq!(heights(30), h30);
    let mut h1000: Vec<u32> = (981..=1000).rev().collect();
    h1000.extend_from_slice(&[979, 975, 967, 951, 919, 855, 727, 471, 0]);
    assert_eq!(heights(1000), h1000);
}

#[test]
fn shared_hash_of_own_locator_is_tip() {
    for height in [0u32, 1, 7, 30, 100] {
        let ledger = chain(height, height, 0);
        let locator = ledger.get_block_locator_hashes().unwrap();
        assert_eq!(ledger.get_latest_shared_hash(locator), Ok(hash_of(height, 0)));
    }
}

#[test]
fn shared_hash_of_side_chain_is_fork_point() {
    let ours = chain(40, 40, 0);
    let theirs = chain(30, 12, 1);
    // Their locator heights: 30..11, 9, 5, 0; the first one at or below 12 is 12.
    let locator = theirs.get_block_locator_hashes().unwrap();
    assert_eq!(ours.get_latest_shared_hash(locator), Ok(hash_of(12, 0)));

    let theirs = chain(100, 60, 2);
    // Their locator heights: 100..81, 79, 75, 67, 51, 19, 0; the first at or below 60 is 51.
    let locator = theirs.get_block_locator_hashes().unwrap();
    let ours = chain(70, 70, 0);
    assert_eq!(ours.get_latest_shared_hash(locator), Ok(hash_of(51, 0)));
}

#[test]
fn shared_hash_without_canon_entries_is_genesis() {
    let ours = chain(5, 5, 0);
    assert_eq!(ours.get_latest_shared_hash(vec![]), Ok(hash_of(0, 0)));
    assert_eq!(ours.get_latest_shared_hash(vec![hash_of(9, 3), hash_of(2, 3)]), Ok(hash_of(0, 0)));
}

#[test]
fn locator_stays_short_on_a_long_chain() {
    let hs = heights(5000);
    assert!(hs.len() <= 53);
    assert_eq!(hs.len(), 32);
    assert_eq!(*hs.last().unwrap(), 0);
}
