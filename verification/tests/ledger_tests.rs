use snarkos_ledger::columns::{u32_to_le_bytes, DatabaseTransaction, Op, COL_BLOCK_LOCATOR, COL_COMMITMENT, COL_DIGEST, COL_MEMO, COL_META, COL_SERIAL_NUMBER};
use snarkos_ledger::ledger::{count_indexes, Ledger};
use snarkos_ledger::objects::{BlockHeaderHash, BlockRecord, StorageError, TransactionRecord};

fn hash_of(n: u32) -> BlockHeaderHash {
    let mut bytes = [0u8; 32];
    bytes[0] = (n % 256) as u8;
    bytes[1] = (n / 256) as u8;
    bytes[31] = 0xAB;
    BlockHeaderHash(bytes)
}

fn tx(tag: u8, sns: usize, cms: usize) -> TransactionRecord {
    TransactionRecord {
        serial_numbers: (0..sns).map(|i| vec![tag, 1, i as u8]).collect(),
        commitments: (0..cms).map(|i| vec![tag, 2, i as u8]).collect(),
        memo: vec![tag, 3],
    }
}

fn block(n: u32, txs: Vec<TransactionRecord>) -> BlockRecord {
    BlockRecord { hash: hash_of(n), digest: vec![0xD0, n as u8], transactions: txs }
}

fn chain(height: u32) -> Ledger {
    let mut ledger = Ledger::new(block(0, vec![tx(0, 0, 2)])).unwrap();
    for n in 1..=height {
        ledger.commit_block(block(n, vec![])).unwrap();
    }
    ledger
}

/// De-commits with a write that succeeds, giving the hash and the batch written.
fn decommit(ledger: &mut Ledger) -> Result<(BlockHeaderHash, DatabaseTransaction), StorageError> {
    let mut written = None;
    let hash = ledger.decommit_latest_block(|batch| {
        written = Some(batch);
        Ok(())
    })?;
    Ok((hash, written.expect("the batch is written")))
}

fn ops(batch: &DatabaseTransaction) -> Vec<(bool, u32, Vec<u8>, Vec<u8>)> {
    batch
        .0
        .iter()
        .map(|op| match op {
            Op::Insert { col, key, value } => (true, *col, key.clone(), value.clone()),
            Op::Delete { col, key } => (false, *col, key.clone(), vec![]),
        })
        .collect()
}

#[test]
fn decommit_genesis_is_refused() {
    let mut ledger = chain(0);
    let mut called = false;
    let result = ledger.decommit_latest_block(|_| {
        called = true;
        Ok(())
    });
    assert_eq!(result, Err(StorageError::InvalidBlockDecommit));
    assert!(!called);
    assert_eq!(ledger.get_current_block_height(), 0);
    assert_eq!(ledger.get_block_hash(0), Ok(hash_of(0)));
}

#[test]
fn decommit_returns_latest_hash_and_lowers_height() {
    let mut ledger = chain(3);
    let (hash, _) = decommit(&mut ledger).unwrap();
    assert_eq!(hash, hash_of(3));
    assert_eq!(ledger.get_current_block_height(), 2);
    assert_eq!(ledger.get_block_hash(2), Ok(hash_of(2)));
    assert_eq!(ledger.get_block_hash(3), Err(StorageError::MissingBlockHash(3)));
    assert!(!ledger.is_canon(&hash_of(3)));
    assert!(ledger.is_canon(&hash_of(2)));
    assert_eq!(ledger.current_digest(), vec![0xD0, 2]);
}

#[test]
fn decommit_batch_lists_every_write() {
    let mut ledger = Ledger::new(block(0, vec![tx(0, 1, 1)])).unwrap();
    ledger.commit_block(block(1, vec![tx(7, 2, 1), tx(8, 0, 2)])).unwrap();
    assert_eq!(ledger.current_sn_index(), 3);
    assert_eq!(ledger.current_cm_index(), 4);
    assert_eq!(ledger.current_memo_index(), 3);

    let (hash, batch) = decommit(&mut ledger).unwrap();
    assert_eq!(hash, hash_of(1));
    let mut hash_key = vec![1u8, 0];
    hash_key.extend_from_slice(&[0u8; 29]);
    hash_key.push(0xAB);
    let expected: Vec<(bool, u32, Vec<u8>, Vec<u8>)> = vec![
        (true, COL_META, b"BEST_BLOCK_NUMBER".to_vec(), vec![0, 0, 0, 0]),
        (false, COL_DIGEST, vec![0xD0, 1], vec![]),
        (false, COL_SERIAL_NUMBER, vec![7, 1, 0], vec![]),
        (false, COL_SERIAL_NUMBER, vec![7, 1, 1], vec![]),
        (false, COL_COMMITMENT, vec![7, 2, 0], vec![]),
        (false, COL_MEMO, vec![7, 3], vec![]),
        (false, COL_COMMITMENT, vec![8, 2, 0], vec![]),
        (false, COL_COMMITMENT, vec![8, 2, 1], vec![]),
        (false, COL_MEMO, vec![8, 3], vec![]),
        (true, COL_META, b"CURRENT_SN_INDEX".to_vec(), vec![1, 0, 0, 0]),
        (true, COL_META, b"CURRENT_CM_INDEX".to_vec(), vec![1, 0, 0, 0]),
        (true, COL_META, b"CURRENT_MEMO_INDEX".to_vec(), vec![1, 0, 0, 0]),
        (false, COL_BLOCK_LOCATOR, vec![1, 0, 0, 0], vec![]),
        (false, COL_BLOCK_LOCATOR, hash_key, vec![]),
    ];
    assert_eq!(ops(&batch), expected);
    assert_eq!(ledger.current_sn_index(), 1);
    assert_eq!(ledger.current_cm_index(), 1);
    assert_eq!(ledger.current_memo_index(), 1);
}

#[test]
fn decommit_undoes_commit() {
    let mut ledger = chain(2);
    let before_hashes: Vec<_> = (0..=2).map(|n| ledger.get_block_hash(n).unwrap()).collect();
    ledger.commit_block(block(9, vec![tx(9, 3, 1)])).unwrap();
    assert_eq!(ledger.current_sn_index(), 3);
    let (hash, _) = decommit(&mut ledger).unwrap();
    assert_eq!(hash, hash_of(9));
    assert_eq!(ledger.get_current_block_height(), 2);
    let after_hashes: Vec<_> = (0..=2).map(|n| ledger.get_block_hash(n).unwrap()).collect();
    assert_eq!(before_hashes, after_hashes);
    assert_eq!(ledger.current_sn_index(), 0);
    assert_eq!(ledger.current_cm_index(), 2);
    assert_eq!(ledger.current_memo_index(), 1);
}

#[test]
fn commit_refuses_a_canonical_hash() {
    let mut ledger = chain(2);
    assert_eq!(ledger.commit_block(block(1, vec![])), Err(StorageError::ExistingCanonBlock));
    assert_eq!(ledger.get_current_block_height(), 2);
}

#[test]
fn missing_block_hash() {
    let ledger = chain(1);
    assert_eq!(ledger.get_block_hash(2), Err(StorageError::MissingBlockHash(2)));
}

#[test]
fn le_bytes_of_u32() {
    assert_eq!(u32_to_le_bytes(0x0A0B0C0D), vec![0x0D, 0x0C, 0x0B, 0x0A]);
    assert_eq!(u32_to_le_bytes(u32::MAX), vec![0xFF; 4]);
    assert_eq!(u32_to_le_bytes(300), 300u32.to_le_bytes().to_vec());
}

#[test]
fn counts_of_transactions() {
    assert_eq!(count_indexes(&vec![tx(1, 2, 3), tx(2, 0, 1)]), Some((2, 4, 2)));
    assert_eq!(count_indexes(&vec![]), Some((0, 0, 0)));
}

#[test]
fn new_ledger_counts_genesis() {
    let ledger = Ledger::new(block(0, vec![tx(0, 2, 5)])).unwrap();
    assert_eq!(ledger.get_current_block_height(), 0);
    assert_eq!(ledger.current_sn_index(), 2);
    assert_eq!(ledger.current_cm_index(), 5);
    assert_eq!(ledger.current_memo_index(), 1);
    assert_eq!(ledger.get_block_transactions(&hash_of(0)).unwrap().len(), 1);
}

#[test]
fn failed_write_leaves_ledger_unchanged() {
    let mut ledger = Ledger::new(block(0, vec![])).unwrap();
    ledger.commit_block(block(1, vec![tx(1, 2, 1)])).unwrap();
    let result = ledger.decommit_latest_block(|_| Err(StorageError::IndexOverflow));
    assert_eq!(result, Err(StorageError::IndexOverflow));
    assert_eq!(ledger.get_current_block_height(), 1);
    assert!(ledger.is_canon(&hash_of(1)));
    assert_eq!(ledger.current_sn_index(), 2);
}

#[test]
fn decommitted_block_stays_stored_off_the_chain() {
    let mut ledger = chain(1);
    ledger.commit_block(block(5, vec![tx(5, 1, 2)])).unwrap();
    let (hash, _) = decommit(&mut ledger).unwrap();
    assert_eq!(hash, hash_of(5));
    assert!(!ledger.is_canon(&hash_of(5)));
    let txs = ledger.get_block_transactions(&hash_of(5)).unwrap();
    assert_eq!(txs.len(), 1);
    assert_eq!(txs[0].commitments.len(), 2);
    assert_eq!(ledger.get_block_transactions(&hash_of(9)).err(), Some(StorageError::MissingBlockTransactions));
}

#[test]
fn recommitted_hash_reads_the_canonical_block() {
    let mut ledger = chain(1);
    ledger.commit_block(block(5, vec![tx(5, 1, 2)])).unwrap();
    decommit(&mut ledger).unwrap();
    ledger.commit_block(block(5, vec![tx(6, 0, 0), tx(7, 0, 0)])).unwrap();
    assert_eq!(ledger.get_block_transactions(&hash_of(5)).unwrap().len(), 2);
}

#[test]
fn commit_refuses_keys_already_on_the_chain() {
    let mut ledger = Ledger::new(block(0, vec![tx(1, 2, 2)])).unwrap();
    // The same serial number as the genesis transaction.
    let sn_again = TransactionRecord { serial_numbers: vec![vec![1, 1, 0]], commitments: vec![], memo: vec![9, 9] };
    assert_eq!(ledger.commit_block(block(1, vec![sn_again])), Err(StorageError::ExistingSn));
    let cm_again = TransactionRecord { serial_numbers: vec![], commitments: vec![vec![1, 2, 1]], memo: vec![9, 9] };
    assert_eq!(ledger.commit_block(block(1, vec![cm_again])), Err(StorageError::ExistingCm));
    let memo_again = TransactionRecord { serial_numbers: vec![], commitments: vec![], memo: vec![1, 3] };
    assert_eq!(ledger.commit_block(block(1, vec![memo_again])), Err(StorageError::ExistingMemo));
    assert_eq!(ledger.get_current_block_height(), 0);
    // Once the block holding them is de-committed, the keys are free again.
    ledger.commit_block(block(1, vec![tx(2, 1, 1)])).unwrap();
    decommit(&mut ledger).unwrap();
    ledger.commit_block(block(2, vec![tx(2, 1, 1)])).unwrap();
    assert_eq!(ledger.get_current_block_height(), 1);
}
