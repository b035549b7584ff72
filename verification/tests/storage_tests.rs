use std::collections::HashMap;

use snarkos_ledger::columns::{
    DatabaseTransaction, Op, COL_BLOCK_LOCATOR, COL_COMMITMENT, COL_DIGEST, COL_MEMO, COL_META,
    COL_SERIAL_NUMBER,
};
use snarkos_ledger::ledger::Ledger;
use snarkos_ledger::objects::{BlockHeaderHash, BlockRecord, TransactionRecord};

type Storage = HashMap<(u32, Vec<u8>), Vec<u8>>;

fn hash_of(n: u32) -> BlockHeaderHash {
    let mut bytes = [7u8; 32];
    bytes[0] = n as u8;
    BlockHeaderHash(bytes)
}

fn tx(tag: u8, sns: usize, cms: usize) -> TransactionRecord {
    TransactionRecord {
        serial_numbers: (0..sns).map(|i| vec![tag, 1, i as u8]).collect(),
        commitments: (0..cms).map(|i| vec![tag, 2, i as u8]).collect(),
        memo: vec![tag, 3],
    }
}

fn block(n: u32, txs: Vec<TransactionRecord>) -> BlockRecord {
    BlockRecord { hash: hash_of(n), digest: vec![0xD0, n as u8], transactions: txs }
}

/// The storage that the blocks occupy: the meta values, both locator entries
/// and the digest of each block, and each serial number, commitment and memo
/// with its position.
fn storage_of(blocks: &[BlockRecord]) -> Storage {
    let mut m = Storage::new();
    let (mut sn, mut cm, mut memo) = (0u32, 0u32, 0u32);
    for (n, b) in blocks.iter().enumerate() {
        let n = n as u32;
        m.insert((COL_BLOCK_LOCATOR, n.to_le_bytes().to_vec()), b.hash.0.to_vec());
        m.insert((COL_BLOCK_LOCATOR, b.hash.0.to_vec()), n.to_le_bytes().to_vec());
        m.insert((COL_DIGEST, b.digest.clone()), n.to_le_bytes().to_vec());
        for t in &b.transactions {
            for s in &t.serial_numbers {
                m.insert((COL_SERIAL_NUMBER, s.clone()), sn.to_le_bytes().to_vec());
                sn += 1;
            }
            for c in &t.commitments {
                m.insert((COL_COMMITMENT, c.clone()), cm.to_le_bytes().to_vec());
                cm += 1;
            }
            m.insert((COL_MEMO, t.memo.clone()), memo.to_le_bytes().to_vec());
            memo += 1;
        }
    }
    let height = blocks.len() as u32 - 1;
    m.insert((COL_META, b"BEST_BLOCK_NUMBER".to_vec()), height.to_le_bytes().to_vec());
    m.insert((COL_META, b"CURRENT_SN_INDEX".to_vec()), sn.to_le_bytes().to_vec());
    m.insert((COL_META, b"CURRENT_CM_INDEX".to_vec()), cm.to_le_bytes().to_vec());
    m.insert((COL_META, b"CURRENT_MEMO_INDEX".to_vec()), memo.to_le_bytes().to_vec());
    m
}

fn apply(m: &mut Storage, batch: DatabaseTransaction) {
    for op in batch.0 {
        match op {
            Op::Insert { col, key, value } => {
                m.insert((col, key), value);
            }
            Op::Delete { col, key } => {
                m.remove(&(col, key));
            }
        }
    }
}

fn blocks() -> Vec<BlockRecord> {
    vec![
        block(0, vec![tx(0, 0, 2)]),
        block(1, vec![tx(1, 1, 2), tx(2, 2, 1)]),
        block(2, vec![tx(3, 2, 2), tx(4, 0, 1), tx(5, 1, 0)]),
    ]
}

#[test]
fn decommit_batch_takes_latest_block_out_of_storage() {
    let all = blocks();
    let mut ledger = Ledger::new(block(0, vec![tx(0, 0, 2)])).unwrap();
    ledger.commit_block(block(1, vec![tx(1, 1, 2), tx(2, 2, 1)])).unwrap();
    ledger.commit_block(block(2, vec![tx(3, 2, 2), tx(4, 0, 1), tx(5, 1, 0)])).unwrap();

    let mut storage = storage_of(&all);
    let hash = ledger
        .decommit_latest_block(|batch| {
            apply(&mut storage, batch);
            Ok(())
        })
        .unwrap();
    assert_eq!(hash, hash_of(2));
    assert_eq!(storage, storage_of(&all[..2]));

    let hash = ledger
        .decommit_latest_block(|batch| {
            apply(&mut storage, batch);
            Ok(())
        })
        .unwrap();
    assert_eq!(hash, hash_of(1));
    assert_eq!(storage, storage_of(&all[..1]));
}
