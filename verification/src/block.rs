//! Rolling the ledger back by its latest block.
use vstd::prelude::*;
use crate::columns::{
    copy_bytes, key_best_block_number, key_curr_cm_index, key_curr_memo_index, key_curr_sn_index,
    le_bytes, spec_key_best_block_number, spec_key_curr_cm_index, spec_key_curr_memo_index,
    spec_key_curr_sn_index, u32_to_le_bytes, DatabaseTransaction, Op, OpSpec, COL_BLOCK_LOCATOR,
    COL_COMMITMENT, COL_DIGEST, COL_MEMO, COL_META, COL_SERIAL_NUMBER,
};
use crate::ledger::{
    lemma_lookup_append, lookup, lemma_txs_cm_count_prefix_mono, lemma_txs_sn_count_prefix_mono, txs_cm_count, txs_sn_count,
    Ledger, LedgerView,
};
use crate::objects::{transactions_view, BlockHeaderHash, BlockView, StorageError, TransactionRecord, TransactionView};

verus! {

/// The deletions of the serial numbers from their column.
pub open spec fn sn_deletes(sns: Seq<Seq<u8>>) -> Seq<OpSpec> {
    sns.map_values(|sn: Seq<u8>| OpSpec::Delete { col: COL_SERIAL_NUMBER, key: sn })
}

/// The deletions of the commitments from their column.
pub open spec fn cm_deletes(cms: Seq<Seq<u8>>) -> Seq<OpSpec> {
    cms.map_values(|cm: Seq<u8>| OpSpec::Delete { col: COL_COMMITMENT, key: cm })
}

/// The deletions that take one transaction out of the indexes: its serial
/// numbers, then its commitments, then its memo.
pub open spec fn transaction_ops(tx: TransactionView) -> Seq<OpSpec> {
    sn_deletes(tx.serial_numbers) + cm_deletes(tx.commitments) + seq![
        OpSpec::Delete { col: COL_MEMO, key: tx.memo },
    ]
}

/// The deletions of the transactions, in their order.
pub open spec fn transactions_ops(txs: Seq<TransactionView>) -> Seq<OpSpec>
    decreases txs.len(),
{
    if txs.len() == 0 {
        Seq::empty()
    } else {
        transactions_ops(txs.drop_last()) + transaction_ops(txs.last())
    }
}

/// The batch that takes the latest block out of storage: the new best block
/// number, the deletion of the latest digest, the deletions of the block's
/// serial numbers, commitments and memos, the new indexes, and the deletion
/// of both block locator entries of the block.
pub open spec fn decommit_ops(l: LedgerView) -> Seq<OpSpec> {
    decommit_head_ops(l) + transactions_ops(l.blocks.last().transactions) + decommit_tail_ops(l)
}

/// The new best block number and the deletion of the latest digest.
pub open spec fn decommit_head_ops(l: LedgerView) -> Seq<OpSpec> {
    seq![
        OpSpec::Insert {
            col: COL_META,
            key: spec_key_best_block_number(),
            value: le_bytes((l.height() - 1) as u32),
        },
        OpSpec::Delete { col: COL_DIGEST, key: l.blocks.last().digest },
    ]
}

/// The new indexes and the deletion of both block locator entries of the
/// latest block.
pub open spec fn decommit_tail_ops(l: LedgerView) -> Seq<OpSpec> {
    let prev = l.decommitted();
    seq![
        OpSpec::Insert {
            col: COL_META,
            key: spec_key_curr_sn_index(),
            value: le_bytes(prev.sn_index() as u32),
        },
        OpSpec::Insert {
            col: COL_META,
            key: spec_key_curr_cm_index(),
            value: le_bytes(prev.cm_index() as u32),
        },
        OpSpec::Insert {
            col: COL_META,
            key: spec_key_curr_memo_index(),
            value: le_bytes(prev.memo_index() as u32),
        },
        OpSpec::Delete { col: COL_BLOCK_LOCATOR, key: le_bytes(l.height() as u32) },
        OpSpec::Delete { col: COL_BLOCK_LOCATOR, key: l.blocks.last().hash },
    ]
}

/// Law: de-committing keeps the chain valid, lowers its height by one and
/// keeps every block below the latest one, and the batch records the new
/// height as the best block number.
pub proof fn lemma_decommit_keeps_lower_blocks(l: LedgerView)
    requires
        l.valid(),
        l.height() > 0,
    ensures
        l.decommitted().valid(),
        l.decommitted().height() == l.height() - 1,
        forall|n: int| 0 <= n <= l.decommitted().height() ==> #[trigger] l.decommitted().hash_at(n) == l.hash_at(n),
        decommit_ops(l)[0] == (OpSpec::Insert {
            col: COL_META,
            key: spec_key_best_block_number(),
            value: le_bytes(l.decommitted().height() as u32),
        }),
{
    lemma_txs_counts_bounded(l);
}

/// Law: de-committing right after committing a block gives back that
/// block's hash and the canonical chain as it was before the commit, keeps
/// the block stored by its hash, and the batch writes back that chain's
/// best block number and indexes.
pub proof fn lemma_decommit_undoes_commit(l: LedgerView, block: BlockView)
    requires
        l.valid(),
        l.extended(block).valid(),
    ensures
        l.extended(block).height() == l.height() + 1,
        l.extended(block).hash_at(l.extended(block).height()) == block.hash,
        l.extended(block).decommitted().blocks == l.blocks,
        l.extended(block).decommitted().side == l.side.push(block),
        l.extended(block).decommitted().sn_index() == l.sn_index(),
        l.extended(block).decommitted().cm_index() == l.cm_index(),
        l.extended(block).decommitted().memo_index() == l.memo_index(),
        decommit_ops(l.extended(block)) == decommit_head_ops(l.extended(block)) + transactions_ops(
            block.transactions,
        ) + seq![
            OpSpec::Insert {
                col: COL_META,
                key: spec_key_curr_sn_index(),
                value: le_bytes(l.sn_index() as u32),
            },
            OpSpec::Insert {
                col: COL_META,
                key: spec_key_curr_cm_index(),
                value: le_bytes(l.cm_index() as u32),
            },
            OpSpec::Insert {
                col: COL_META,
                key: spec_key_curr_memo_index(),
                value: le_bytes(l.memo_index() as u32),
            },
            OpSpec::Delete { col: COL_BLOCK_LOCATOR, key: le_bytes((l.height() + 1) as u32) },
            OpSpec::Delete { col: COL_BLOCK_LOCATOR, key: block.hash },
        ],
        decommit_head_ops(l.extended(block))[0] == (OpSpec::Insert {
            col: COL_META,
            key: spec_key_best_block_number(),
            value: le_bytes(l.height() as u32),
        }),
{
    let e = l.extended(block);
    assert(e.blocks.drop_last() =~= l.blocks);
    assert(e.decommitted().blocks == l.blocks);
    let tail = decommit_tail_ops(e);
    assert(tail =~= seq![
        OpSpec::Insert {
            col: COL_META,
            key: spec_key_curr_sn_index(),
            value: le_bytes(l.sn_index() as u32),
        },
        OpSpec::Insert {
            col: COL_META,
            key: spec_key_curr_cm_index(),
            value: le_bytes(l.cm_index() as u32),
        },
        OpSpec::Insert {
            col: COL_META,
            key: spec_key_curr_memo_index(),
            value: le_bytes(l.memo_index() as u32),
        },
        OpSpec::Delete { col: COL_BLOCK_LOCATOR, key: le_bytes((l.height() + 1) as u32) },
        OpSpec::Delete { col: COL_BLOCK_LOCATOR, key: block.hash },
    ]);
}

/// Appends the deletions of one transaction's serial numbers, commitments
/// and memo to the batch, and counts each index down by what it removes.
fn push_transaction_deletes(
    batch: &mut DatabaseTransaction,
    tx: &TransactionRecord,
    sn_index: &mut usize,
    cm_index: &mut usize,
    memo_index: &mut usize,
)
    requires
        *old(sn_index) >= tx@.serial_numbers.len(),
        *old(cm_index) >= tx@.commitments.len(),
        *old(memo_index) >= 1,
    ensures
        final(batch)@ == old(batch)@ + transaction_ops(tx@),
        *final(sn_index) == *old(sn_index) - tx@.serial_numbers.len(),
        *final(cm_index) == *old(cm_index) - tx@.commitments.len(),
        *final(memo_index) == *old(memo_index) - 1,
{
    let ghost tv = tx@;
    let ghost before = batch@;
    let mut j: usize = 0;
    while j < tx.serial_numbers.len()
        invariant
            0 <= j <= tx.serial_numbers.len(),
            tx@ == tv,
            batch@ == before + sn_deletes(tv.serial_numbers.take(j as int)),
            *sn_index + j == *old(sn_index),
            *old(sn_index) >= tv.serial_numbers.len(),
        decreases tx.serial_numbers.len() - j,
    {
        let key = copy_bytes(&tx.serial_numbers[j]);
        batch.push(Op::Delete { col: COL_SERIAL_NUMBER, key });
        *sn_index = *sn_index - 1;
        j = j + 1;
        assert(sn_deletes(tv.serial_numbers.take(j as int)) =~= sn_deletes(
            tv.serial_numbers.take(j - 1),
        ).push(OpSpec::Delete { col: COL_SERIAL_NUMBER, key: tv.serial_numbers[j - 1] }));
        assert(batch@ =~= before + sn_deletes(tv.serial_numbers.take(j as int)));
    }
    assert(tv.serial_numbers.take(j as int) =~= tv.serial_numbers);
    let ghost mid = batch@;
    let mut k: usize = 0;
    while k < tx.commitments.len()
        invariant
            0 <= k <= tx.commitments.len(),
            tx@ == tv,
            batch@ == mid + cm_deletes(tv.commitments.take(k as int)),
            *cm_index + k == *old(cm_index),
            *old(cm_index) >= tv.commitments.len(),
        decreases tx.commitments.len() - k,
    {
        let key = copy_bytes(&tx.commitments[k]);
        batch.push(Op::Delete { col: COL_COMMITMENT, key });
        *cm_index = *cm_index - 1;
        k = k + 1;
        assert(cm_deletes(tv.commitments.take(k as int)) =~= cm_deletes(
            tv.commitments.take(k - 1),
        ).push(OpSpec::Delete { col: COL_COMMITMENT, key: tv.commitments[k - 1] }));
        assert(batch@ =~= mid + cm_deletes(tv.commitments.take(k as int)));
    }
    assert(tv.commitments.take(k as int) =~= tv.commitments);
    batch.push(Op::Delete { col: COL_MEMO, key: copy_bytes(&tx.memo) });
    *memo_index = *memo_index - 1;
    assert(batch@ =~= before + transaction_ops(tv));
}

/// Appends the deletions of all transactions of a block, in order, and
/// counts each index down by what it removes.
fn push_block_deletes(
    batch: &mut DatabaseTransaction,
    txs: &Vec<TransactionRecord>,
    sn_index: &mut usize,
    cm_index: &mut usize,
    memo_index: &mut usize,
)
    requires
        *old(sn_index) >= txs_sn_count(transactions_view(txs@)),
        *old(cm_index) >= txs_cm_count(transactions_view(txs@)),
        *old(memo_index) >= txs@.len(),
    ensures
        final(batch)@ == old(batch)@ + transactions_ops(transactions_view(txs@)),
        *final(sn_index) == *old(sn_index) - txs_sn_count(transactions_view(txs@)),
        *final(cm_index) == *old(cm_index) - txs_cm_count(transactions_view(txs@)),
        *final(memo_index) == *old(memo_index) - txs@.len(),
{
    let ghost txv = transactions_view(txs@);
    let ghost prefix = batch@;
    assert(txv.take(0) =~= Seq::<TransactionView>::empty());
    assert(txv.take(txv.len() as int) =~= txv);
    let mut i: usize = 0;
    while i < txs.len()
        invariant
            0 <= i <= txs.len(),
            transactions_view(txs@) == txv,
            batch@ == prefix + transactions_ops(txv.take(i as int)),
            *sn_index + txs_sn_count(txv.take(i as int)) == *old(sn_index),
            *cm_index + txs_cm_count(txv.take(i as int)) == *old(cm_index),
            *memo_index + i == *old(memo_index),
            txs_sn_count(txv) <= *old(sn_index),
            txs_cm_count(txv) <= *old(cm_index),
            txv.len() <= *old(memo_index),
            txv.take(txv.len() as int) == txv,
        decreases txs.len() - i,
    {
        proof {
            assert(txv.take(i + 1).drop_last() =~= txv.take(i as int));
            assert(txv.take(i + 1).last() == txv[i as int]);
            lemma_txs_sn_count_prefix_mono(txv, i as int + 1, txv.len() as int);
            lemma_txs_cm_count_prefix_mono(txv, i as int + 1, txv.len() as int);
        }
        push_transaction_deletes(batch, &txs[i], sn_index, cm_index, memo_index);
        i = i + 1;
        assert(batch@ =~= prefix + transactions_ops(txv.take(i as int)));
    }
}

/// The latest block's counts are part of the chain's counts.
proof fn lemma_txs_counts_bounded(l: LedgerView)
    requires
        l.blocks.len() >= 1,
    ensures
        l.sn_index() == l.decommitted().sn_index() + txs_sn_count(l.blocks.last().transactions),
        l.cm_index() == l.decommitted().cm_index() + txs_cm_count(l.blocks.last().transactions),
        l.memo_index() == l.decommitted().memo_index() + l.blocks.last().transactions.len(),
{
}

/// Appends the new index values and the deletion of both block locator
/// entries of the block at `height` with header hash `hash`.
fn push_index_updates(
    batch: &mut DatabaseTransaction,
    sn_index: u32,
    cm_index: u32,
    memo_index: u32,
    height: u32,
    hash: &BlockHeaderHash,
)
    ensures
        final(batch)@ == old(batch)@ + seq![
            OpSpec::Insert { col: COL_META, key: spec_key_curr_sn_index(), value: le_bytes(sn_index) },
            OpSpec::Insert { col: COL_META, key: spec_key_curr_cm_index(), value: le_bytes(cm_index) },
            OpSpec::Insert {
                col: COL_META,
                key: spec_key_curr_memo_index(),
                value: le_bytes(memo_index),
            },
            OpSpec::Delete { col: COL_BLOCK_LOCATOR, key: le_bytes(height) },
            OpSpec::Delete { col: COL_BLOCK_LOCATOR, key: hash@ },
        ],
{
    let ghost before = batch@;
    batch.push(
        Op::Insert { col: COL_META, key: key_curr_sn_index(), value: u32_to_le_bytes(sn_index) },
    );
    batch.push(
        Op::Insert { col: COL_META, key: key_curr_cm_index(), value: u32_to_le_bytes(cm_index) },
    );
    batch.push(
        Op::Insert {
            col: COL_META,
            key: key_curr_memo_index(),
            value: u32_to_le_bytes(memo_index),
        },
    );
    batch.push(Op::Delete { col: COL_BLOCK_LOCATOR, key: u32_to_le_bytes(height) });
    batch.push(Op::Delete { col: COL_BLOCK_LOCATOR, key: hash.to_bytes() });
    assert(batch@ =~= before + seq![
        OpSpec::Insert { col: COL_META, key: spec_key_curr_sn_index(), value: le_bytes(sn_index) },
        OpSpec::Insert { col: COL_META, key: spec_key_curr_cm_index(), value: le_bytes(cm_index) },
        OpSpec::Insert { col: COL_META, key: spec_key_curr_memo_index(), value: le_bytes(memo_index) },
        OpSpec::Delete { col: COL_BLOCK_LOCATOR, key: le_bytes(height) },
        OpSpec::Delete { col: COL_BLOCK_LOCATOR, key: hash@ },
    ]);
}

impl Ledger {
    /// De-commit the latest block and return its header hash. The batch that
    /// takes the block out of storage is handed to `write`; only when the
    /// write succeeds does the ledger drop the block from its canonical
    /// chain, keeping it stored by its hash. The genesis block cannot be
    /// de-committed: on a ledger of height 0 the result is
    /// `InvalidBlockDecommit`, nothing is written and the ledger is
    /// unchanged. When the write fails, its error is returned and the ledger
    /// is unchanged.
    pub fn decommit_latest_block<W>(&mut self, write: W) -> (r: Result<BlockHeaderHash, StorageError>) where
        W: FnOnce(DatabaseTransaction) -> Result<(), StorageError>,

        requires
            old(self).wf(),
            forall|t: DatabaseTransaction|
                old(self)@.height() > 0 && t@ == decommit_ops(old(self)@) ==> #[trigger] call_requires(
                    write,
                    (t,),
                ),
        ensures
            final(self).wf(),
            old(self)@.height() == 0 ==> {
                &&& r == Err::<BlockHeaderHash, StorageError>(StorageError::InvalidBlockDecommit)
                &&& final(self)@ == old(self)@
            },
            old(self)@.height() > 0 ==> exists|t: DatabaseTransaction, w: Result<(), StorageError>|
                {
                    &&& #[trigger] call_ensures(write, (t,), w)
                    &&& t@ == decommit_ops(old(self)@)
                    &&& match w {
                        Ok(_) => {
                            &&& r matches Ok(h) && h@ == old(self)@.hash_at(old(self)@.height())
                            &&& final(self)@ == old(self)@.decommitted()
                        },
                        Err(e) => {
                            &&& r == Err::<BlockHeaderHash, StorageError>(e)
                            &&& final(self)@ == old(self)@
                        },
                    }
                },
            r matches Ok(h) ==> {
                &&& !final(self)@.is_canon(h@)
                &&& final(self)@.stored_block(h@) == Some(old(self)@.blocks.last())
            },
    {
        let current_block_height = self.get_current_block_height();
        if current_block_height == 0 {
            return Err(StorageError::InvalidBlockDecommit);
        }
        let new_best_block_number = current_block_height - 1;
        let block_hash: BlockHeaderHash = self.get_block_hash(current_block_height)?;
        let ghost l = self@;
        let ghost b = l.blocks.last();
        let ghost txv = b.transactions;
        let ghost prefix = decommit_head_ops(l);

        let mut database_transaction = DatabaseTransaction::new();
        database_transaction.push(
            Op::Insert {
                col: COL_META,
                key: key_best_block_number(),
                value: u32_to_le_bytes(new_best_block_number),
            },
        );
        database_transaction.push(Op::Delete { col: COL_DIGEST, key: self.current_digest() });
        assert(database_transaction@ =~= prefix);

        let mut sn_index = self.current_sn_index();
        let mut cm_index = self.current_cm_index();
        let mut memo_index = self.current_memo_index();

        proof {
            lemma_txs_counts_bounded(l);
            self.lemma_wf_valid();
            lemma_latest_block_lookup(l);
        }
        let txs = self.get_block_transactions(&block_hash)?;
        assert(transactions_view(txs@) == txv);
        push_block_deletes(&mut database_transaction, txs, &mut sn_index, &mut cm_index, &mut memo_index);

        // Update the database state for current indexes
        push_index_updates(
            &mut database_transaction,
            sn_index as u32,
            cm_index as u32,
            memo_index as u32,
            current_block_height,
            &block_hash,
        );
        assert(database_transaction@ =~= decommit_ops(l));
        let ghost batch = database_transaction;

        let written = write(database_transaction);
        match written {
            Ok(()) => {},
            Err(e) => {
                assert(call_ensures(write, (batch,), written));
                return Err(e);
            },
        }
        assert(call_ensures(write, (batch,), written));

        self.remove_latest_block(sn_index as u32, cm_index as u32, memo_index as u32);
        proof {
            lemma_decommitted_lookup(l);
        }
        Ok(block_hash)
    }
}

/// In a valid chain, looking up the latest block's hash finds the latest
/// block.
proof fn lemma_latest_block_lookup(l: LedgerView)
    requires
        l.blocks.len() >= 1,
    ensures
        l.stored_block(l.blocks.last().hash) == Some(l.blocks.last()),
{
    let all = l.side + l.blocks;
    assert(all.last() == l.blocks.last());
}

/// Once de-committed, the latest block is off the canonical chain and
/// stays stored by its hash.
proof fn lemma_decommitted_lookup(l: LedgerView)
    requires
        l.valid(),
        l.height() > 0,
    ensures
        !l.decommitted().is_canon(l.blocks.last().hash),
        l.decommitted().stored_block(l.blocks.last().hash) == Some(l.blocks.last()),
{
    let d = l.decommitted();
    let h = l.blocks.last().hash;
    if d.is_canon(h) {
        let n = choose|n: int| 0 <= n < d.blocks.len() && #[trigger] d.blocks[n].hash == h;
        assert(l.blocks[n].hash == l.blocks[l.blocks.len() - 1].hash);
    }
    assert forall|n: int| 0 <= n < d.blocks.len() implies #[trigger] d.blocks[n].hash != h by {
        assert(l.blocks[n] == d.blocks[n]);
        assert(l.blocks[n].hash != l.blocks[l.blocks.len() - 1].hash);
    }
    lemma_lookup_misses(d.blocks, h);
    lemma_lookup_append(d.side, d.blocks, h);
    assert(d.side.last() == l.blocks.last());
}

/// A hash that no block carries is not found.
proof fn lemma_lookup_misses(blocks: Seq<BlockView>, hash: Seq<u8>)
    requires
        forall|n: int| 0 <= n < blocks.len() ==> #[trigger] blocks[n].hash != hash,
    ensures
        lookup(blocks, hash) is None,
    decreases blocks.len(),
{
    if blocks.len() > 0 {
        let init = blocks.drop_last();
        assert forall|n: int| 0 <= n < init.len() implies #[trigger] init[n].hash != hash by {
            assert(init[n] == blocks[n]);
        }
        lemma_lookup_misses(init, hash);
    }
}

} // verus!
