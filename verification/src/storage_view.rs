//! The storage keys that a chain occupies, and what the de-commit batch
//! does to them.
use vstd::prelude::*;
use crate::block::{
    cm_deletes, decommit_head_ops, decommit_ops, decommit_tail_ops, sn_deletes, transaction_ops,
    transactions_ops,
};
use crate::columns::{
    all_deletes, apply_ops, apply_op, deleted_keys, lemma_apply_deletes, lemma_apply_ops_append,
    lemma_le_bytes, le_bytes, spec_key_best_block_number, spec_key_curr_cm_index,
    spec_key_curr_memo_index, spec_key_curr_sn_index, OpSpec, StorageKey, StorageMap,
    COL_BLOCK_LOCATOR, COL_COMMITMENT, COL_DIGEST, COL_MEMO, COL_META, COL_SERIAL_NUMBER,
};
use crate::keys::{carries_memo, creates, spends, transactions_keys};
use crate::ledger::LedgerView;
use crate::objects::{BlockView, TransactionView};

verus! {

/// The meta keys of the best block number and of the three indexes.
pub open spec fn meta_keys() -> Set<StorageKey> {
    set![
        (COL_META, spec_key_best_block_number()),
        (COL_META, spec_key_curr_sn_index()),
        (COL_META, spec_key_curr_cm_index()),
        (COL_META, spec_key_curr_memo_index()),
    ]
}

/// The keys of the block at height `n`: its transactions' keys, both of
/// its block locator entries, and its digest.
pub open spec fn block_keys(b: BlockView, n: int) -> Set<StorageKey> {
    transactions_keys(b.transactions).union(
        set![
            (COL_BLOCK_LOCATOR, le_bytes(n as u32)),
            (COL_BLOCK_LOCATOR, b.hash),
            (COL_DIGEST, b.digest),
        ],
    )
}

/// The keys that a chain occupies in the columns that a de-commit writes.
pub open spec fn storage_keys(l: LedgerView) -> Set<StorageKey> {
    meta_keys().union(
        Set::new(
            |k: StorageKey|
                exists|n: int| 0 <= n < l.blocks.len() && #[trigger] block_keys(l.blocks[n], n).contains(k),
        ),
    )
}

/// The ledger digest after the latest block is not the digest after a
/// block below it. (A valid chain already rules out a shared hash, serial
/// number, commitment or memo.)
pub open spec fn latest_digest_fresh(l: LedgerView) -> bool {
    forall|n: int| 0 <= n < l.height() ==> (#[trigger] l.blocks[n]).digest != l.blocks[l.height()].digest
}

proof fn lemma_transaction_ops_deletes(tx: TransactionView)
    ensures
        all_deletes(transaction_ops(tx)),
        deleted_keys(transaction_ops(tx)) == transactions_keys(seq![tx]),
{
    let ops = transaction_ops(tx);
    let s = sn_deletes(tx.serial_numbers);
    let c = cm_deletes(tx.commitments);
    assert(ops == s + c + seq![OpSpec::Delete { col: COL_MEMO, key: tx.memo }]);
    assert forall|i: int| 0 <= i < ops.len() implies #[trigger] ops[i] is Delete by {
        if i < s.len() {
            assert(ops[i] == s[i]);
        } else if i < s.len() + c.len() {
            assert(ops[i] == c[i - s.len()]);
        }
    }
    let txs = seq![tx];
    assert forall|k: StorageKey| #[trigger] deleted_keys(ops).contains(k) == transactions_keys(txs).contains(k) by {
        if deleted_keys(ops).contains(k) {
            let i = choose|i: int| 0 <= i < ops.len() && #[trigger] ops[i] == (OpSpec::Delete { col: k.0, key: k.1 });
            if i < s.len() {
                assert(ops[i] == s[i]);
                assert(txs[0].serial_numbers[i] == k.1);
            } else if i < s.len() + c.len() {
                assert(ops[i] == c[i - s.len()]);
                assert(txs[0].commitments[i - s.len()] == k.1);
            } else {
                assert(txs[0].memo == k.1);
            }
        }
        if transactions_keys(txs).contains(k) {
            if k.0 == COL_SERIAL_NUMBER && spends(txs, k.1) {
                let (t, i) = choose|t: int, i: int|
                    0 <= t < txs.len() && 0 <= i < txs[t].serial_numbers.len()
                        && #[trigger] txs[t].serial_numbers[i] == k.1;
                assert(ops[i] == s[i]);
            } else if k.0 == COL_COMMITMENT && creates(txs, k.1) {
                let (t, i) = choose|t: int, i: int|
                    0 <= t < txs.len() && 0 <= i < txs[t].commitments.len()
                        && #[trigger] txs[t].commitments[i] == k.1;
                assert(ops[s.len() + i] == c[i]);
            } else {
                assert(k.0 == COL_MEMO && carries_memo(txs, k.1));
                let t = choose|t: int| 0 <= t < txs.len() && #[trigger] txs[t].memo == k.1;
                assert(ops[(s.len() + c.len()) as int] == (OpSpec::Delete { col: COL_MEMO, key: tx.memo }));
            }
        }
    }
    assert(deleted_keys(ops) =~= transactions_keys(txs));
}

proof fn lemma_deletes_append(a: Seq<OpSpec>, b: Seq<OpSpec>)
    requires
        all_deletes(a),
        all_deletes(b),
    ensures
        all_deletes(a + b),
        deleted_keys(a + b) == deleted_keys(a).union(deleted_keys(b)),
{
    let ab = a + b;
    assert forall|i: int| 0 <= i < ab.len() implies #[trigger] ab[i] is Delete by {
        if i < a.len() {
            assert(ab[i] == a[i]);
        } else {
            assert(ab[i] == b[i - a.len()]);
        }
    }
    assert forall|k: StorageKey| #[trigger] deleted_keys(ab).contains(k) == deleted_keys(a).union(
        deleted_keys(b),
    ).contains(k) by {
        let d = OpSpec::Delete { col: k.0, key: k.1 };
        if deleted_keys(ab).contains(k) {
            let i = choose|i: int| 0 <= i < ab.len() && #[trigger] ab[i] == d;
            if i < a.len() {
                assert(a[i] == ab[i]);
            } else {
                assert(b[i - a.len()] == ab[i]);
            }
        }
        if deleted_keys(a).contains(k) {
            let i = choose|i: int| 0 <= i < a.len() && #[trigger] a[i] == d;
            assert(ab[i] == a[i]);
        }
        if deleted_keys(b).contains(k) {
            let i = choose|i: int| 0 <= i < b.len() && #[trigger] b[i] == d;
            assert(ab[a.len() + i] == b[i]);
        }
    }
    assert(deleted_keys(ab) =~= deleted_keys(a).union(deleted_keys(b)));
}

proof fn lemma_transactions_keys_push(init: Seq<TransactionView>, tx: TransactionView)
    ensures
        transactions_keys(init.push(tx)) == transactions_keys(init).union(transactions_keys(seq![tx])),
{
    let all = init.push(tx);
    let one = seq![tx];
    assert forall|k: StorageKey| #[trigger] transactions_keys(all).contains(k) == transactions_keys(
        init,
    ).union(transactions_keys(one)).contains(k) by {
        if k.0 == COL_SERIAL_NUMBER {
            if spends(all, k.1) {
                let (t, i) = choose|t: int, i: int|
                    0 <= t < all.len() && 0 <= i < all[t].serial_numbers.len()
                        && #[trigger] all[t].serial_numbers[i] == k.1;
                if t < init.len() {
                    assert(init[t] == all[t]);
                } else {
                    assert(one[0] == all[t]);
                }
            }
            if spends(init, k.1) {
                let (t, i) = choose|t: int, i: int|
                    0 <= t < init.len() && 0 <= i < init[t].serial_numbers.len()
                        && #[trigger] init[t].serial_numbers[i] == k.1;
                assert(all[t] == init[t]);
            }
            if spends(one, k.1) {
                let (t, i) = choose|t: int, i: int|
                    0 <= t < one.len() && 0 <= i < one[t].serial_numbers.len()
                        && #[trigger] one[t].serial_numbers[i] == k.1;
                assert(all[init.len() as int] == one[t]);
            }
        }
        if k.0 == COL_COMMITMENT {
            if creates(all, k.1) {
                let (t, i) = choose|t: int, i: int|
                    0 <= t < all.len() && 0 <= i < all[t].commitments.len()
                        && #[trigger] all[t].commitments[i] == k.1;
                if t < init.len() {
                    assert(init[t] == all[t]);
                } else {
                    assert(one[0] == all[t]);
                }
            }
            if creates(init, k.1) {
                let (t, i) = choose|t: int, i: int|
                    0 <= t < init.len() && 0 <= i < init[t].commitments.len()
                        && #[trigger] init[t].commitments[i] == k.1;
                assert(all[t] == init[t]);
            }
            if creates(one, k.1) {
                let (t, i) = choose|t: int, i: int|
                    0 <= t < one.len() && 0 <= i < one[t].commitments.len()
                        && #[trigger] one[t].commitments[i] == k.1;
                assert(all[init.len() as int] == one[t]);
            }
        }
        if k.0 == COL_MEMO {
            if carries_memo(all, k.1) {
                let t = choose|t: int| 0 <= t < all.len() && #[trigger] all[t].memo == k.1;
                if t < init.len() {
                    assert(init[t] == all[t]);
                } else {
                    assert(one[0] == all[t]);
                }
            }
            if carries_memo(init, k.1) {
                let t = choose|t: int| 0 <= t < init.len() && #[trigger] init[t].memo == k.1;
                assert(all[t] == init[t]);
            }
            if carries_memo(one, k.1) {
                let t = choose|t: int| 0 <= t < one.len() && #[trigger] one[t].memo == k.1;
                assert(all[init.len() as int] == one[t]);
            }
        }
    }
    assert(transactions_keys(all) =~= transactions_keys(init).union(transactions_keys(one)));
}

/// The transaction part of the batch deletes exactly the transactions'
/// serial number, commitment and memo keys.
proof fn lemma_transactions_ops_deletes(txs: Seq<TransactionView>)
    ensures
        all_deletes(transactions_ops(txs)),
        deleted_keys(transactions_ops(txs)) == transactions_keys(txs),
    decreases txs.len(),
{
    if txs.len() == 0 {
        let ops = transactions_ops(txs);
        assert(deleted_keys(ops) =~= Set::<StorageKey>::empty());
        assert(transactions_keys(txs) =~= Set::<StorageKey>::empty());
    } else {
        let init = txs.drop_last();
        lemma_transactions_ops_deletes(init);
        lemma_transaction_ops_deletes(txs.last());
        lemma_deletes_append(transactions_ops(init), transaction_ops(txs.last()));
        assert(init.push(txs.last()) =~= txs);
        lemma_transactions_keys_push(init, txs.last());
    }
}

/// The keys of a chain are those of the chain below its latest block and
/// those of the latest block; when the latest block is fresh, the two share
/// no key.
proof fn lemma_storage_keys_split(l: LedgerView)
    requires
        l.valid(),
        l.height() > 0,
        latest_digest_fresh(l),
    ensures
        storage_keys(l) == storage_keys(l.decommitted()).union(
            block_keys(l.blocks[l.height()], l.height()),
        ),
        storage_keys(l.decommitted()).disjoint(block_keys(l.blocks[l.height()], l.height())),
{
    let h = l.height();
    let b = l.blocks[h];
    let p = l.decommitted();
    let bk = block_keys(b, h);
    assert forall|k: StorageKey| #[trigger] storage_keys(l).contains(k) == storage_keys(p).union(
        bk,
    ).contains(k) by {
        if storage_keys(l).contains(k) && !meta_keys().contains(k) {
            let n = choose|n: int| 0 <= n < l.blocks.len() && #[trigger] block_keys(l.blocks[n], n).contains(k);
            if n < h {
                assert(p.blocks[n] == l.blocks[n]);
            }
        }
        if storage_keys(p).contains(k) && !meta_keys().contains(k) {
            let n = choose|n: int| 0 <= n < p.blocks.len() && #[trigger] block_keys(p.blocks[n], n).contains(k);
            assert(p.blocks[n] == l.blocks[n]);
        }
    }
    assert(storage_keys(l) =~= storage_keys(p).union(bk));
    assert forall|k: StorageKey| storage_keys(p).contains(k) implies !#[trigger] bk.contains(k) by {
        lemma_le_bytes(h as u32, h as u32);
        if meta_keys().contains(k) {
            assert(k.0 == COL_META);
        } else {
            let n = choose|n: int| 0 <= n < p.blocks.len() && #[trigger] block_keys(p.blocks[n], n).contains(k);
            let bn = l.blocks[n];
            assert(p.blocks[n] == bn);
            lemma_le_bytes(n as u32, h as u32);
            assert(bn.hash.len() == 32);
            assert(b.hash.len() == 32);
            assert(bn.hash != l.blocks[h].hash);
            if transactions_keys(bn.transactions).contains(k) {
                assert(transactions_keys(l.blocks[n].transactions).disjoint(
                    transactions_keys(l.blocks[h].transactions),
                ));
                assert(!transactions_keys(b.transactions).contains(k));
            }
        }
    }
}

proof fn lemma_apply_two(m: StorageMap, a: OpSpec, b: OpSpec)
    ensures
        apply_ops(m, seq![a, b]) == apply_op(apply_op(m, a), b),
{
    let s = seq![a, b];
    let s1 = seq![a];
    assert(s.drop_last() =~= s1);
    assert(s1.drop_last() =~= Seq::<OpSpec>::empty());
    assert(apply_ops(m, s1.drop_last()) == m);
    assert(apply_ops(m, s1) == apply_op(m, a));
    assert(apply_ops(m, s) == apply_op(apply_ops(m, s1), b));
}

proof fn lemma_apply_five(m: StorageMap, a: OpSpec, b: OpSpec, c: OpSpec, d: OpSpec, e: OpSpec)
    ensures
        apply_ops(m, seq![a, b, c, d, e]) == apply_op(
            apply_op(apply_op(apply_op(apply_op(m, a), b), c), d),
            e,
        ),
{
    let s5 = seq![a, b, c, d, e];
    let s4 = seq![a, b, c, d];
    let s3 = seq![a, b, c];
    assert(s5.drop_last() =~= s4);
    assert(s4.drop_last() =~= s3);
    assert(s3.drop_last() =~= seq![a, b]);
    lemma_apply_two(m, a, b);
    assert(apply_ops(m, s3) == apply_op(apply_ops(m, seq![a, b]), c));
    assert(apply_ops(m, s4) == apply_op(apply_ops(m, s3), d));
    assert(apply_ops(m, s5) == apply_op(apply_ops(m, s4), e));
}

/// Law: applying the de-commit batch to a storage whose keys are those of a
/// chain leaves exactly the keys of the chain without its latest block;
/// the best block number and the three indexes take the values of that
/// shorter chain, and every other remaining key keeps its value. This holds
/// when the latest digest is not the digest of a lower block.
pub proof fn lemma_decommit_batch_on_storage(l: LedgerView, m: StorageMap)
    requires
        l.valid(),
        l.height() > 0,
        latest_digest_fresh(l),
        m.dom() == storage_keys(l),
    ensures
        apply_ops(m, decommit_ops(l)).dom() == storage_keys(l.decommitted()),
        apply_ops(m, decommit_ops(l))[(COL_META, spec_key_best_block_number())] == le_bytes(
            l.decommitted().height() as u32,
        ),
        apply_ops(m, decommit_ops(l))[(COL_META, spec_key_curr_sn_index())] == le_bytes(
            l.decommitted().sn_index() as u32,
        ),
        apply_ops(m, decommit_ops(l))[(COL_META, spec_key_curr_cm_index())] == le_bytes(
            l.decommitted().cm_index() as u32,
        ),
        apply_ops(m, decommit_ops(l))[(COL_META, spec_key_curr_memo_index())] == le_bytes(
            l.decommitted().memo_index() as u32,
        ),
        forall|k: StorageKey|
            storage_keys(l.decommitted()).contains(k) && !meta_keys().contains(k) ==> #[trigger] apply_ops(
                m,
                decommit_ops(l),
            )[k] == m[k],
{
    let h = l.height();
    let b = l.blocks[h];
    let p = l.decommitted();
    let head = decommit_head_ops(l);
    let txops = transactions_ops(b.transactions);
    let tail = decommit_tail_ops(l);
    assert(b == l.blocks.last());
    lemma_apply_ops_append(m, head + txops, tail);
    lemma_apply_ops_append(m, head, txops);
    lemma_apply_two(m, head[0], head[1]);
    assert(head =~= seq![head[0], head[1]]);
    let m1 = apply_ops(m, head);
    lemma_transactions_ops_deletes(b.transactions);
    lemma_apply_deletes(m1, txops);
    let tk = transactions_keys(b.transactions);
    let m2 = apply_ops(m1, txops);
    assert(m2 == m1.remove_keys(tk));
    assert(tail =~= seq![tail[0], tail[1], tail[2], tail[3], tail[4]]);
    lemma_apply_five(m2, tail[0], tail[1], tail[2], tail[3], tail[4]);
    let after = apply_ops(m, decommit_ops(l));
    assert(after == apply_ops(m2, tail));
    lemma_storage_keys_split(l);
    lemma_le_bytes(h as u32, h as u32);
    let bk = block_keys(b, h);
    let best = (COL_META, spec_key_best_block_number());
    let skey = (COL_META, spec_key_curr_sn_index());
    let ckey = (COL_META, spec_key_curr_cm_index());
    let mkey = (COL_META, spec_key_curr_memo_index());
    let lock = (COL_BLOCK_LOCATOR, le_bytes(h as u32));
    let hkey = (COL_BLOCK_LOCATOR, b.hash);
    let dkey = (COL_DIGEST, b.digest);
    assert(after == m2.insert(skey, le_bytes(p.sn_index() as u32)).insert(
        ckey,
        le_bytes(p.cm_index() as u32),
    ).insert(mkey, le_bytes(p.memo_index() as u32)).remove(lock).remove(hkey));
    assert(m1 == m.insert(best, le_bytes((h - 1) as u32)).remove(dkey));
    assert forall|k: StorageKey| #[trigger] after.dom().contains(k) == storage_keys(p).contains(k) by {
        if meta_keys().contains(k) {
            assert(storage_keys(p).contains(k));
        } else {
            assert(k != best && k != skey && k != ckey && k != mkey);
            if storage_keys(p).contains(k) {
                assert(!bk.contains(k));
                assert(storage_keys(l).contains(k));
            }
            if after.dom().contains(k) {
                assert(m.dom().contains(k));
                assert(!bk.contains(k));
            }
        }
    }
    assert(after.dom() =~= storage_keys(p));
}

} // verus!
