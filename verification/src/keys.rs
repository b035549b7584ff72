//! The serial number, commitment and memo keys that transactions occupy,
//! and the searches for them.
use vstd::prelude::*;
use crate::columns::{StorageKey, COL_COMMITMENT, COL_MEMO, COL_SERIAL_NUMBER};
use crate::objects::{transactions_view, TransactionRecord, TransactionView};

verus! {

/// Whether one of the transactions spends this serial number.
pub open spec fn spends(txs: Seq<TransactionView>, sn: Seq<u8>) -> bool {
    exists|t: int, i: int|
        0 <= t < txs.len() && 0 <= i < txs[t].serial_numbers.len()
            && #[trigger] txs[t].serial_numbers[i] == sn
}

/// Whether one of the transactions creates this commitment.
pub open spec fn creates(txs: Seq<TransactionView>, cm: Seq<u8>) -> bool {
    exists|t: int, i: int|
        0 <= t < txs.len() && 0 <= i < txs[t].commitments.len() && #[trigger] txs[t].commitments[i]
            == cm
}

/// Whether one of the transactions carries this memo.
pub open spec fn carries_memo(txs: Seq<TransactionView>, memo: Seq<u8>) -> bool {
    exists|t: int| 0 <= t < txs.len() && #[trigger] txs[t].memo == memo
}

/// The serial number, commitment and memo keys of the transactions.
pub open spec fn transactions_keys(txs: Seq<TransactionView>) -> Set<StorageKey> {
    Set::new(
        |k: StorageKey|
            (k.0 == COL_SERIAL_NUMBER && spends(txs, k.1)) || (k.0 == COL_COMMITMENT && creates(
                txs,
                k.1,
            )) || (k.0 == COL_MEMO && carries_memo(txs, k.1)),
    )
}

/// Whether the two byte strings are equal.
pub fn bytes_equal(a: &Vec<u8>, b: &Vec<u8>) -> (r: bool)
    ensures
        r == (a@ == b@),
{
    if a.len() != b.len() {
        return false;
    }
    let mut i: usize = 0;
    while i < a.len()
        invariant
            0 <= i <= a.len(),
            a.len() == b.len(),
            forall|k: int| 0 <= k < i ==> a@[k] == b@[k],
        decreases a.len() - i,
    {
        if a[i] != b[i] {
            return false;
        }
        i = i + 1;
    }
    assert(a@ =~= b@);
    true
}

/// Whether one of the byte strings equals `x`.
pub fn contains_bytes(v: &Vec<Vec<u8>>, x: &Vec<u8>) -> (r: bool)
    ensures
        r == exists|i: int| 0 <= i < v.len() && #[trigger] v@[i]@ == x@,
{
    let mut i: usize = 0;
    while i < v.len()
        invariant
            0 <= i <= v.len(),
            forall|k: int| 0 <= k < i ==> #[trigger] v@[k]@ != x@,
        decreases v.len() - i,
    {
        if bytes_equal(&v[i], x) {
            return true;
        }
        i = i + 1;
    }
    false
}

/// Whether the transaction's entries in the column include `key`.
fn transaction_has_key(tx: &TransactionRecord, col: u32, key: &Vec<u8>) -> (r: bool)
    ensures
        r == transactions_keys(seq![tx@]).contains((col, key@)),
{
    let ghost txs = seq![tx@];
    proof {
        lemma_single_transaction_keys(tx@, col, key@);
    }
    if col == COL_SERIAL_NUMBER {
        let r = contains_bytes(&tx.serial_numbers, key);
        proof {
            if r {
                let i = choose|i: int| 0 <= i < tx.serial_numbers.len() && #[trigger] tx.serial_numbers@[i]@ == key@;
                assert(tx@.serial_numbers[i] == key@);
            }
        }
        r
    } else if col == COL_COMMITMENT {
        let r = contains_bytes(&tx.commitments, key);
        proof {
            if r {
                let i = choose|i: int| 0 <= i < tx.commitments.len() && #[trigger] tx.commitments@[i]@ == key@;
                assert(tx@.commitments[i] == key@);
            }
        }
        r
    } else if col == COL_MEMO {
        bytes_equal(&tx.memo, key)
    } else {
        false
    }
}

pub proof fn lemma_single_transaction_keys(tx: TransactionView, col: u32, key: Seq<u8>)
    ensures
        transactions_keys(seq![tx]).contains((col, key)) == (
        (col == COL_SERIAL_NUMBER && exists|i: int| 0 <= i < tx.serial_numbers.len() && #[trigger] tx.serial_numbers[i] == key)
        || (col == COL_COMMITMENT && exists|i: int| 0 <= i < tx.commitments.len() && #[trigger] tx.commitments[i] == key)
        || (col == COL_MEMO && tx.memo == key)),
{
    let txs = seq![tx];
    if exists|i: int| 0 <= i < tx.serial_numbers.len() && #[trigger] tx.serial_numbers[i] == key {
        let i = choose|i: int| 0 <= i < tx.serial_numbers.len() && #[trigger] tx.serial_numbers[i] == key;
        assert(txs[0].serial_numbers[i] == key);
    }
    if exists|i: int| 0 <= i < tx.commitments.len() && #[trigger] tx.commitments[i] == key {
        let i = choose|i: int| 0 <= i < tx.commitments.len() && #[trigger] tx.commitments[i] == key;
        assert(txs[0].commitments[i] == key);
    }
    if tx.memo == key {
        assert(txs[0].memo == key);
    }
}

/// A key of some transaction is a key of the transactions, and the other
/// way round.
pub proof fn lemma_transactions_keys_some(txs: Seq<TransactionView>, k: StorageKey)
    ensures
        transactions_keys(txs).contains(k) == exists|t: int|
            0 <= t < txs.len() && #[trigger] transactions_keys(seq![txs[t]]).contains(k),
{
    if transactions_keys(txs).contains(k) {
        if k.0 == COL_SERIAL_NUMBER && spends(txs, k.1) {
            let (t, i) = choose|t: int, i: int|
                0 <= t < txs.len() && 0 <= i < txs[t].serial_numbers.len()
                    && #[trigger] txs[t].serial_numbers[i] == k.1;
            lemma_single_transaction_keys(txs[t], k.0, k.1);
            assert(transactions_keys(seq![txs[t]]).contains(k));
        } else if k.0 == COL_COMMITMENT && creates(txs, k.1) {
            let (t, i) = choose|t: int, i: int|
                0 <= t < txs.len() && 0 <= i < txs[t].commitments.len()
                    && #[trigger] txs[t].commitments[i] == k.1;
            lemma_single_transaction_keys(txs[t], k.0, k.1);
            assert(transactions_keys(seq![txs[t]]).contains(k));
        } else {
            let t = choose|t: int| 0 <= t < txs.len() && #[trigger] txs[t].memo == k.1;
            lemma_single_transaction_keys(txs[t], k.0, k.1);
            assert(transactions_keys(seq![txs[t]]).contains(k));
        }
    }
    if exists|t: int| 0 <= t < txs.len() && #[trigger] transactions_keys(seq![txs[t]]).contains(k) {
        let t = choose|t: int| 0 <= t < txs.len() && #[trigger] transactions_keys(seq![txs[t]]).contains(k);
        lemma_single_transaction_keys(txs[t], k.0, k.1);
        if k.0 == COL_SERIAL_NUMBER {
            let i = choose|i: int| 0 <= i < txs[t].serial_numbers.len() && #[trigger] txs[t].serial_numbers[i] == k.1;
            assert(spends(txs, k.1));
        } else if k.0 == COL_COMMITMENT {
            let i = choose|i: int| 0 <= i < txs[t].commitments.len() && #[trigger] txs[t].commitments[i] == k.1;
            assert(creates(txs, k.1));
        } else {
            assert(carries_memo(txs, k.1));
        }
    }
}

/// Whether the transactions' entries in the column include `key`.
pub fn transactions_have_key(txs: &Vec<TransactionRecord>, col: u32, key: &Vec<u8>) -> (r: bool)
    ensures
        r == transactions_keys(transactions_view(txs@)).contains((col, key@)),
{
    let ghost v = transactions_view(txs@);
    proof {
        lemma_transactions_keys_some(v, (col, key@));
    }
    let mut t: usize = 0;
    while t < txs.len()
        invariant
            0 <= t <= txs.len(),
            v == transactions_view(txs@),
            forall|u: int| 0 <= u < t ==> !#[trigger] transactions_keys(seq![v[u]]).contains((col, key@)),
        decreases txs.len() - t,
    {
        if transaction_has_key(&txs[t], col, key) {
            assert(transactions_keys(seq![v[t as int]]).contains((col, key@)));
            return true;
        }
        t = t + 1;
    }
    false
}

} // verus!
