//! The ledger: the canonical chain from the genesis block to the latest
//! block, with the serial number, commitment and memo indexes that count
//! what the chain holds.
use vstd::prelude::*;
use crate::columns::{StorageKey, COL_COMMITMENT, COL_MEMO, COL_SERIAL_NUMBER};
use crate::keys::{
    lemma_single_transaction_keys, lemma_transactions_keys_some, transactions_have_key,
    transactions_keys,
};
use crate::objects::{
    transactions_view, BlockHeaderHash, BlockRecord, BlockView, StorageError, TransactionRecord,
    TransactionView,
};

verus! {

/// How many serial numbers the transactions spend.
pub open spec fn txs_sn_count(txs: Seq<TransactionView>) -> nat
    decreases txs.len(),
{
    if txs.len() == 0 {
        0
    } else {
        txs_sn_count(txs.drop_last()) + txs.last().serial_numbers.len()
    }
}

/// How many commitments the transactions create.
pub open spec fn txs_cm_count(txs: Seq<TransactionView>) -> nat
    decreases txs.len(),
{
    if txs.len() == 0 {
        0
    } else {
        txs_cm_count(txs.drop_last()) + txs.last().commitments.len()
    }
}

/// How many serial numbers the blocks spend.
pub open spec fn chain_sn_count(blocks: Seq<BlockView>) -> nat
    decreases blocks.len(),
{
    if blocks.len() == 0 {
        0
    } else {
        chain_sn_count(blocks.drop_last()) + txs_sn_count(blocks.last().transactions)
    }
}

/// How many commitments the blocks create.
pub open spec fn chain_cm_count(blocks: Seq<BlockView>) -> nat
    decreases blocks.len(),
{
    if blocks.len() == 0 {
        0
    } else {
        chain_cm_count(blocks.drop_last()) + txs_cm_count(blocks.last().transactions)
    }
}

/// How many memos the blocks hold: one per transaction.
pub open spec fn chain_memo_count(blocks: Seq<BlockView>) -> nat
    decreases blocks.len(),
{
    if blocks.len() == 0 {
        0
    } else {
        chain_memo_count(blocks.drop_last()) + blocks.last().transactions.len()
    }
}

/// The latest of the blocks with this header hash.
pub open spec fn lookup(blocks: Seq<BlockView>, hash: Seq<u8>) -> Option<BlockView>
    decreases blocks.len(),
{
    if blocks.len() == 0 {
        None
    } else if blocks.last().hash == hash {
        Some(blocks.last())
    } else {
        lookup(blocks.drop_last(), hash)
    }
}

/// The ledger: the canonical chain, where `blocks[n]` is the block at
/// height `n`, and the blocks that stay stored off the canonical chain
/// since they were de-committed, oldest first.
pub struct LedgerView {
    pub blocks: Seq<BlockView>,
    pub side: Seq<BlockView>,
}

impl LedgerView {
    /// The height of the latest block.
    pub open spec fn height(self) -> int {
        self.blocks.len() - 1
    }

    /// The header hash of the block at height `n`.
    pub open spec fn hash_at(self, n: int) -> Seq<u8> {
        self.blocks[n].hash
    }

    /// Whether a block with this header hash is on the canonical chain.
    pub open spec fn is_canon(self, hash: Seq<u8>) -> bool {
        exists|n: int| 0 <= n < self.blocks.len() && #[trigger] self.blocks[n].hash == hash
    }

    /// The ledger digest after the latest block.
    pub open spec fn digest(self) -> Seq<u8> {
        self.blocks.last().digest
    }

    pub open spec fn sn_index(self) -> nat {
        chain_sn_count(self.blocks)
    }

    pub open spec fn cm_index(self) -> nat {
        chain_cm_count(self.blocks)
    }

    pub open spec fn memo_index(self) -> nat {
        chain_memo_count(self.blocks)
    }

    /// The stored block with this header hash: the canonical one, or else
    /// the one de-committed last.
    pub open spec fn stored_block(self, hash: Seq<u8>) -> Option<BlockView> {
        lookup(self.side + self.blocks, hash)
    }

    /// Whether a canonical block's transactions hold this key.
    pub open spec fn chain_has_key(self, k: StorageKey) -> bool {
        exists|n: int| 0 <= n < self.blocks.len() && #[trigger] transactions_keys(self.blocks[n].transactions).contains(k)
    }

    /// Whether the transactions hold a key of the column that a canonical
    /// block's transactions hold too.
    pub open spec fn conflicts(self, txs: Seq<TransactionView>, col: u32) -> bool {
        exists|key: Seq<u8>| #[trigger] transactions_keys(txs).contains((col, key)) && self.chain_has_key((col, key))
    }

    /// No serial number, commitment or memo is in two canonical blocks.
    pub open spec fn transaction_keys_disjoint(self) -> bool {
        forall|i: int, j: int|
            #![trigger self.blocks[i], self.blocks[j]]
            0 <= i < j < self.blocks.len() ==> transactions_keys(self.blocks[i].transactions).disjoint(
                transactions_keys(self.blocks[j].transactions),
            )
    }

    /// No two canonical blocks have the same header hash.
    pub open spec fn hashes_distinct(self) -> bool {
        forall|i: int, j: int|
            0 <= i < j < self.blocks.len() ==> #[trigger] self.blocks[i].hash != #[trigger] self.blocks[j].hash
    }

    /// The chain with one more block on top.
    pub open spec fn extended(self, block: BlockView) -> LedgerView {
        LedgerView { blocks: self.blocks.push(block), side: self.side }
    }

    /// The chain without its latest block, which stays stored off the
    /// canonical chain.
    pub open spec fn decommitted(self) -> LedgerView {
        LedgerView { blocks: self.blocks.drop_last(), side: self.side.push(self.blocks.last()) }
    }

    /// A chain starts with a genesis block, its canonical hashes are
    /// distinct and 32 bytes long, no serial number, commitment or memo is
    /// in two of its blocks, and its height and indexes fit in a `u32`.
    pub open spec fn valid(self) -> bool {
        &&& self.blocks.len() >= 1
        &&& self.hashes_distinct()
        &&& self.transaction_keys_disjoint()
        &&& forall|n: int| 0 <= n < self.blocks.len() ==> (#[trigger] self.blocks[n]).hash.len() == 32
        &&& self.height() <= u32::MAX
        &&& self.sn_index() <= u32::MAX
        &&& self.cm_index() <= u32::MAX
        &&& self.memo_index() <= u32::MAX
    }
}

/// Law: a committed block becomes the latest canonical block, one above the
/// previous latest block, and every block below it keeps its height.
pub proof fn lemma_committed_block_is_latest(l: LedgerView, block: BlockView)
    requires
        l.valid(),
    ensures
        l.extended(block).height() == l.height() + 1,
        l.extended(block).hash_at(l.extended(block).height()) == block.hash,
        l.extended(block).is_canon(block.hash),
        forall|n: int| 0 <= n <= l.height() ==> #[trigger] l.extended(block).hash_at(n) == l.hash_at(n),
{
    let e = l.extended(block);
    assert(e.blocks[e.height()].hash == block.hash);
}

/// The ledger.
pub struct Ledger {
    current_block_height: u32,
    blocks: Vec<BlockRecord>,
    side: Vec<BlockRecord>,
    sn_index: u32,
    cm_index: u32,
    memo_index: u32,
}

impl View for Ledger {
    type V = LedgerView;

    closed spec fn view(&self) -> LedgerView {
        LedgerView {
            blocks: self.blocks@.map_values(|b: BlockRecord| b@),
            side: self.side@.map_values(|b: BlockRecord| b@),
        }
    }
}

/// A block none of whose serial numbers, commitments and memos is in a
/// block of a chain keeps the chain's transaction keys disjoint when it is
/// put on top.
proof fn lemma_extended_keys_disjoint(l: LedgerView, b: BlockView)
    requires
        l.transaction_keys_disjoint(),
        !l.conflicts(b.transactions, COL_SERIAL_NUMBER),
        !l.conflicts(b.transactions, COL_COMMITMENT),
        !l.conflicts(b.transactions, COL_MEMO),
    ensures
        l.extended(b).transaction_keys_disjoint(),
{
    let e = l.extended(b);
    assert forall|i: int, j: int| 0 <= i < j < e.blocks.len() implies #[trigger] transactions_keys(e.blocks[i].transactions).disjoint(
        transactions_keys(e.blocks[j].transactions),
    ) by {
        assert(e.blocks[i] == l.blocks[i]);
        if j < l.blocks.len() {
            assert(e.blocks[j] == l.blocks[j]);
            assert(transactions_keys(l.blocks[i].transactions).disjoint(transactions_keys(l.blocks[j].transactions)));
        } else {
            assert(e.blocks[j] == b);
            assert forall|k: StorageKey| transactions_keys(l.blocks[i].transactions).contains(k) implies !#[trigger] transactions_keys(
                b.transactions,
            ).contains(k) by {
                if transactions_keys(b.transactions).contains(k) {
                    assert(l.chain_has_key(k));
                    assert(transactions_keys(b.transactions).contains((k.0, k.1)));
                }
            }
        }
    }
}

/// Looking a hash up in two runs of blocks finds it in the later run
/// first.
pub proof fn lemma_lookup_append(a: Seq<BlockView>, b: Seq<BlockView>, hash: Seq<u8>)
    ensures
        lookup(a + b, hash) == (match lookup(b, hash) {
            Some(x) => Some(x),
            None => lookup(a, hash),
        }),
    decreases b.len(),
{
    if b.len() == 0 {
        assert(a + b =~= a);
    } else {
        assert((a + b).drop_last() =~= a + b.drop_last());
        assert((a + b).last() == b.last());
        lemma_lookup_append(a, b.drop_last(), hash);
    }
}

/// The index of the latest of the blocks with this header hash.
fn find_latest(blocks: &Vec<BlockRecord>, hash: &BlockHeaderHash) -> (r: Option<usize>)
    ensures
        match lookup(blocks@.map_values(|b: BlockRecord| b@), hash@) {
            Some(x) => r matches Some(i) && i < blocks.len() && blocks@[i as int]@ == x,
            None => r is None,
        },
{
    let ghost v = blocks@.map_values(|b: BlockRecord| b@);
    let mut i: usize = blocks.len();
    assert(v.take(i as int) =~= v);
    while i > 0
        invariant
            0 <= i <= blocks.len(),
            v == blocks@.map_values(|b: BlockRecord| b@),
            lookup(v, hash@) == lookup(v.take(i as int), hash@),
        decreases i,
    {
        let ghost t = v.take(i as int);
        assert(t.last() == v[i - 1]);
        assert(t.drop_last() =~= v.take(i - 1));
        if blocks[i - 1].hash.same_as(hash) {
            return Some(i - 1);
        }
        i = i - 1;
    }
    assert(v.take(0) =~= Seq::<BlockView>::empty());
    None
}

/// The serial number, commitment and memo counts of the transactions, when
/// each fits in a `u32`.
pub fn count_indexes(txs: &Vec<TransactionRecord>) -> (r: Option<(u32, u32, u32)>)
    ensures
        ({
            let v = transactions_view(txs@);
            match r {
                Some((sn, cm, memo)) => {
                    &&& sn == txs_sn_count(v)
                    &&& cm == txs_cm_count(v)
                    &&& memo == v.len()
                },
                None => txs_sn_count(v) > u32::MAX || txs_cm_count(v) > u32::MAX || v.len() > u32::MAX,
            }
        }),
{
    let ghost v = transactions_view(txs@);
    let mut sn: u32 = 0;
    let mut cm: u32 = 0;
    let mut i: usize = 0;
    while i < txs.len()
        invariant
            0 <= i <= txs.len(),
            v == transactions_view(txs@),
            sn == txs_sn_count(v.take(i as int)),
            cm == txs_cm_count(v.take(i as int)),
            i <= u32::MAX,
        decreases txs.len() - i,
    {
        assert(v.take(i + 1).drop_last() =~= v.take(i as int));
        let nsn = txs[i].serial_numbers.len();
        let ncm = txs[i].commitments.len();
        proof {
            lemma_txs_sn_count_prefix_mono(v, i as int + 1, v.len() as int);
            lemma_txs_cm_count_prefix_mono(v, i as int + 1, v.len() as int);
            assert(v.take(v.len() as int) =~= v);
        }
        if nsn > u32::MAX as usize || ncm > u32::MAX as usize {
            return None;
        }
        if sn as u64 + nsn as u64 > u32::MAX as u64 || cm as u64 + ncm as u64 > u32::MAX as u64 {
            return None;
        }
        if i == u32::MAX as usize {
            return None;
        }
        sn = sn + nsn as u32;
        cm = cm + ncm as u32;
        i = i + 1;
    }
    assert(v.take(i as int) =~= v);
    Some((sn, cm, i as u32))
}

/// The serial number count of a prefix of the transactions grows with the
/// prefix.
pub proof fn lemma_txs_sn_count_prefix_mono(v: Seq<TransactionView>, i: int, j: int)
    requires
        0 <= i <= j <= v.len(),
    ensures
        txs_sn_count(v.take(i)) <= txs_sn_count(v.take(j)),
    decreases j - i,
{
    if i < j {
        lemma_txs_sn_count_prefix_mono(v, i, j - 1);
        assert(v.take(j).drop_last() =~= v.take(j - 1));
    }
}

/// The commitment count of a prefix of the transactions grows with the
/// prefix.
pub proof fn lemma_txs_cm_count_prefix_mono(v: Seq<TransactionView>, i: int, j: int)
    requires
        0 <= i <= j <= v.len(),
    ensures
        txs_cm_count(v.take(i)) <= txs_cm_count(v.take(j)),
    decreases j - i,
{
    if i < j {
        lemma_txs_cm_count_prefix_mono(v, i, j - 1);
        assert(v.take(j).drop_last() =~= v.take(j - 1));
    }
}


impl Ledger {
    /// The ledger's fields agree with the chain that it holds.
    pub closed spec fn wf(&self) -> bool {
        &&& self@.valid()
        &&& self.current_block_height == self@.height()
        &&& self.sn_index == self@.sn_index()
        &&& self.cm_index == self@.cm_index()
        &&& self.memo_index == self@.memo_index()
    }

    /// A well-formed ledger holds a valid chain.
    pub proof fn lemma_wf_valid(&self)
        requires
            self.wf(),
        ensures
            self@.valid(),
    {
    }

    /// A ledger whose chain is the genesis block alone; `IndexOverflow`
    /// when the genesis block holds more serial numbers, commitments or
    /// transactions than a `u32` counts.
    pub fn new(genesis: BlockRecord) -> (r: Result<Ledger, StorageError>)
        ensures
            match r {
                Ok(l) => l.wf() && l@.blocks == seq![genesis@] && l@.side == Seq::<BlockView>::empty(),
                Err(e) => {
                    &&& e == StorageError::IndexOverflow
                    &&& !(LedgerView { blocks: seq![genesis@], side: Seq::empty() }).valid()
                },
            },
    {
        let ghost g = genesis@;
        let counts = count_indexes(&genesis.transactions);
        proof {
            broadcast use vstd::array::group_array_axioms;
            assert(g.hash.len() == 32);
            let s = seq![g];
            assert(s.drop_last() =~= Seq::<BlockView>::empty());
            assert(s.last() == g);
            assert(chain_sn_count(s.drop_last()) == 0);
            assert(chain_cm_count(s.drop_last()) == 0);
            assert(chain_memo_count(s.drop_last()) == 0);
            assert(chain_sn_count(s) == txs_sn_count(g.transactions));
            assert(chain_cm_count(s) == txs_cm_count(g.transactions));
            assert(chain_memo_count(s) == g.transactions.len());
        }
        match counts {
            None => Err(StorageError::IndexOverflow),
            Some((sn, cm, memo)) => {
                let mut blocks: Vec<BlockRecord> = Vec::new();
                blocks.push(genesis);
                let l = Ledger {
                    current_block_height: 0,
                    blocks,
                    side: Vec::new(),
                    sn_index: sn,
                    cm_index: cm,
                    memo_index: memo,
                };
                assert(l@.blocks =~= seq![g]);
                assert(l@.side =~= Seq::<BlockView>::empty());
                Ok(l)
            },
        }
    }

    /// Commits a block on top of the latest one. `ExistingCanonBlock` when a
    /// block with its hash is already on the canonical chain; else
    /// `ExistingSn`, `ExistingCm` or `ExistingMemo` when one of its serial
    /// numbers, commitments or memos (checked in that order) is already in a
    /// canonical block; else `IndexOverflow` when the height or an index
    /// would pass what a `u32` holds. On an error the ledger is unchanged.
    pub fn commit_block(&mut self, block: BlockRecord) -> (r: Result<(), StorageError>)
        requires
            old(self).wf(),
        ensures
            final(self).wf(),
            match r {
                Ok(()) => final(self)@ == old(self)@.extended(block@),
                Err(e) => {
                    &&& final(self)@ == old(self)@
                    &&& (e == StorageError::ExistingCanonBlock) == old(self)@.is_canon(block@.hash)
                    &&& (e == StorageError::ExistingSn) == (!old(self)@.is_canon(block@.hash)
                        && old(self)@.conflicts(block@.transactions, COL_SERIAL_NUMBER))
                    &&& (e == StorageError::ExistingCm) == (!old(self)@.is_canon(block@.hash)
                        && !old(self)@.conflicts(block@.transactions, COL_SERIAL_NUMBER)
                        && old(self)@.conflicts(block@.transactions, COL_COMMITMENT))
                    &&& (e == StorageError::ExistingMemo) == (!old(self)@.is_canon(block@.hash)
                        && !old(self)@.conflicts(block@.transactions, COL_SERIAL_NUMBER)
                        && !old(self)@.conflicts(block@.transactions, COL_COMMITMENT)
                        && old(self)@.conflicts(block@.transactions, COL_MEMO))
                    &&& (e == StorageError::IndexOverflow) == (!old(self)@.is_canon(block@.hash)
                        && !old(self)@.conflicts(block@.transactions, COL_SERIAL_NUMBER)
                        && !old(self)@.conflicts(block@.transactions, COL_COMMITMENT)
                        && !old(self)@.conflicts(block@.transactions, COL_MEMO)
                        && !old(self)@.extended(block@).valid())
                    &&& (e == StorageError::ExistingCanonBlock || e == StorageError::ExistingSn
                        || e == StorageError::ExistingCm || e == StorageError::ExistingMemo
                        || e == StorageError::IndexOverflow)
                },
            },
    {
        let ghost l = self@;
        let ghost b = block@;
        let ghost ext = l.extended(b);
        proof {
            broadcast use vstd::array::group_array_axioms;
            assert(b.hash.len() == 32);
            assert(ext.blocks.drop_last() =~= l.blocks);
            assert(ext.blocks.last() == b);
        }
        if self.is_canon(&block.hash) {
            return Err(StorageError::ExistingCanonBlock);
        }
        if self.transactions_conflict(&block.transactions, COL_SERIAL_NUMBER) {
            return Err(StorageError::ExistingSn);
        }
        if self.transactions_conflict(&block.transactions, COL_COMMITMENT) {
            return Err(StorageError::ExistingCm);
        }
        if self.transactions_conflict(&block.transactions, COL_MEMO) {
            return Err(StorageError::ExistingMemo);
        }
        proof {
            lemma_extended_keys_disjoint(l, b);
        }
        if self.current_block_height == u32::MAX {
            return Err(StorageError::IndexOverflow);
        }
        let counts = count_indexes(&block.transactions);
        match counts {
            None => Err(StorageError::IndexOverflow),
            Some((sn, cm, memo)) => {
                if self.sn_index as u64 + sn as u64 > u32::MAX as u64 || self.cm_index as u64
                    + cm as u64 > u32::MAX as u64 || self.memo_index as u64 + memo as u64
                    > u32::MAX as u64 {
                    return Err(StorageError::IndexOverflow);
                }
                proof {
                    assert forall|i: int, j: int| 0 <= i < j < ext.blocks.len() implies #[trigger] ext.blocks[i].hash
                        != #[trigger] ext.blocks[j].hash by {
                        if j == l.blocks.len() {
                            assert(l.blocks[i] == ext.blocks[i]);
                        } else {
                            assert(l.blocks[i] == ext.blocks[i]);
                            assert(l.blocks[j] == ext.blocks[j]);
                        }
                    }
                }
                self.blocks.push(block);
                self.current_block_height = self.current_block_height + 1;
                self.sn_index = self.sn_index + sn;
                self.cm_index = self.cm_index + cm;
                self.memo_index = self.memo_index + memo;
                assert(self@.blocks =~= ext.blocks);
                assert(self@.side =~= ext.side);
                Ok(())
            },
        }
    }

    /// Whether a canonical block's transactions hold the key of the column.
    fn chain_has_key(&self, col: u32, key: &Vec<u8>) -> (r: bool)
        requires
            self.wf(),
        ensures
            r == self@.chain_has_key((col, key@)),
    {
        let mut n: usize = 0;
        while n < self.blocks.len()
            invariant
                0 <= n <= self.blocks.len(),
                forall|m: int| 0 <= m < n ==> !#[trigger] transactions_keys(self@.blocks[m].transactions).contains((col, key@)),
            decreases self.blocks.len() - n,
        {
            if transactions_have_key(&self.blocks[n].transactions, col, key) {
                assert(transactions_keys(self@.blocks[n as int].transactions).contains((col, key@)));
                return true;
            }
            n = n + 1;
        }
        false
    }

    /// Whether the transaction holds a key of the column that a canonical
    /// block's transactions hold too.
    fn transaction_conflicts(&self, tx: &TransactionRecord, col: u32) -> (r: bool)
        requires
            self.wf(),
        ensures
            r == self@.conflicts(seq![tx@], col),
    {
        let ghost one = seq![tx@];
        if col == COL_SERIAL_NUMBER || col == COL_COMMITMENT {
            let items = if col == COL_SERIAL_NUMBER { &tx.serial_numbers } else { &tx.commitments };
            let ghost iv = if col == COL_SERIAL_NUMBER { tx@.serial_numbers } else { tx@.commitments };
            assert(iv.len() == items.len());
            let mut i: usize = 0;
            while i < items.len()
                invariant
                    0 <= i <= items.len(),
                    self.wf(),
                    col == COL_SERIAL_NUMBER || col == COL_COMMITMENT,
                    iv == (if col == COL_SERIAL_NUMBER { tx@.serial_numbers } else { tx@.commitments }),
                    iv.len() == items.len(),
                    forall|k: int| 0 <= k < items.len() ==> #[trigger] items@[k]@ == iv[k],
                    forall|k: int| 0 <= k < i ==> !self@.chain_has_key((col, #[trigger] iv[k])),
                decreases items.len() - i,
            {
                if self.chain_has_key(col, &items[i]) {
                    proof {
                        lemma_single_transaction_keys(tx@, col, iv[i as int]);
                        if col == COL_SERIAL_NUMBER {
                            assert(tx@.serial_numbers[i as int] == iv[i as int]);
                        } else {
                            assert(tx@.commitments[i as int] == iv[i as int]);
                        }
                        assert(transactions_keys(seq![tx@]).contains((col, iv[i as int])));
                    }
                    return true;
                }
                i = i + 1;
            }
            proof {
                assert forall|key: Seq<u8>| #[trigger] transactions_keys(one).contains((col, key)) implies !self@.chain_has_key(
                    (col, key),
                ) by {
                    lemma_single_transaction_keys(tx@, col, key);
                    let k = choose|k: int| 0 <= k < iv.len() && #[trigger] iv[k] == key;
                }
            }
            false
        } else if col == COL_MEMO {
            let r = self.chain_has_key(col, &tx.memo);
            proof {
                lemma_single_transaction_keys(tx@, col, tx@.memo);
                assert forall|key: Seq<u8>| #[trigger] transactions_keys(one).contains((col, key)) implies key == tx@.memo by {
                    lemma_single_transaction_keys(tx@, col, key);
                }
            }
            r
        } else {
            proof {
                assert forall|key: Seq<u8>| !#[trigger] transactions_keys(one).contains((col, key)) by {
                    lemma_single_transaction_keys(tx@, col, key);
                }
            }
            false
        }
    }

    /// Whether the transactions hold a key of the column that a canonical
    /// block's transactions hold too.
    fn transactions_conflict(&self, txs: &Vec<TransactionRecord>, col: u32) -> (r: bool)
        requires
            self.wf(),
        ensures
            r == self@.conflicts(transactions_view(txs@), col),
    {
        let ghost v = transactions_view(txs@);
        let mut t: usize = 0;
        while t < txs.len()
            invariant
                0 <= t <= txs.len(),
                self.wf(),
                v == transactions_view(txs@),
                forall|u: int| 0 <= u < t ==> !self@.conflicts(seq![#[trigger] v[u]], col),
            decreases txs.len() - t,
        {
            if self.transaction_conflicts(&txs[t], col) {
                proof {
                    let key = choose|key: Seq<u8>| #[trigger] transactions_keys(seq![v[t as int]]).contains((col, key))
                        && self@.chain_has_key((col, key));
                    lemma_transactions_keys_some(v, (col, key));
                }
                return true;
            }
            t = t + 1;
        }
        proof {
            assert forall|key: Seq<u8>| #[trigger] transactions_keys(v).contains((col, key)) implies !self@.chain_has_key(
                (col, key),
            ) by {
                lemma_transactions_keys_some(v, (col, key));
                let u = choose|u: int| 0 <= u < v.len() && #[trigger] transactions_keys(seq![v[u]]).contains((col, key));
                assert(!self@.conflicts(seq![v[u]], col));
            }
        }
        false
    }

    /// The height of the latest block.
    pub fn get_current_block_height(&self) -> (h: u32)
        requires
            self.wf(),
        ensures
            h == self@.height(),
    {
        self.current_block_height
    }

    /// The header hash of the canonical block at height `n`.
    pub fn get_block_hash(&self, n: u32) -> (r: Result<BlockHeaderHash, StorageError>)
        requires
            self.wf(),
        ensures
            match r {
                Ok(h) => n <= self@.height() && h@ == self@.hash_at(n as int),
                Err(e) => n > self@.height() && e == StorageError::MissingBlockHash(n),
            },
    {
        if n as usize >= self.blocks.len() {
            Err(StorageError::MissingBlockHash(n))
        } else {
            Ok(self.blocks[n as usize].hash)
        }
    }

    /// Whether a block with this header hash is on the canonical chain.
    pub fn is_canon(&self, hash: &BlockHeaderHash) -> (r: bool)
        requires
            self.wf(),
        ensures
            r == self@.is_canon(hash@),
    {
        let mut i: usize = 0;
        while i < self.blocks.len()
            invariant
                0 <= i <= self.blocks.len(),
                forall|k: int| 0 <= k < i ==> #[trigger] self@.blocks[k].hash != hash@,
            decreases self.blocks.len() - i,
        {
            if self.blocks[i].hash.same_as(hash) {
                assert(self@.blocks[i as int].hash == hash@);
                return true;
            }
            i = i + 1;
        }
        false
    }

    /// The transactions of the stored block with this header hash: the
    /// canonical one, or else the one de-committed last;
    /// `MissingBlockTransactions` when no block with this hash is stored.
    pub fn get_block_transactions(&self, hash: &BlockHeaderHash) -> (r: Result<
        &Vec<TransactionRecord>,
        StorageError,
    >)
        requires
            self.wf(),
        ensures
            match self@.stored_block(hash@) {
                Some(b) => r matches Ok(t) && transactions_view(t@) == b.transactions,
                None => r == Err::<&Vec<TransactionRecord>, StorageError>(
                    StorageError::MissingBlockTransactions,
                ),
            },
    {
        let ghost all = self@.side + self@.blocks;
        proof {
            lemma_lookup_append(self@.side, self@.blocks, hash@);
        }
        match find_latest(&self.blocks, hash) {
            Some(i) => Ok(&self.blocks[i].transactions),
            None => match find_latest(&self.side, hash) {
                Some(i) => Ok(&self.side[i].transactions),
                None => Err(StorageError::MissingBlockTransactions),
            },
        }
    }

    /// Drops the latest block, given the indexes of the chain without it.
    pub(crate) fn remove_latest_block(&mut self, sn_index: u32, cm_index: u32, memo_index: u32)
        requires
            old(self).wf(),
            old(self)@.height() > 0,
            sn_index == old(self)@.decommitted().sn_index(),
            cm_index == old(self)@.decommitted().cm_index(),
            memo_index == old(self)@.decommitted().memo_index(),
        ensures
            final(self).wf(),
            final(self)@ == old(self)@.decommitted(),
    {
        let ghost l = self@;
        let top = self.blocks.pop();
        match top {
            Some(b) => self.side.push(b),
            None => {},
        }
        self.current_block_height = self.current_block_height - 1;
        self.sn_index = sn_index;
        self.cm_index = cm_index;
        self.memo_index = memo_index;
        assert(self@.blocks =~= l.blocks.drop_last());
        assert(self@.side =~= l.side.push(l.blocks.last()));
    }

    /// The ledger digest after the latest block.
    pub fn current_digest(&self) -> (d: Vec<u8>)
        requires
            self.wf(),
        ensures
            d@ == self@.digest(),
    {
        let last = self.blocks.len() - 1;
        self.blocks[last].digest.clone()
    }

    /// The number of serial numbers that the chain spends.
    pub fn current_sn_index(&self) -> (n: usize)
        requires
            self.wf(),
        ensures
            n == self@.sn_index(),
    {
        self.sn_index as usize
    }

    /// The number of commitments that the chain creates.
    pub fn current_cm_index(&self) -> (n: usize)
        requires
            self.wf(),
        ensures
            n == self@.cm_index(),
    {
        self.cm_index as usize
    }

    /// The number of memos that the chain holds.
    pub fn current_memo_index(&self) -> (n: usize)
        requires
            self.wf(),
        ensures
            n == self@.memo_index(),
    {
        self.memo_index as usize
    }
}

} // verus!
