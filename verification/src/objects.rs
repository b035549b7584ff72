//! The values that the ledger logic reads: block header hashes, the
//! serialized parts of a transaction, a block as the ledger stores it, and
//! the storage errors.
use vstd::prelude::*;

verus! {

/// The hash of a block header: 32 bytes.
#[derive(Clone, Copy, Debug, PartialEq, Eq)]
pub struct BlockHeaderHash(pub [u8; 32]);

impl View for BlockHeaderHash {
    type V = Seq<u8>;

    open spec fn view(&self) -> Seq<u8> {
        self.0@
    }
}

/// The bytes of each hash, in order.
pub open spec fn hashes_view(hs: Seq<BlockHeaderHash>) -> Seq<Seq<u8>> {
    hs.map_values(|h: BlockHeaderHash| h@)
}

impl BlockHeaderHash {
    /// Whether the two hashes hold the same bytes.
    pub fn same_as(&self, other: &BlockHeaderHash) -> (r: bool)
        ensures
            r == (self@ == other@),
    {
        broadcast use vstd::array::group_array_axioms;
        let mut i: usize = 0;
        while i < 32
            invariant
                0 <= i <= 32,
                self@.len() == 32,
                other@.len() == 32,
                forall|k: int| 0 <= k < i ==> self@[k] == other@[k],
            decreases 32 - i,
        {
            if self.0[i] != other.0[i] {
                return false;
            }
            i = i + 1;
        }
        assert(self@ =~= other@);
        true
    }

    /// The 32 bytes as a vector, as a storage key.
    pub fn to_bytes(&self) -> (v: Vec<u8>)
        ensures
            v@ == self@,
    {
        broadcast use vstd::array::group_array_axioms;
        let mut v: Vec<u8> = Vec::new();
        let mut i: usize = 0;
        while i < 32
            invariant
                0 <= i <= 32,
                self@.len() == 32,
                v@ == self@.take(i as int),
            decreases 32 - i,
        {
            v.push(self.0[i]);
            i = i + 1;
            assert(v@ =~= self@.take(i as int));
        }
        assert(self@.take(32) =~= self@);
        v
    }
}

/// A transaction as the ledger indexes it: the serialized serial numbers
/// that it spends, the serialized commitments that it creates, and its
/// serialized memorandum.
pub struct TransactionRecord {
    pub serial_numbers: Vec<Vec<u8>>,
    pub commitments: Vec<Vec<u8>>,
    pub memo: Vec<u8>,
}

pub struct TransactionView {
    pub serial_numbers: Seq<Seq<u8>>,
    pub commitments: Seq<Seq<u8>>,
    pub memo: Seq<u8>,
}

impl View for TransactionRecord {
    type V = TransactionView;

    open spec fn view(&self) -> TransactionView {
        TransactionView {
            serial_numbers: self.serial_numbers@.map_values(|b: Vec<u8>| b@),
            commitments: self.commitments@.map_values(|b: Vec<u8>| b@),
            memo: self.memo@,
        }
    }
}

/// A block as the ledger keeps it: its header hash, the ledger digest
/// after it, and its transactions.
pub struct BlockRecord {
    pub hash: BlockHeaderHash,
    pub digest: Vec<u8>,
    pub transactions: Vec<TransactionRecord>,
}

/// The views of the transactions, in order.
pub open spec fn transactions_view(txs: Seq<TransactionRecord>) -> Seq<TransactionView> {
    txs.map_values(|t: TransactionRecord| t@)
}

pub struct BlockView {
    pub hash: Seq<u8>,
    pub digest: Seq<u8>,
    pub transactions: Seq<TransactionView>,
}

impl View for BlockRecord {
    type V = BlockView;

    open spec fn view(&self) -> BlockView {
        BlockView {
            hash: self.hash@,
            digest: self.digest@,
            transactions: transactions_view(self.transactions@),
        }
    }
}

/// The errors of the ledger.
#[derive(Debug, PartialEq, Eq)]
pub enum StorageError {
    /// The genesis block cannot be decommitted.
    InvalidBlockDecommit,
    /// No canonical block has this number.
    MissingBlockHash(u32),
    /// No block with this hash is stored.
    MissingBlockTransactions,
    /// A block with this hash is already on the canonical chain.
    ExistingCanonBlock,
    /// A serial number of the block is spent on the canonical chain.
    ExistingSn,
    /// A commitment of the block is created on the canonical chain.
    ExistingCm,
    /// A memo of the block is on the canonical chain.
    ExistingMemo,
    /// The block would take an index (serial number, commitment or memo)
    /// or the block height past what a `u32` holds.
    IndexOverflow,
}

} // verus!
