//! Storage columns, the meta keys, and the batch of storage operations.
use vstd::prelude::*;

verus! {

/// Miscellaneous values (best block number, current indexes).
pub const COL_META: u32 = 0;
/// Block number -> block hash, and block hash -> block number.
pub const COL_BLOCK_LOCATOR: u32 = 3;
/// Commitment -> index.
pub const COL_COMMITMENT: u32 = 5;
/// Serial number -> index.
pub const COL_SERIAL_NUMBER: u32 = 6;
/// Memorandum -> index.
pub const COL_MEMO: u32 = 7;
/// Ledger digest -> block number.
pub const COL_DIGEST: u32 = 8;

/// The bytes of the meta key "BEST_BLOCK_NUMBER".
pub open spec fn spec_key_best_block_number() -> Seq<u8> {
    seq![66u8, 69, 83, 84, 95, 66, 76, 79, 67, 75, 95, 78, 85, 77, 66, 69, 82]
}

/// The bytes of the meta key "CURRENT_SN_INDEX".
pub open spec fn spec_key_curr_sn_index() -> Seq<u8> {
    seq![67u8, 85, 82, 82, 69, 78, 84, 95, 83, 78, 95, 73, 78, 68, 69, 88]
}

/// The bytes of the meta key "CURRENT_CM_INDEX".
pub open spec fn spec_key_curr_cm_index() -> Seq<u8> {
    seq![67u8, 85, 82, 82, 69, 78, 84, 95, 67, 77, 95, 73, 78, 68, 69, 88]
}

/// The bytes of the meta key "CURRENT_MEMO_INDEX".
pub open spec fn spec_key_curr_memo_index() -> Seq<u8> {
    seq![67u8, 85, 82, 82, 69, 78, 84, 95, 77, 69, 77, 79, 95, 73, 78, 68, 69, 88]
}

pub fn key_best_block_number() -> (k: Vec<u8>)
    ensures
        k@ == spec_key_best_block_number(),
{
    let k: Vec<u8> = vec![66u8, 69, 83, 84, 95, 66, 76, 79, 67, 75, 95, 78, 85, 77, 66, 69, 82];
    assert(k@ =~= spec_key_best_block_number());
    k
}

pub fn key_curr_sn_index() -> (k: Vec<u8>)
    ensures
        k@ == spec_key_curr_sn_index(),
{
    let k: Vec<u8> = vec![67u8, 85, 82, 82, 69, 78, 84, 95, 83, 78, 95, 73, 78, 68, 69, 88];
    assert(k@ =~= spec_key_curr_sn_index());
    k
}

pub fn key_curr_cm_index() -> (k: Vec<u8>)
    ensures
        k@ == spec_key_curr_cm_index(),
{
    let k: Vec<u8> = vec![67u8, 85, 82, 82, 69, 78, 84, 95, 67, 77, 95, 73, 78, 68, 69, 88];
    assert(k@ =~= spec_key_curr_cm_index());
    k
}

pub fn key_curr_memo_index() -> (k: Vec<u8>)
    ensures
        k@ == spec_key_curr_memo_index(),
{
    let k: Vec<u8> = vec![67u8, 85, 82, 82, 69, 78, 84, 95, 77, 69, 77, 79, 95, 73, 78, 68, 69, 88];
    assert(k@ =~= spec_key_curr_memo_index());
    k
}

/// The little-endian bytes of a `u32`, least significant byte first.
pub open spec fn le_bytes(x: u32) -> Seq<u8> {
    seq![
        (x % 256) as u8,
        ((x / 256) % 256) as u8,
        ((x / 65536) % 256) as u8,
        (x / 16777216) as u8,
    ]
}

/// The little-endian bytes of `x`, as `u32::to_le_bytes` gives them.
pub fn u32_to_le_bytes(x: u32) -> (b: Vec<u8>)
    ensures
        b@ == le_bytes(x),
{
    let b: Vec<u8> = vec![
        (x % 256) as u8,
        ((x / 256) % 256) as u8,
        ((x / 65536) % 256) as u8,
        (x / 16777216) as u8,
    ];
    assert(b@ =~= le_bytes(x));
    b
}

/// One write of a batch: set a key of a column to a value, or remove a key.
pub enum Op {
    Insert { col: u32, key: Vec<u8>, value: Vec<u8> },
    Delete { col: u32, key: Vec<u8> },
}

/// What an [`Op`] does, over byte sequences.
pub enum OpSpec {
    Insert { col: u32, key: Seq<u8>, value: Seq<u8> },
    Delete { col: u32, key: Seq<u8> },
}

impl View for Op {
    type V = OpSpec;

    open spec fn view(&self) -> OpSpec {
        match self {
            Op::Insert { col, key, value } => OpSpec::Insert { col: *col, key: key@, value: value@ },
            Op::Delete { col, key } => OpSpec::Delete { col: *col, key: key@ },
        }
    }
}

/// A batch of writes that the storage applies atomically, in order.
pub struct DatabaseTransaction(pub Vec<Op>);

impl View for DatabaseTransaction {
    type V = Seq<OpSpec>;

    open spec fn view(&self) -> Seq<OpSpec> {
        self.0@.map_values(|op: Op| op@)
    }
}

impl DatabaseTransaction {
    pub fn new() -> (t: Self)
        ensures
            t@ == Seq::<OpSpec>::empty(),
    {
        let t = DatabaseTransaction(Vec::new());
        assert(t@ =~= Seq::<OpSpec>::empty());
        t
    }

    pub fn push(&mut self, op: Op)
        ensures
            final(self)@ == old(self)@.push(op@),
    {
        self.0.push(op);
        assert(self@ =~= old(self)@.push(op@));
    }
}


/// A copy of the bytes.
pub fn copy_bytes(v: &Vec<u8>) -> (r: Vec<u8>)
    ensures
        r@ == v@,
{
    let r = v.clone();
    assert(r@ =~= v@);
    r
}


/// A storage key: a column and a key within it.
pub type StorageKey = (u32, Seq<u8>);

/// The storage contents: the value of each key that is set.
pub type StorageMap = Map<StorageKey, Seq<u8>>;

/// The key that an operation writes.
pub open spec fn op_key(op: OpSpec) -> StorageKey {
    match op {
        OpSpec::Insert { col, key, .. } => (col, key),
        OpSpec::Delete { col, key } => (col, key),
    }
}

/// The storage after one operation.
pub open spec fn apply_op(m: StorageMap, op: OpSpec) -> StorageMap {
    match op {
        OpSpec::Insert { col, key, value } => m.insert((col, key), value),
        OpSpec::Delete { col, key } => m.remove((col, key)),
    }
}

/// The storage after the operations of a batch, in order.
pub open spec fn apply_ops(m: StorageMap, ops: Seq<OpSpec>) -> StorageMap
    decreases ops.len(),
{
    if ops.len() == 0 {
        m
    } else {
        apply_op(apply_ops(m, ops.drop_last()), ops.last())
    }
}

/// The keys that the deletions of a batch remove.
pub open spec fn deleted_keys(ops: Seq<OpSpec>) -> Set<StorageKey> {
    Set::new(|k: StorageKey| exists|i: int| 0 <= i < ops.len() && #[trigger] ops[i] == (OpSpec::Delete { col: k.0, key: k.1 }))
}

/// Whether every operation of the batch is a deletion.
pub open spec fn all_deletes(ops: Seq<OpSpec>) -> bool {
    forall|i: int| 0 <= i < ops.len() ==> #[trigger] ops[i] is Delete
}

/// Applying two batches one after the other is applying their
/// concatenation.
pub proof fn lemma_apply_ops_append(m: StorageMap, a: Seq<OpSpec>, b: Seq<OpSpec>)
    ensures
        apply_ops(m, a + b) == apply_ops(apply_ops(m, a), b),
    decreases b.len(),
{
    if b.len() == 0 {
        assert(a + b =~= a);
    } else {
        assert((a + b).drop_last() =~= a + b.drop_last());
        assert((a + b).last() == b.last());
        lemma_apply_ops_append(m, a, b.drop_last());
    }
}

/// A batch of deletions removes exactly its keys.
pub proof fn lemma_apply_deletes(m: StorageMap, ops: Seq<OpSpec>)
    requires
        all_deletes(ops),
    ensures
        apply_ops(m, ops) == m.remove_keys(deleted_keys(ops)),
    decreases ops.len(),
{
    if ops.len() == 0 {
        assert(deleted_keys(ops) =~= Set::<StorageKey>::empty());
        assert(m.remove_keys(deleted_keys(ops)) =~= m);
    } else {
        let init = ops.drop_last();
        assert forall|i: int| 0 <= i < init.len() implies #[trigger] init[i] is Delete by {
            assert(init[i] == ops[i]);
        }
        lemma_apply_deletes(m, init);
        assert(ops[ops.len() - 1] is Delete);
        let last = ops.last();
        let lk = op_key(last);
        assert(last == (OpSpec::Delete { col: lk.0, key: lk.1 }));
        assert forall|k: StorageKey| #[trigger] deleted_keys(ops).contains(k) == (deleted_keys(init).contains(k) || k == lk) by {
            if deleted_keys(ops).contains(k) {
                let i = choose|i: int| 0 <= i < ops.len() && #[trigger] ops[i] == (OpSpec::Delete { col: k.0, key: k.1 });
                if i < init.len() {
                    assert(init[i] == ops[i]);
                }
            }
            if deleted_keys(init).contains(k) {
                let i = choose|i: int| 0 <= i < init.len() && #[trigger] init[i] == (OpSpec::Delete { col: k.0, key: k.1 });
                assert(ops[i] == init[i]);
            }
            if k == lk {
                assert(ops[ops.len() - 1] == (OpSpec::Delete { col: k.0, key: k.1 }));
            }
        }
        assert(apply_ops(m, ops) =~= m.remove_keys(deleted_keys(ops)));
    }
}

/// Distinct numbers have distinct little-endian bytes, always four of them.
pub proof fn lemma_le_bytes(x: u32, y: u32)
    ensures
        le_bytes(x).len() == 4,
        le_bytes(x) == le_bytes(y) ==> x == y,
{
    if le_bytes(x) == le_bytes(y) {
        assert(le_bytes(x)[0] == le_bytes(y)[0]);
        assert(le_bytes(x)[1] == le_bytes(y)[1]);
        assert(le_bytes(x)[2] == le_bytes(y)[2]);
        assert(le_bytes(x)[3] == le_bytes(y)[3]);
        let (x0, x1, x2, x3) = (x % 256, (x / 256) % 256, (x / 65536) % 256, x / 16777216);
        let (y0, y1, y2, y3) = (y % 256, (y / 256) % 256, (y / 65536) % 256, y / 16777216);
        assert(x0 == y0 && x1 == y1 && x2 == y2 && x3 == y3);
        assert(x == y) by (bit_vector)
            requires
                x % 256 == y % 256,
                (x / 256) % 256 == (y / 256) % 256,
                (x / 65536) % 256 == (y / 65536) % 256,
                x / 16777216 == y / 16777216,
        ;
    }
}

} // verus!
