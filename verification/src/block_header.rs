//! Block locator hashes, and the latest hash that a locator shares with the
//! canonical chain.
use vstd::prelude::*;
use crate::ledger::{Ledger, LedgerView};
use crate::objects::{hashes_view, BlockHeaderHash, StorageError};

verus! {

/// The number of locator entries taken one block apart before the step
/// starts to double.
pub open spec fn dense_prefix_len() -> nat {
    20
}

/// The heights that the locator takes from `index` down, when `taken`
/// entries are taken already and the last step was `step`: each entry is
/// taken, from the twentieth entry on the step doubles, and once the step
/// passes the index the walk stops and the genesis height is added, since
/// the heights taken so far are all above it.
pub open spec fn locator_walk(index: int, step: int, taken: nat) -> Seq<int>
    decreases index,
{
    if index <= 0 || step < 1 {
        Seq::empty()
    } else {
        let step1 = if taken + 1 >= dense_prefix_len() { step * 2 } else { step };
        if index < step1 {
            seq![index, 0]
        } else {
            seq![index] + locator_walk(index - step1, step1, taken + 1)
        }
    }
}

/// The heights of the block locator of a chain whose latest block is at
/// `height`.
pub open spec fn locator_heights(height: int) -> Seq<int> {
    locator_walk(height, 1, 0)
}

/// The block locator hashes of a chain.
pub open spec fn locator_hashes(l: LedgerView) -> Seq<Seq<u8>> {
    locator_heights(l.height()).map_values(|n: int| l.hash_at(n))
}

/// The first of the hashes that is on the canonical chain, or the genesis
/// hash when none is.
pub open spec fn latest_shared(l: LedgerView, hashes: Seq<Seq<u8>>) -> Seq<u8>
    decreases hashes.len(),
{
    if hashes.len() == 0 {
        l.hash_at(0)
    } else if l.is_canon(hashes[0]) {
        hashes[0]
    } else {
        latest_shared(l, hashes.drop_first())
    }
}

/// The heights that a locator walk takes lie between the genesis height and
/// the height it starts from, strictly decreasing, starting at that height.
pub proof fn lemma_locator_walk(index: int, step: int, taken: nat)
    requires
        step >= 1,
    ensures
        index <= 0 ==> locator_walk(index, step, taken).len() == 0,
        index > 0 ==> locator_walk(index, step, taken).len() > 0 && locator_walk(
            index,
            step,
            taken,
        )[0] == index,
        forall|k: int|
            0 <= k < locator_walk(index, step, taken).len() ==> 0 <= #[trigger] locator_walk(
                index,
                step,
                taken,
            )[k] <= index,
        forall|j: int, k: int|
            0 <= j < k < locator_walk(index, step, taken).len() ==> #[trigger] locator_walk(
                index,
                step,
                taken,
            )[j] > #[trigger] locator_walk(index, step, taken)[k],
    decreases index,
{
    if index > 0 {
        let step1 = if taken + 1 >= dense_prefix_len() { step * 2 } else { step };
        if index >= step1 {
            lemma_locator_walk(index - step1, step1, taken + 1);
            let rest = locator_walk(index - step1, step1, taken + 1);
            let w = locator_walk(index, step, taken);
            assert(w == seq![index] + rest);
            assert forall|k: int| 0 <= k < w.len() implies 0 <= #[trigger] w[k] <= index by {
                if k > 0 {
                    assert(w[k] == rest[k - 1]);
                }
            }
            assert forall|j: int, k: int| 0 <= j < k < w.len() implies #[trigger] w[j] > #[trigger] w[k] by {
                assert(w[k] == rest[k - 1]);
                if j > 0 {
                    assert(w[j] == rest[j - 1]);
                }
            }
        }
    }
}

/// Law: the block locator of a chain lists heights from the latest block
/// down, each at most the latest height and at least the genesis height,
/// strictly decreasing; it starts at the latest block, and it is empty
/// exactly when the chain is the genesis block alone.
pub proof fn lemma_locator_heights(height: int)
    requires
        height >= 0,
    ensures
        (locator_heights(height).len() == 0) == (height == 0),
        height > 0 ==> locator_heights(height)[0] == height,
        forall|k: int|
            0 <= k < locator_heights(height).len() ==> 0 <= #[trigger] locator_heights(height)[k]
                <= height,
        forall|j: int, k: int|
            0 <= j < k < locator_heights(height).len() ==> #[trigger] locator_heights(height)[j]
                > #[trigger] locator_heights(height)[k],
{
    lemma_locator_walk(height, 1, 0);
}

/// Two to the power `j`.
pub open spec fn two_to(j: nat) -> nat
    decreases j,
{
    if j == 0 {
        1
    } else {
        2 * two_to((j - 1) as nat)
    }
}

/// Once the step doubles at every entry, a walk from below `step * 2^j`
/// takes at most `j + 2` heights.
proof fn lemma_walk_len_doubling(index: int, step: int, taken: nat, j: nat)
    requires
        step >= 1,
        taken + 1 >= dense_prefix_len(),
        0 <= index < step * two_to(j),
    ensures
        locator_walk(index, step, taken).len() <= j + 2,
    decreases index,
{
    if index > 0 {
        let step1 = step * 2;
        if index >= step1 {
            assert(two_to(0) == 1);
            assert(two_to(1) == 2);
            if j == 0 {
                assert(step * two_to(j) == step) by (nonlinear_arith)
                    requires
                        two_to(j) == 1,
                ;
            } else if j == 1 {
                assert(step * two_to(j) == step * 2) by (nonlinear_arith)
                    requires
                        two_to(j) == 2,
                ;
            }
            assert(j >= 2);
            let j1 = (j - 1) as nat;
            assert(two_to(j) == 2 * two_to(j1));
            assert(step * two_to(j) == step1 * two_to(j1)) by (nonlinear_arith)
                requires
                    two_to(j) == 2 * two_to(j1),
                    step1 == step * 2,
            ;
            assert(index - step1 < step1 * two_to(j1)) by (nonlinear_arith)
                requires
                    index < step1 * two_to(j1),
                    step1 >= 2,
            ;
            lemma_walk_len_doubling(index - step1, step1, taken + 1, j1);
        }
    }
}

/// A walk that starts one block apart takes its remaining dense entries
/// and then at most 34 more heights, for heights below `2^32`.
proof fn lemma_walk_len_dense(index: int, taken: nat)
    requires
        taken + 1 <= dense_prefix_len(),
        0 <= index < two_to(32),
    ensures
        locator_walk(index, 1, taken).len() <= (dense_prefix_len() - 1 - taken) + 34,
    decreases index,
{
    if index > 0 {
        if taken + 1 >= dense_prefix_len() {
            lemma_walk_len_doubling(index, 1, taken, 32);
        } else {
            lemma_walk_len_dense(index - 1, taken + 1);
        }
    }
}

/// Law: the block locator of a chain holds at most 53 hashes, whatever the
/// chain's height.
pub proof fn lemma_locator_len(height: int)
    requires
        0 <= height <= u32::MAX,
    ensures
        locator_heights(height).len() <= 53,
{
    reveal_with_fuel(two_to, 33);
    assert(two_to(32) == 4294967296);
    lemma_walk_len_dense(height, 0);
}

/// How far below entry `k` (counted from 0) of a block locator the next
/// entry lies: one block for the first nineteen entries, then twice as far
/// at each entry, from 2 at entry 19 on.
pub open spec fn locator_gap(k: int) -> int {
    if k < 19 {
        1
    } else {
        two_to((k - 18) as nat) as int
    }
}

proof fn lemma_two_to_positive(j: nat)
    ensures
        two_to(j) >= 1,
    decreases j,
{
    if j > 0 {
        lemma_two_to_positive((j - 1) as nat);
    }
}

/// The gap before the entry at position `taken`.
spec fn gap_before(taken: nat) -> int {
    if taken == 0 {
        1
    } else {
        locator_gap(taken - 1)
    }
}

proof fn lemma_step_is_gap(step: int, taken: nat)
    requires
        step == gap_before(taken),
    ensures
        (if taken + 1 >= dense_prefix_len() { step * 2 } else { step }) == locator_gap(taken as int),
{
    assert(two_to(0) == 1);
    assert(two_to(1) == 2);
    if taken > 19 {
        let j = (taken - 18) as nat;
        assert(two_to(j) == 2 * two_to((j - 1) as nat));
    }
}

/// The shape of a block locator walk whose first entry stands at position
/// `first`: it is not empty; each entry `k` that the walk takes lies
/// `locator_gap(first + k)` above the next one, and the walk goes on for as
/// long as the height left is at least that gap; it ends either on the
/// entry that its gap brings down to the genesis height exactly, or with the
/// genesis height appended after an entry below its gap; every other entry
/// is above the genesis height.
pub open spec fn walk_shape(w: Seq<int>, first: int) -> bool {
    &&& w.len() >= 1
    &&& forall|k: int|
        0 <= k < w.len() ==> #[trigger] w[k] > 0 || (k == w.len() - 1 && k >= 1 && w[k - 1]
            < locator_gap(first + k - 1))
    &&& forall|k: int|
        0 <= k < w.len() - 1 ==> (w[k] >= locator_gap(first + k) && #[trigger] w[k + 1] == w[k]
            - locator_gap(first + k)) || (k == w.len() - 2 && w[k] < locator_gap(first + k) && w[k
            + 1] == 0)
    &&& (w[w.len() - 1] == locator_gap(first + w.len() - 1) || (w.len() >= 2 && w[w.len() - 1] == 0
        && w[w.len() - 2] < locator_gap(first + w.len() - 2)))
}

/// The walk whose entry at position `taken` is `index` has the shape of a
/// locator walk from there.
proof fn lemma_walk_shape(index: int, step: int, taken: nat)
    requires
        index > 0,
        step == gap_before(taken),
    ensures
        locator_walk(index, step, taken)[0] == index,
        walk_shape(locator_walk(index, step, taken), taken as int),
    decreases index,
{
    let t = taken as int;
    let g = locator_gap(t);
    lemma_step_is_gap(step, taken);
    if taken >= 19 {
        lemma_two_to_positive((taken - 18) as nat);
    }
    assert(g >= 1);
    let w = locator_walk(index, step, taken);
    if index < g {
        assert(w == seq![index, 0]);
        assert forall|k: int| 0 <= k < w.len() implies #[trigger] w[k] > 0 || (k == w.len() - 1 && k >= 1
            && w[k - 1] < locator_gap(t + k - 1)) by {
            if k == 1 {
                assert(w[0] == index);
            }
        }
        assert forall|k: int| 0 <= k < w.len() - 1 implies (w[k] >= locator_gap(t + k) && #[trigger] w[k
            + 1] == w[k] - locator_gap(t + k)) || (k == w.len() - 2 && w[k] < locator_gap(t + k) && w[k
            + 1] == 0) by {
            assert(k == 0);
        }
        assert(w[w.len() - 2] == index);
    } else if index - g == 0 {
        assert(locator_walk(index - g, g, taken + 1) == Seq::<int>::empty());
        assert(w =~= seq![index]);
    } else {
        assert(g == gap_before(taken + 1));
        lemma_walk_shape(index - g, g, taken + 1);
        let rest = locator_walk(index - g, g, taken + 1);
        assert(w == seq![index] + rest);
        assert(walk_shape(rest, t + 1));
        assert forall|k: int| 0 <= k < w.len() implies #[trigger] w[k] > 0 || (k == w.len() - 1 && k >= 1
            && w[k - 1] < locator_gap(t + k - 1)) by {
            if k >= 1 {
                assert(w[k] == rest[k - 1]);
                if k >= 2 {
                    assert(w[k - 1] == rest[k - 2]);
                } else {
                    assert(rest[0] == index - g);
                }
            }
        }
        assert forall|k: int| 0 <= k < w.len() - 1 implies (w[k] >= locator_gap(t + k) && #[trigger] w[k
            + 1] == w[k] - locator_gap(t + k)) || (k == w.len() - 2 && w[k] < locator_gap(t + k) && w[k
            + 1] == 0) by {
            assert(w[k + 1] == rest[k]);
            if k >= 1 {
                assert(w[k] == rest[k - 1]);
                let j = k - 1;
                assert(rest[j + 1] == rest[k]);
                assert(t + 1 + j == t + k);
            }
        }
        assert(w[w.len() - 1] == rest[rest.len() - 1]);
        if rest.len() >= 2 {
            assert(w[w.len() - 2] == rest[rest.len() - 2]);
        } else {
            assert(w[w.len() - 2] == index);
        }
    }
}

/// Law: the block locator of a chain at height `height` is the walk down
/// from the latest block: it starts at `height` and has the shape of
/// `walk_shape` from position 0, so each entry that the walk takes lies one
/// block above the next for the first nineteen entries and then twice as
/// far at every entry, the walk stops only once the height left is below
/// the gap, and the genesis height ends it unless the gap brought the walk
/// down to the genesis block exactly. The locator of the genesis block
/// alone is empty.
pub proof fn lemma_locator_walk_shape(height: int)
    requires
        height >= 0,
    ensures
        height == 0 ==> locator_heights(height).len() == 0,
        height > 0 ==> locator_heights(height)[0] == height && walk_shape(locator_heights(height), 0),
{
    if height > 0 {
        lemma_walk_shape(height, 1, 0);
    }
}

/// Law: every block locator hash of a chain is on that chain.
pub proof fn lemma_locator_hashes_canon(l: LedgerView)
    requires
        l.valid(),
    ensures
        forall|k: int|
            0 <= k < locator_hashes(l).len() ==> l.is_canon(#[trigger] locator_hashes(l)[k]),
{
    lemma_locator_heights(l.height());
    assert forall|k: int| 0 <= k < locator_hashes(l).len() implies l.is_canon(
        #[trigger] locator_hashes(l)[k],
    ) by {
        let n = locator_heights(l.height())[k];
        assert(0 <= n <= l.height());
        assert(l.blocks[n].hash == locator_hashes(l)[k]);
    }
}

/// Law: the block locator hashes of a chain are distinct, and the genesis
/// hash can only be the last of them.
pub proof fn lemma_locator_hashes_distinct(l: LedgerView)
    requires
        l.valid(),
    ensures
        forall|j: int, k: int|
            0 <= j < k < locator_hashes(l).len() ==> #[trigger] locator_hashes(l)[j]
                != #[trigger] locator_hashes(l)[k],
        forall|k: int|
            0 <= k < locator_hashes(l).len() - 1 ==> #[trigger] locator_hashes(l)[k] != l.hash_at(0),
{
    let hs = locator_heights(l.height());
    lemma_locator_heights(l.height());
    assert forall|j: int, k: int| 0 <= j < k < locator_hashes(l).len() implies #[trigger] locator_hashes(l)[j]
        != #[trigger] locator_hashes(l)[k] by {
        assert(hs[j] > hs[k]);
        assert(l.blocks[hs[k]].hash != l.blocks[hs[j]].hash);
    }
    assert forall|k: int| 0 <= k < locator_hashes(l).len() - 1 implies #[trigger] locator_hashes(l)[k]
        != l.hash_at(0) by {
        let last = hs.len() - 1;
        assert(hs[k] > hs[last]);
        assert(hs[last] >= 0);
        assert(l.blocks[0].hash != l.blocks[hs[k]].hash);
    }
}

/// Law: the latest shared hash is always on the canonical chain.
pub proof fn lemma_latest_shared_is_canon(l: LedgerView, hashes: Seq<Seq<u8>>)
    requires
        l.valid(),
    ensures
        l.is_canon(latest_shared(l, hashes)),
    decreases hashes.len(),
{
    if hashes.len() == 0 {
        assert(l.blocks[0].hash == l.hash_at(0));
    } else if !l.is_canon(hashes[0]) {
        lemma_latest_shared_is_canon(l, hashes.drop_first());
    }
}

/// Law: for the block locator hashes of the canonical chain itself, the
/// latest shared hash is the hash of the latest block.
pub proof fn lemma_shared_hash_of_own_locator(l: LedgerView)
    requires
        l.valid(),
    ensures
        latest_shared(l, locator_hashes(l)) == l.hash_at(l.height()),
{
    lemma_locator_heights(l.height());
    if l.height() > 0 {
        lemma_locator_hashes_canon(l);
        assert(l.is_canon(locator_hashes(l)[0]));
    }
}

/// The first of the heights that is at most `bound`, or the genesis height
/// when none is.
pub open spec fn first_at_or_below(heights: Seq<int>, bound: int) -> int
    decreases heights.len(),
{
    if heights.len() == 0 {
        0
    } else if heights[0] <= bound {
        heights[0]
    } else {
        first_at_or_below(heights.drop_first(), bound)
    }
}

proof fn lemma_shared_of_their_heights(
    ours: LedgerView,
    theirs: LedgerView,
    fork: int,
    heights: Seq<int>,
)
    requires
        ours.valid(),
        theirs.valid(),
        0 <= fork <= ours.height(),
        fork <= theirs.height(),
        forall|n: int| 0 <= n <= fork ==> #[trigger] theirs.hash_at(n) == ours.hash_at(n),
        forall|n: int| fork < n <= theirs.height() ==> !ours.is_canon(#[trigger] theirs.hash_at(n)),
        forall|k: int| 0 <= k < heights.len() ==> 0 <= #[trigger] heights[k] <= theirs.height(),
    ensures
        latest_shared(ours, heights.map_values(|n: int| theirs.hash_at(n))) == ours.hash_at(
            first_at_or_below(heights, fork),
        ),
    decreases heights.len(),
{
    let hs = heights.map_values(|n: int| theirs.hash_at(n));
    if heights.len() == 0 {
        assert(theirs.hash_at(0) == ours.hash_at(0));
    } else if heights[0] <= fork {
        assert(hs[0] == ours.hash_at(heights[0]));
        assert(ours.blocks[heights[0]].hash == hs[0]);
    } else {
        assert(hs[0] == theirs.hash_at(heights[0]));
        assert(!ours.is_canon(hs[0]));
        assert(hs.drop_first() =~= heights.drop_first().map_values(|n: int| theirs.hash_at(n)));
        assert forall|k: int| 0 <= k < heights.drop_first().len() implies 0 <= #[trigger] heights.drop_first()[k]
            <= theirs.height() by {
            assert(heights.drop_first()[k] == heights[k + 1]);
        }
        lemma_shared_of_their_heights(ours, theirs, fork, heights.drop_first());
    }
}

/// Law: for the block locator hashes of another chain that agrees with ours
/// up to height `fork` and holds no block of ours above it, the latest
/// shared hash is our hash at the highest locator height at or below the
/// fork, or our genesis hash when the locator has no such height; so it is
/// a block that both chains hold, at the same height.
pub proof fn lemma_shared_hash_at_fork(ours: LedgerView, theirs: LedgerView, fork: int)
    requires
        ours.valid(),
        theirs.valid(),
        0 <= fork <= ours.height(),
        fork <= theirs.height(),
        forall|n: int| 0 <= n <= fork ==> #[trigger] theirs.hash_at(n) == ours.hash_at(n),
        forall|n: int| fork < n <= theirs.height() ==> !ours.is_canon(#[trigger] theirs.hash_at(n)),
    ensures
        latest_shared(ours, locator_hashes(theirs)) == ours.hash_at(
            first_at_or_below(locator_heights(theirs.height()), fork),
        ),
        0 <= first_at_or_below(locator_heights(theirs.height()), fork) <= fork,
{
    lemma_locator_heights(theirs.height());
    lemma_shared_of_their_heights(ours, theirs, fork, locator_heights(theirs.height()));
    lemma_first_at_or_below_bounds(locator_heights(theirs.height()), fork);
}

proof fn lemma_first_at_or_below_bounds(heights: Seq<int>, bound: int)
    requires
        bound >= 0,
        forall|k: int| 0 <= k < heights.len() ==> 0 <= #[trigger] heights[k],
    ensures
        0 <= first_at_or_below(heights, bound) <= bound,
    decreases heights.len(),
{
    if heights.len() > 0 && heights[0] > bound {
        assert forall|k: int| 0 <= k < heights.drop_first().len() implies 0 <= #[trigger] heights.drop_first()[k] by {
            assert(heights.drop_first()[k] == heights[k + 1]);
        }
        lemma_first_at_or_below_bounds(heights.drop_first(), bound);
    }
}

impl Ledger {
    /// Returns the latest shared block header hash.
    /// If the block locator hashes are for a side chain, returns the common point of fork.
    /// If the block locator hashes are for the canon chain, returns the latest block header hash.
    pub fn get_latest_shared_hash(&self, block_locator_hashes: Vec<BlockHeaderHash>) -> (r: Result<
        BlockHeaderHash,
        StorageError,
    >)
        requires
            self.wf(),
        ensures
            r matches Ok(h) && h@ == latest_shared(self@, hashes_view(block_locator_hashes@)),
    {
        let ghost l = self@;
        let ghost all = hashes_view(block_locator_hashes@);
        let mut i: usize = 0;
        assert(all.skip(0) =~= all);
        while i < block_locator_hashes.len()
            invariant
                self.wf(),
                self@ == l,
                0 <= i <= block_locator_hashes.len(),
                all == hashes_view(block_locator_hashes@),
                latest_shared(l, all) == latest_shared(l, all.skip(i as int)),
            decreases block_locator_hashes.len() - i,
        {
            assert(all.skip(i as int)[0] == block_locator_hashes@[i as int]@);
            assert(all.skip(i as int).drop_first() =~= all.skip(i + 1));
            if self.is_canon(&block_locator_hashes[i]) {
                return Ok(block_locator_hashes[i]);
            }
            i = i + 1;
        }
        assert(all.skip(i as int).len() == 0);
        proof {
            self.lemma_wf_valid();
        }
        self.get_block_hash(0)
    }

    /// Returns a list of block locator hashes. The purpose of this method is to detect
    /// wrong branches in the caller's canon chain.
    pub fn get_block_locator_hashes(&self) -> (r: Result<Vec<BlockHeaderHash>, StorageError>)
        requires
            self.wf(),
        ensures
            r matches Ok(v) && hashes_view(v@) == locator_hashes(self@),
    {
        let ghost l = self@;
        let ghost h = l.height();
        // Start from the latest block and work backwards
        let mut index = self.get_current_block_height();

        // Update the step size with each iteration
        let mut step: u32 = 1;

        // The output list of block locator hashes
        let mut block_locator_hashes: Vec<BlockHeaderHash> = vec![];
        let ghost mut heights: Seq<int> = Seq::empty();
        proof {
            self.lemma_wf_valid();
        }

        while index > 0
            invariant_except_break
                self.wf(),
                self@ == l,
                h == l.height(),
                l.valid(),
                0 <= index <= h,
                step >= 1,
                block_locator_hashes@.len() == heights.len(),
                forall|k: int|
                    0 <= k < heights.len() ==> #[trigger] block_locator_hashes@[k]@ == l.hash_at(
                        heights[k],
                    ),
                locator_heights(h) == heights + locator_walk(index as int, step as int, heights.len()),
                heights.len() < 20 ==> step == 1 && h - index == heights.len(),
                heights.len() >= 20 ==> step >= 2 && h - index == 2 * step + 17,
            ensures
                block_locator_hashes@.len() == locator_heights(h).len(),
                forall|k: int|
                    0 <= k < locator_heights(h).len() ==> #[trigger] block_locator_hashes@[k]@
                        == l.hash_at(locator_heights(h)[k]),
            decreases index,
        {
            block_locator_hashes.push(self.get_block_hash(index)?);
            proof {
                heights = heights.push(index as int);
            }
            if block_locator_hashes.len() >= 20 {
                step *= 2;
            }
            // Check whether it is appropriate to terminate
            if index < step {
                // The heights taken so far are all above the genesis block: add it to the final output
                block_locator_hashes.push(self.get_block_hash(0)?);
                proof {
                    heights = heights.push(0);
                }
                assert(locator_heights(h) =~= heights);
                break;
            }
            index -= step;
            assert(locator_heights(h) =~= heights + locator_walk(index as int, step as int, heights.len()));
        }
        Ok(block_locator_hashes)
    }
}

} // verus!
