//! A verified blockchain ledger: the canonical chain with the
//! per-block data that the storage columns index, and the blocks kept
//! stored off the chain (`ledger`, with the key searches of `keys`), the batch of
//! storage writes that rolls back the latest block (`block`) and what it
//! does to the storage keys (`storage_view`), the block locator used to find
//! where two chains fork (`block_header`), the node's logging set-up
//! (`logging`) and the order of the node's start (`node`).
pub mod columns;
pub mod objects;
pub mod keys;
pub mod ledger;
pub mod block;
pub mod block_header;
pub mod logging;
pub mod node;
pub mod storage_view;
