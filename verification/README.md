# snarkos_ledger

A verified blockchain ledger and node start-up logic, written in Verus.

- `src/ledger.rs`: the canonical chain (block hash, digest and transactions
  per height) with its serial number, commitment and memo indexes, and the
  de-committed blocks that stay stored by hash; commits a block (refusing a
  hash, serial number, commitment or memo already on the chain), and reads
  hashes, digests, indexes and a block's transactions by hash.
- `src/keys.rs`: the serial number, commitment and memo keys of
  transactions, and the searches for them.
- `src/block.rs`: de-commits the latest block: builds the batch of storage
  writes that takes it out of storage, stated exactly, hands it to the
  caller's write, and drops the block from the chain once the write
  succeeds.
- `src/storage_view.rs`: what that batch does to the storage keys of a chain.
- `src/block_header.rs`: block locator hashes and the latest hash that a
  locator shares with the canonical chain, with the laws that tie them.
- `src/logging.rs`, `src/node.rs`: the logger set-up for a verbosity and the
  order of the node's start.
- `app/`: the node binary, which performs the I/O steps that the library
  orders.
