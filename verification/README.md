# parallel_sparse_trie

A sparse Merkle Patricia trie, written and proved in Verus. The trie holds the nodes that have been
revealed and the hashes of those that have not. It is split into an upper subtrie and 256 lower
subtries, which can be hashed independently of each other.

- `src/trie.rs`, `src/revealing.rs`, `src/lower.rs`: the trie, revealing nodes, and the children of
  upper nodes that belong to lower subtries.
- `src/remove.rs`, `src/removal.rs`: removing leaves, and what that does to the model of a trie.
- `src/subtrie.rs`, `src/hashing.rs`, `src/hash_run.rs`: hashing a subtrie.
- `src/changed.rs`, `src/root.rs`: which lower subtries have changed, and the root hash.
- `src/laws.rs`: what holds of the library as a whole. The proofs behind it are in
  `src/lookup.rs` (lookups after a removal), `src/soundness.rs` and `src/remove_sound.rs` (what every
  operation keeps), `src/merkle.rs` and `src/kept_hashes.rs` (hashes that nodes keep are right),
  `src/normal.rs` and `src/form.rs` (the normal form), `src/canon.rs` (the root depends on the leaves
  alone), `src/blinded.rs` (tries of which a part is blinded), `src/values.rs` (the values of all
  subtries), `src/revealed.rs` and `src/local.rs` (what revealing touches and depends on),
  `src/recorded.rs` (the updates that a root hash records), and `src/twice.rs` (computing the root
  hash again).
- `src/outside.rs`, `src/path_map.rs`: what is believed of the crates that this one calls.
