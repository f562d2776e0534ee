//! A sparse Merkle Patricia Trie: a partial hexary trie that can be revealed
//! node by node, mutated leaf by leaf, and hashed to the same root that the
//! complete trie over the same mapping would have.

mod encoding;
mod error;
mod laws;
mod lifecycle;
mod nibbles;
mod node;
mod prefix_set;
mod refs;
mod table;
mod trie;

pub use encoding::{branch_rlp_of, decoded_node_of, extension_rlp_of, keccak_of, leaf_rlp_of};
pub use error::SparseTrieError;
pub use nibbles::{common_prefix_len, unpacked, valid_nibbles, Nibbles};
pub use node::{bit_set, popcount, split_mask, NodeView, SparseNode, TrieNode};
pub use prefix_set::{covers, PrefixSet};
pub use refs::{
    cache_unusable, child_refs, encodes_to, held_digest, lemma_encodes_unique, node_ref,
    well_formed_ref, with_digest, word_of,
};
pub use laws::{lemma_overwrite_keeps_nodes, lemma_remove_only_leaf, lemma_update_leaf_twice};
pub use lifecycle::SparseTrie;
pub use table::PathMap;
pub use trie::{
    agrees_outside, all_digests, as_hash, child_fails, child_reveals, child_slot, changed_only_near, child_installed, cleared_mask, collapse_step,
    digest_of, graft_at, grafted, hash_revealed, holds_leaf, is_prefix, leaf_removed, leaf_set,
    digest_refreshed, leaf_updated, near, only_bit, removal, revealed_from, root_computed, same_shapes, simple_ref,
    spine, spine_after, spine_at, spine_prepend, taken_paths, unwind, without, word_rlp, Collapse,
    Graft, RevealedSparseTrie, Spine,
};
