use vstd::prelude::*;
use crate::nibbles::Nibbles;

verus! {

/// Why an operation on the sparse trie failed.
#[derive(Debug, PartialEq, Eq)]
pub enum SparseTrieError {
    /// The trie is blind, or an empty node stands where a populated one
    /// was needed.
    Blind,
    /// The operation had to descend into a node known only by its digest.
    BlindedNode { path: Nibbles, hash: [u8; 32] },
    /// Revealed bytes are not an RLP-encoded trie node.
    RlpDecode,
    /// The table does not form a trie that the operation can walk: a path
    /// ends inside another, an extension has an empty key, or a child that
    /// a node names is missing.
    InvalidStructure,
}

} // verus!
