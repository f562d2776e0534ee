//! RLP encoding and hashing of trie nodes, done by alloy's trie and
//! primitives crates.

use vstd::prelude::*;
use alloy_rlp::Decodable;
use alloy_trie::nodes::{BranchNodeRef, ExtensionNodeRef, LeafNodeRef, RlpNode, TrieNode as Node};
use crate::error::SparseTrieError;
use crate::nibbles::Nibbles;
use crate::node::{node_of, popcount, NodeView, TrieNode};

verus! {

/// The Keccak-256 digest of a byte string.
pub uninterp spec fn keccak_of(data: Seq<u8>) -> Seq<u8>;

/// The node reference of a leaf: its RLP if shorter than 32 bytes, else the
/// RLP of the digest of its RLP.
pub uninterp spec fn leaf_rlp_of(key: Seq<u8>, value: Seq<u8>) -> Seq<u8>;

/// The node reference of an extension over an encoded child.
pub uninterp spec fn extension_rlp_of(key: Seq<u8>, child: Seq<u8>) -> Seq<u8>;

/// The node reference of a branch over the encoded children of its set bits.
pub uninterp spec fn branch_rlp_of(children: Seq<Seq<u8>>, state_mask: u16) -> Seq<u8>;

/// The node that an RLP-encoded trie node decodes to, as the node table holds
/// it (without its children), or `None` where the bytes do not decode.
pub uninterp spec fn decoded_node_of(bytes: Seq<u8>) -> Option<NodeView>;

/// The views of a sequence of byte vectors.
pub open spec fn byte_views(s: Seq<Vec<u8>>) -> Seq<Seq<u8>> {
    s.map_values(|c: Vec<u8>| c@)
}

/// Relies on alloy_primitives::keccak256, the Keccak-256 digest.
#[verifier::external_body]
pub(crate) fn keccak(data: &[u8]) -> (r: [u8; 32])
    ensures
        r@ == keccak_of(data@),
{
    alloy_primitives::keccak256(data).0
}

/// Relies on alloy_trie::EMPTY_ROOT_HASH, the root of the empty trie: the
/// Keccak-256 digest of the RLP of the empty string, the single byte 0x80.
#[verifier::external_body]
pub(crate) fn empty_root_hash() -> (r: [u8; 32])
    ensures
        r@ == keccak_of(seq![0x80u8]),
{
    alloy_trie::EMPTY_ROOT_HASH.0
}

/// Relies on alloy_trie's LeafNodeRef::rlp, which appends the leaf's RLP to
/// the buffer and returns the node reference of the whole buffer: the RLP
/// itself when shorter than 32 bytes, else 0xa0 and its 32-byte digest.
#[verifier::external_body]
pub(crate) fn leaf_rlp(key: &Nibbles, value: &Vec<u8>, buf: &mut Vec<u8>) -> (r: Vec<u8>)
    requires
        old(buf)@.len() == 0,
    ensures
        r@ == leaf_rlp_of(key@, value@),
        r@.len() < 32 || (r@.len() == 33 && r@[0] == 0xa0u8),
{
    let key = alloy_trie::Nibbles::from_vec_unchecked(key.to_vec());
    LeafNodeRef::new(&key, value).rlp(buf).to_vec()
}

/// Relies on alloy_trie's ExtensionNodeRef::rlp, which appends the
/// extension's RLP to the buffer and returns the node reference of the whole
/// buffer: the RLP itself when shorter than 32 bytes, else 0xa0 and its
/// 32-byte digest.
#[verifier::external_body]
pub(crate) fn extension_rlp(key: &Nibbles, child: &Vec<u8>, buf: &mut Vec<u8>) -> (r: Vec<u8>)
    requires
        old(buf)@.len() == 0,
    ensures
        r@ == extension_rlp_of(key@, child@),
        r@.len() < 32 || (r@.len() == 33 && r@[0] == 0xa0u8),
{
    let key = alloy_trie::Nibbles::from_vec_unchecked(key.to_vec());
    ExtensionNodeRef::new(&key, child).rlp(buf).to_vec()
}

/// Relies on alloy_trie's BranchNodeRef::rlp, which appends the branch's RLP
/// to the buffer and returns the node reference of the whole buffer: the RLP
/// itself when shorter than 32 bytes, else 0xa0 and its 32-byte digest. It
/// reads one child from the stack for each set bit of the mask; a child
/// longer than 33 bytes cannot be held by `RlpNode`.
#[verifier::external_body]
pub(crate) fn branch_rlp(children: &Vec<Vec<u8>>, state_mask: u16, buf: &mut Vec<u8>) -> (r: Vec<u8>)
    requires
        old(buf)@.len() == 0,
        children@.len() == popcount(state_mask),
        forall|i: int| 0 <= i < children@.len() ==> children@[i]@.len() <= 33,
    ensures
        r@ == branch_rlp_of(byte_views(children@), state_mask),
        r@.len() < 32 || (r@.len() == 33 && r@[0] == 0xa0u8),
{
    let stack: Vec<RlpNode> = children.iter().map(|c| RlpNode::from_raw(c).unwrap()).collect();
    BranchNodeRef::new(&stack, alloy_trie::TrieMask::new(state_mask)).rlp(buf).to_vec()
}

/// Relies on alloy_trie's TrieNode::decode. Every child item and value that it
/// returns is a part of the input, so together they are shorter than it; a
/// branch holds one child, of at most 33 bytes, for each set bit of its mask.
#[verifier::external_body]
pub(crate) fn decode_node(bytes: &[u8]) -> (r: Result<TrieNode, SparseTrieError>)
    ensures
        r is Ok ==> r->Ok_0.child_bytes() < bytes@.len(),
        r is Ok ==> r->Ok_0.children_fit(),
        r is Err ==> r->Err_0 == SparseTrieError::RlpDecode,
        r is Ok ==> decoded_node_of(bytes@) == Some(node_of(r->Ok_0)),
        r is Err ==> decoded_node_of(bytes@) is None,
{
    let nib = |n: alloy_trie::Nibbles| Nibbles::from_nibbles(n.to_vec());
    match Node::decode(&mut &bytes[..]) {
        Ok(Node::EmptyRoot) => Ok(TrieNode::EmptyRoot),
        Ok(Node::Branch(b)) => Ok(TrieNode::Branch {
            stack: b.stack.iter().map(|c| c.to_vec()).collect(),
            state_mask: b.state_mask.get(),
        }),
        Ok(Node::Extension(e)) => Ok(TrieNode::Extension { key: nib(e.key), child: e.child.to_vec() }),
        Ok(Node::Leaf(l)) => Ok(TrieNode::Leaf { key: nib(l.key), value: l.value }),
        Err(_) => Err(SparseTrieError::RlpDecode),
    }
}

} // verus!
