//! The two-state lifecycle of a sparse trie: blind, then revealed.

use vstd::prelude::*;
use crate::error::SparseTrieError;
use crate::nibbles::Nibbles;
use crate::node::{NodeView, TrieNode};
use crate::trie::{leaf_updated, revealed_from, root_computed, RevealedSparseTrie};

verus! {

/// A sparse trie: blind until its root is revealed.
pub enum SparseTrie {
    /// No node is known.
    Blind,
    /// The nodes that are known.
    Revealed(RevealedSparseTrie),
}

impl Default for SparseTrie {
    fn default() -> (r: Self)
        ensures
            r is Blind,
    {
        SparseTrie::Blind
    }
}

impl SparseTrie {
    /// A revealed trie's tables are consistent.
    pub open spec fn wf(&self) -> bool {
        self matches SparseTrie::Revealed(t) ==> t.wf()
    }

    /// A revealed trie of no leaves.
    pub fn revealed_empty() -> (r: Self)
        ensures
            r matches SparseTrie::Revealed(t) && t.wf() && t.nodes_view() == map![Seq::<u8>::empty() => NodeView::Empty]
                && t.values_view() == Map::<Seq<u8>, Seq<u8>>::empty() && t.dirty_view() == Seq::<Seq<u8>>::empty(),
    {
        SparseTrie::Revealed(RevealedSparseTrie::new())
    }

    /// Whether no node is known.
    pub fn is_blind(&self) -> (r: bool)
        ensures
            r == (self is Blind),
    {
        match self {
            SparseTrie::Blind => true,
            SparseTrie::Revealed(_) => false,
        }
    }

    /// The revealed trie, if the trie is not blind.
    pub fn as_revealed(&self) -> (r: Option<&RevealedSparseTrie>)
        ensures
            self is Blind <==> r is None,
            r matches Some(t) ==> self == &SparseTrie::Revealed(*t),
    {
        match self {
            SparseTrie::Blind => None,
            SparseTrie::Revealed(t) => Some(t),
        }
    }

    /// The revealed trie, for changes, if the trie is not blind.
    pub fn as_revealed_mut(&mut self) -> (r: Option<&mut RevealedSparseTrie>)
        ensures
            *old(self) is Blind <==> r is None,
            r is None ==> *final(self) == *old(self),
            r is Some ==> *r->Some_0 == (*old(self))->Revealed_0 && *final(self) == SparseTrie::Revealed(
                *final(r->Some_0),
            ),
    {
        match self {
            SparseTrie::Blind => None,
            SparseTrie::Revealed(t) => Some(t),
        }
    }

    /// Reveals the root node if the trie is blind; a revealed trie is kept.
    pub fn reveal_root(&mut self, root: TrieNode) -> (r: Result<(), SparseTrieError>)
        requires
            old(self).wf(),
            root.children_fit(),
        ensures
            final(self).wf(),
            *old(self) is Revealed ==> r is Ok && *final(self) == *old(self),
            *old(self) is Blind && r is Ok ==> (*final(self) matches SparseTrie::Revealed(t) && revealed_from(t, root)),
            *old(self) is Blind && (root is EmptyRoot || root is Leaf) ==> r is Ok,
            *old(self) is Blind && root is Extension && root->Extension_child@.len() == 33 ==> r is Ok,
            *old(self) is Blind && root is Branch && (forall|i: int|
                0 <= i < root->Branch_stack@.len() ==> (#[trigger] root->Branch_stack@[i])@.len() == 33)
                ==> r is Ok,
            r matches Err(e) ==> e is RlpDecode && *final(self) == *old(self),
    {
        if self.is_blind() {
            let t = RevealedSparseTrie::from_root(root)?;
            *self = SparseTrie::Revealed(t);
        }
        Ok(())
    }

    /// Sets the value of the leaf at `path`; a blind trie refuses.
    pub fn update_leaf(&mut self, path: Nibbles, value: Vec<u8>) -> (r: Result<(), SparseTrieError>)
        requires
            old(self).wf(),
        ensures
            final(self).wf(),
            *old(self) is Blind ==> r == Err::<(), SparseTrieError>(SparseTrieError::Blind) && *final(self)
                == *old(self),
            *old(self) is Revealed ==> *final(self) is Revealed && leaf_updated(
                (*old(self))->Revealed_0,
                (*final(self))->Revealed_0,
                path@,
                value@,
                r,
            ),
    {
        match self {
            SparseTrie::Blind => Err(SparseTrieError::Blind),
            SparseTrie::Revealed(t) => t.update_leaf(path, value),
        }
    }

    /// The root digest; a blind trie has none.
    pub fn root(&mut self) -> (r: Result<[u8; 32], SparseTrieError>)
        requires
            old(self).wf(),
        ensures
            final(self).wf(),
            *old(self) is Blind ==> r == Err::<[u8; 32], SparseTrieError>(SparseTrieError::Blind)
                && *final(self) == *old(self),
            *old(self) is Revealed ==> *final(self) is Revealed && root_computed(
                (*old(self))->Revealed_0,
                (*final(self))->Revealed_0,
                r,
            ),
    {
        match self {
            SparseTrie::Blind => Err(SparseTrieError::Blind),
            SparseTrie::Revealed(t) => t.root(),
        }
    }
}

} // verus!
