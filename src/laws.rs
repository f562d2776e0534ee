//! Laws that relate several operations on the sparse trie.

use vstd::prelude::*;
use crate::node::NodeView;
use crate::prefix_set::covers;
use crate::refs::{lemma_node_ref_same_cover, node_ref};
use crate::trie::{leaf_removed, leaf_set, RevealedSparseTrie};

verus! {

/// Removing the leaf of a trie that holds nothing else leaves the empty trie:
/// the empty node alone at the root, and no value.
pub proof fn lemma_remove_only_leaf(
    before: RevealedSparseTrie,
    after: RevealedSparseTrie,
    path: Seq<u8>,
    value: Seq<u8>,
    hash: Option<Seq<u8>>,
    ok: bool,
)
    requires
        before.nodes_view() == map![Seq::<u8>::empty() => NodeView::Leaf { key: path, hash }],
        before.values_view() == map![path => value],
        leaf_removed(before, after, path, ok),
    ensures
        ok,
        after.nodes_view() == map![Seq::<u8>::empty() => NodeView::Empty],
        after.values_view() == Map::<Seq<u8>, Seq<u8>>::empty(),
{
    assert(before.values_view().dom().contains(path));
    assert(before.nodes_view().dom().contains(Seq::<u8>::empty()));
    assert(after.nodes_view() =~= map![Seq::<u8>::empty() => NodeView::Empty]);
    assert(after.values_view() =~= Map::<Seq<u8>, Seq<u8>>::empty());
}

/// Setting a leaf to a value twice leaves the node and value tables as the
/// first setting left them, changes no cached digest's staleness, and so
/// leaves every node's reference, the root's included, as it was.
pub proof fn lemma_update_leaf_twice(
    start: RevealedSparseTrie,
    once: RevealedSparseTrie,
    twice: RevealedSparseTrie,
    path: Seq<u8>,
    value: Seq<u8>,
)
    requires
        leaf_set(start, once, path, value),
        leaf_set(once, twice, path, value),
    ensures
        twice.nodes_view() == once.nodes_view(),
        twice.values_view() == once.values_view(),
        twice.values_view().dom().contains(path) && twice.values_view()[path] == value,
        forall|q: Seq<u8>| covers(twice.dirty_view(), q) == covers(once.dirty_view(), q),
        forall|p: Seq<u8>, f: nat|
            node_ref(twice.nodes_view(), twice.values_view(), twice.dirty_view(), p, f) == node_ref(
                once.nodes_view(),
                once.values_view(),
                once.dirty_view(),
                p,
                f,
            ),
{
    assert(twice.values_view() =~= once.values_view());
    let d = once.dirty_view();
    let n = d.len() - 1;
    assert(d[n] == path);
    assert forall|q: Seq<u8>| covers(twice.dirty_view(), q) == covers(d, q) by {
        let t = twice.dirty_view();
        if covers(t, q) {
            let i = choose|i: int|
                0 <= i < t.len() && q.len() <= t[i].len() && #[trigger] t[i].subrange(0, q.len() as int) == q;
            if i == t.len() - 1 {
                assert(d[n].subrange(0, q.len() as int) == q);
            } else {
                assert(d[i].subrange(0, q.len() as int) == q);
            }
        }
        if covers(d, q) {
            let i = choose|i: int|
                0 <= i < d.len() && q.len() <= d[i].len() && #[trigger] d[i].subrange(0, q.len() as int) == q;
            assert(t[i].subrange(0, q.len() as int) == q);
        }
    }
    assert forall|p: Seq<u8>, f: nat|
        node_ref(twice.nodes_view(), twice.values_view(), twice.dirty_view(), p, f) == node_ref(
            once.nodes_view(),
            once.values_view(),
            once.dirty_view(),
            p,
            f,
        ) by {
        lemma_node_ref_same_cover(once.nodes_view(), once.values_view(), twice.dirty_view(), d, p, f);
    }
}

/// Overwriting the value of a leaf that is present changes no node.
pub proof fn lemma_overwrite_keeps_nodes(
    before: RevealedSparseTrie,
    after: RevealedSparseTrie,
    path: Seq<u8>,
    value: Seq<u8>,
)
    requires
        before.values_view().dom().contains(path),
        leaf_set(before, after, path, value),
    ensures
        after.nodes_view() == before.nodes_view(),
        after.values_view() == before.values_view().insert(path, value),
{
}

} // verus!
