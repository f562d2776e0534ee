use vstd::prelude::*;
use crate::encoding::{
    branch_rlp, byte_views, decode_node, decoded_node_of, empty_root_hash, extension_rlp, keccak, keccak_of,
    leaf_rlp, leaf_rlp_of,
};
use crate::error::SparseTrieError;
use crate::nibbles::{common_prefix_len, Nibbles};
use crate::node::{
    bit_set, bits_below, count_bits, digest_view, split_mask, is_bit_set, lemma_bits_below_mono, lemma_total_len_elem, node_of, popcount,
    shape,
    total_len, with_bit, without_bit, NodeView, SparseNode, TrieNode,
};
use crate::prefix_set::{covers, PrefixSet};
use crate::refs::{
    cache_unusable, child_refs, encodes_to, held_digest, lemma_child_refs_mono, lemma_node_ref_mono,
    lemma_recache_same_encoding, node_ref, recached, well_formed_ref, with_digest, word_of,
};
use crate::table::PathMap;

verus! {

/// `p` is a prefix of `q`.
pub open spec fn is_prefix(p: Seq<u8>, q: Seq<u8>) -> bool {
    p.len() <= q.len() && q.subrange(0, p.len() as int) == p
}

/// The table holds, at a prefix of `path`, a leaf without a cached digest
/// whose full path is `path`.
pub open spec fn holds_leaf(nodes: Map<Seq<u8>, NodeView>, path: Seq<u8>) -> bool {
    exists|p: Seq<u8>|
        #[trigger] is_prefix(p, path) && nodes.dom().contains(p) && nodes[p] == (NodeView::Leaf {
            key: path.subrange(p.len() as int, path.len() as int),
            hash: None,
        })
}

/// The node reference that the encoder gives, without looking at any other
/// node, to the node `n` at path `p`: the empty node, a hash node, and a leaf,
/// whose cached digest serves unless a changed path begins with its full
/// path. Other nodes have none.
pub open spec fn simple_ref(
    n: NodeView,
    p: Seq<u8>,
    values: Map<Seq<u8>, Seq<u8>>,
    dirty: Seq<Seq<u8>>,
) -> Option<Seq<u8>> {
    match n {
        NodeView::Empty => Some(word_of(keccak_of(seq![0x80u8]))),
        NodeView::Hash(d) => Some(word_of(d)),
        NodeView::Leaf { key, hash } => if hash is Some && !covers(dirty, p + key) {
            Some(word_of(hash->Some_0))
        } else if values.dom().contains(p + key) {
            Some(leaf_rlp_of(key, values[p + key]))
        } else {
            None
        },
        _ => None,
    }
}

/// The root digest of a trie whose root node has the reference `v`: the
/// digest that a 33-byte reference holds, else the digest of the reference.
pub open spec fn digest_of(v: Seq<u8>) -> Seq<u8> {
    if v.len() == 33 {
        v.subrange(1, 33)
    } else {
        keccak_of(v)
    }
}

/// The two tables hold the same paths, with the same nodes but for their
/// cached digests.
pub open spec fn same_shapes(a: Map<Seq<u8>, NodeView>, b: Map<Seq<u8>, NodeView>) -> bool {
    a.dom() == b.dom() && forall|p: Seq<u8>| #[trigger] a.dom().contains(p) ==> shape(a[p]) == shape(b[p])
}

/// Replacing one node by another of the same shape keeps the shapes.
pub proof fn lemma_reshape(a: Map<Seq<u8>, NodeView>, b: Map<Seq<u8>, NodeView>, p: Seq<u8>, n: NodeView)
    requires
        same_shapes(a, b),
        b.dom().contains(p),
        shape(n) == shape(b[p]),
    ensures
        same_shapes(a, b.insert(p, n)),
{
    assert(b.insert(p, n).dom() =~= b.dom());
}

/// Keeping the shapes twice keeps them.
pub proof fn lemma_shapes_trans(a: Map<Seq<u8>, NodeView>, b: Map<Seq<u8>, NodeView>, c: Map<Seq<u8>, NodeView>)
    requires
        same_shapes(a, b),
        same_shapes(b, c),
    ensures
        same_shapes(a, c),
{
    assert forall|q: Seq<u8>| #[trigger] a.dom().contains(q) implies shape(a[q]) == shape(c[q]) by {
        assert(b.dom().contains(q));
    }
}

/// The node reference of a digest.
pub fn word_rlp(h: &[u8; 32]) -> (r: Vec<u8>)
    ensures
        r@ == word_of(h@),
        r@.len() == 33,
{
    let mut r: Vec<u8> = Vec::new();
    r.push(0xa0u8);
    let mut i: usize = 0;
    while i < 32
        invariant
            i <= 32,
            h@.len() == 32,
            r@ =~= seq![0xa0u8] + h@.subrange(0, i as int),
        decreases 32 - i,
    {
        r.push(h[i]);
        i = i + 1;
        assert(r@ =~= seq![0xa0u8] + h@.subrange(0, i as int));
    }
    assert(h@.subrange(0, 32) =~= h@);
    r
}

/// The digest that a 33-byte node reference holds; a shorter reference is
/// the node's RLP itself and holds none.
pub fn as_hash(r: &Vec<u8>) -> (h: Option<[u8; 32]>)
    ensures
        r@.len() == 33 <==> h is Some,
        h matches Some(d) ==> d@ == r@.subrange(1, 33),
{
    if r.len() != 33 {
        return None;
    }
    let mut d: [u8; 32] = [0u8; 32];
    let mut i: usize = 0;
    while i < 32
        invariant
            i <= 32,
            r@.len() == 33,
            d@.len() == 32,
            forall|j: int| 0 <= j < i ==> d@[j] == r@[j + 1],
        decreases 32 - i,
    {
        d.set(i, r[i + 1]);
        i = i + 1;
    }
    assert(d@ =~= r@.subrange(1, 33));
    Some(d)
}

/// `q` is the root path, or its parent path is a prefix of `path`: `q` lies
/// on the way to `path` or just beside it.
pub open spec fn near(q: Seq<u8>, path: Seq<u8>) -> bool {
    q.len() == 0 || is_prefix(q.subrange(0, q.len() - 1), path)
}

/// Every node at a path that is not near `path` is the same in both tables.
pub open spec fn changed_only_near(a: Map<Seq<u8>, NodeView>, b: Map<Seq<u8>, NodeView>, path: Seq<u8>) -> bool {
    forall|q: Seq<u8>|
        !#[trigger] near(q, path) ==> a.dom().contains(q) == b.dom().contains(q) && (a.dom().contains(q)
            ==> a[q] == b[q])
}

/// A prefix of `path` lies near it.
pub proof fn lemma_prefix_near(q: Seq<u8>, path: Seq<u8>)
    requires
        is_prefix(q, path),
    ensures
        near(q, path),
{
    if q.len() > 0 {
        assert(path.subrange(0, q.len() - 1) =~= q.subrange(0, q.len() - 1));
    }
}

/// The paths that a split at `common` writes to lie near `path`.
pub proof fn lemma_split_near(other: Seq<u8>, path: Seq<u8>, common: int)
    requires
        0 <= common < other.len(),
        common < path.len(),
        other.subrange(0, common) == path.subrange(0, common),
    ensures
        near(other.subrange(0, common), path),
        near(other.subrange(0, common + 1), path),
        near(path.subrange(0, common + 1), path),
{
    lemma_prefix_near(path.subrange(0, common), path);
    lemma_prefix_near(path.subrange(0, common + 1), path);
    assert(other.subrange(0, common + 1).subrange(0, common) =~= other.subrange(0, common));
    assert(path.subrange(0, common) =~= path.subrange(0, common).subrange(0, common));
}

/// Every entry at a path that does not begin with `path` is the same in
/// both tables.
pub open spec fn agrees_outside<V>(a: Map<Seq<u8>, V>, b: Map<Seq<u8>, V>, path: Seq<u8>) -> bool {
    forall|q: Seq<u8>|
        !#[trigger] is_prefix(path, q) ==> a.dom().contains(q) == b.dom().contains(q) && (a.dom().contains(q)
            ==> a[q] == b[q])
}

/// The table after revealing the digest reference `c` at `q`: a known node
/// other than a hash node is kept, else the hash node is put there.
pub open spec fn hash_revealed(nodes: Map<Seq<u8>, NodeView>, q: Seq<u8>, c: Seq<u8>) -> Map<Seq<u8>, NodeView> {
    if nodes.dom().contains(q) && !(nodes[q] is Hash) {
        nodes
    } else {
        nodes.insert(q, NodeView::Hash(c.subrange(1, 33)))
    }
}

/// The node that revealing the encoded child `c` at `q` leaves there: a
/// digest reference is kept out by a known node, other bytes become the node
/// they decode to.
pub open spec fn child_installed(nodes: Map<Seq<u8>, NodeView>, q: Seq<u8>, c: Seq<u8>) -> NodeView {
    if c.len() == 33 {
        hash_revealed(nodes, q, c)[q]
    } else {
        decoded_node_of(c)->Some_0
    }
}

/// Every encoded child of a branch is a digest reference.
pub open spec fn all_digests(stack: Seq<Vec<u8>>) -> bool {
    forall|i: int| 0 <= i < stack.len() ==> (#[trigger] stack[i])@.len() == 33
}

/// `q` is a child path of `path` under a set bit of `mask`.
pub open spec fn child_slot(path: Seq<u8>, mask: u16, q: Seq<u8>) -> bool {
    q.len() == path.len() + 1 && is_prefix(path, q) && bit_set(mask, q[path.len() as int])
}

/// Revealing one more digest child of a branch at `path` keeps the table
/// equal to the original away from the child slots revealed so far.
pub proof fn lemma_digest_child_step(
    orig: Map<Seq<u8>, NodeView>,
    before: Map<Seq<u8>, NodeView>,
    after: Map<Seq<u8>, NodeView>,
    path: Seq<u8>,
    mask: u16,
    idx: u8,
    c: Seq<u8>,
)
    requires
        idx < 16,
        bit_set(mask, idx),
        after == hash_revealed(before, path.push(idx), c),
        forall|q: Seq<u8>|
            !(#[trigger] child_slot(path, mask, q) && q[path.len() as int] < idx) ==> (orig.dom().contains(q)
                == before.dom().contains(q) && (orig.dom().contains(q) ==> orig[q] == before[q])),
    ensures
        forall|q: Seq<u8>|
            !(#[trigger] child_slot(path, mask, q) && q[path.len() as int] < idx + 1) ==> (orig.dom().contains(q)
                == after.dom().contains(q) && (orig.dom().contains(q) ==> orig[q] == after[q])),
{
    let cpv = path.push(idx);
    assert(cpv.subrange(0, path.len() as int) =~= path);
    assert(child_slot(path, mask, cpv));
    assert forall|q: Seq<u8>| !(#[trigger] child_slot(path, mask, q) && q[path.len() as int] < idx + 1) implies (orig.dom().contains(q)
        == after.dom().contains(q) && (orig.dom().contains(q) ==> orig[q] == after[q])) by {
        assert(q != cpv);
        assert(!(child_slot(path, mask, q) && q[path.len() as int] < idx));
    }
}

/// Revealing the encoded child `c` cannot fail: it is a digest reference, or
/// it decodes to a leaf or the empty node, which have no children of their
/// own.
pub open spec fn child_reveals(c: Seq<u8>) -> bool {
    c.len() == 33 || (decoded_node_of(c) matches Some(n) && (n is Leaf || n is Empty))
}

/// Revealing the encoded child `c` fails: it is no digest reference and does
/// not decode.
pub open spec fn child_fails(c: Seq<u8>) -> bool {
    c.len() != 33 && decoded_node_of(c) is None
}

/// A path begins with `path` followed by `i` exactly when it begins with
/// `path` and has `i` right after it.
pub proof fn lemma_child_prefix(path: Seq<u8>, i: u8, q: Seq<u8>)
    ensures
        is_prefix(path.push(i), q) == (is_prefix(path, q) && q.len() > path.len() && q[path.len() as int] == i),
{
    if is_prefix(path.push(i), q) {
        assert(q.subrange(0, path.len() as int) =~= q.subrange(0, path.len() as int + 1).subrange(0, path.len() as int));
        assert(path.push(i).subrange(0, path.len() as int) =~= path);
        assert(q[path.len() as int] == q.subrange(0, path.len() as int + 1)[path.len() as int]);
    }
    if is_prefix(path, q) && q.len() > path.len() && q[path.len() as int] == i {
        assert(q.subrange(0, path.len() as int + 1) =~= path.push(i));
    }
}

/// A path that begins with `path` followed by more begins with `path`.
pub proof fn lemma_prefix_extend(path: Seq<u8>, more: Seq<u8>, q: Seq<u8>)
    ensures
        is_prefix(path + more, q) ==> is_prefix(path, q),
        is_prefix(path, path + more),
{
    if is_prefix(path + more, q) {
        assert(q.subrange(0, path.len() as int) =~= q.subrange(0, (path + more).len() as int).subrange(0, path.len() as int));
        assert((path + more).subrange(0, path.len() as int) =~= path);
    }
    assert((path + more).subrange(0, path.len() as int) =~= path);
}

/// Two tables that agree at every path beginning with `p` give the node at
/// `p` the same reference.
pub proof fn lemma_node_ref_frame(
    n1: Map<Seq<u8>, NodeView>,
    n2: Map<Seq<u8>, NodeView>,
    values: Map<Seq<u8>, Seq<u8>>,
    dirty: Seq<Seq<u8>>,
    p: Seq<u8>,
    fuel: nat,
)
    requires
        forall|q: Seq<u8>| #[trigger] is_prefix(p, q) ==> n1.dom().contains(q) == n2.dom().contains(q)
            && (n1.dom().contains(q) ==> n1[q] == n2[q]),
    ensures
        node_ref(n1, values, dirty, p, fuel) == node_ref(n2, values, dirty, p, fuel),
    decreases fuel, 0nat,
{
    assert(p.subrange(0, p.len() as int) =~= p);
    assert(is_prefix(p, p));
    if n1.dom().contains(p) && fuel > 0 {
        match n1[p] {
            NodeView::Extension { key, .. } => {
                assert forall|q: Seq<u8>| #[trigger] is_prefix(p + key, q) implies n1.dom().contains(q) == n2.dom().contains(q)
                    && (n1.dom().contains(q) ==> n1[q] == n2[q]) by {
                    lemma_prefix_extend(p, key, q);
                }
                lemma_node_ref_frame(n1, n2, values, dirty, p + key, (fuel - 1) as nat);
            },
            NodeView::Branch { state_mask, .. } => {
                lemma_child_refs_frame(n1, n2, values, dirty, p, state_mask, 16, (fuel - 1) as nat);
            },
            _ => {},
        }
    }
}

/// Two tables that agree at every path beginning with `p` give the children
/// of the branch at `p` the same references.
pub proof fn lemma_child_refs_frame(
    n1: Map<Seq<u8>, NodeView>,
    n2: Map<Seq<u8>, NodeView>,
    values: Map<Seq<u8>, Seq<u8>>,
    dirty: Seq<Seq<u8>>,
    p: Seq<u8>,
    mask: u16,
    n: nat,
    fuel: nat,
)
    requires
        forall|q: Seq<u8>| #[trigger] is_prefix(p, q) ==> n1.dom().contains(q) == n2.dom().contains(q)
            && (n1.dom().contains(q) ==> n1[q] == n2[q]),
    ensures
        child_refs(n1, values, dirty, p, mask, n, fuel) == child_refs(n2, values, dirty, p, mask, n, fuel),
    decreases fuel, n + 1,
{
    if n > 0 {
        lemma_child_refs_frame(n1, n2, values, dirty, p, mask, (n - 1) as nat, fuel);
        let c = p.push((n - 1) as u8);
        assert forall|q: Seq<u8>| #[trigger] is_prefix(c, q) implies n1.dom().contains(q) == n2.dom().contains(q)
            && (n1.dom().contains(q) ==> n1[q] == n2[q]) by {
            lemma_child_prefix(p, (n - 1) as u8, q);
        }
        lemma_node_ref_frame(n1, n2, values, dirty, c, fuel);
    }
}

/// An extension with an empty key and no usable cache refers to nothing.
pub proof fn lemma_empty_key_none(
    nodes: Map<Seq<u8>, NodeView>,
    values: Map<Seq<u8>, Seq<u8>>,
    dirty: Seq<Seq<u8>>,
    p: Seq<u8>,
    fuel: nat,
)
    requires
        nodes.dom().contains(p),
        nodes[p] is Extension,
        nodes[p]->Extension_key.len() == 0,
        cache_unusable(nodes[p], p, dirty),
    ensures
        node_ref(nodes, values, dirty, p, fuel) is None,
    decreases fuel,
{
    assert(p + nodes[p]->Extension_key =~= p);
    if fuel > 0 {
        lemma_empty_key_none(nodes, values, dirty, p, (fuel - 1) as nat);
    }
}

/// A missing child reference stays missing as more children are taken.
pub proof fn lemma_child_refs_none(
    nodes: Map<Seq<u8>, NodeView>,
    values: Map<Seq<u8>, Seq<u8>>,
    dirty: Seq<Seq<u8>>,
    p: Seq<u8>,
    mask: u16,
    n: nat,
    m: nat,
    fuel: nat,
)
    requires
        n <= m,
        child_refs(nodes, values, dirty, p, mask, n, fuel) is None,
    ensures
        child_refs(nodes, values, dirty, p, mask, m, fuel) is None,
    decreases m - n,
{
    if n < m {
        lemma_child_refs_none(nodes, values, dirty, p, mask, n + 1, m, fuel);
    }
}

/// Found children's references are one for each set bit below `n`.
pub proof fn lemma_child_refs_len(
    nodes: Map<Seq<u8>, NodeView>,
    values: Map<Seq<u8>, Seq<u8>>,
    dirty: Seq<Seq<u8>>,
    p: Seq<u8>,
    mask: u16,
    n: nat,
    fuel: nat,
)
    requires
        child_refs(nodes, values, dirty, p, mask, n, fuel) is Some,
    ensures
        child_refs(nodes, values, dirty, p, mask, n, fuel)->Some_0.len() == bits_below(mask, n),
    decreases n,
{
    if n > 0 {
        lemma_child_refs_len(nodes, values, dirty, p, mask, (n - 1) as nat, fuel);
    }
}

/// Every path of the table is at most `bound` long.
pub open spec fn paths_within(nodes: Map<Seq<u8>, NodeView>, bound: nat) -> bool {
    forall|q: Seq<u8>| #[trigger] nodes.dom().contains(q) ==> q.len() <= bound
}

/// In a table whose paths are at most `bound` long, a reference found at
/// all is found with fuel `bound + 1 - p.len()`.
pub proof fn lemma_node_ref_depth(
    nodes: Map<Seq<u8>, NodeView>,
    values: Map<Seq<u8>, Seq<u8>>,
    dirty: Seq<Seq<u8>>,
    p: Seq<u8>,
    fuel: nat,
    bound: nat,
)
    requires
        paths_within(nodes, bound),
        node_ref(nodes, values, dirty, p, fuel) is Some,
    ensures
        p.len() <= bound,
        node_ref(nodes, values, dirty, p, (bound + 1 - p.len()) as nat) == node_ref(nodes, values, dirty, p, fuel),
    decreases fuel, 0nat,
{
    let b = (bound + 1 - p.len()) as nat;
    assert(nodes.dom().contains(p));
    if fuel <= b {
        lemma_node_ref_mono(nodes, values, dirty, p, fuel, b);
    } else {
        let n = nodes[p];
        if cache_unusable(n, p, dirty) {
            match n {
                NodeView::Extension { key, .. } => {
                    if key.len() == 0 {
                        lemma_empty_key_none(nodes, values, dirty, p, fuel);
                    } else {
                        let c = p + key;
                        lemma_node_ref_depth(nodes, values, dirty, c, (fuel - 1) as nat, bound);
                        lemma_node_ref_mono(nodes, values, dirty, c, (bound + 1 - c.len()) as nat, (b - 1) as nat);
                    }
                },
                NodeView::Branch { state_mask, .. } => {
                    lemma_child_refs_depth(nodes, values, dirty, p, state_mask, 16, (fuel - 1) as nat, bound);
                },
                _ => {},
            }
        }
    }
}

/// The children's version of `lemma_node_ref_depth`.
pub proof fn lemma_child_refs_depth(
    nodes: Map<Seq<u8>, NodeView>,
    values: Map<Seq<u8>, Seq<u8>>,
    dirty: Seq<Seq<u8>>,
    p: Seq<u8>,
    mask: u16,
    n: nat,
    fuel: nat,
    bound: nat,
)
    requires
        paths_within(nodes, bound),
        p.len() <= bound,
        child_refs(nodes, values, dirty, p, mask, n, fuel) is Some,
    ensures
        child_refs(nodes, values, dirty, p, mask, n, (bound - p.len()) as nat) == child_refs(
            nodes,
            values,
            dirty,
            p,
            mask,
            n,
            fuel,
        ),
    decreases fuel, n + 1,
{
    if n > 0 {
        lemma_child_refs_depth(nodes, values, dirty, p, mask, (n - 1) as nat, fuel, bound);
        if bit_set(mask, (n - 1) as u8) {
            lemma_node_ref_depth(nodes, values, dirty, p.push((n - 1) as u8), fuel, bound);
        }
    }
}

/// Setting the cache of the node at `path` to the digest of `r`, the
/// reference it encodes to, keeps every encoding and marks the node as
/// recached.
pub proof fn lemma_recache_here(
    orig: Map<Seq<u8>, NodeView>,
    cur: Map<Seq<u8>, NodeView>,
    after: Map<Seq<u8>, NodeView>,
    values: Map<Seq<u8>, Seq<u8>>,
    dirty: Seq<Seq<u8>>,
    path: Seq<u8>,
    r: Seq<u8>,
    fuel: nat,
)
    requires
        orig.dom().contains(path),
        cur.dom().contains(path),
        cur[path] == orig[path],
        cache_unusable(orig[path], path, dirty),
        node_ref(orig, values, dirty, path, fuel) == Some(r),
        well_formed_ref(r),
        after == cur.insert(path, with_digest(orig[path], held_digest(r))),
        same_shapes(orig, cur),
        forall|p: Seq<u8>, v: Seq<u8>| encodes_to(orig, values, dirty, p, v) == encodes_to(cur, values, dirty, p, v),
    ensures
        same_shapes(orig, after),
        recached(orig, values, dirty, path, after[path]),
        forall|p: Seq<u8>, v: Seq<u8>| encodes_to(orig, values, dirty, p, v) == encodes_to(after, values, dirty, p, v),
{
    lemma_reshape(orig, cur, path, with_digest(orig[path], held_digest(r)));
    assert(encodes_to(orig, values, dirty, path, r));
    assert(encodes_to(cur, values, dirty, path, r));
    lemma_recache_same_encoding(cur, after, values, dirty, path, r);
}

/// Prefixes chain.
pub proof fn lemma_prefix_trans(a: Seq<u8>, b: Seq<u8>, c: Seq<u8>)
    requires
        is_prefix(a, b),
        is_prefix(b, c),
    ensures
        is_prefix(a, c),
{
    assert(c.subrange(0, a.len() as int) =~= c.subrange(0, b.len() as int).subrange(0, a.len() as int));
}

/// Recaching judged on a table that agrees with the original below `q`
/// holds of the original too.
pub proof fn lemma_recached_transfer(
    orig: Map<Seq<u8>, NodeView>,
    cur: Map<Seq<u8>, NodeView>,
    values: Map<Seq<u8>, Seq<u8>>,
    dirty: Seq<Seq<u8>>,
    q: Seq<u8>,
    n: NodeView,
)
    requires
        forall|x: Seq<u8>| #[trigger] is_prefix(q, x) ==> orig.dom().contains(x) == cur.dom().contains(x)
            && (orig.dom().contains(x) ==> orig[x] == cur[x]),
        recached(cur, values, dirty, q, n),
    ensures
        recached(orig, values, dirty, q, n),
{
    assert(q.subrange(0, q.len() as int) =~= q);
    assert(is_prefix(q, q));
    let g = choose|g: nat|
        #[trigger] node_ref(cur, values, dirty, q, g) is Some && well_formed_ref(node_ref(cur, values, dirty, q, g)->Some_0)
            && n == with_digest(cur[q], held_digest(node_ref(cur, values, dirty, q, g)->Some_0));
    lemma_node_ref_frame(orig, cur, values, dirty, q, g);
}

/// The outcome of grafting a new leaf into a node table.
pub enum Graft {
    /// The node table after the graft.
    Done(Map<Seq<u8>, NodeView>),
    /// The walk reached a hash node: its path and digest.
    Blinded(Seq<u8>, Seq<u8>),
    /// The table does not form a trie that the walk can follow.
    Invalid,
}

/// Grafting a leaf for the full path `path` into `nodes`, walking from the
/// node at `cur`: an empty node becomes the leaf; a leaf or an extension that
/// the path leaves is split at the common prefix into a branch with the old
/// and the new side (an empty extension key is elided, as is an extension for
/// an empty tail); a branch gains the new leaf under its nibble, or passes the
/// walk on to the child there.
pub open spec fn graft_at(nodes: Map<Seq<u8>, NodeView>, path: Seq<u8>, cur: Seq<u8>) -> Graft
    decreases path.len() - cur.len(),
{
    if cur.len() > path.len() || !nodes.dom().contains(cur) {
        Graft::Invalid
    } else {
        match nodes[cur] {
            NodeView::Empty => Graft::Done(
                nodes.insert(
                    cur,
                    NodeView::Leaf { key: path.subrange(cur.len() as int, path.len() as int), hash: None },
                ),
            ),
            NodeView::Hash(h) => Graft::Blinded(cur, h),
            NodeView::Leaf { key, .. } => {
                let full = cur + key;
                let c = common_prefix_len(full, path) as int;
                if c >= full.len() || c >= path.len() {
                    Graft::Invalid
                } else {
                    Graft::Done(
                        nodes.insert(
                            cur,
                            NodeView::Extension { key: full.subrange(cur.len() as int, c), hash: None },
                        ).insert(
                            full.subrange(0, c),
                            NodeView::Branch { state_mask: split_mask(full[c], path[c]), hash: None },
                        ).insert(
                            full.subrange(0, c + 1),
                            NodeView::Leaf { key: full.subrange(c + 1, full.len() as int), hash: None },
                        ).insert(
                            path.subrange(0, c + 1),
                            NodeView::Leaf { key: path.subrange(c + 1, path.len() as int), hash: None },
                        ),
                    )
                }
            },
            NodeView::Extension { key, hash } => {
                let tail = cur + key;
                if key.len() == 0 {
                    Graft::Invalid
                } else if is_prefix(tail, path) {
                    graft_at(nodes, path, tail)
                } else {
                    let c = common_prefix_len(tail, path) as int;
                    if c >= tail.len() || c >= path.len() {
                        Graft::Invalid
                    } else {
                        let n1 = nodes.insert(
                            cur,
                            NodeView::Extension { key: tail.subrange(cur.len() as int, c), hash },
                        ).insert(
                            tail.subrange(0, c),
                            NodeView::Branch { state_mask: split_mask(tail[c], path[c]), hash: None },
                        );
                        let n2 = if c + 1 < tail.len() {
                            n1.insert(
                                tail.subrange(0, c + 1),
                                NodeView::Extension {
                                    key: tail.subrange(c + 1, tail.len() as int),
                                    hash: None,
                                },
                            )
                        } else {
                            n1
                        };
                        Graft::Done(
                            n2.insert(
                                path.subrange(0, c + 1),
                                NodeView::Leaf {
                                    key: path.subrange(c + 1, path.len() as int),
                                    hash: None,
                                },
                            ),
                        )
                    }
                }
            },
            NodeView::Branch { state_mask, hash } => {
                if cur.len() >= path.len() {
                    Graft::Invalid
                } else {
                    let nibble = path[cur.len() as int];
                    let child = cur.push(nibble);
                    if !bit_set(state_mask, nibble) {
                        Graft::Done(
                            nodes.insert(
                                cur,
                                NodeView::Branch {
                                    state_mask: state_mask | (1u16 << (nibble as u16)),
                                    hash,
                                },
                            ).insert(
                                child,
                                NodeView::Leaf {
                                    key: path.subrange(child.len() as int, path.len() as int),
                                    hash: None,
                                },
                            ),
                        )
                    } else {
                        graft_at(nodes, path, child)
                    }
                }
            },
        }
    }
}

/// The graft of a leaf for `path`, walking from the root.
pub open spec fn grafted(nodes: Map<Seq<u8>, NodeView>, path: Seq<u8>) -> Graft {
    graft_at(nodes, path, Seq::<u8>::empty())
}

/// What setting the leaf at `path` to `value` does to the tables: the value
/// table maps `path` to `value`, the path is recorded as changed, and a path
/// that already had a value leaves the node table as it was.
pub open spec fn leaf_set(
    before: RevealedSparseTrie,
    after: RevealedSparseTrie,
    path: Seq<u8>,
    value: Seq<u8>,
) -> bool {
    &&& after.values_view() == before.values_view().insert(path, value)
    &&& after.dirty_view() == before.dirty_view().push(path)
    &&& before.values_view().dom().contains(path) ==> after.nodes_view() == before.nodes_view()
}

/// What removing the leaf at `path` does to the tables: the value goes, the
/// path is recorded as changed, an absent path changes no node, a root leaf
/// leaves the empty node at the root, and only nodes near `path` change.
/// `ok` is whether the removal succeeded.
pub open spec fn leaf_removed(
    before: RevealedSparseTrie,
    after: RevealedSparseTrie,
    path: Seq<u8>,
    ok: bool,
) -> bool {
    &&& after.values_view() == before.values_view().remove(path)
    &&& after.dirty_view() == before.dirty_view().push(path)
    &&& !before.values_view().dom().contains(path) ==> ok && after.nodes_view() == before.nodes_view()
    &&& before.values_view().dom().contains(path) && before.nodes_view().dom().contains(Seq::<u8>::empty())
        && before.nodes_view()[Seq::<u8>::empty()] is Leaf ==> ok && after.nodes_view()
        == before.nodes_view().insert(Seq::<u8>::empty(), NodeView::Empty)
    &&& changed_only_near(before.nodes_view(), after.nodes_view(), path)
}

/// What `update_leaf(path, value)` does, with result `r`: the value is set
/// and the path recorded as changed; a path that had a value keeps the node
/// table; a new path is grafted exactly as `grafted` says, and a walk that
/// reaches a hash node or a table that is no trie is refused with the node
/// table untouched.
pub open spec fn leaf_updated(
    before: RevealedSparseTrie,
    after: RevealedSparseTrie,
    path: Seq<u8>,
    value: Seq<u8>,
    r: Result<(), SparseTrieError>,
) -> bool {
    &&& leaf_set(before, after, path, value)
    &&& before.values_view().dom().contains(path) ==> r is Ok
    &&& !before.values_view().dom().contains(path) ==> match grafted(before.nodes_view(), path) {
        Graft::Done(m) => r is Ok && after.nodes_view() == m,
        Graft::Blinded(p, h) => after.nodes_view() == before.nodes_view() && (r matches Err(
            SparseTrieError::BlindedNode { path: bp, hash: bh },
        ) && bp@ == p && bh@ == h),
        Graft::Invalid => after.nodes_view() == before.nodes_view() && r == Err::<
            (),
            SparseTrieError,
        >(SparseTrieError::InvalidStructure),
    }
    &&& before.nodes_view() == map![Seq::<u8>::empty() => NodeView::Empty] && !before.values_view().dom().contains(path)
        ==> r is Ok && after.nodes_view() == map![Seq::<u8>::empty() => NodeView::Leaf { key: path, hash: None }]
    &&& changed_only_near(before.nodes_view(), after.nodes_view(), path)
    &&& forall|q: Seq<u8>| #[trigger] before.nodes_view().dom().contains(q) ==> after.nodes_view().dom().contains(q)
    &&& r is Ok && !before.values_view().dom().contains(path) ==> holds_leaf(after.nodes_view(), path)
    &&& r matches Err(e) ==> after.nodes_view() == before.nodes_view() && match e {
        SparseTrieError::BlindedNode { path: p, hash: h } => is_prefix(p@, path)
            && before.nodes_view().dom().contains(p@) && before.nodes_view()[p@] == NodeView::Hash(h@),
        SparseTrieError::InvalidStructure => true,
        _ => false,
    }
}

/// What `root()` does, with result `r`: the digest is that of the reference
/// the root node encodes to, the changed paths are cleared, and only cached
/// digests change.
pub open spec fn root_computed(
    before: RevealedSparseTrie,
    after: RevealedSparseTrie,
    r: Result<[u8; 32], SparseTrieError>,
) -> bool {
    &&& after.values_view() == before.values_view()
    &&& after.dirty_view() == Seq::<Seq<u8>>::empty()
    &&& same_shapes(before.nodes_view(), after.nodes_view())
    &&& before.nodes_view().dom().contains(Seq::<u8>::empty()) ==> match before.nodes_view()[Seq::<u8>::empty()] {
        NodeView::Empty => r matches Ok(h) && h@ == keccak_of(seq![0x80u8]),
        NodeView::Hash(d) => r matches Ok(h) && h@ == d,
        _ => true,
    }
    &&& before.nodes_view().dom().contains(Seq::<u8>::empty()) && simple_ref(
        before.nodes_view()[Seq::<u8>::empty()],
        Seq::<u8>::empty(),
        before.values_view(),
        before.dirty_view(),
    ) is Some ==> (r matches Ok(h) && h@ == digest_of(
        simple_ref(
            before.nodes_view()[Seq::<u8>::empty()],
            Seq::<u8>::empty(),
            before.values_view(),
            before.dirty_view(),
        )->Some_0,
    ))
    &&& r matches Ok(h) ==> exists|v: Seq<u8>|
        encodes_to(before.nodes_view(), before.values_view(), before.dirty_view(), Seq::<u8>::empty(), v)
            && h@ == digest_of(v)
    &&& forall|v: Seq<u8>|
        #[trigger] encodes_to(before.nodes_view(), before.values_view(), before.dirty_view(), Seq::<u8>::empty(), v)
            ==> (r matches Ok(h) && h@ == digest_of(v))
    &&& r matches Err(e) ==> e is InvalidStructure
}

/// `t` is the trie revealed from the root node `node` alone: consistent, no
/// changed path, `node` at the root, and its children as revealing puts them.
pub open spec fn revealed_from(t: RevealedSparseTrie, node: TrieNode) -> bool {
    let none = Map::<Seq<u8>, NodeView>::empty();
    &&& t.wf()
    &&& t.dirty_view() == Seq::<Seq<u8>>::empty()
    &&& t.nodes_view().dom().contains(Seq::<u8>::empty())
    &&& t.nodes_view()[Seq::<u8>::empty()] == node_of(node)
    &&& node is EmptyRoot ==> t.nodes_view() == map![Seq::<u8>::empty() => NodeView::Empty]
        && t.values_view() == Map::<Seq<u8>, Seq<u8>>::empty()
    &&& node is Leaf ==> t.nodes_view() == map![Seq::<u8>::empty() => NodeView::Leaf { key: node->Leaf_key@, hash: None }]
        && t.values_view() == map![node->Leaf_key@ => node->Leaf_value@]
    &&& node is Branch ==> forall|i: u8|
        i < 16 && #[trigger] bit_set(node->Branch_state_mask, i) ==> t.nodes_view().dom().contains(
            Seq::<u8>::empty().push(i),
        ) && t.nodes_view()[Seq::<u8>::empty().push(i)] == child_installed(
            none,
            Seq::<u8>::empty().push(i),
            node->Branch_stack@[bits_below(node->Branch_state_mask, i as nat) as int]@,
        )
    &&& node is Extension && node->Extension_key@.len() > 0 ==> t.nodes_view().dom().contains(node->Extension_key@)
        && t.nodes_view()[node->Extension_key@] == child_installed(none, node->Extension_key@, node->Extension_child@)
    &&& node is Branch && all_digests(node->Branch_stack@) ==> t.values_view() == Map::<Seq<u8>, Seq<u8>>::empty()
        && forall|q: Seq<u8>| #[trigger] t.nodes_view().dom().contains(q) ==> q == Seq::<u8>::empty() || child_slot(
            Seq::<u8>::empty(),
            node->Branch_state_mask,
            q,
        )
    &&& node is Extension && node->Extension_key@.len() > 0 && node->Extension_child@.len() == 33
        ==> t.values_view() == Map::<Seq<u8>, Seq<u8>>::empty() && t.nodes_view() == map![
            Seq::<u8>::empty() => NodeView::Extension { key: node->Extension_key@, hash: None },
            node->Extension_key@ => NodeView::Hash(node->Extension_child@.subrange(1, 33))
        ]
}

/// The node `n` at `q` is the original node with its cache set to the digest
/// held by a reference that the original node encodes to.
pub open spec fn digest_refreshed(
    nodes: Map<Seq<u8>, NodeView>,
    values: Map<Seq<u8>, Seq<u8>>,
    dirty: Seq<Seq<u8>>,
    q: Seq<u8>,
    n: NodeView,
) -> bool {
    exists|r: Seq<u8>|
        #[trigger] encodes_to(nodes, values, dirty, q, r) && well_formed_ref(r) && n == with_digest(nodes[q], held_digest(r))
}

/// A node taken out of the table on the way to a removed leaf.
struct RemovedSparseNode {
    path: Nibbles,
    node: SparseNode,
    /// The nibble of the branch's child that is the removed leaf.
    unset_branch_nibble: Option<u8>,
}

impl RemovedSparseNode {
    spec fn nibble_ok(&self) -> bool {
        self.unset_branch_nibble matches Some(n) ==> n < 16
    }
}

/// The outcome of taking the nodes on the way to a leaf out of a table.
pub enum Spine {
    /// The nodes taken, shallowest first: the path, the node, and for a
    /// branch whose child on the way is the leaf, that child's nibble.
    Taken(Seq<(Seq<u8>, NodeView, Option<u8>)>),
    /// An empty node stands on the way.
    Blind,
    /// A hash node stands on the way: its path and digest.
    Blinded(Seq<u8>, Seq<u8>),
    /// The way leaves `path`, or a branch is reached at its full length.
    Invalid,
}

/// `rec` followed by what `s` took.
pub open spec fn spine_prepend(rec: (Seq<u8>, NodeView, Option<u8>), s: Spine) -> Spine {
    match s {
        Spine::Taken(t) => Spine::Taken(seq![rec] + t),
        _ => s,
    }
}

/// `recs` followed by what `s` took.
pub open spec fn spine_after(recs: Seq<(Seq<u8>, NodeView, Option<u8>)>, s: Spine) -> Spine {
    match s {
        Spine::Taken(t) => Spine::Taken(recs + t),
        _ => s,
    }
}

/// The nodes on the way from `cur` to the leaf at `path`: a leaf ends the
/// way, an extension leads on by its key, a branch by the next nibble of
/// `path`; a missing node ends the way with what was taken.
pub open spec fn spine_at(nodes: Map<Seq<u8>, NodeView>, path: Seq<u8>, cur: Seq<u8>) -> Spine
    decreases path.len() - cur.len(),
{
    if cur.len() > path.len() {
        Spine::Invalid
    } else if !nodes.dom().contains(cur) {
        Spine::Taken(Seq::empty())
    } else {
        match nodes[cur] {
            NodeView::Empty => Spine::Blind,
            NodeView::Hash(h) => Spine::Blinded(cur, h),
            NodeView::Leaf { .. } => Spine::Taken(seq![(cur, nodes[cur], None::<u8>)]),
            NodeView::Extension { key, .. } => {
                let next = cur + key;
                if !is_prefix(next, path) {
                    Spine::Invalid
                } else if key.len() == 0 {
                    Spine::Taken(seq![(cur, nodes[cur], None::<u8>)])
                } else {
                    spine_prepend((cur, nodes[cur], None::<u8>), spine_at(nodes, path, next))
                }
            },
            NodeView::Branch { .. } => {
                if cur.len() >= path.len() {
                    Spine::Invalid
                } else {
                    let nibble = path[cur.len() as int];
                    let child = cur.push(nibble);
                    let unset = nodes.dom().contains(child) && (nodes[child] matches NodeView::Leaf { key, .. }
                        && child + key == path);
                    spine_prepend(
                        (cur, nodes[cur], if unset { Some(nibble) } else { None::<u8> }),
                        spine_at(nodes, path, child),
                    )
                }
            },
        }
    }
}

/// The nodes on the way from the root to the leaf at `path`.
pub open spec fn spine(nodes: Map<Seq<u8>, NodeView>, path: Seq<u8>) -> Spine {
    spine_at(nodes, path, Seq::<u8>::empty())
}

/// The paths of taken nodes.
pub open spec fn taken_paths(t: Seq<(Seq<u8>, NodeView, Option<u8>)>) -> Seq<Seq<u8>> {
    t.map_values(|e: (Seq<u8>, NodeView, Option<u8>)| e.0)
}

/// Taking one more node extends the records and their paths by it, and a
/// spine after the longer records is the spine after the shorter ones with
/// that node first.
proof fn lemma_taken_push(before: Seq<RemovedSparseNode>, after: Seq<RemovedSparseNode>)
    requires
        after.len() == before.len() + 1,
        forall|i: int| 0 <= i < before.len() ==> after[i] == before[i],
    ensures
        removed_view(after) == removed_view(before).push(removed_view(after).last()),
        taken_paths(removed_view(after)) == taken_paths(removed_view(before)).push(after.last().path@),
        forall|s: Spine| spine_after(removed_view(after), s) == spine_after(removed_view(before), spine_prepend(removed_view(after).last(), s)),
{
    assert(removed_view(after) =~= removed_view(before).push(removed_view(after).last()));
    assert(taken_paths(removed_view(after)) =~= taken_paths(removed_view(before)).push(after.last().path@));
    assert forall|s: Spine| spine_after(removed_view(after), s) == spine_after(removed_view(before), spine_prepend(removed_view(after).last(), s)) by {
        if let Spine::Taken(t) = s {
            assert(removed_view(after) + t =~= removed_view(before) + (seq![removed_view(after).last()] + t));
        }
    }
}

/// Taking out the node at `cv` and recording its path keeps the table equal
/// to the original without the recorded paths.
proof fn lemma_taken_members(
    nodes0: Map<Seq<u8>, NodeView>,
    prev: Map<Seq<u8>, NodeView>,
    now: Map<Seq<u8>, NodeView>,
    pb: Seq<Seq<u8>>,
    pa: Seq<Seq<u8>>,
    cv: Seq<u8>,
)
    requires
        forall|q: Seq<u8>| #[trigger] prev.dom().contains(q) == (nodes0.dom().contains(q) && !pb.contains(q)),
        now == prev.remove(cv),
        pa == pb.push(cv),
    ensures
        forall|q: Seq<u8>| #[trigger] now.dom().contains(q) == (nodes0.dom().contains(q) && !pa.contains(q)),
{
    assert forall|q: Seq<u8>| #[trigger] now.dom().contains(q) == (nodes0.dom().contains(q) && !pa.contains(q)) by {
        assert(prev.dom().contains(q) == (nodes0.dom().contains(q) && !pb.contains(q)));
        if pa.contains(q) {
            let k = choose|k: int| 0 <= k < pa.len() && pa[k] == q;
            if k < pb.len() {
                assert(pb[k] == q);
            }
        }
        if pb.contains(q) {
            let k = choose|k: int| 0 <= k < pb.len() && pb[k] == q;
            assert(pa[k] == q);
        }
        if q == cv {
            assert(pa[pb.len() as int] == q);
        }
    }
}

/// The records of taken nodes, as the spine states them.
spec fn removed_view(v: Seq<RemovedSparseNode>) -> Seq<(Seq<u8>, NodeView, Option<u8>)> {
    v.map_values(|r: RemovedSparseNode| (r.path@, r.node@, r.unset_branch_nibble))
}

/// The outcome of removing a leaf from a node table.
pub enum Collapse {
    /// The node table after the removal.
    Done(Map<Seq<u8>, NodeView>),
    /// An empty node stands where a populated one was needed.
    Blind,
    /// A hash node had to be read: its path and digest.
    Blinded(Seq<u8>, Seq<u8>),
    /// The table does not form a trie that the removal can follow.
    Invalid,
}

/// The mask of a branch on the way, with the bit of the removed leaf cleared.
pub open spec fn cleared_mask(mask: u16, unset: Option<u8>) -> u16 {
    match unset {
        Some(n) => mask & !(1u16 << (n as u16)),
        None => mask,
    }
}

/// The only set bit of a mask with one bit set.
pub open spec fn only_bit(mask: u16) -> u8 {
    choose|b: u8| b < 16 && bit_set(mask, b)
}

/// One step of the unwinding: the node `rec` taken on the way is put back in
/// the form that its (already rebuilt) child `child` calls for. An extension
/// over a leaf or an extension absorbs it; a branch left with one child
/// becomes a leaf or extension that absorbs that child, or a one-nibble
/// extension over a branch; other branches lose only the removed bit.
pub open spec fn collapse_step(
    nodes: Map<Seq<u8>, NodeView>,
    rec: (Seq<u8>, NodeView, Option<u8>),
    child: (Seq<u8>, NodeView),
) -> Result<(Map<Seq<u8>, NodeView>, NodeView), Collapse> {
    match rec.1 {
        NodeView::Empty => Err(Collapse::Blind),
        NodeView::Hash(h) => Err(Collapse::Blinded(rec.0, h)),
        NodeView::Leaf { .. } => Err(Collapse::Invalid),
        NodeView::Extension { key, hash } => match child.1 {
            NodeView::Empty => Err(Collapse::Blind),
            NodeView::Hash(h) => Err(Collapse::Blinded(child.0, h)),
            NodeView::Leaf { key: lk, .. } => Ok((nodes.remove(child.0), NodeView::Leaf { key: key + lk, hash: None })),
            NodeView::Extension { key: ek, .. } => Ok(
                (nodes.remove(child.0), NodeView::Extension { key: key + ek, hash: None }),
            ),
            NodeView::Branch { .. } => Ok((nodes, NodeView::Extension { key, hash })),
        },
        NodeView::Branch { state_mask, .. } => {
            let m = cleared_mask(state_mask, rec.2);
            if popcount(m) == 1 {
                let b = only_bit(m);
                let cp = rec.0.push(b);
                if !nodes.dom().contains(cp) {
                    Err(Collapse::Invalid)
                } else {
                    match nodes[cp] {
                        NodeView::Empty => Err(Collapse::Blind),
                        NodeView::Hash(h) => Err(Collapse::Blinded(cp, h)),
                        NodeView::Leaf { key, .. } => Ok(
                            (nodes.remove(cp), NodeView::Leaf { key: seq![b] + key, hash: None }),
                        ),
                        NodeView::Extension { key, .. } => Ok(
                            (nodes.remove(cp), NodeView::Extension { key: seq![b] + key, hash: None }),
                        ),
                        NodeView::Branch { .. } => Ok((nodes, NodeView::Extension { key: seq![b], hash: None })),
                    }
                }
            } else {
                Ok((nodes, NodeView::Branch { state_mask: m, hash: None }))
            }
        },
    }
}

/// Putting back the first `k` taken nodes `t`, deepest first, over `child`.
pub open spec fn unwind(
    nodes: Map<Seq<u8>, NodeView>,
    t: Seq<(Seq<u8>, NodeView, Option<u8>)>,
    k: nat,
    child: (Seq<u8>, NodeView),
) -> Collapse
    decreases k,
{
    if k == 0 || k > t.len() {
        Collapse::Done(nodes)
    } else {
        match collapse_step(nodes, t[k - 1], child) {
            Err(e) => e,
            Ok((n2, new_node)) => unwind(n2.insert(t[k - 1].0, new_node), t, (k - 1) as nat, (t[k - 1].0, new_node)),
        }
    }
}

/// `nodes` without the entries at `paths`.
pub open spec fn without(nodes: Map<Seq<u8>, NodeView>, paths: Seq<Seq<u8>>) -> Map<Seq<u8>, NodeView> {
    Map::new(|q: Seq<u8>| nodes.dom().contains(q) && !paths.contains(q), |q: Seq<u8>| nodes[q])
}

/// Removing the leaf at `path` from `nodes`: the spine to it is taken out
/// and put back, deepest first, collapsing as `collapse_step` says; a spine
/// of the leaf alone leaves the empty node at the root.
pub open spec fn removal(nodes: Map<Seq<u8>, NodeView>, path: Seq<u8>) -> Collapse {
    match spine(nodes, path) {
        Spine::Taken(t) => {
            let rest = without(nodes, taken_paths(t));
            if t.len() == 0 {
                Collapse::Invalid
            } else if t.len() == 1 {
                Collapse::Done(rest.insert(Seq::<u8>::empty(), NodeView::Empty))
            } else {
                unwind(rest, t, (t.len() - 1) as nat, (t.last().0, t.last().1))
            }
        },
        Spine::Blind => Collapse::Blind,
        Spine::Blinded(p, h) => Collapse::Blinded(p, h),
        Spine::Invalid => Collapse::Invalid,
    }
}

/// The trie whose nodes are known: a table of nodes by path, a table of leaf
/// values by full path, the paths changed since the last root computation,
/// and a scratch buffer for encoding.
pub struct RevealedSparseTrie {
    nodes: PathMap<SparseNode>,
    values: PathMap<Vec<u8>>,
    prefix_set: PrefixSet,
    rlp_buf: Vec<u8>,
}

impl RevealedSparseTrie {
    /// The node table.
    pub closed spec fn nodes_view(&self) -> Map<Seq<u8>, NodeView> {
        self.nodes@
    }

    /// The value table.
    pub closed spec fn values_view(&self) -> Map<Seq<u8>, Seq<u8>> {
        self.values@
    }

    /// The changed paths, in the order they were recorded.
    pub closed spec fn dirty_view(&self) -> Seq<Seq<u8>> {
        self.prefix_set@
    }

    /// The tables are consistent as tables.
    pub closed spec fn wf(&self) -> bool {
        self.nodes.wf() && self.values.wf()
    }

    /// The trie of no leaves: the empty node at the root.
    pub fn new() -> (r: Self)
        ensures
            r.wf(),
            r.nodes_view() == map![Seq::<u8>::empty() => NodeView::Empty],
            r.values_view() == Map::<Seq<u8>, Seq<u8>>::empty(),
            r.dirty_view() == Seq::<Seq<u8>>::empty(),
    {
        let mut nodes = PathMap::new();
        nodes.insert(Nibbles::new(), SparseNode::Empty);
        let r = RevealedSparseTrie {
            nodes,
            values: PathMap::new(),
            prefix_set: PrefixSet::new(),
            rlp_buf: Vec::new(),
        };
        assert(r.nodes_view() =~= map![Seq::<u8>::empty() => NodeView::Empty]);
        r
    }

    /// The node at `path`, if any.
    pub fn node(&self, path: &Nibbles) -> (r: Option<&SparseNode>)
        requires
            self.wf(),
        ensures
            r.is_some() == self.nodes_view().dom().contains(path@),
            r.is_some() ==> r.unwrap()@ == self.nodes_view()[path@],
    {
        self.nodes.get(path)
    }

    /// The value at the full leaf path `path`, if any.
    pub fn value(&self, path: &Nibbles) -> (r: Option<&Vec<u8>>)
        requires
            self.wf(),
        ensures
            r.is_some() == self.values_view().dom().contains(path@),
            r.is_some() ==> r.unwrap()@ == self.values_view()[path@],
    {
        self.values.get(path)
    }

    /// Number of nodes in the table.
    pub fn node_count(&self) -> (r: usize)
        requires
            self.wf(),
        ensures
            r == self.nodes_view().dom().len(),
    {
        self.nodes.len()
    }

    /// A copy of every entry of the node table, in no particular order.
    pub fn node_entries(&self) -> (r: Vec<(Nibbles, SparseNode)>)
        requires
            self.wf(),
        ensures
            r@.len() == self.nodes_view().dom().len(),
            forall|i: int|
                0 <= i < r@.len() ==> #[trigger] self.nodes_view().dom().contains(r@[i].0@)
                    && self.nodes_view()[r@[i].0@] == r@[i].1@,
    {
        let entries = self.nodes.entries();
        let mut out: Vec<(Nibbles, SparseNode)> = Vec::new();
        let mut i: usize = 0;
        while i < entries.len()
            invariant
                i <= entries@.len(),
                out@.len() == i,
                forall|j: int|
                    0 <= j < i ==> out@[j].0@ == entries@[j].0@ && out@[j].1@ == entries@[j].1@,
            decreases entries@.len() - i,
        {
            out.push((entries[i].0.duplicate(), entries[i].1.duplicate()));
            i = i + 1;
        }
        proof {
            assert forall|j: int| 0 <= j < out@.len() implies #[trigger] self.nodes_view().dom().contains(
                out@[j].0@) && self.nodes_view()[out@[j].0@] == out@[j].1@ by {
                assert(self.nodes@.dom().contains(entries@[j].0@));
            }
        }
        out
    }

    /// Puts a node at a path near `path`.
    fn put_node(
        &mut self,
        q: Nibbles,
        n: SparseNode,
        Ghost(base): Ghost<Map<Seq<u8>, NodeView>>,
        Ghost(path): Ghost<Seq<u8>>,
    )
        requires
            old(self).wf(),
            near(q@, path),
            changed_only_near(base, old(self).nodes@, path),
        ensures
            final(self).wf(),
            final(self).nodes@ == old(self).nodes@.insert(q@, n@),
            final(self).values@ == old(self).values@,
            final(self).prefix_set@ == old(self).prefix_set@,
            changed_only_near(base, final(self).nodes@, path),
    {
        self.nodes.insert(q, n);
    }

    /// Takes out the node at a path near `path`.
    fn take_node(
        &mut self,
        q: &Nibbles,
        Ghost(base): Ghost<Map<Seq<u8>, NodeView>>,
        Ghost(path): Ghost<Seq<u8>>,
    ) -> (r: Option<SparseNode>)
        requires
            old(self).wf(),
            near(q@, path),
            changed_only_near(base, old(self).nodes@, path),
        ensures
            final(self).wf(),
            final(self).nodes@ == old(self).nodes@.remove(q@),
            r.is_some() == old(self).nodes@.dom().contains(q@),
            r.is_some() ==> r.unwrap()@ == old(self).nodes@[q@],
            final(self).values@ == old(self).values@,
            final(self).prefix_set@ == old(self).prefix_set@,
            changed_only_near(base, final(self).nodes@, path),
    {
        self.nodes.remove(q)
    }

    /// Sets the value of the leaf at the full path `path`, grafting a new leaf
    /// into the trie when the path is new.
    pub fn update_leaf(&mut self, path: Nibbles, value: Vec<u8>) -> (r: Result<(), SparseTrieError>)
        requires
            old(self).wf(),
        ensures
            final(self).wf(),
            leaf_updated(*old(self), *final(self), path@, value@, r),
    {
        self.prefix_set.insert(path.duplicate());
        let existing = self.values.insert(path.duplicate(), value);
        if existing.is_some() {
            return Ok(());
        }
        let ghost nodes0 = self.nodes@;
        let ghost values1 = self.values@;
        let ghost dirty1 = self.prefix_set@;
        let mut current = Nibbles::new();
        assert(path@.subrange(0, 0) =~= current@);
        loop
            invariant
                self.nodes.wf(),
                self.values.wf(),
                self.nodes@ == nodes0,
                self.values@ == values1,
                self.prefix_set@ == dirty1,
                values1 == old(self).values_view().insert(path@, value@),
                dirty1 == old(self).dirty_view().push(path@),
                nodes0 == old(self).nodes_view(),
                !old(self).values_view().dom().contains(path@),
                nodes0 == map![Seq::<u8>::empty() => NodeView::Empty] ==> current@ == Seq::<u8>::empty(),
                graft_at(nodes0, path@, current@) == grafted(nodes0, path@),
                is_prefix(current@, path@),
            decreases path@.len() - current@.len(),
        {
            let node = match self.nodes.get(&current) {
                Some(n) => n.duplicate(),
                None => {
                    return Err(SparseTrieError::InvalidStructure);
                },
            };
            match node {
                SparseNode::Empty => {
                    let key = path.slice_from(current.len());
                    proof { lemma_prefix_near(current@, path@); }
                    self.put_node(current.duplicate(), SparseNode::new_leaf(key), Ghost(nodes0), Ghost(path@));
                    proof {
                        if nodes0 == map![Seq::<u8>::empty() => NodeView::Empty] {
                            assert(path@.subrange(0, path@.len() as int) =~= path@);
                            assert(self.nodes@ =~= map![Seq::<u8>::empty() => NodeView::Leaf { key: path@, hash: None }]);
                        }
                    }
                    assert(is_prefix(current@, path@));
                    return Ok(());
                },
                SparseNode::Hash(hash) => {
                    return Err(SparseTrieError::BlindedNode { path: current, hash });
                },
                SparseNode::Leaf { key: current_key, .. } => {
                    let full = current.join(&current_key);
                    let common = full.common_prefix_length(&path);
                    if common >= full.len() || common >= path.len() {
                        return Err(SparseTrieError::InvalidStructure);
                    }
                    proof {
                        assert(full@.subrange(0, current@.len() as int) =~= current@);
                        if common < current@.len() {
                            assert(full@[common as int] == current@[common as int]);
                            assert(path@[common as int] == path@.subrange(0, current@.len() as int)[common as int]);
                        }
                    }
                    proof {
                        lemma_prefix_near(current@, path@);
                        lemma_split_near(full@, path@, common as int);
                    }
                    let ext_key = full.slice(current.len(), common);
                    self.put_node(current.duplicate(), SparseNode::new_ext(ext_key), Ghost(nodes0), Ghost(path@));
                    let branch = SparseNode::new_split_branch(full.at(common), path.at(common));
                    self.put_node(full.slice(0, common), branch, Ghost(nodes0), Ghost(path@));
                    let leaf_path = path.slice(0, common + 1);
                    let new_leaf = SparseNode::new_leaf(path.slice_from(common + 1));
                    self.put_node(
                        full.slice(0, common + 1),
                        SparseNode::new_leaf(full.slice_from(common + 1)),
                        Ghost(nodes0),
                        Ghost(path@),
                    );
                    let ghost lp = leaf_path@;
                    self.put_node(leaf_path, new_leaf, Ghost(nodes0), Ghost(path@));
                    assert(is_prefix(lp, path@));
                    return Ok(());
                },
                SparseNode::Extension { key, hash } => {
                    if key.is_empty() {
                        return Err(SparseTrieError::InvalidStructure);
                    }
                    let tail = current.join(&key);
                    if path.starts_with(&tail) {
                        current = tail;
                    } else {
                        let common = tail.common_prefix_length(&path);
                        if common >= path.len() {
                            return Err(SparseTrieError::InvalidStructure);
                        }
                        proof {
                            assert(tail@.subrange(0, current@.len() as int) =~= current@);
                            if common < current@.len() {
                                assert(tail@[common as int] == current@[common as int]);
                                assert(path@[common as int] == path@.subrange(0, current@.len() as int)[common as int]);
                            }
                            if common >= tail@.len() {
                                assert(tail@.subrange(0, tail@.len() as int) =~= tail@);
                                assert(path@.subrange(0, tail@.len() as int) == tail@);
                                assert(false);
                            }
                        }
                        proof {
                            lemma_prefix_near(current@, path@);
                            lemma_split_near(tail@, path@, common as int);
                        }
                        let ext_key = tail.slice(current.len(), common);
                        self.put_node(
                            current.duplicate(),
                            SparseNode::Extension { key: ext_key, hash },
                            Ghost(nodes0),
                            Ghost(path@),
                        );
                        let branch = SparseNode::new_split_branch(tail.at(common), path.at(common));
                        self.put_node(tail.slice(0, common), branch, Ghost(nodes0), Ghost(path@));
                        let rest = tail.slice_from(common + 1);
                        if !rest.is_empty() {
                            self.put_node(tail.slice(0, common + 1), SparseNode::new_ext(rest), Ghost(nodes0), Ghost(path@));
                        }
                        let leaf_path = path.slice(0, common + 1);
                        let new_leaf = SparseNode::new_leaf(path.slice_from(common + 1));
                        let ghost lp = leaf_path@;
                        self.put_node(leaf_path, new_leaf, Ghost(nodes0), Ghost(path@));
                        assert(is_prefix(lp, path@));
                        return Ok(());
                    }
                },
                SparseNode::Branch { state_mask, hash } => {
                    if current.len() >= path.len() {
                        return Err(SparseTrieError::InvalidStructure);
                    }
                    let nibble = path.at(current.len());
                    let child = current.join_nibble(nibble);
                    proof {
                        assert(child@ =~= path@.subrange(0, child@.len() as int));
                    }
                    if !is_bit_set(state_mask, nibble) {
                        proof {
                            lemma_prefix_near(current@, path@);
                            lemma_prefix_near(child@, path@);
                        }
                        let mask = with_bit(state_mask, nibble);
                        self.put_node(current, SparseNode::Branch { state_mask: mask, hash }, Ghost(nodes0), Ghost(path@));
                        let leaf = SparseNode::new_leaf(path.slice_from(child.len()));
                        let ghost cp = child@;
                        self.put_node(child, leaf, Ghost(nodes0), Ghost(path@));
                        assert(is_prefix(cp, path@));
                        return Ok(());
                    }
                    current = child;
                },
            }
        }
    }

    /// Removes the leaf at the full path `path`, collapsing the nodes above
    /// it so that the trie stays canonical.
    pub fn remove_leaf(&mut self, path: Nibbles) -> (r: Result<(), SparseTrieError>)
        requires
            old(self).wf(),
        ensures
            final(self).wf(),
            leaf_removed(*old(self), *final(self), path@, r is Ok),
            r is Err ==> final(self).nodes_view() == old(self).nodes_view(),
            r matches Err(e) ==> !(e is RlpDecode),
            r matches Err(SparseTrieError::BlindedNode { path: p, hash: h }) ==> near(p@, path@)
                && old(self).nodes_view().dom().contains(p@) && old(self).nodes_view()[p@] == NodeView::Hash(h@),
            old(self).values_view().dom().contains(path@) ==> match removal(old(self).nodes_view(), path@) {
                Collapse::Done(m) => r is Ok && final(self).nodes_view() == m,
                Collapse::Blind => r == Err::<(), SparseTrieError>(SparseTrieError::Blind),
                Collapse::Blinded(p, h) => r matches Err(SparseTrieError::BlindedNode { path: bp, hash: bh })
                    && bp@ == p && bh@ == h,
                Collapse::Invalid => r == Err::<(), SparseTrieError>(SparseTrieError::InvalidStructure),
            },
    {
        self.prefix_set.insert(path.duplicate());
        let existing = self.values.remove(&path);
        if existing.is_none() {
            return Ok(());
        }
        let ghost nodes0 = self.nodes@;
        let saved = self.nodes.snapshot();
        let mut removed = match self.take_nodes_for_path(&path) {
            Ok(v) => v,
            Err(e) => {
                proof {
                    if e is BlindedNode {
                        lemma_prefix_near(e->BlindedNode_path@, path@);
                    }
                }
                self.nodes = saved;
                return Err(e);
            },
        };
        let ghost t = removed_view(removed@);
        let ghost full_removed = removed@;
        proof {
            assert(spine(nodes0, path@) == Spine::Taken(t));
            assert(self.nodes@ =~= without(nodes0, taken_paths(t)));
        }
        let mut child = match removed.pop() {
            Some(c) => c,
            None => {
                self.nodes = saved;
                return Err(SparseTrieError::InvalidStructure);
            },
        };
        proof {
            assert(removed_view(removed@) =~= t.subrange(0, removed@.len() as int));
            assert(full_removed.last() == child);
            assert(t.last() == (child.path@, child.node@, child.unset_branch_nibble));
        }
        if removed.len() == 0 {
            self.put_node(Nibbles::new(), SparseNode::Empty, Ghost(nodes0), Ghost(path@));
            proof {
                if nodes0.dom().contains(Seq::<u8>::empty()) && nodes0[Seq::<u8>::empty()] is Leaf {
                    assert(self.nodes@ =~= nodes0.insert(Seq::<u8>::empty(), NodeView::Empty));
                }
            }
            return Ok(());
        }
        let ghost values1 = self.values@;
        let ghost dirty1 = self.prefix_set@;
        assert(nodes0 == old(self).nodes_view());
        while removed.len() > 0
            invariant
                self.nodes.wf(),
                self.values.wf(),
                self.values@ == values1,
                self.prefix_set@ == dirty1,
                values1 == old(self).values_view().remove(path@),
                dirty1 == old(self).dirty_view().push(path@),
                old(self).values_view().dom().contains(path@),
                nodes0 == old(self).nodes_view(),
                saved.wf(),
                saved@ == nodes0,
                changed_only_near(nodes0, self.nodes@, path@),
                forall|i: int| 0 <= i < removed@.len() ==> is_prefix(#[trigger] removed@[i].path@, path@),
                is_prefix(child.path@, path@),
                forall|i: int| 0 <= i < removed@.len() ==> nodes0.dom().contains((#[trigger] removed@[i]).path@)
                    && nodes0[removed@[i].path@] == removed@[i].node@,
                child.node@ is Hash ==> nodes0.dom().contains(child.path@) && nodes0[child.path@] == child.node@,
                forall|q: Seq<u8>| #[trigger] self.nodes@.dom().contains(q) && self.nodes@[q] is Hash ==> nodes0.dom().contains(q)
                    && nodes0[q] == self.nodes@[q],
                !(nodes0.dom().contains(Seq::<u8>::empty()) && nodes0[Seq::<u8>::empty()] is Leaf),
                forall|i: int| 0 <= i < removed@.len() ==> #[trigger] removed@[i].nibble_ok(),
                removed@.len() < t.len(),
                removed_view(removed@) == t.subrange(0, removed@.len() as int),
                removal(nodes0, path@) == unwind(self.nodes@, t, removed@.len() as nat, (child.path@, child.node@)),
            decreases removed@.len(),
        {
            let ghost k = removed@.len();
            let ghost cur_nodes = self.nodes@;
            let ghost child_view = (child.path@, child.node@);
            let ghost before_pop = removed@;
            let removed_node = removed.pop().unwrap();
            proof {
                assert(removed_view(before_pop)[k - 1] == t[k - 1]);
                assert(t[k - 1] == (removed_node.path@, removed_node.node@, removed_node.unset_branch_nibble));
                assert(removed_view(removed@) =~= t.subrange(0, removed@.len() as int));
            }
            assert(removed_node.nibble_ok());
            let removed_path = removed_node.path;
            assert(is_prefix(removed_path@, path@));
            let new_node = match removed_node.node {
                SparseNode::Empty => {
                    self.nodes = saved;
                    return Err(SparseTrieError::Blind);
                },
                SparseNode::Hash(hash) => {
                    proof { lemma_prefix_near(removed_path@, path@); }
                    self.nodes = saved;
                    return Err(SparseTrieError::BlindedNode { path: removed_path, hash });
                },
                SparseNode::Leaf { .. } => {
                    self.nodes = saved;
                    return Err(SparseTrieError::InvalidStructure);
                },
                SparseNode::Extension { key, hash } => {
                    match &child.node {
                        SparseNode::Empty => {
                            self.nodes = saved;
                            return Err(SparseTrieError::Blind);
                        },
                        SparseNode::Hash(h) => {
                            proof { lemma_prefix_near(child.path@, path@); }
                            self.nodes = saved;
                            return Err(SparseTrieError::BlindedNode { path: child.path, hash: *h });
                        },
                        SparseNode::Leaf { key: leaf_key, .. } => {
                            proof { lemma_prefix_near(child.path@, path@); }
                            self.take_node(&child.path, Ghost(nodes0), Ghost(path@));
                            SparseNode::new_leaf(key.join(leaf_key))
                        },
                        SparseNode::Extension { key: ext_key, .. } => {
                            proof { lemma_prefix_near(child.path@, path@); }
                            self.take_node(&child.path, Ghost(nodes0), Ghost(path@));
                            SparseNode::new_ext(key.join(ext_key))
                        },
                        SparseNode::Branch { .. } => SparseNode::Extension { key, hash },
                    }
                },
                SparseNode::Branch { state_mask, .. } => {
                    let mut mask = state_mask;
                    match removed_node.unset_branch_nibble {
                        Some(n) => {
                            mask = without_bit(mask, n);
                        },
                        None => {},
                    }
                    let (count, first) = count_bits(mask);
                    proof {
                        assert(mask == cleared_mask(state_mask, removed_node.unset_branch_nibble));
                        if count == 1 {
                            assert(first < 16 && bit_set(mask, first));
                            let b = only_bit(mask);
                            assert(b < 16 && bit_set(mask, b));
                            assert(b == first);
                        }
                    }
                    if count == 1 {
                        let child_path = removed_path.join_nibble(first);
                        proof {
                            assert(child_path@.subrange(0, child_path@.len() - 1) =~= removed_path@);
                            assert(near(child_path@, path@));
                        }
                        let only = match self.nodes.get(&child_path) {
                            Some(n) => n.duplicate(),
                            None => {
                                self.nodes = saved;
                                return Err(SparseTrieError::InvalidStructure);
                            },
                        };
                        let prefix = Nibbles::new().join_nibble(first);
                        assert(prefix@ =~= seq![first]);
                        match only {
                            SparseNode::Empty => {
                                self.nodes = saved;
                                return Err(SparseTrieError::Blind);
                            },
                            SparseNode::Hash(h) => {
                                self.nodes = saved;
                                return Err(SparseTrieError::BlindedNode { path: child_path, hash: h });
                            },
                            SparseNode::Leaf { key, .. } => {
                                self.take_node(&child_path, Ghost(nodes0), Ghost(path@));
                                SparseNode::new_leaf(prefix.join(&key))
                            },
                            SparseNode::Extension { key, .. } => {
                                self.take_node(&child_path, Ghost(nodes0), Ghost(path@));
                                SparseNode::new_ext(prefix.join(&key))
                            },
                            SparseNode::Branch { .. } => SparseNode::new_ext(prefix),
                        }
                    } else {
                        SparseNode::new_branch(mask)
                    }
                },
            };
            child = RemovedSparseNode {
                path: removed_path.duplicate(),
                node: new_node.duplicate(),
                unset_branch_nibble: None,
            };
            proof { lemma_prefix_near(removed_path@, path@); }
            self.put_node(removed_path, new_node, Ghost(nodes0), Ghost(path@));
        }
        Ok(())
    }

    /// Takes out of the table every node on the way from the root to the
    /// leaf at `path`, shallowest first. A branch whose child on the way is
    /// that leaf is recorded with the child's nibble.
    fn take_nodes_for_path(&mut self, path: &Nibbles) -> (r: Result<Vec<RemovedSparseNode>, SparseTrieError>)
        requires
            old(self).wf(),
        ensures
            final(self).wf(),
            final(self).values_view() == old(self).values_view(),
            final(self).dirty_view() == old(self).dirty_view(),
            r matches Ok(v) ==> forall|i: int| 0 <= i < v@.len() ==> #[trigger] v@[i].nibble_ok(),
            changed_only_near(old(self).nodes_view(), final(self).nodes_view(), path@),
            r matches Ok(v) ==> forall|i: int| 0 <= i < v@.len() ==> is_prefix(#[trigger] v@[i].path@, path@),
            old(self).nodes_view().dom().contains(Seq::<u8>::empty()) && old(self).nodes_view()[Seq::<
                u8,
            >::empty()] is Leaf ==> r is Ok && r->Ok_0@.len() == 1 && final(self).nodes_view()
                == old(self).nodes_view().remove(Seq::<u8>::empty()),
            r matches Ok(v) ==> forall|i: int| 0 <= i < v@.len() ==> old(self).nodes_view().dom().contains(
                (#[trigger] v@[i]).path@,
            ) && old(self).nodes_view()[v@[i].path@] == v@[i].node@,
            forall|q: Seq<u8>| #[trigger] final(self).nodes_view().dom().contains(q) ==> old(
                self,
            ).nodes_view().dom().contains(q) && old(self).nodes_view()[q] == final(self).nodes_view()[q],
            r matches Err(e) ==> !(e is RlpDecode) && (e matches SparseTrieError::BlindedNode { path: p, hash: h }
                ==> is_prefix(p@, path@) && old(self).nodes_view().dom().contains(p@)
                && old(self).nodes_view()[p@] == NodeView::Hash(h@)),
            match spine(old(self).nodes_view(), path@) {
                Spine::Taken(t) => r is Ok && removed_view(r->Ok_0@) == t && forall|q: Seq<u8>|
                    #[trigger] final(self).nodes_view().dom().contains(q) == (old(self).nodes_view().dom().contains(q)
                        && !taken_paths(removed_view(r->Ok_0@)).contains(q)),
                Spine::Blind => r == Err::<Vec<RemovedSparseNode>, SparseTrieError>(SparseTrieError::Blind),
                Spine::Blinded(p, h) => r matches Err(SparseTrieError::BlindedNode { path: bp, hash: bh })
                    && bp@ == p && bh@ == h,
                Spine::Invalid => r == Err::<Vec<RemovedSparseNode>, SparseTrieError>(SparseTrieError::InvalidStructure),
            },
    {
        let mut current = Nibbles::new();
        let mut nodes: Vec<RemovedSparseNode> = Vec::new();
        let ghost nodes0 = self.nodes@;
        assert(path@.subrange(0, 0) =~= current@);
        loop
            invariant
                nodes0 == old(self).nodes_view(),
                changed_only_near(nodes0, self.nodes@, path@),
                is_prefix(current@, path@),
                forall|i: int| 0 <= i < nodes@.len() ==> is_prefix(#[trigger] nodes@[i].path@, path@),
                self.nodes.wf(),
                self.values.wf(),
                self.values@ == old(self).values_view(),
                self.prefix_set@ == old(self).dirty_view(),
                forall|i: int| 0 <= i < nodes@.len() ==> #[trigger] nodes@[i].nibble_ok(),
                nodes@.len() == 0 ==> current@ == Seq::<u8>::empty() && self.nodes@
                    == old(self).nodes_view(),
                old(self).nodes_view().dom().contains(Seq::<u8>::empty()) && old(self).nodes_view()[Seq::<
                    u8,
                >::empty()] is Leaf ==> nodes@.len() == 0,
                forall|i: int| 0 <= i < nodes@.len() ==> nodes0.dom().contains((#[trigger] nodes@[i]).path@)
                    && nodes0[nodes@[i].path@] == nodes@[i].node@,
                forall|q: Seq<u8>| #[trigger] self.nodes@.dom().contains(q) ==> nodes0.dom().contains(q)
                    && nodes0[q] == self.nodes@[q],
                spine(nodes0, path@) == spine_after(removed_view(nodes@), spine_at(nodes0, path@, current@)),
                forall|i: int| 0 <= i < nodes@.len() ==> (#[trigger] nodes@[i]).path@.len() < current@.len(),
                forall|q: Seq<u8>| #[trigger] self.nodes@.dom().contains(q) == (nodes0.dom().contains(q)
                    && !taken_paths(removed_view(nodes@)).contains(q)),
            decreases self.nodes@.dom().len(),
        {
            proof { self.nodes.lemma_finite(); }
            proof { lemma_prefix_near(current@, path@); }
            let ghost prev_nodes = self.nodes@;
            let node = match self.take_node(&current, Ghost(nodes0), Ghost(path@)) {
                Some(n) => n,
                None => {
                    return Ok(nodes);
                },
            };
            match node {
                SparseNode::Empty => {
                    return Err(SparseTrieError::Blind);
                },
                SparseNode::Hash(hash) => {
                    return Err(SparseTrieError::BlindedNode { path: current, hash });
                },
                SparseNode::Leaf { key, hash } => {
                    let ghost before = nodes@;
                    let ghost cv = current@;
                    nodes.push(RemovedSparseNode {
                        path: current,
                        node: SparseNode::Leaf { key, hash },
                        unset_branch_nibble: None,
                    });
                    proof {
                        lemma_taken_push(before, nodes@);
                        lemma_taken_members(nodes0, prev_nodes, self.nodes@, taken_paths(removed_view(before)), taken_paths(removed_view(nodes@)), cv);
                        assert(removed_view(before) + seq![removed_view(nodes@).last()] =~= removed_view(nodes@));
                        assert(seq![removed_view(nodes@).last()] + Seq::<(Seq<u8>, NodeView, Option<u8>)>::empty() =~= seq![removed_view(nodes@).last()]);
                    }
                    return Ok(nodes);
                },
                SparseNode::Extension { key, hash } => {
                    let next = current.join(&key);
                    if !path.starts_with(&next) {
                        return Err(SparseTrieError::InvalidStructure);
                    }
                    let empty_key = key.is_empty();
                    let ghost before = nodes@;
                    let ghost cv = current@;
                    nodes.push(RemovedSparseNode {
                        path: current,
                        node: SparseNode::Extension { key, hash },
                        unset_branch_nibble: None,
                    });
                    proof {
                        lemma_taken_push(before, nodes@);
                        lemma_taken_members(nodes0, prev_nodes, self.nodes@, taken_paths(removed_view(before)), taken_paths(removed_view(nodes@)), cv);
                        assert(removed_view(before) + seq![removed_view(nodes@).last()] =~= removed_view(nodes@));
                        assert(seq![removed_view(nodes@).last()] + Seq::<(Seq<u8>, NodeView, Option<u8>)>::empty() =~= seq![removed_view(nodes@).last()]);
                    }
                    if empty_key {
                        return Ok(nodes);
                    }
                    current = next;
                },
                SparseNode::Branch { state_mask, hash } => {
                    if current.len() >= path.len() {
                        return Err(SparseTrieError::InvalidStructure);
                    }
                    let nibble = path.at(current.len());
                    let child_path = current.join_nibble(nibble);
                    proof {
                        assert(child_path@ =~= path@.subrange(0, child_path@.len() as int));
                    }
                    let unset = match self.nodes.get(&child_path) {
                        Some(SparseNode::Leaf { key, .. }) => child_path.join(key).same_as(path),
                        _ => false,
                    };
                    let next = child_path;
                    let ghost before = nodes@;
                    let ghost cv = current@;
                    nodes.push(RemovedSparseNode {
                        path: current,
                        node: SparseNode::Branch { state_mask, hash },
                        unset_branch_nibble: if unset { Some(nibble) } else { None },
                    });
                    proof {
                        lemma_taken_push(before, nodes@);
                        lemma_taken_members(nodes0, prev_nodes, self.nodes@, taken_paths(removed_view(before)), taken_paths(removed_view(nodes@)), cv);
                        assert(removed_view(before) + seq![removed_view(nodes@).last()] =~= removed_view(nodes@));
                        assert(seq![removed_view(nodes@).last()] + Seq::<(Seq<u8>, NodeView, Option<u8>)>::empty() =~= seq![removed_view(nodes@).last()]);
                    }
                    current = next;
                },
            }
        }
    }

    /// Returns the root digest, encoding every node whose cached digest is
    /// missing or stale, and starts a new set of changed paths.
    pub fn root(&mut self) -> (r: Result<[u8; 32], SparseTrieError>)
        requires
            old(self).wf(),
        ensures
            final(self).wf(),
            root_computed(*old(self), *final(self), r),
    {
        let mut prefix_set = PrefixSet::new();
        std::mem::swap(&mut prefix_set, &mut self.prefix_set);
        let root_rlp = self.rlp_node(Nibbles::new(), &prefix_set)?;
        proof {
            if root_rlp@.len() == 33 && root_rlp@[0] == 0xa0u8 {
                let k = root_rlp@.subrange(1, 33);
                assert(word_of(k) =~= root_rlp@);
                assert(forall|d: Seq<u8>| word_of(d) == root_rlp@ ==> d =~= k);
            }
        }
        let h = match as_hash(&root_rlp) {
            Some(h) => h,
            None => keccak(root_rlp.as_slice()),
        };
        proof {
            assert(h@ == digest_of(root_rlp@));
            assert(encodes_to(
                old(self).nodes_view(),
                old(self).values_view(),
                old(self).dirty_view(),
                Seq::<u8>::empty(),
                root_rlp@,
            ));
        }
        Ok(h)
    }

    /// Encodes the nodes at and below `path` whose cached digests are
    /// missing or stale, and caches the digests of those that got one.
    /// Returns the node reference of the node at `path`.
    fn rlp_node(&mut self, path: Nibbles, prefix_set: &PrefixSet) -> (r: Result<Vec<u8>, SparseTrieError>)
        requires
            old(self).wf(),
        ensures
            forall|v: Seq<u8>| #[trigger] encodes_to(old(self).nodes_view(), old(self).values_view(), prefix_set@, path@, v)
                ==> (r matches Ok(x) && x@ == v),
            final(self).wf(),
            final(self).values_view() == old(self).values_view(),
            final(self).dirty_view() == old(self).dirty_view(),
            same_shapes(old(self).nodes_view(), final(self).nodes_view()),
            r matches Ok(v) ==> v@.len() <= 33,
            old(self).nodes_view().dom().contains(path@) ==> match old(self).nodes_view()[path@] {
                NodeView::Empty => r matches Ok(v) && v@ == word_of(keccak_of(seq![0x80u8]))
                    && v@.len() == 33,
                NodeView::Hash(d) => r matches Ok(v) && v@ == word_of(d) && v@.len() == 33,
                _ => true,
            },
            old(self).nodes_view().dom().contains(path@) && simple_ref(
                old(self).nodes_view()[path@],
                path@,
                old(self).values_view(),
                prefix_set@,
            ) is Some ==> (r matches Ok(x) && x@ == simple_ref(
                old(self).nodes_view()[path@],
                path@,
                old(self).values_view(),
                prefix_set@,
            )->Some_0),
            old(self).nodes_view().dom().contains(path@) && old(self).nodes_view()[path@] is Leaf
                && simple_ref(old(self).nodes_view()[path@], path@, old(self).values_view(), prefix_set@)
                is None ==> r is Err,
            r matches Ok(v) ==> encodes_to(old(self).nodes_view(), old(self).values_view(), prefix_set@, path@, v@),
            forall|q: Seq<u8>| #[trigger] final(self).nodes_view().dom().contains(q) && final(self).nodes_view()[q]
                != old(self).nodes_view()[q] ==> recached(old(self).nodes_view(), old(self).values_view(), prefix_set@, q, final(self).nodes_view()[q]),
            forall|p: Seq<u8>, v: Seq<u8>|
                encodes_to(old(self).nodes_view(), old(self).values_view(), prefix_set@, p, v)
                    == encodes_to(final(self).nodes_view(), final(self).values_view(), prefix_set@, p, v),
            r matches Err(e) ==> e is InvalidStructure,
    {
        let bound = self.nodes.max_key_len();
        let fuel: u128 = (bound as u128) + 1;
        let ghost orig = self.nodes@;
        let ghost ovalues = self.values@;
        let r = self.encode_at(&path, prefix_set, fuel);
        proof {
            let bd = bound as nat;
            assert(paths_within(orig, bd));
            assert forall|v: Seq<u8>| #[trigger] encodes_to(orig, ovalues, prefix_set@, path@, v) implies (r matches Ok(x)
                && x@ == v) by {
                let f = choose|f: nat| node_ref(orig, ovalues, prefix_set@, path@, f) == Some(v);
                lemma_node_ref_depth(orig, ovalues, prefix_set@, path@, f, bd);
                lemma_node_ref_mono(orig, ovalues, prefix_set@, path@, (bd + 1 - path@.len()) as nat, fuel as nat);
            }
            if r is Ok {
                assert(node_ref(orig, ovalues, prefix_set@, path@, fuel as nat) == Some(r->Ok_0@));
                assert(encodes_to(orig, ovalues, prefix_set@, path@, r->Ok_0@));
            }
            if orig.dom().contains(path@) && simple_ref(orig[path@], path@, ovalues, prefix_set@) is Some {
                assert(node_ref(orig, ovalues, prefix_set@, path@, fuel as nat) == simple_ref(orig[path@], path@, ovalues, prefix_set@));
            }
            if orig.dom().contains(path@) && orig[path@] is Leaf && simple_ref(orig[path@], path@, ovalues, prefix_set@) is None {
                assert(node_ref(orig, ovalues, prefix_set@, path@, fuel as nat) is None);
            }
        }
        r
    }

    /// Encodes the node at `path` as `node_ref` with `fuel` does, children
    /// first, caching the digests of the nodes it encodes anew.
    fn encode_at(&mut self, path: &Nibbles, ps: &PrefixSet, fuel: u128) -> (r: Result<Vec<u8>, SparseTrieError>)
        requires
            old(self).wf(),
        ensures
            final(self).wf(),
            final(self).values_view() == old(self).values_view(),
            final(self).dirty_view() == old(self).dirty_view(),
            same_shapes(old(self).nodes_view(), final(self).nodes_view()),
            agrees_outside(old(self).nodes_view(), final(self).nodes_view(), path@),
            forall|q: Seq<u8>| #[trigger] final(self).nodes_view().dom().contains(q) && final(self).nodes_view()[q]
                != old(self).nodes_view()[q] ==> recached(old(self).nodes_view(), old(self).values_view(), ps@, q, final(self).nodes_view()[q]),
            forall|p: Seq<u8>, v: Seq<u8>|
                encodes_to(old(self).nodes_view(), old(self).values_view(), ps@, p, v)
                    == encodes_to(final(self).nodes_view(), final(self).values_view(), ps@, p, v),
            match node_ref(old(self).nodes_view(), old(self).values_view(), ps@, path@, fuel as nat) {
                Some(v) => r matches Ok(x) && x@ == v,
                None => r == Err::<Vec<u8>, SparseTrieError>(SparseTrieError::InvalidStructure),
            },
            r matches Ok(x) ==> x@.len() <= 33,
            old(self).nodes_view().dom().contains(path@) && (old(self).nodes_view()[path@] is Empty || old(
                self,
            ).nodes_view()[path@] is Hash) ==> (r matches Ok(x) && x@.len() == 33),
        decreases fuel,
    {
        let ghost orig = self.nodes@;
        let ghost ovalues = self.values@;
        let ghost dirty = ps@;
        let node = match self.nodes.get(path) {
            Some(n) => n.duplicate(),
            None => {
                return Err(SparseTrieError::InvalidStructure);
            },
        };
        proof {
            assert(path@.subrange(0, path@.len() as int) =~= path@);
        }
        match node {
            SparseNode::Empty => {
                let e = empty_root_hash();
                Ok(word_rlp(&e))
            },
            SparseNode::Hash(h) => Ok(word_rlp(&h)),
            SparseNode::Leaf { key, hash } => {
                let full = path.join(&key);
                let dirty_here = ps.contains(&full);
                match hash {
                    Some(h) => {
                        if !dirty_here {
                            return Ok(word_rlp(&h));
                        }
                    },
                    None => {},
                }
                let value = match self.values.get(&full) {
                    Some(v) => v,
                    None => {
                        return Err(SparseTrieError::InvalidStructure);
                    },
                };
                self.rlp_buf.clear();
                let r = leaf_rlp(&key, value, &mut self.rlp_buf);
                let ghost cur = self.nodes@;
                let new_hash = as_hash(&r);
                self.nodes.insert(path.duplicate(), SparseNode::Leaf { key, hash: new_hash });
                proof {
                    assert(self.nodes@[path@] == with_digest(orig[path@], held_digest(r@)));
                    lemma_recache_here(orig, cur, self.nodes@, ovalues, dirty, path@, r@, fuel as nat);
                }
                Ok(r)
            },
            SparseNode::Extension { key, hash } => {
                let dirty_here = ps.contains(path);
                match hash {
                    Some(h) => {
                        if !dirty_here {
                            return Ok(word_rlp(&h));
                        }
                    },
                    None => {},
                }
                if fuel == 0 {
                    return Err(SparseTrieError::InvalidStructure);
                }
                let child_path = path.join(&key);
                proof {
                    if key@.len() == 0 {
                        lemma_empty_key_none(orig, ovalues, dirty, path@, (fuel - 1) as nat);
                        assert(path@ + key@ =~= path@);
                    }
                    assert forall|q: Seq<u8>| !#[trigger] is_prefix(path@, q) implies !is_prefix(child_path@, q) by {
                        lemma_prefix_extend(path@, key@, q);
                    }
                }
                let child = match self.encode_at(&child_path, ps, fuel - 1) {
                    Ok(c) => c,
                    Err(e) => {
                        return Err(e);
                    },
                };
                proof {
                    assert(key@.len() > 0);
                    lemma_prefix_extend(path@, key@, path@);
                    assert(!is_prefix(child_path@, path@));
                }
                self.rlp_buf.clear();
                let r = extension_rlp(&key, &child, &mut self.rlp_buf);
                let ghost cur = self.nodes@;
                let new_hash = as_hash(&r);
                self.nodes.insert(path.duplicate(), SparseNode::Extension { key, hash: new_hash });
                proof {
                    assert(self.nodes@[path@] == with_digest(orig[path@], held_digest(r@)));
                    lemma_recache_here(orig, cur, self.nodes@, ovalues, dirty, path@, r@, fuel as nat);
                }
                Ok(r)
            },
            SparseNode::Branch { state_mask, hash } => {
                let dirty_here = ps.contains(path);
                match hash {
                    Some(h) => {
                        if !dirty_here {
                            return Ok(word_rlp(&h));
                        }
                    },
                    None => {},
                }
                if fuel == 0 {
                    return Err(SparseTrieError::InvalidStructure);
                }
                let ghost cf = (fuel - 1) as nat;
                let mut children: Vec<Vec<u8>> = Vec::new();
                let mut bit: u8 = 0;
                while bit < 16
                    invariant
                        bit <= 16,
                        self.nodes.wf(),
                        self.values.wf(),
                        self.values@ == ovalues,
                        self.prefix_set@ == old(self).dirty_view(),
                        orig == old(self).nodes_view(),
                        ovalues == old(self).values_view(),
                        dirty == ps@,
                        fuel > 0,
                        cf == fuel - 1,
                        orig.dom().contains(path@),
                        orig[path@] == (NodeView::Branch { state_mask, hash: digest_view(hash) }),
                        cache_unusable(orig[path@], path@, dirty),
                        same_shapes(orig, self.nodes@),
                        forall|p: Seq<u8>, v: Seq<u8>| encodes_to(orig, ovalues, dirty, p, v) == encodes_to(self.nodes@, ovalues, dirty, p, v),
                        forall|q: Seq<u8>| #[trigger] self.nodes@.dom().contains(q) && self.nodes@[q] != orig[q]
                            ==> recached(orig, ovalues, dirty, q, self.nodes@[q]),
                        forall|q: Seq<u8>|
                            !(#[trigger] is_prefix(path@, q) && q.len() > path@.len() && q[path@.len() as int] < bit)
                                ==> orig.dom().contains(q) == self.nodes@.dom().contains(q) && (orig.dom().contains(q)
                                ==> orig[q] == self.nodes@[q]),
                        child_refs(orig, ovalues, dirty, path@, state_mask, bit as nat, cf) == Some(byte_views(children@)),
                        forall|i: int| 0 <= i < children@.len() ==> (#[trigger] children@[i])@.len() <= 33,
                    decreases 16 - bit,
                {
                    if is_bit_set(state_mask, bit) {
                        let child_path = path.join_nibble(bit);
                        let ghost before = self.nodes@;
                        proof {
                            assert forall|q: Seq<u8>| #[trigger] is_prefix(child_path@, q) implies orig.dom().contains(q)
                                == before.dom().contains(q) && (orig.dom().contains(q) ==> orig[q] == before[q]) by {
                                lemma_child_prefix(path@, bit, q);
                            }
                            lemma_node_ref_frame(orig, before, ovalues, dirty, child_path@, cf);
                        }
                        let res = self.encode_at(&child_path, ps, fuel - 1);
                        proof {
                            assert forall|q: Seq<u8>|
                                !(#[trigger] is_prefix(path@, q) && q.len() > path@.len() && q[path@.len() as int] < bit + 1)
                                    implies orig.dom().contains(q) == self.nodes@.dom().contains(q) && (orig.dom().contains(q)
                                    ==> orig[q] == self.nodes@[q]) by {
                                lemma_child_prefix(path@, bit, q);
                            }
                            assert forall|q: Seq<u8>| #[trigger] self.nodes@.dom().contains(q) && self.nodes@[q] != orig[q]
                                implies recached(orig, ovalues, dirty, q, self.nodes@[q]) by {
                                if before.dom().contains(q) && before[q] != orig[q] {
                                    lemma_child_prefix(path@, bit, q);
                                    assert(!is_prefix(child_path@, q));
                                } else {
                                    assert(self.nodes@[q] != before[q]);
                                    assert(recached(before, ovalues, dirty, q, self.nodes@[q]));
                                    lemma_child_prefix(path@, bit, q);
                                    assert(is_prefix(child_path@, q));
                                    assert forall|x: Seq<u8>| #[trigger] is_prefix(q, x) implies orig.dom().contains(x)
                                        == before.dom().contains(x) && (orig.dom().contains(x) ==> orig[x] == before[x]) by {
                                        lemma_prefix_trans(child_path@, q, x);
                                        lemma_child_prefix(path@, bit, x);
                                    }
                                    lemma_recached_transfer(orig, before, ovalues, dirty, q, self.nodes@[q]);
                                }
                            }
                            lemma_shapes_trans(orig, before, self.nodes@);
                        }
                        match res {
                            Ok(c) => {
                                let ghost cs = byte_views(children@);
                                children.push(c);
                                proof {
                                    assert(byte_views(children@) =~= cs.push(children@.last()@));
                                }
                            },
                            Err(e) => {
                                proof {
                                    lemma_child_refs_none(orig, ovalues, dirty, path@, state_mask, (bit + 1) as nat, 16, cf);
                                    assert forall|q: Seq<u8>| !#[trigger] is_prefix(path@, q) implies orig.dom().contains(q)
                                        == self.nodes@.dom().contains(q) && (orig.dom().contains(q) ==> orig[q] == self.nodes@[q]) by {
                                    }
                                }
                                return Err(e);
                            },
                        }
                    }
                    bit = bit + 1;
                }
                proof {
                    lemma_child_refs_len(orig, ovalues, dirty, path@, state_mask, 16, cf);
                }
                self.rlp_buf.clear();
                let r = branch_rlp(&children, state_mask, &mut self.rlp_buf);
                let ghost cur = self.nodes@;
                let new_hash = as_hash(&r);
                proof {
                    assert(path@.subrange(0, path@.len() as int) =~= path@);
                    assert(is_prefix(path@, path@));
                    assert(cur[path@] == orig[path@]);
                    assert(node_ref(orig, ovalues, dirty, path@, fuel as nat) == Some(r@));
                }
                self.nodes.insert(path.duplicate(), SparseNode::Branch { state_mask, hash: new_hash });
                proof {
                    assert(self.nodes@[path@] == with_digest(orig[path@], held_digest(r@)));
                    lemma_recache_here(orig, cur, self.nodes@, ovalues, dirty, path@, r@, fuel as nat);
                }
                Ok(r)
            },
        }
    }

    /// Encodes, and caches the digests of, the subtrees whose root path is at
    /// least `min_len` long, and the leaves above that depth. The changed
    /// paths stay recorded for the next root computation.
    pub fn update_rlp_node_level(&mut self, min_len: usize) -> (r: Result<(), SparseTrieError>)
        requires
            old(self).wf(),
        ensures
            final(self).wf(),
            final(self).values_view() == old(self).values_view(),
            final(self).dirty_view() == old(self).dirty_view(),
            same_shapes(old(self).nodes_view(), final(self).nodes_view()),
            forall|p: Seq<u8>, v: Seq<u8>|
                encodes_to(old(self).nodes_view(), old(self).values_view(), old(self).dirty_view(), p, v)
                    == encodes_to(final(self).nodes_view(), final(self).values_view(), final(self).dirty_view(), p, v),
            forall|q: Seq<u8>| #[trigger] final(self).nodes_view().dom().contains(q) && final(self).nodes_view()[q]
                != old(self).nodes_view()[q] ==> digest_refreshed(
                old(self).nodes_view(),
                old(self).values_view(),
                old(self).dirty_view(),
                q,
                final(self).nodes_view()[q],
            ),
            r matches Err(e) ==> e is InvalidStructure,
    {
        let mut paths: Vec<Nibbles> = Vec::new();
        paths.push(Nibbles::new());
        let mut targets: Vec<Nibbles> = Vec::new();
        let mut budget: u128 = (self.nodes.len() as u128) + 1;
        while paths.len() > 0
            invariant
                self.nodes.wf(),
                self.values.wf(),
                self.nodes@ == old(self).nodes_view(),
                self.values@ == old(self).values_view(),
                self.prefix_set@ == old(self).dirty_view(),
            decreases budget,
        {
            if budget == 0 {
                return Err(SparseTrieError::InvalidStructure);
            }
            budget = budget - 1;
            let path = paths.pop().unwrap();
            match self.nodes.get(&path) {
                None => {
                    return Err(SparseTrieError::InvalidStructure);
                },
                Some(SparseNode::Empty) | Some(SparseNode::Hash(_)) => {},
                Some(SparseNode::Leaf { .. }) => {
                    targets.push(path);
                },
                Some(SparseNode::Extension { key, .. }) => {
                    if path.len() >= min_len {
                        targets.push(path);
                    } else {
                        paths.push(path.join(key));
                    }
                },
                Some(SparseNode::Branch { state_mask, .. }) => {
                    if path.len() >= min_len {
                        targets.push(path);
                    } else {
                        let mask = *state_mask;
                        let mut bit: u8 = 0;
                        while bit < 16
                            invariant
                                bit <= 16,
                            decreases 16 - bit,
                        {
                            if is_bit_set(mask, bit) {
                                paths.push(path.join_nibble(bit));
                            }
                            bit = bit + 1;
                        }
                    }
                },
            }
        }
        let prefix_set = self.prefix_set.duplicate();
        let mut i: usize = 0;
        while i < targets.len()
            invariant
                self.nodes.wf(),
                self.values.wf(),
                self.values@ == old(self).values_view(),
                self.prefix_set@ == old(self).dirty_view(),
                same_shapes(old(self).nodes_view(), self.nodes@),
                prefix_set@ == old(self).dirty_view(),
                forall|p: Seq<u8>, v: Seq<u8>|
                    encodes_to(old(self).nodes_view(), old(self).values_view(), prefix_set@, p, v)
                        == encodes_to(self.nodes@, self.values@, prefix_set@, p, v),
                forall|q: Seq<u8>| #[trigger] self.nodes@.dom().contains(q) && self.nodes@[q] != old(self).nodes_view()[q]
                    ==> digest_refreshed(old(self).nodes_view(), old(self).values_view(), prefix_set@, q, self.nodes@[q]),
            decreases targets@.len() - i,
        {
            let ghost before = self.nodes@;
            let target = targets[i].duplicate();
            let res = self.rlp_node(target, &prefix_set);
            proof {
                lemma_shapes_trans(old(self).nodes_view(), before, self.nodes@);
                assert forall|q: Seq<u8>| #[trigger] self.nodes@.dom().contains(q) && self.nodes@[q] != old(self).nodes_view()[q]
                    implies digest_refreshed(old(self).nodes_view(), old(self).values_view(), prefix_set@, q, self.nodes@[q]) by {
                    assert(old(self).nodes_view().dom().contains(q));
                    assert(before.dom().contains(q));
                    if self.nodes@[q] != before[q] {
                        assert(recached(before, self.values@, prefix_set@, q, self.nodes@[q]));
                        let g = choose|g: nat|
                            #[trigger] node_ref(before, self.values@, prefix_set@, q, g) is Some && well_formed_ref(
                                node_ref(before, self.values@, prefix_set@, q, g)->Some_0,
                            ) && self.nodes@[q] == with_digest(before[q], held_digest(node_ref(before, self.values@, prefix_set@, q, g)->Some_0));
                        let rr = node_ref(before, self.values@, prefix_set@, q, g)->Some_0;
                        assert(encodes_to(before, self.values@, prefix_set@, q, rr));
                        assert(encodes_to(old(self).nodes_view(), old(self).values_view(), prefix_set@, q, rr));
                        assert(shape(before[q]) == shape(old(self).nodes_view()[q]));
                        assert(with_digest(before[q], held_digest(rr)) == with_digest(old(self).nodes_view()[q], held_digest(rr)));
                    }
                }
            }
            match res {
                Err(e) => {
                    return Err(e);
                },
                Ok(_) => {},
            }
            i = i + 1;
        }
        Ok(())
    }

    /// A trie whose root is the given node, with its embedded children.
    pub fn from_root(node: TrieNode) -> (r: Result<Self, SparseTrieError>)
        requires
            node.children_fit(),
        ensures
            r matches Ok(t) ==> revealed_from(t, node),
            node is EmptyRoot || node is Leaf ==> r is Ok,
            node is Extension && node->Extension_child@.len() == 33 ==> r is Ok,
            node is Branch && (forall|i: int|
                0 <= i < node->Branch_stack@.len() ==> (#[trigger] node->Branch_stack@[i])@.len() == 33)
                ==> r is Ok,
            r matches Err(e) ==> e is RlpDecode,
    {
        let mut this = RevealedSparseTrie {
            nodes: PathMap::new(),
            values: PathMap::new(),
            prefix_set: PrefixSet::new(),
            rlp_buf: Vec::new(),
        };
        let ghost empty_nodes = this.nodes_view();
        let root_path = Nibbles::new();
        assert(root_path@ == Seq::<u8>::empty());
        let res = this.reveal_node(root_path, node);
        match res {
            Err(e) => {
                return Err(e);
            },
            Ok(()) => {},
        }
        proof {
            if node is EmptyRoot {
                assert(this.nodes_view() =~= map![Seq::<u8>::empty() => NodeView::Empty]);
                assert(this.values_view() =~= Map::<Seq<u8>, Seq<u8>>::empty());
            }
            if node is Leaf {
                assert(Seq::<u8>::empty() + node->Leaf_key@ =~= node->Leaf_key@);
                assert(this.nodes_view() =~= map![Seq::<u8>::empty() => NodeView::Leaf { key: node->Leaf_key@, hash: None }]);
                assert(this.values_view() =~= map![node->Leaf_key@ => node->Leaf_value@]);
            }
            if node is Extension {
                assert(Seq::<u8>::empty() + node->Extension_key@ =~= node->Extension_key@);
            }
            assert(empty_nodes == Map::<Seq<u8>, NodeView>::empty());
            assert(this.dirty_view() == Seq::<Seq<u8>>::empty());
            assert(this.nodes_view().dom().contains(Seq::<u8>::empty()));
            assert(this.nodes_view()[Seq::<u8>::empty()] == node_of(node));
            if node is Extension && node->Extension_key@.len() > 0 {
                assert(this.nodes_view().dom().contains(node->Extension_key@));
                assert(this.nodes_view()[node->Extension_key@] == child_installed(
                    Map::<Seq<u8>, NodeView>::empty(), node->Extension_key@, node->Extension_child@));
            }
            if node is Branch {
                assert forall|i: u8| i < 16 && #[trigger] bit_set(node->Branch_state_mask, i) implies this.nodes_view().dom().contains(
                    Seq::<u8>::empty().push(i)) && this.nodes_view()[Seq::<u8>::empty().push(i)] == child_installed(
                    Map::<Seq<u8>, NodeView>::empty(),
                    Seq::<u8>::empty().push(i),
                    node->Branch_stack@[bits_below(node->Branch_state_mask, i as nat) as int]@,
                ) by {}
            }
            if node is Branch && all_digests(node->Branch_stack@) {
                assert(this.values_view() =~= Map::<Seq<u8>, Seq<u8>>::empty());
            }
            if node is Extension && node->Extension_key@.len() > 0 && node->Extension_child@.len() == 33 {
                assert(this.values_view() =~= Map::<Seq<u8>, Seq<u8>>::empty());
                assert(this.nodes_view() =~= map![
                    Seq::<u8>::empty() => NodeView::Extension { key: node->Extension_key@, hash: None },
                    node->Extension_key@ => NodeView::Hash(node->Extension_child@.subrange(1, 33))
                ]);
            }
            assert(revealed_from(this, node));
        }
        Ok(this)
    }

    /// Puts a node from a proof at `path`, and its embedded children below
    /// it; a child given only by its digest becomes a hash node.
    #[verifier::rlimit(100)]
    #[verifier::spinoff_prover]
    pub fn reveal_node(&mut self, path: Nibbles, node: TrieNode) -> (r: Result<(), SparseTrieError>)
        requires
            old(self).wf(),
            node.children_fit(),
        ensures
            final(self).wf(),
            final(self).dirty_view() == old(self).dirty_view(),
            r is Ok ==> final(self).nodes_view().dom().contains(path@) && final(self).nodes_view()[path@]
                == node_of(node),
            r is Ok && node is Leaf ==> final(self).values_view().dom().contains(
                path@ + node->Leaf_key@,
            ) && final(self).values_view()[path@ + node->Leaf_key@] == node->Leaf_value@,
            node is EmptyRoot || node is Leaf ==> r is Ok,
            node is Extension && node->Extension_child@.len() == 33 ==> r is Ok,
            agrees_outside(old(self).nodes_view(), final(self).nodes_view(), path@),
            agrees_outside(old(self).values_view(), final(self).values_view(), path@),
            node is EmptyRoot ==> final(self).nodes_view() == old(self).nodes_view().insert(path@, NodeView::Empty)
                && final(self).values_view() == old(self).values_view(),
            node is Leaf ==> final(self).nodes_view() == old(self).nodes_view().insert(
                path@,
                NodeView::Leaf { key: node->Leaf_key@, hash: None },
            ) && final(self).values_view() == old(self).values_view().insert(
                path@ + node->Leaf_key@,
                node->Leaf_value@,
            ),
            node is Extension && node->Extension_key@.len() > 0 && node->Extension_child@.len() == 33
                ==> final(self).values_view() == old(self).values_view() && final(self).nodes_view()
                == hash_revealed(
                old(self).nodes_view(),
                path@ + node->Extension_key@,
                node->Extension_child@,
            ).insert(path@, NodeView::Extension { key: node->Extension_key@, hash: None }),
            node is Branch && r is Ok ==> forall|i: u8|
                i < 16 && #[trigger] bit_set(node->Branch_state_mask, i) ==> final(self).nodes_view().dom().contains(
                    path@.push(i),
                ) && final(self).nodes_view()[path@.push(i)] == child_installed(
                    old(self).nodes_view(),
                    path@.push(i),
                    node->Branch_stack@[bits_below(node->Branch_state_mask, i as nat) as int]@,
                ),
            node is Extension && node->Extension_key@.len() > 0 && r is Ok ==> final(self).nodes_view().dom().contains(
                path@ + node->Extension_key@,
            ) && final(self).nodes_view()[path@ + node->Extension_key@] == child_installed(
                old(self).nodes_view(),
                path@ + node->Extension_key@,
                node->Extension_child@,
            ),
            node is Branch && (forall|i: int|
                0 <= i < node->Branch_stack@.len() ==> (#[trigger] node->Branch_stack@[i])@.len() == 33)
                ==> r is Ok,
            node is Extension && child_reveals(node->Extension_child@) ==> r is Ok,
            node is Branch && all_digests(node->Branch_stack@) ==> final(self).values_view() == old(self).values_view()
                && forall|q: Seq<u8>|
                q != path@ && !#[trigger] child_slot(path@, node->Branch_state_mask, q) ==> (old(self).nodes_view().dom().contains(q)
                    == final(self).nodes_view().dom().contains(q) && (old(self).nodes_view().dom().contains(q)
                    ==> old(self).nodes_view()[q] == final(self).nodes_view()[q])),
            node is Branch && (forall|i: int|
                0 <= i < node->Branch_stack@.len() ==> child_reveals(#[trigger] node->Branch_stack@[i]@)) ==> r is Ok,
            node is Extension && child_fails(node->Extension_child@) ==> r is Err,
            node is Branch && (exists|i: int|
                0 <= i < node->Branch_stack@.len() && child_fails(#[trigger] node->Branch_stack@[i]@)) ==> r is Err,
            r matches Err(e) ==> e is RlpDecode,
        decreases node.child_bytes(), 2nat,
    {
        let ghost p0 = path@;
        let ghost n0 = node_of(node);
        match node {
            TrieNode::EmptyRoot => {
                proof {
                    assert(path@.subrange(0, path@.len() as int) =~= path@);
                }
                self.nodes.insert(path, SparseNode::Empty);
            },
            TrieNode::Branch { stack, state_mask } => {
                let mut stack_ptr: usize = 0;
                let stack_len = stack.len();
                let mut idx: u8 = 0;
                while idx < 16
                    invariant
                        self.nodes.wf(),
                        self.values.wf(),
                        self.prefix_set@ == old(self).dirty_view(),
                        idx <= 16,
                        stack_ptr == bits_below(state_mask, idx as nat),
                        stack@.len() == popcount(state_mask),
                        stack_len == stack@.len(),
                        forall|i: int| 0 <= i < stack@.len() ==> stack@[i]@.len() <= 33,
                        total_len(stack@) == node.child_bytes(),
                        node is Branch && node->Branch_stack@ == stack@ && node->Branch_state_mask == state_mask,
                        stack_ptr <= stack@.len(),
                        forall|j: int| 0 <= j < stack_ptr ==> !child_fails(#[trigger] stack@[j]@),
                        all_digests(stack@) ==> self.values@ == old(self).values_view() && forall|q: Seq<u8>|
                            !(#[trigger] child_slot(path@, state_mask, q) && q[path@.len() as int] < idx) ==> (old(self).nodes_view().dom().contains(q)
                                == self.nodes@.dom().contains(q) && (old(self).nodes_view().dom().contains(q)
                                ==> old(self).nodes_view()[q] == self.nodes@[q])),
                        agrees_outside(old(self).nodes_view(), self.nodes@, path@),
                        agrees_outside(old(self).values_view(), self.values@, path@),
                        forall|q: Seq<u8>|
                            #[trigger] is_prefix(path@, q) && q.len() > path@.len() && q[path@.len() as int] >= idx
                                ==> (old(self).nodes_view().dom().contains(q) == self.nodes@.dom().contains(q)
                                && (self.nodes@.dom().contains(q) ==> old(self).nodes_view()[q] == self.nodes@[q])),
                        forall|i: u8|
                            i < idx && #[trigger] bit_set(state_mask, i) ==> self.nodes@.dom().contains(path@.push(i))
                                && self.nodes@[path@.push(i)] == child_installed(
                                old(self).nodes_view(),
                                path@.push(i),
                                stack@[bits_below(state_mask, i as nat) as int]@,
                            ),
                    decreases 16 - idx,
                {
                    if is_bit_set(state_mask, idx) {
                        proof {
                            assert(bits_below(state_mask, (idx + 1) as nat) == bits_below(state_mask, idx as nat) + 1);
                            lemma_bits_below_mono(state_mask, (idx + 1) as nat, 16);
                            lemma_total_len_elem(stack@, stack_ptr as int);
                            assert(stack_ptr < stack@.len());
                        }
                        let child_path = path.join_nibble(idx);
                        let ghost before_nodes = self.nodes@;
                        let ghost before_values = self.values@;
                        let res = self.reveal_node_or_hash(child_path, stack[stack_ptr].as_slice());
                        proof {
                            if all_digests(stack@) {
                                assert(stack@[stack_ptr as int]@.len() == 33);
                                lemma_digest_child_step(old(self).nodes_view(), before_nodes, self.nodes@, path@, state_mask, idx, stack@[stack_ptr as int]@);
                            }
                            assert forall|q: Seq<u8>| !#[trigger] is_prefix(path@, q) implies (old(self).nodes_view().dom().contains(q)
                                == self.nodes@.dom().contains(q) && (old(self).nodes_view().dom().contains(q)
                                ==> old(self).nodes_view()[q] == self.nodes@[q])) && (old(self).values_view().dom().contains(q)
                                == self.values@.dom().contains(q) && (old(self).values_view().dom().contains(q)
                                ==> old(self).values_view()[q] == self.values@[q])) by {
                                lemma_child_prefix(path@, idx, q);
                                assert(!is_prefix(path@.push(idx), q));
                            }
                            assert forall|q: Seq<u8>|
                                #[trigger] is_prefix(path@, q) && q.len() > path@.len() && q[path@.len() as int] >= idx + 1
                                implies (old(self).nodes_view().dom().contains(q) == self.nodes@.dom().contains(q)
                                && (self.nodes@.dom().contains(q) ==> old(self).nodes_view()[q] == self.nodes@[q])) by {
                                lemma_child_prefix(path@, idx, q);
                                assert(!is_prefix(path@.push(idx), q));
                            }
                            assert forall|i: u8|
                                i < idx + 1 && #[trigger] bit_set(state_mask, i) && res is Ok implies self.nodes@.dom().contains(path@.push(i))
                                    && self.nodes@[path@.push(i)] == child_installed(
                                    old(self).nodes_view(),
                                    path@.push(i),
                                    stack@[bits_below(state_mask, i as nat) as int]@,
                                ) by {
                                let q = path@.push(i);
                                lemma_child_prefix(path@, idx, q);
                                assert(q[path@.len() as int] == i);
                                assert(q.len() > path@.len());
                                lemma_child_prefix(path@, i, q);
                                assert(q.subrange(0, q.len() as int) =~= q);
                                if i == idx {
                                    assert(is_prefix(path@, q));
                                    assert(before_nodes.dom().contains(q) == old(self).nodes_view().dom().contains(q));
                                    assert(before_nodes.dom().contains(q) ==> before_nodes[q] == old(self).nodes_view()[q]);
                                    assert(child_installed(before_nodes, q, stack@[stack_ptr as int]@) == child_installed(
                                        old(self).nodes_view(), q, stack@[stack_ptr as int]@));
                                } else {
                                    assert(!is_prefix(path@.push(idx), q));
                                }
                            }
                        }
                        match res {
                            Err(e) => {
                                return Err(e);
                            },
                            Ok(()) => {},
                        }
                        stack_ptr = stack_ptr + 1;
                    } else {
                        proof {
                            assert forall|q: Seq<u8>|
                                !(#[trigger] child_slot(path@, state_mask, q) && q[path@.len() as int] < idx + 1) implies !(
                                child_slot(path@, state_mask, q) && q[path@.len() as int] < idx) by {
                                if child_slot(path@, state_mask, q) && q[path@.len() as int] == idx {
                                    assert(bit_set(state_mask, idx));
                                }
                            }
                        }
                    }
                    idx = idx + 1;
                }
                proof {
                    assert(path@.subrange(0, path@.len() as int) =~= path@);
                }
                let ghost pv = path@;
                self.nodes.insert(path, SparseNode::new_branch(state_mask));
                proof {
                    assert forall|i: u8| i < 16 implies pv.push(i) != pv by {
                        assert(pv.push(i).len() != pv.len());
                    }
                }
            },
            TrieNode::Extension { key, child } => {
                let child_path = path.join(&key);
                let ghost cp = child_path@;
                let res = self.reveal_node_or_hash(child_path, child.as_slice());
                proof {
                    lemma_prefix_extend(path@, key@, path@);
                    assert forall|q: Seq<u8>| !#[trigger] is_prefix(path@, q) implies !is_prefix(cp, q) by {
                        lemma_prefix_extend(path@, key@, q);
                    }
                }
                match res {
                    Err(e) => {
                        return Err(e);
                    },
                    Ok(()) => {},
                }
                let ghost kv = key@;
                self.nodes.insert(path, SparseNode::new_ext(key));
                proof {
                    assert(path@.subrange(0, path@.len() as int) =~= path@);
                }
            },
            TrieNode::Leaf { key, value } => {
                let full = path.join(&key);
                proof {
                    lemma_prefix_extend(path@, key@, path@);
                    assert(path@.subrange(0, path@.len() as int) =~= path@);
                }
                self.values.insert(full, value);
                self.nodes.insert(path, SparseNode::new_leaf(key));
            },
        }
        Ok(())
    }

    /// Reveals an encoded child: 33 bytes are a digest reference, which does
    /// not replace a node already known at `path`; anything else is decoded
    /// as a trie node.
    fn reveal_node_or_hash(&mut self, path: Nibbles, child: &[u8]) -> (r: Result<(), SparseTrieError>)
        requires
            old(self).wf(),
        ensures
            final(self).wf(),
            final(self).dirty_view() == old(self).dirty_view(),
            child@.len() == 33 ==> r is Ok && final(self).values_view() == old(self).values_view()
                && final(self).nodes_view() == if old(self).nodes_view().dom().contains(path@) && !(old(
                self,
            ).nodes_view()[path@] is Hash) {
                old(self).nodes_view()
            } else {
                old(self).nodes_view().insert(path@, NodeView::Hash(child@.subrange(1, 33)))
            },
            agrees_outside(old(self).nodes_view(), final(self).nodes_view(), path@),
            agrees_outside(old(self).values_view(), final(self).values_view(), path@),
            r is Ok ==> final(self).nodes_view().dom().contains(path@) && final(self).nodes_view()[path@]
                == child_installed(old(self).nodes_view(), path@, child@),
            child@.len() != 33 && decoded_node_of(child@) is None ==> r is Err,
            child_reveals(child@) ==> r is Ok,
            r matches Err(e) ==> e is RlpDecode,
        decreases child@.len(), 1nat,
    {
        if child.len() == 33 {
            let mut hash: [u8; 32] = [0u8; 32];
            let mut i: usize = 0;
            while i < 32
                invariant
                    i <= 32,
                    child@.len() == 33,
                    hash@.len() == 32,
                    forall|j: int| 0 <= j < i ==> hash@[j] == child@[j + 1],
                decreases 32 - i,
            {
                hash.set(i, child[i + 1]);
                i = i + 1;
            }
            assert(hash@ =~= child@.subrange(1, 33));
            assert(path@.subrange(0, path@.len() as int) =~= path@);
            let known = match self.nodes.get(&path) {
                Some(SparseNode::Hash(_)) | None => false,
                Some(_) => true,
            };
            if !known {
                self.nodes.insert(path, SparseNode::Hash(hash));
            }
            return Ok(());
        }
        let node = decode_node(child)?;
        self.reveal_node(path, node)
    }
}


impl Default for RevealedSparseTrie {
    fn default() -> (r: Self)
        ensures
            r.wf(),
            r.nodes_view() == map![Seq::<u8>::empty() => NodeView::Empty],
            r.values_view() == Map::<Seq<u8>, Seq<u8>>::empty(),
            r.dirty_view() == Seq::<Seq<u8>>::empty(),
    {
        RevealedSparseTrie::new()
    }
}

} // verus!
