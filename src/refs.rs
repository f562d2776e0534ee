//! What the root encoder computes, stated as a recursive function over the
//! node and value tables.

use vstd::prelude::*;
use crate::encoding::{branch_rlp_of, extension_rlp_of, keccak_of, leaf_rlp_of};
use crate::node::{bit_set, NodeView};
use crate::prefix_set::covers;

verus! {

/// The node reference of a 32-byte digest: the RLP string header 0xa0
/// followed by the digest.
pub open spec fn word_of(h: Seq<u8>) -> Seq<u8> {
    seq![0xa0u8] + h
}

/// A reference as node encoders return it: the RLP itself when shorter than
/// 32 bytes, else 0xa0 and a digest.
pub open spec fn well_formed_ref(r: Seq<u8>) -> bool {
    r.len() < 32 || (r.len() == 33 && r[0] == 0xa0u8)
}

/// The digest that a 33-byte reference holds; a shorter one holds none.
pub open spec fn held_digest(r: Seq<u8>) -> Option<Seq<u8>> {
    if r.len() == 33 {
        Some(r.subrange(1, 33))
    } else {
        None
    }
}

/// The cached digest of the node `n` at path `p` cannot be used: there is
/// none, or a changed path begins with the path that decides its staleness
/// (the full path of a leaf, the node's own path otherwise).
pub open spec fn cache_unusable(n: NodeView, p: Seq<u8>, dirty: Seq<Seq<u8>>) -> bool {
    match n {
        NodeView::Leaf { key, hash } => hash is None || covers(dirty, p + key),
        NodeView::Extension { hash, .. } => hash is None || covers(dirty, p),
        NodeView::Branch { hash, .. } => hash is None || covers(dirty, p),
        _ => false,
    }
}

/// The node `n` with its cached digest replaced by `h`.
pub open spec fn with_digest(n: NodeView, h: Option<Seq<u8>>) -> NodeView {
    match n {
        NodeView::Leaf { key, .. } => NodeView::Leaf { key, hash: h },
        NodeView::Extension { key, .. } => NodeView::Extension { key, hash: h },
        NodeView::Branch { state_mask, .. } => NodeView::Branch { state_mask, hash: h },
        _ => n,
    }
}

/// The node reference of the node at `p`, looking at most `fuel` levels
/// down: an empty node refers to the digest of the empty string's RLP, a hash
/// node to its digest, a node with a usable cached digest to that digest;
/// otherwise the node is encoded over the references of its children.
/// `None` where a node or value is missing or the fuel runs out.
pub open spec fn node_ref(
    nodes: Map<Seq<u8>, NodeView>,
    values: Map<Seq<u8>, Seq<u8>>,
    dirty: Seq<Seq<u8>>,
    p: Seq<u8>,
    fuel: nat,
) -> Option<Seq<u8>>
    decreases fuel, 0nat,
{
    if !nodes.dom().contains(p) {
        None
    } else {
        let n = nodes[p];
        match n {
            NodeView::Empty => Some(word_of(keccak_of(seq![0x80u8]))),
            NodeView::Hash(d) => Some(word_of(d)),
            NodeView::Leaf { key, hash } => if !cache_unusable(n, p, dirty) {
                Some(word_of(hash->Some_0))
            } else if values.dom().contains(p + key) {
                Some(leaf_rlp_of(key, values[p + key]))
            } else {
                None
            },
            NodeView::Extension { key, hash } => if !cache_unusable(n, p, dirty) {
                Some(word_of(hash->Some_0))
            } else if fuel == 0 {
                None
            } else {
                match node_ref(nodes, values, dirty, p + key, (fuel - 1) as nat) {
                    Some(c) => Some(extension_rlp_of(key, c)),
                    None => None,
                }
            },
            NodeView::Branch { state_mask, hash } => if !cache_unusable(n, p, dirty) {
                Some(word_of(hash->Some_0))
            } else if fuel == 0 {
                None
            } else {
                match child_refs(nodes, values, dirty, p, state_mask, 16, (fuel - 1) as nat) {
                    Some(cs) => Some(branch_rlp_of(cs, state_mask)),
                    None => None,
                }
            },
        }
    }
}

/// The references of the children of the branch at `p` for the set bits of
/// `mask` below `n`, in ascending order.
pub open spec fn child_refs(
    nodes: Map<Seq<u8>, NodeView>,
    values: Map<Seq<u8>, Seq<u8>>,
    dirty: Seq<Seq<u8>>,
    p: Seq<u8>,
    mask: u16,
    n: nat,
    fuel: nat,
) -> Option<Seq<Seq<u8>>>
    decreases fuel, n + 1,
{
    if n == 0 {
        Some(Seq::empty())
    } else {
        match child_refs(nodes, values, dirty, p, mask, (n - 1) as nat, fuel) {
            None => None,
            Some(cs) => if bit_set(mask, (n - 1) as u8) {
                match node_ref(nodes, values, dirty, p.push((n - 1) as u8), fuel) {
                    Some(c) => Some(cs.push(c)),
                    None => None,
                }
            } else {
                Some(cs)
            },
        }
    }
}

/// The node at `p` encodes to `v` with enough fuel.
pub open spec fn encodes_to(
    nodes: Map<Seq<u8>, NodeView>,
    values: Map<Seq<u8>, Seq<u8>>,
    dirty: Seq<Seq<u8>>,
    p: Seq<u8>,
    v: Seq<u8>,
) -> bool {
    exists|f: nat| node_ref(nodes, values, dirty, p, f) == Some(v)
}

/// One more level of fuel does not change a reference that was found.
pub proof fn lemma_node_ref_step(
    nodes: Map<Seq<u8>, NodeView>,
    values: Map<Seq<u8>, Seq<u8>>,
    dirty: Seq<Seq<u8>>,
    p: Seq<u8>,
    fuel: nat,
)
    ensures
        node_ref(nodes, values, dirty, p, fuel) is Some ==> node_ref(nodes, values, dirty, p, fuel + 1)
            == node_ref(nodes, values, dirty, p, fuel),
    decreases fuel, 0nat,
{
    if nodes.dom().contains(p) && fuel > 0 {
        match nodes[p] {
            NodeView::Extension { key, .. } => {
                lemma_node_ref_step(nodes, values, dirty, p + key, (fuel - 1) as nat);
            },
            NodeView::Branch { state_mask, .. } => {
                lemma_child_refs_step(nodes, values, dirty, p, state_mask, 16, (fuel - 1) as nat);
            },
            _ => {},
        }
    }
}

/// One more level of fuel does not change children's references that were
/// found.
pub proof fn lemma_child_refs_step(
    nodes: Map<Seq<u8>, NodeView>,
    values: Map<Seq<u8>, Seq<u8>>,
    dirty: Seq<Seq<u8>>,
    p: Seq<u8>,
    mask: u16,
    n: nat,
    fuel: nat,
)
    ensures
        child_refs(nodes, values, dirty, p, mask, n, fuel) is Some ==> child_refs(
            nodes,
            values,
            dirty,
            p,
            mask,
            n,
            fuel + 1,
        ) == child_refs(nodes, values, dirty, p, mask, n, fuel),
    decreases fuel, n + 1,
{
    if n > 0 {
        lemma_child_refs_step(nodes, values, dirty, p, mask, (n - 1) as nat, fuel);
        lemma_node_ref_step(nodes, values, dirty, p.push((n - 1) as u8), fuel);
    }
}

/// More fuel does not change a reference that was found.
pub proof fn lemma_node_ref_mono(
    nodes: Map<Seq<u8>, NodeView>,
    values: Map<Seq<u8>, Seq<u8>>,
    dirty: Seq<Seq<u8>>,
    p: Seq<u8>,
    fuel: nat,
    more: nat,
)
    requires
        fuel <= more,
        node_ref(nodes, values, dirty, p, fuel) is Some,
    ensures
        node_ref(nodes, values, dirty, p, more) == node_ref(nodes, values, dirty, p, fuel),
    decreases more - fuel,
{
    if fuel < more {
        lemma_node_ref_step(nodes, values, dirty, p, fuel);
        lemma_node_ref_mono(nodes, values, dirty, p, fuel + 1, more);
    }
}

/// More fuel does not change children's references that were found.
pub proof fn lemma_child_refs_mono(
    nodes: Map<Seq<u8>, NodeView>,
    values: Map<Seq<u8>, Seq<u8>>,
    dirty: Seq<Seq<u8>>,
    p: Seq<u8>,
    mask: u16,
    n: nat,
    fuel: nat,
    more: nat,
)
    requires
        fuel <= more,
        child_refs(nodes, values, dirty, p, mask, n, fuel) is Some,
    ensures
        child_refs(nodes, values, dirty, p, mask, n, more) == child_refs(nodes, values, dirty, p, mask, n, fuel),
    decreases more - fuel,
{
    if fuel < more {
        lemma_child_refs_step(nodes, values, dirty, p, mask, n, fuel);
        lemma_child_refs_mono(nodes, values, dirty, p, mask, n, fuel + 1, more);
    }
}

/// A node encodes to at most one reference.
pub proof fn lemma_encodes_unique(
    nodes: Map<Seq<u8>, NodeView>,
    values: Map<Seq<u8>, Seq<u8>>,
    dirty: Seq<Seq<u8>>,
    p: Seq<u8>,
    v: Seq<u8>,
    w: Seq<u8>,
)
    requires
        encodes_to(nodes, values, dirty, p, v),
        encodes_to(nodes, values, dirty, p, w),
    ensures
        v == w,
{
    let f = choose|f: nat| node_ref(nodes, values, dirty, p, f) == Some(v);
    let g = choose|g: nat| node_ref(nodes, values, dirty, p, g) == Some(w);
    if f <= g {
        lemma_node_ref_mono(nodes, values, dirty, p, f, g);
    } else {
        lemma_node_ref_mono(nodes, values, dirty, p, g, f);
    }
}

/// The node `n` now at `q` is the original node there with its digest
/// recomputed: the original's cache could not be used, and the new cache is
/// the digest held by the reference the original encodes to.
pub open spec fn recached(
    nodes: Map<Seq<u8>, NodeView>,
    values: Map<Seq<u8>, Seq<u8>>,
    dirty: Seq<Seq<u8>>,
    q: Seq<u8>,
    n: NodeView,
) -> bool {
    &&& cache_unusable(nodes[q], q, dirty)
    &&& exists|g: nat|
        #[trigger] node_ref(nodes, values, dirty, q, g) is Some && well_formed_ref(
            node_ref(nodes, values, dirty, q, g)->Some_0,
        ) && n == with_digest(nodes[q], held_digest(node_ref(nodes, values, dirty, q, g)->Some_0))
}

/// Two sets of changed paths that cover the same prefixes give the same
/// references.
pub proof fn lemma_node_ref_same_cover(
    nodes: Map<Seq<u8>, NodeView>,
    values: Map<Seq<u8>, Seq<u8>>,
    d1: Seq<Seq<u8>>,
    d2: Seq<Seq<u8>>,
    p: Seq<u8>,
    fuel: nat,
)
    requires
        forall|q: Seq<u8>| covers(d1, q) == covers(d2, q),
    ensures
        node_ref(nodes, values, d1, p, fuel) == node_ref(nodes, values, d2, p, fuel),
    decreases fuel, 0nat,
{
    if nodes.dom().contains(p) {
        match nodes[p] {
            NodeView::Leaf { key, .. } => {
                assert(covers(d1, p + key) == covers(d2, p + key));
            },
            NodeView::Extension { key, .. } => {
                assert(covers(d1, p) == covers(d2, p));
                if fuel > 0 {
                    lemma_node_ref_same_cover(nodes, values, d1, d2, p + key, (fuel - 1) as nat);
                }
            },
            NodeView::Branch { state_mask, .. } => {
                assert(covers(d1, p) == covers(d2, p));
                if fuel > 0 {
                    lemma_child_refs_same_cover(nodes, values, d1, d2, p, state_mask, 16, (fuel - 1) as nat);
                }
            },
            _ => {},
        }
    }
}

/// Two sets of changed paths that cover the same prefixes give the same
/// children's references.
pub proof fn lemma_child_refs_same_cover(
    nodes: Map<Seq<u8>, NodeView>,
    values: Map<Seq<u8>, Seq<u8>>,
    d1: Seq<Seq<u8>>,
    d2: Seq<Seq<u8>>,
    p: Seq<u8>,
    mask: u16,
    n: nat,
    fuel: nat,
)
    requires
        forall|q: Seq<u8>| covers(d1, q) == covers(d2, q),
    ensures
        child_refs(nodes, values, d1, p, mask, n, fuel) == child_refs(nodes, values, d2, p, mask, n, fuel),
    decreases fuel, n + 1,
{
    if n > 0 {
        lemma_child_refs_same_cover(nodes, values, d1, d2, p, mask, (n - 1) as nat, fuel);
        lemma_node_ref_same_cover(nodes, values, d1, d2, p.push((n - 1) as u8), fuel);
    }
}

/// `after` is `before` with the cache of the node at `q`, which could not be
/// used, set to the digest held by `r`, the reference that node encodes to.
pub open spec fn recache_step(
    before: Map<Seq<u8>, NodeView>,
    after: Map<Seq<u8>, NodeView>,
    values: Map<Seq<u8>, Seq<u8>>,
    dirty: Seq<Seq<u8>>,
    q: Seq<u8>,
    r: Seq<u8>,
) -> bool {
    &&& before.dom().contains(q)
    &&& cache_unusable(before[q], q, dirty)
    &&& encodes_to(before, values, dirty, q, r)
    &&& well_formed_ref(r)
    &&& after == before.insert(q, with_digest(before[q], held_digest(r)))
}

/// Recaching keeps every reference that was found, at the same fuel.
pub proof fn lemma_recache_keeps(
    before: Map<Seq<u8>, NodeView>,
    after: Map<Seq<u8>, NodeView>,
    values: Map<Seq<u8>, Seq<u8>>,
    dirty: Seq<Seq<u8>>,
    q: Seq<u8>,
    r: Seq<u8>,
    p: Seq<u8>,
    fuel: nat,
)
    requires
        recache_step(before, after, values, dirty, q, r),
        node_ref(before, values, dirty, p, fuel) is Some,
    ensures
        node_ref(after, values, dirty, p, fuel) == node_ref(before, values, dirty, p, fuel),
    decreases fuel, 0nat,
{
    let n = before[p];
    if p == q {
        assert(encodes_to(before, values, dirty, p, node_ref(before, values, dirty, p, fuel)->Some_0));
        lemma_encodes_unique(before, values, dirty, p, r, node_ref(before, values, dirty, p, fuel)->Some_0);
    }
    match n {
        NodeView::Extension { key, .. } => {
            if fuel > 0 && cache_unusable(n, p, dirty) {
                lemma_recache_keeps(before, after, values, dirty, q, r, p + key, (fuel - 1) as nat);
            }
        },
        NodeView::Branch { state_mask, .. } => {
            if fuel > 0 && cache_unusable(n, p, dirty) {
                lemma_recache_keeps_children(before, after, values, dirty, q, r, p, state_mask, 16, (fuel - 1) as nat);
            }
        },
        _ => {},
    }
}

/// Recaching keeps children's references that were found, at the same fuel.
pub proof fn lemma_recache_keeps_children(
    before: Map<Seq<u8>, NodeView>,
    after: Map<Seq<u8>, NodeView>,
    values: Map<Seq<u8>, Seq<u8>>,
    dirty: Seq<Seq<u8>>,
    q: Seq<u8>,
    r: Seq<u8>,
    p: Seq<u8>,
    mask: u16,
    n: nat,
    fuel: nat,
)
    requires
        recache_step(before, after, values, dirty, q, r),
        child_refs(before, values, dirty, p, mask, n, fuel) is Some,
    ensures
        child_refs(after, values, dirty, p, mask, n, fuel) == child_refs(before, values, dirty, p, mask, n, fuel),
    decreases fuel, n + 1,
{
    if n > 0 {
        lemma_recache_keeps_children(before, after, values, dirty, q, r, p, mask, (n - 1) as nat, fuel);
        if bit_set(mask, (n - 1) as u8) {
            lemma_recache_keeps(before, after, values, dirty, q, r, p.push((n - 1) as u8), fuel);
        }
    }
}

/// Every reference found after recaching was found before, with some fuel.
pub proof fn lemma_recache_reflects(
    before: Map<Seq<u8>, NodeView>,
    after: Map<Seq<u8>, NodeView>,
    values: Map<Seq<u8>, Seq<u8>>,
    dirty: Seq<Seq<u8>>,
    q: Seq<u8>,
    r: Seq<u8>,
    p: Seq<u8>,
    fuel: nat,
) -> (g: nat)
    requires
        recache_step(before, after, values, dirty, q, r),
        node_ref(after, values, dirty, p, fuel) is Some,
    ensures
        node_ref(before, values, dirty, p, g) == node_ref(after, values, dirty, p, fuel),
    decreases fuel, 0nat,
{
    let n = after[p];
    if p == q && !cache_unusable(n, p, dirty) {
        let f0 = choose|f0: nat| node_ref(before, values, dirty, q, f0) == Some(r);
        assert(word_of(r.subrange(1, 33)) =~= r);
        return f0;
    }
    match n {
        NodeView::Extension { key, .. } => {
            if fuel > 0 && cache_unusable(n, p, dirty) {
                let g1 = lemma_recache_reflects(before, after, values, dirty, q, r, p + key, (fuel - 1) as nat);
                return g1 + 1;
            }
            0
        },
        NodeView::Branch { state_mask, .. } => {
            if fuel > 0 && cache_unusable(n, p, dirty) {
                let g1 = lemma_recache_reflects_children(before, after, values, dirty, q, r, p, state_mask, 16, (fuel - 1) as nat);
                return g1 + 1;
            }
            0
        },
        _ => 0,
    }
}

/// Children's references found after recaching were found before, with
/// some fuel.
pub proof fn lemma_recache_reflects_children(
    before: Map<Seq<u8>, NodeView>,
    after: Map<Seq<u8>, NodeView>,
    values: Map<Seq<u8>, Seq<u8>>,
    dirty: Seq<Seq<u8>>,
    q: Seq<u8>,
    r: Seq<u8>,
    p: Seq<u8>,
    mask: u16,
    n: nat,
    fuel: nat,
) -> (g: nat)
    requires
        recache_step(before, after, values, dirty, q, r),
        child_refs(after, values, dirty, p, mask, n, fuel) is Some,
    ensures
        child_refs(before, values, dirty, p, mask, n, g) == child_refs(after, values, dirty, p, mask, n, fuel),
    decreases fuel, n + 1,
{
    if n == 0 {
        0
    } else {
        let g1 = lemma_recache_reflects_children(before, after, values, dirty, q, r, p, mask, (n - 1) as nat, fuel);
        if bit_set(mask, (n - 1) as u8) {
            let c = p.push((n - 1) as u8);
            let g2 = lemma_recache_reflects(before, after, values, dirty, q, r, c, fuel);
            let g: nat = if g1 >= g2 { g1 } else { g2 };
            lemma_child_refs_mono(before, values, dirty, p, mask, (n - 1) as nat, g1, g);
            lemma_node_ref_mono(before, values, dirty, c, g2, g);
            g
        } else {
            g1
        }
    }
}

/// Recaching keeps exactly the references that nodes encode to.
pub proof fn lemma_recache_same_encoding(
    before: Map<Seq<u8>, NodeView>,
    after: Map<Seq<u8>, NodeView>,
    values: Map<Seq<u8>, Seq<u8>>,
    dirty: Seq<Seq<u8>>,
    q: Seq<u8>,
    r: Seq<u8>,
)
    requires
        recache_step(before, after, values, dirty, q, r),
    ensures
        forall|p: Seq<u8>, v: Seq<u8>|
            encodes_to(before, values, dirty, p, v) == encodes_to(after, values, dirty, p, v),
{
    assert forall|p: Seq<u8>, v: Seq<u8>|
        encodes_to(before, values, dirty, p, v) == encodes_to(after, values, dirty, p, v) by {
        if encodes_to(before, values, dirty, p, v) {
            let f = choose|f: nat| node_ref(before, values, dirty, p, f) == Some(v);
            lemma_recache_keeps(before, after, values, dirty, q, r, p, f);
        }
        if encodes_to(after, values, dirty, p, v) {
            let f = choose|f: nat| node_ref(after, values, dirty, p, f) == Some(v);
            let g = lemma_recache_reflects(before, after, values, dirty, q, r, p, f);
            assert(node_ref(before, values, dirty, p, g) == Some(v));
        }
    }
}

} // verus!
