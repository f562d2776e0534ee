use vstd::prelude::*;
use crate::nibbles::Nibbles;

verus! {

/// Whether bit `i` of `mask` is set.
pub open spec fn bit_set(mask: u16, i: u8) -> bool {
    (mask >> (i as u16)) & 1u16 == 1u16
}

/// Number of set bits of `mask` below position `n`.
pub open spec fn bits_below(mask: u16, n: nat) -> nat
    decreases n,
{
    if n == 0 {
        0
    } else {
        bits_below(mask, (n - 1) as nat) + if bit_set(mask, (n - 1) as u8) { 1nat } else { 0nat }
    }
}

/// Number of set bits of a sixteen-bit mask.
pub open spec fn popcount(mask: u16) -> nat {
    bits_below(mask, 16)
}

/// The mask with exactly bits `a` and `b` set.
pub open spec fn split_mask(a: u8, b: u8) -> u16 {
    (1u16 << (a as u16)) | (1u16 << (b as u16))
}

/// What a node of the table is, in the terms that contracts speak of.
pub enum NodeView {
    Empty,
    Hash(Seq<u8>),
    Leaf { key: Seq<u8>, hash: Option<Seq<u8>> },
    Extension { key: Seq<u8>, hash: Option<Seq<u8>> },
    Branch { state_mask: u16, hash: Option<Seq<u8>> },
}

/// The view of an optional cached digest.
pub open spec fn digest_view(h: Option<[u8; 32]>) -> Option<Seq<u8>> {
    match h {
        Some(d) => Some(d@),
        None => None,
    }
}

/// A node of the sparse trie. Children are not held: they live in the
/// table at paths derived from this node's path.
#[derive(Debug, PartialEq, Eq)]
pub enum SparseNode {
    /// The canonical empty trie.
    Empty,
    /// A subtree known only by its digest.
    Hash([u8; 32]),
    /// A leaf; its full path is its own path followed by `key`.
    Leaf { key: Nibbles, hash: Option<[u8; 32]> },
    /// A shortcut to the single child at its own path followed by `key`.
    Extension { key: Nibbles, hash: Option<[u8; 32]> },
    /// A sixteen-way branch; child `i` is present when bit `i` is set.
    Branch { state_mask: u16, hash: Option<[u8; 32]> },
}

impl View for SparseNode {
    type V = NodeView;

    open spec fn view(&self) -> NodeView {
        match self {
            SparseNode::Empty => NodeView::Empty,
            SparseNode::Hash(h) => NodeView::Hash(h@),
            SparseNode::Leaf { key, hash } => NodeView::Leaf { key: key@, hash: digest_view(*hash) },
            SparseNode::Extension { key, hash } => NodeView::Extension {
                key: key@,
                hash: digest_view(*hash),
            },
            SparseNode::Branch { state_mask, hash } => NodeView::Branch {
                state_mask: *state_mask,
                hash: digest_view(*hash),
            },
        }
    }
}

/// The node with its cached digest dropped.
pub open spec fn shape(n: NodeView) -> NodeView {
    match n {
        NodeView::Leaf { key, .. } => NodeView::Leaf { key, hash: None },
        NodeView::Extension { key, .. } => NodeView::Extension { key, hash: None },
        NodeView::Branch { state_mask, .. } => NodeView::Branch { state_mask, hash: None },
        _ => n,
    }
}

/// A node as it arrives from a proof: the RLP items of its children are kept
/// as bytes.
#[derive(Debug)]
pub enum TrieNode {
    /// The empty trie.
    EmptyRoot,
    /// A branch: the encoded children, in ascending nibble order, and the mask.
    Branch { stack: Vec<Vec<u8>>, state_mask: u16 },
    /// An extension: its key and the encoded child.
    Extension { key: Nibbles, child: Vec<u8> },
    /// A leaf: its key suffix and value.
    Leaf { key: Nibbles, value: Vec<u8> },
}

/// Sum of the lengths of a sequence of byte strings.
pub open spec fn total_len(s: Seq<Vec<u8>>) -> nat
    decreases s.len(),
{
    if s.len() == 0 {
        0
    } else {
        total_len(s.drop_last()) + s.last()@.len()
    }
}

impl TrieNode {
    /// A branch holds one encoded child, of at most 33 bytes, for each set
    /// bit of its mask.
    pub open spec fn children_fit(&self) -> bool {
        match self {
            TrieNode::Branch { stack, state_mask } => stack@.len() == popcount(*state_mask)
                && forall|i: int| 0 <= i < stack@.len() ==> stack@[i]@.len() <= 33,
            _ => true,
        }
    }

    /// Number of bytes of the encoded children that revealing this node
    /// goes on to decode.
    pub open spec fn child_bytes(&self) -> nat {
        match self {
            TrieNode::EmptyRoot => 0,
            TrieNode::Branch { stack, .. } => total_len(stack@),
            TrieNode::Extension { child, .. } => child@.len(),
            TrieNode::Leaf { .. } => 0,
        }
    }
}

/// Counting set bits over a longer prefix counts at least as many.
pub proof fn lemma_bits_below_mono(mask: u16, a: nat, b: nat)
    requires
        a <= b,
    ensures
        bits_below(mask, a) <= bits_below(mask, b),
    decreases b - a,
{
    if a < b {
        lemma_bits_below_mono(mask, a, (b - 1) as nat);
    }
}

/// Each byte string is no longer than all of them together.
pub proof fn lemma_total_len_elem(s: Seq<Vec<u8>>, i: int)
    requires
        0 <= i < s.len(),
    ensures
        s[i]@.len() <= total_len(s),
    decreases s.len(),
{
    if i < s.len() - 1 {
        lemma_total_len_elem(s.drop_last(), i);
    }
}

/// Setting bit `n` sets it and keeps the others.
pub proof fn lemma_bit_or(mask: u16, n: u8, i: u8)
    requires
        n < 16,
        i < 16,
    ensures
        bit_set(mask | (1u16 << (n as u16)), i) == (i == n || bit_set(mask, i)),
{
    assert(((mask | (1u16 << (n as u16))) >> (i as u16)) & 1u16 == 1u16 <==> (i == n || (mask
        >> (i as u16)) & 1u16 == 1u16)) by (bit_vector)
        requires
            n < 16,
            i < 16,
    ;
}

/// Clearing bit `n` clears it and keeps the others.
pub proof fn lemma_bit_clear(mask: u16, n: u8, i: u8)
    requires
        n < 16,
        i < 16,
    ensures
        bit_set(mask & !(1u16 << (n as u16)), i) == (i != n && bit_set(mask, i)),
{
    assert(((mask & !(1u16 << (n as u16))) >> (i as u16)) & 1u16 == 1u16 <==> (i != n && (mask
        >> (i as u16)) & 1u16 == 1u16)) by (bit_vector)
        requires
            n < 16,
            i < 16,
    ;
}

/// Whether bit `i` of `mask` is set.
pub fn is_bit_set(mask: u16, i: u8) -> (r: bool)
    requires
        i < 16,
    ensures
        r == bit_set(mask, i),
{
    (mask >> (i as u16)) & 1u16 == 1u16
}

/// `mask` with bit `i` set.
pub fn with_bit(mask: u16, i: u8) -> (r: u16)
    requires
        i < 16,
    ensures
        r == mask | (1u16 << (i as u16)),
        forall|j: u8| j < 16 ==> bit_set(r, j) == (j == i || bit_set(mask, j)),
{
    let r = mask | (1u16 << (i as u16));
    proof {
        assert forall|j: u8| j < 16 implies bit_set(r, j) == (j == i || bit_set(mask, j)) by {
            lemma_bit_or(mask, i, j);
        }
    }
    r
}

/// `mask` with bit `i` cleared.
pub fn without_bit(mask: u16, i: u8) -> (r: u16)
    requires
        i < 16,
    ensures
        r == mask & !(1u16 << (i as u16)),
        forall|j: u8| j < 16 ==> bit_set(r, j) == (j != i && bit_set(mask, j)),
{
    let r = mask & !(1u16 << (i as u16));
    proof {
        assert forall|j: u8| j < 16 implies bit_set(r, j) == (j != i && bit_set(mask, j)) by {
            lemma_bit_clear(mask, i, j);
        }
    }
    r
}

/// Number of set bits of `mask`, and the lowest set bit if any.
pub fn count_bits(mask: u16) -> (r: (u8, u8))
    ensures
        r.0 as nat == popcount(mask),
        r.0 > 0 ==> r.1 < 16 && bit_set(mask, r.1),
        r.0 == 1 ==> forall|j: u8| j < 16 && j != r.1 ==> !bit_set(mask, j),
{
    let mut count: u8 = 0;
    let mut first: u8 = 0;
    let mut i: u8 = 0;
    while i < 16
        invariant
            i <= 16,
            count as nat == bits_below(mask, i as nat),
            count <= i,
            count > 0 ==> first < i && bit_set(mask, first),
            count > 0 ==> forall|j: u8| j < first ==> !bit_set(mask, j),
            count == 0 ==> forall|j: u8| j < i ==> !bit_set(mask, j),
            count == 1 ==> forall|j: u8| j < i && j != first ==> !bit_set(mask, j),
        decreases 16 - i,
    {
        if is_bit_set(mask, i) {
            if count == 0 {
                first = i;
            }
            count = count + 1;
        }
        i = i + 1;
    }
    (count, first)
}

impl SparseNode {
    /// A branch with the given mask and no cached digest.
    pub fn new_branch(state_mask: u16) -> (r: Self)
        ensures
            r@ == (NodeView::Branch { state_mask, hash: None }),
    {
        SparseNode::Branch { state_mask, hash: None }
    }

    /// A branch with exactly the two children `bit_a` and `bit_b`.
    pub fn new_split_branch(bit_a: u8, bit_b: u8) -> (r: Self)
        requires
            bit_a < 16,
            bit_b < 16,
        ensures
            r@ is Branch,
            r@->Branch_hash is None,
            forall|j: u8| j < 16 ==> bit_set(r@->Branch_state_mask, j) == (j == bit_a || j == bit_b),
            r@->Branch_state_mask == split_mask(bit_a, bit_b),
    {
        let m = with_bit(with_bit(0u16, bit_a), bit_b);
        proof {
            assert((0u16 | (1u16 << (bit_a as u16))) | (1u16 << (bit_b as u16)) == (1u16 << (bit_a as u16))
                | (1u16 << (bit_b as u16))) by (bit_vector);
            assert forall|j: u8| j < 16 implies !bit_set(0u16, j) by {
                assert((0u16 >> (j as u16)) & 1u16 != 1u16) by (bit_vector);
            }
        }
        SparseNode::Branch { state_mask: m, hash: None }
    }

    /// An extension with the given key and no cached digest.
    pub fn new_ext(key: Nibbles) -> (r: Self)
        ensures
            r@ == (NodeView::Extension { key: key@, hash: None }),
    {
        SparseNode::Extension { key, hash: None }
    }

    /// A leaf with the given key suffix and no cached digest.
    pub fn new_leaf(key: Nibbles) -> (r: Self)
        ensures
            r@ == (NodeView::Leaf { key: key@, hash: None }),
    {
        SparseNode::Leaf { key, hash: None }
    }

    /// The node that a decoded trie node stands for, without its children.
    pub fn from_node(node: TrieNode) -> (r: Self)
        ensures
            r@ == node_of(node),
    {
        match node {
            TrieNode::EmptyRoot => SparseNode::Empty,
            TrieNode::Leaf { key, .. } => SparseNode::new_leaf(key),
            TrieNode::Extension { key, .. } => SparseNode::new_ext(key),
            TrieNode::Branch { state_mask, .. } => SparseNode::new_branch(state_mask),
        }
    }

    /// An equal node.
    pub fn duplicate(&self) -> (r: Self)
        ensures
            r@ == self@,
    {
        match self {
            SparseNode::Empty => SparseNode::Empty,
            SparseNode::Hash(h) => SparseNode::Hash(*h),
            SparseNode::Leaf { key, hash } => SparseNode::Leaf { key: key.duplicate(), hash: *hash },
            SparseNode::Extension { key, hash } => SparseNode::Extension {
                key: key.duplicate(),
                hash: *hash,
            },
            SparseNode::Branch { state_mask, hash } => SparseNode::Branch {
                state_mask: *state_mask,
                hash: *hash,
            },
        }
    }
}

/// The table node that a decoded trie node becomes.
pub open spec fn node_of(node: TrieNode) -> NodeView {
    match node {
        TrieNode::EmptyRoot => NodeView::Empty,
        TrieNode::Leaf { key, .. } => NodeView::Leaf { key: key@, hash: None },
        TrieNode::Extension { key, .. } => NodeView::Extension { key: key@, hash: None },
        TrieNode::Branch { state_mask, .. } => NodeView::Branch { state_mask, hash: None },
    }
}

} // verus!
