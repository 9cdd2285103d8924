//! The prefix-code tree and the mathematical reading of its shape: which
//! symbols it holds, by which path each is reached, and how a bit sequence
//! walks it.

use vstd::prelude::*;

verus! {

/// A node of a prefix-code tree: a leaf that stands for one symbol, or an
/// internal node that owns exactly two children. The left edge reads as bit
/// `0` (`false`), the right edge as bit `1` (`true`).
#[derive(Debug)]
pub enum HuffmanNode {
    Leaf { byte: u8 },
    Internal { left: Box<HuffmanNode>, right: Box<HuffmanNode> },
}

impl HuffmanNode {
    /// How many leaves below (or at) this node stand for `symbol`.
    pub open spec fn leaf_count(self, symbol: u8) -> nat
        decreases self,
    {
        match self {
            HuffmanNode::Leaf { byte } => if byte == symbol {
                1
            } else {
                0
            },
            HuffmanNode::Internal { left, right } => left.leaf_count(symbol) + right.leaf_count(
                symbol,
            ),
        }
    }

    /// Whether some leaf below (or at) this node stands for `symbol`.
    pub open spec fn has_leaf(self, symbol: u8) -> bool {
        self.leaf_count(symbol) > 0
    }

    /// The symbols that the leaves of this tree stand for.
    pub open spec fn symbols(self) -> Set<u8> {
        Set::new(|symbol: u8| self.has_leaf(symbol))
    }

    /// No symbol has more than one leaf.
    pub open spec fn distinct_leaves(self) -> bool {
        forall|symbol: u8| self.leaf_count(symbol) <= 1
    }

    /// The number of edges on the longest path from this node to a leaf.
    pub open spec fn height(self) -> nat
        decreases self,
    {
        match self {
            HuffmanNode::Leaf { .. } => 0,
            HuffmanNode::Internal { left, right } => 1 + if left.height() >= right.height() {
                left.height()
            } else {
                right.height()
            },
        }
    }

    /// The edges from this node down to the leaf of `symbol`, `false` for a
    /// left edge and `true` for a right one. It is meant for a symbol that
    /// the tree holds; where two leaves stand for it, the rightmost counts.
    pub open spec fn path_to(self, symbol: u8) -> Seq<bool>
        decreases self,
    {
        match self {
            HuffmanNode::Leaf { .. } => Seq::empty(),
            HuffmanNode::Internal { left, right } => if right.has_leaf(symbol) {
                seq![true] + right.path_to(symbol)
            } else {
                seq![false] + left.path_to(symbol)
            },
        }
    }

    /// Follows `bits` downwards from this node, one edge per bit, until a
    /// leaf is reached or the bits run out. Gives the node at which the walk
    /// stopped and the bits that were not consumed.
    pub open spec fn descend(self, bits: Seq<bool>) -> (HuffmanNode, Seq<bool>)
        decreases self,
    {
        match self {
            HuffmanNode::Leaf { .. } => (self, bits),
            HuffmanNode::Internal { left, right } => if bits.len() == 0 {
                (self, bits)
            } else if bits[0] {
                right.descend(bits.drop_first())
            } else {
                left.descend(bits.drop_first())
            },
        }
    }

    /// The symbol reached from this node by left edges alone: what a walk
    /// that stopped here emits when it is completed with zero bits.
    pub open spec fn leftmost(self) -> u8
        decreases self,
    {
        match self {
            HuffmanNode::Leaf { byte } => byte,
            HuffmanNode::Internal { left, .. } => left.leftmost(),
        }
    }

    /// The codebook that this tree defines when it is the root: each symbol
    /// is coded by the path to its leaf. A tree that is a single leaf codes
    /// its one symbol by the single bit `0`, never by the empty sequence.
    pub open spec fn codebook(self) -> Map<u8, Seq<bool>> {
        match self {
            HuffmanNode::Leaf { byte } => Map::empty().insert(byte, seq![false]),
            HuffmanNode::Internal { .. } => Map::new(
                |symbol: u8| self.has_leaf(symbol),
                |symbol: u8| self.path_to(symbol),
            ),
        }
    }
}

/// Whether `a` is an initial part of `b`; every sequence is one of itself.
pub open spec fn is_prefix(a: Seq<bool>, b: Seq<bool>) -> bool {
    a.len() <= b.len() && b.take(a.len() as int) == a
}

/// No code of the codebook is an initial part of the code of another symbol.
pub open spec fn prefix_free(codebook: Map<u8, Seq<bool>>) -> bool {
    forall|a: u8, b: u8|
        #![trigger codebook[a], codebook[b]]
        codebook.contains_key(a) && codebook.contains_key(b) && a != b ==> !is_prefix(
            codebook[a],
            codebook[b],
        )
}

/// A walk never hands back more bits than it was given, and from an internal
/// node with a bit to read it consumes at least one.
pub proof fn lemma_descend_consumes(node: HuffmanNode, bits: Seq<bool>)
    ensures
        node.descend(bits).1.len() <= bits.len(),
        node is Internal && bits.len() > 0 ==> node.descend(bits).1.len() < bits.len(),
        node.descend(bits).0 is Internal ==> node.descend(bits).1.len() == 0,
    decreases node,
{
    match node {
        HuffmanNode::Leaf { .. } => {},
        HuffmanNode::Internal { left, right } => {
            if bits.len() > 0 {
                if bits[0] {
                    lemma_descend_consumes(*right, bits.drop_first());
                } else {
                    lemma_descend_consumes(*left, bits.drop_first());
                }
            }
        },
    }
}

/// The path to a symbol of the tree, followed by any further bits, walks to
/// that symbol's leaf and leaves exactly the further bits.
pub proof fn lemma_path_reaches_leaf(node: HuffmanNode, symbol: u8, tail: Seq<bool>)
    requires
        node.has_leaf(symbol),
    ensures
        node.descend(node.path_to(symbol) + tail) == (HuffmanNode::Leaf { byte: symbol }, tail),
        node is Internal ==> node.path_to(symbol).len() >= 1,
        node.path_to(symbol).len() <= node.height(),
    decreases node,
{
    match node {
        HuffmanNode::Leaf { byte } => {
            assert(node.path_to(symbol) + tail =~= tail);
        },
        HuffmanNode::Internal { left, right } => {
            let bits = node.path_to(symbol) + tail;
            if right.has_leaf(symbol) {
                lemma_path_reaches_leaf(*right, symbol, tail);
                assert(bits.drop_first() =~= right.path_to(symbol) + tail);
            } else {
                lemma_path_reaches_leaf(*left, symbol, tail);
                assert(bits.drop_first() =~= left.path_to(symbol) + tail);
            }
        },
    }
}

/// In a tree without double leaves, the bits that a walk consumed on its way
/// to a leaf are the path to that leaf's symbol.
pub proof fn lemma_walk_is_path(node: HuffmanNode, bits: Seq<bool>)
    requires
        node.distinct_leaves(),
        node.descend(bits).0 is Leaf,
    ensures
        node.has_leaf(node.descend(bits).0->byte),
        bits == node.path_to(node.descend(bits).0->byte) + node.descend(bits).1,
    decreases node,
{
    let (stop, rest) = node.descend(bits);
    let symbol = stop->byte;
    match node {
        HuffmanNode::Leaf { byte } => {
            assert(bits =~= node.path_to(symbol) + rest);
        },
        HuffmanNode::Internal { left, right } => {
            assert forall|other: u8| left.leaf_count(other) + right.leaf_count(other) <= 1 by {
                assert(node.leaf_count(other) <= 1);
            }
            assert(left.leaf_count(symbol) + right.leaf_count(symbol) <= 1);
            if bits[0] {
                lemma_walk_is_path(*right, bits.drop_first());
                assert(bits =~= seq![true] + (right.path_to(symbol) + rest));
                assert(bits =~= node.path_to(symbol) + rest);
            } else {
                lemma_walk_is_path(*left, bits.drop_first());
                assert(bits =~= seq![false] + (left.path_to(symbol) + rest));
                assert(bits =~= node.path_to(symbol) + rest);
            }
        },
    }
}

/// The codes of a tree's codebook are mutually prefix-free, each is at least
/// one bit long, and the codebook covers exactly the symbols of the tree.
pub proof fn lemma_codebook_prefix_free(root: HuffmanNode)
    ensures
        prefix_free(root.codebook()),
        root.codebook().dom() == root.symbols(),
        forall|symbol: u8| #[trigger]
            root.codebook().contains_key(symbol) ==> root.codebook()[symbol].len() >= 1,
{
    let codebook = root.codebook();
    assert(codebook.dom() =~= root.symbols());
    match root {
        HuffmanNode::Leaf { byte } => {},
        HuffmanNode::Internal { .. } => {
            assert forall|symbol: u8| #[trigger] codebook.contains_key(symbol) implies codebook[symbol].len()
                >= 1 by {
                lemma_path_reaches_leaf(root, symbol, Seq::empty());
            }
            assert forall|a: u8, b: u8|
                #![trigger codebook[a], codebook[b]]
                codebook.contains_key(a) && codebook.contains_key(b) && a != b implies !is_prefix(
                codebook[a],
                codebook[b],
            ) by {
                if is_prefix(codebook[a], codebook[b]) {
                    let tail = codebook[b].skip(codebook[a].len() as int);
                    assert(codebook[b] =~= codebook[a] + tail);
                    assert(codebook[b] =~= codebook[b] + Seq::empty());
                    lemma_path_reaches_leaf(root, a, tail);
                    lemma_path_reaches_leaf(root, b, Seq::empty());
                }
            }
        },
    }
}

} // verus!
