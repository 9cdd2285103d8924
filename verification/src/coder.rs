//! The Huffman coder: a code tree together with the codebook derived from
//! it, and the encoding and decoding that they define.

use crate::canonical::{
    huffman_tree, leaf_queue, lemma_huffman_tree_leaves, lemma_leaf_queue, lemma_merge_step,
    lemma_sum_first_two, merge_all, total_weight, weight_of,
};
use crate::coding::{
    covers, decode_bits, decode_resume, encode_symbols, ends_at_leaf, lemma_encode_push,
    resume_ends,
};
use crate::error::HuffmanError;
use crate::prefix_code::{lemma_huffman_code_optimal, optimal_assignment};
use crate::queue::{HeapNode, MinQueue};
use crate::tree::{lemma_codebook_prefix_free, prefix_free, HuffmanNode};
use std::collections::HashMap;
use vstd::prelude::*;

verus! {

/// A code tree and its codebook. Both are fixed when the value is made and
/// never change afterwards.
#[derive(Debug)]
pub struct HuffmanTree {
    root: HuffmanNode,
    codes: HashMap<u8, Vec<bool>>,
}

/// The codes of a table as a mathematical map from symbol to bit sequence.
pub open spec fn codes_view(codes: Map<u8, Vec<bool>>) -> Map<u8, Seq<bool>> {
    Map::new(|symbol: u8| codes.contains_key(symbol), |symbol: u8| codes[symbol]@)
}

impl HuffmanTree {
    /// The tree that the codes are read from.
    pub closed spec fn root(&self) -> HuffmanNode {
        self.root
    }

    /// The code of each symbol that has one.
    pub closed spec fn codebook(&self) -> Map<u8, Seq<bool>> {
        codes_view(self.codes@)
    }

    /// The codebook is the one that the tree defines, and no symbol has two
    /// leaves. Every value of the type is well-formed; the functions that
    /// take one say so again for their callers.
    pub open spec fn wf(&self) -> bool {
        &&& self.codebook() == self.root().codebook()
        &&& self.root().distinct_leaves()
    }

    #[verifier::type_invariant]
    spec fn inv(&self) -> bool {
        self.wf()
    }

    /// Builds the code tree of a frequency table and the codebook that the
    /// tree defines.
    ///
    /// The tree is the one that greedy merging of the two lightest subtrees
    /// gives, ties broken by ascending symbol value among leaves, leaves
    /// before merged nodes, and merged nodes in the order of their making. It
    /// has exactly one leaf per symbol of the table, its codes are mutually
    /// prefix-free, and no prefix code for the symbols of the table has a
    /// smaller weighted average code length. A table without symbols is
    /// refused with `EmptyFrequencyTable`, and only such a table is.
    pub fn build(freqs: &HashMap<u8, usize>) -> (built: Result<HuffmanTree, HuffmanError>)
        ensures
            match built {
                Ok(tree) => {
                    &&& exists|symbol: u8| freqs@.contains_key(symbol)
                    &&& tree.wf()
                    &&& tree.root() == huffman_tree(freqs@)
                    &&& tree.root().symbols() == freqs@.dom()
                    &&& tree.codebook().dom() == freqs@.dom()
                    &&& prefix_free(tree.codebook())
                    &&& optimal_assignment(tree.codebook(), freqs@)
                },
                Err(e) => {
                    &&& forall|symbol: u8| !freqs@.contains_key(symbol)
                    &&& e == HuffmanError::EmptyFrequencyTable
                },
            },
    {
        broadcast use vstd::std_specs::hash::group_hash_axioms;

        let mut queue = MinQueue::new();
        let mut n: u16 = 0;
        while n < 256
            invariant
                n <= 256,
                queue.wf(),
                queue@ == leaf_queue(freqs@, n as nat),
            decreases 256 - n,
        {
            let symbol: u8 = n as u8;
            match freqs.get(&symbol) {
                Some(freq) => {
                    queue.push(
                        HeapNode {
                            freq: *freq as u128,
                            order: n,
                            node: HuffmanNode::Leaf { byte: symbol },
                        },
                    );
                },
                None => {},
            }
            n += 1;
        }
        proof {
            lemma_leaf_queue(freqs@, 256);
        }
        if queue.len() == 0 {
            assert forall|symbol: u8| !freqs@.contains_key(symbol) by {
                assert(!(symbol < 256 && freqs@.contains_key(symbol)));
            }
            return Err(HuffmanError::EmptyFrequencyTable);
        }
        let mut order: u16 = 256;
        while queue.len() > 1
            invariant
                exists|symbol: u8| freqs@.contains_key(symbol),
                queue.wf(),
                queue@.len() >= 1,
                order >= 256,
                order + queue@.len() <= 512,
                total_weight(queue@) <= 256 * usize::MAX,
                merge_all(queue@, order as nat) == huffman_tree(freqs@),
            decreases queue@.len(),
        {
            let ghost before = queue@;
            let HeapNode { freq: first_freq, node: first_node, .. } = queue.pop().unwrap();
            let HeapNode { freq: second_freq, node: second_node, .. } = queue.pop().unwrap();
            proof {
                assert(before.drop_first().drop_first() =~= before.skip(2));
                lemma_sum_first_two(before, weight_of());
                lemma_merge_step(before, order as nat, weight_of());
            }
            let node = HuffmanNode::Internal {
                left: Box::new(first_node),
                right: Box::new(second_node),
            };
            queue.push(HeapNode { freq: first_freq + second_freq, order, node });
            order += 1;
        }
        let root = queue.pop().unwrap().node;
        let mut codes: HashMap<u8, Vec<bool>> = HashMap::new();
        Self::build_codes(&root, Vec::new(), &mut codes);
        proof {
            lemma_huffman_tree_leaves(freqs@);
            lemma_codebook_prefix_free(root);
            lemma_huffman_code_optimal(freqs@);
            assert(codes_view(codes@) =~= root.codebook()) by {
                assert forall|symbol: u8| root.has_leaf(symbol) implies (#[trigger] codes@[symbol])@
                    == root.codebook()[symbol] by {
                    assert(Seq::<bool>::empty() + root.path_to(symbol) =~= root.path_to(symbol));
                }
            }
        }
        Ok(HuffmanTree { root, codes })
    }

    /// Derives the codes of the leaves below `node` into `codes`: the code
    /// of a leaf is `prefix` followed by the path to it, a left edge as
    /// `false`, a right edge as `true`. A leaf that is the whole tree, reached
    /// by no edge and behind no prefix, gets the one-bit code `0`, never the
    /// empty code. Codes of other symbols stay as they were.
    pub fn build_codes(node: &HuffmanNode, prefix: Vec<bool>, codes: &mut HashMap<u8, Vec<bool>>)
        ensures
            final(codes)@.dom() == old(codes)@.dom().union(node.symbols()),
            forall|symbol: u8|
                node.has_leaf(symbol) ==> (#[trigger] final(codes)@[symbol])@ == (if node is Leaf
                    && prefix@.len() == 0 {
                    seq![false]
                } else {
                    prefix@ + node.path_to(symbol)
                }),
            forall|symbol: u8|
                !node.has_leaf(symbol) ==> #[trigger] final(codes)@[symbol] == old(codes)@[symbol],
        decreases node,
    {
        broadcast use vstd::std_specs::hash::group_hash_axioms;

        match node {
            HuffmanNode::Leaf { byte } => {
                assert(prefix@ + node.path_to(*byte) =~= prefix@);
                if prefix.len() == 0 {
                    codes.insert(*byte, vec![false]);
                } else {
                    codes.insert(*byte, prefix);
                }
                assert(codes@.dom() =~= old(codes)@.dom().union(node.symbols()));
            },
            HuffmanNode::Internal { left, right } => {
                let mut left_prefix = prefix.clone();
                left_prefix.push(false);
                let mut right_prefix = prefix;
                right_prefix.push(true);
                assert(left_prefix@ =~= right_prefix@.drop_last().push(false));
                assert(left_prefix@.len() >= 1 && right_prefix@.len() >= 1);
                Self::build_codes(left, left_prefix, codes);
                Self::build_codes(right, right_prefix, codes);
                assert(codes@.dom() =~= old(codes)@.dom().union(node.symbols()));
                assert forall|symbol: u8| node.has_leaf(symbol) implies (#[trigger] codes@[symbol])@
                    == prefix@ + node.path_to(symbol) by {
                    if right.has_leaf(symbol) {
                        assert(right_prefix@ + right.path_to(symbol) =~= prefix@ + (seq![true]
                            + right.path_to(symbol)));
                    } else {
                        assert(left_prefix@ + left.path_to(symbol) =~= prefix@ + (seq![false]
                            + left.path_to(symbol)));
                    }
                }
            },
        }
    }

    /// The tree that the codes are read from.
    pub fn root_node(&self) -> (root: &HuffmanNode)
        ensures
            self.wf(),
            *root == self.root(),
    {
        proof {
            use_type_invariant(self);
        }
        &self.root
    }

    /// The code of `symbol`, or `None` where the codebook has none for it.
    pub fn code(&self, symbol: u8) -> (code: Option<&Vec<bool>>)
        ensures
            self.wf(),
            match code {
                Some(bits) => self.codebook().contains_key(symbol) && bits@
                    == self.codebook()[symbol],
                None => !self.codebook().contains_key(symbol),
            },
    {
        broadcast use vstd::std_specs::hash::group_hash_axioms;

        proof {
            use_type_invariant(self);
        }
        self.codes.get(&symbol)
    }

    /// Encodes `data` as the codes of its symbols, one after the other in
    /// input order. Data with a symbol that the codebook has no code for is
    /// refused with `UnknownSymbol`, and only such data is.
    pub fn encode(&self, data: &[u8]) -> (encoded: Result<Vec<bool>, HuffmanError>)
        ensures
            self.wf(),
            match encoded {
                Ok(bits) => covers(self.codebook(), data@) && bits@ == encode_symbols(
                    self.codebook(),
                    data@,
                ),
                Err(e) => !covers(self.codebook(), data@) && e == HuffmanError::UnknownSymbol,
            },
    {
        broadcast use vstd::std_specs::hash::group_hash_axioms;

        proof {
            use_type_invariant(self);
        }
        let mut bits: Vec<bool> = Vec::new();
        let mut i: usize = 0;
        while i < data.len()
            invariant
                i <= data.len(),
                self.wf(),
                covers(self.codebook(), data@.take(i as int)),
                bits@ == encode_symbols(self.codebook(), data@.take(i as int)),
            decreases data.len() - i,
        {
            let symbol: u8 = data[i];
            match self.codes.get(&symbol) {
                Some(code) => {
                    let ghost before = bits@;
                    bits.extend_from_slice(code.as_slice());
                    proof {
                        assert(bits@ =~= before + self.codebook()[symbol]);
                        lemma_encode_push(self.codebook(), data@.take(i as int), symbol);
                        assert(data@.take(i + 1) =~= data@.take(i as int).push(symbol));
                    }
                },
                None => {
                    assert(!self.codebook().contains_key(data@[i as int]));
                    return Err(HuffmanError::UnknownSymbol);
                },
            }
            i += 1;
        }
        assert(data@.take(i as int) =~= data@);
        Ok(bits)
    }

    /// Walks the tree along `bits`, one edge per bit, from the root and from
    /// the root again after each leaf. Gives the symbols of the leaves that
    /// were reached and, where the bits end inside the tree, the node at
    /// which they end.
    fn walk<'a>(&'a self, bits: &[bool]) -> (end: (Vec<u8>, Option<&'a HuffmanNode>))
        ensures
            self.wf(),
            match end.1 {
                None => {
                    &&& ends_at_leaf(self.root(), bits@)
                    &&& end.0@ == decode_bits(self.root(), bits@)
                },
                Some(stop) => {
                    &&& !ends_at_leaf(self.root(), bits@)
                    &&& *stop is Internal
                    &&& end.0@ + seq![stop.leftmost()] == decode_bits(self.root(), bits@)
                },
            },
    {
        proof {
            use_type_invariant(self);
        }
        let mut result: Vec<u8> = Vec::new();
        let mut current: &HuffmanNode = &self.root;
        let mut in_flight = false;
        let mut i: usize = 0;
        assert(bits@.skip(0) =~= bits@);
        assert(result@ + decode_bits(self.root, bits@) =~= decode_bits(self.root, bits@));
        while i < bits.len()
            invariant
                i <= bits.len(),
                in_flight ==> *current is Internal,
                !in_flight ==> *current == self.root,
                result@ + (if in_flight {
                    decode_resume(self.root, *current, bits@.skip(i as int))
                } else {
                    decode_bits(self.root, bits@.skip(i as int))
                }) == decode_bits(self.root, bits@),
                (if in_flight {
                    resume_ends(self.root, *current, bits@.skip(i as int))
                } else {
                    ends_at_leaf(self.root, bits@.skip(i as int))
                }) == ends_at_leaf(self.root, bits@),
            decreases bits.len() - i,
        {
            let ghost rest = bits@.skip(i as int);
            let ghost emitted = result@;
            let ghost pending = if in_flight {
                decode_resume(self.root, *current, rest)
            } else {
                decode_bits(self.root, rest)
            };
            let ghost whole = if in_flight {
                resume_ends(self.root, *current, rest)
            } else {
                ends_at_leaf(self.root, rest)
            };
            assert(rest.drop_first() =~= bits@.skip(i + 1));
            assert(rest[0] == bits@[i as int]);
            let next: &HuffmanNode = match current {
                HuffmanNode::Internal { left, right } => if bits[i] {
                    right
                } else {
                    left
                },
                HuffmanNode::Leaf { .. } => current,
            };
            assert(*current is Internal ==> pending == decode_resume(
                self.root,
                *next,
                rest.drop_first(),
            ) && whole == resume_ends(self.root, *next, rest.drop_first()));
            match next {
                HuffmanNode::Leaf { byte } => {
                    result.push(*byte);
                    assert(pending == seq![*byte] + decode_bits(self.root, rest.drop_first()));
                    assert(result@ + decode_bits(self.root, rest.drop_first()) =~= emitted
                        + pending);
                    assert(whole == ends_at_leaf(self.root, rest.drop_first()));
                    current = &self.root;
                    in_flight = false;
                },
                HuffmanNode::Internal { .. } => {
                    current = next;
                    in_flight = true;
                },
            }
            i += 1;
        }
        assert(bits@.skip(i as int) =~= Seq::<bool>::empty());
        if in_flight {
            (result, Some(current))
        } else {
            assert(result@ + Seq::<u8>::empty() =~= result@);
            (result, None)
        }
    }

    /// Decodes `bits` by walking the tree from the root, one edge per bit,
    /// and emitting a symbol at each leaf. Every bit sequence decodes to
    /// something: a walk that the bits leave in the middle of the tree is
    /// completed with zero bits and emits one last symbol.
    pub fn decode(&self, bits: &[bool]) -> (decoded: Vec<u8>)
        ensures
            self.wf(),
            decoded@ == decode_bits(self.root(), bits@),
    {
        let end = self.walk(bits);
        let mut result = end.0;
        match end.1 {
            Some(stop) => {
                let mut current: &HuffmanNode = stop;
                let ghost emitted = result@;
                loop
                    invariant
                        current.leftmost() == stop.leftmost(),
                    ensures
                        *current is Leaf,
                    decreases current,
                {
                    match current {
                        HuffmanNode::Internal { left, .. } => {
                            current = left;
                        },
                        HuffmanNode::Leaf { .. } => {
                            break;
                        },
                    }
                }
                if let HuffmanNode::Leaf { byte } = current {
                    result.push(*byte);
                }
                assert(result@ =~= emitted + seq![stop.leftmost()]);
            },
            None => {},
        }
        result
    }

    /// Decodes bits that are made of whole codes, as `decode` does. Bits
    /// that break off in the middle of a code are refused with
    /// `IncompleteCode`, and only such bits are.
    pub fn decode_strict(&self, bits: &[bool]) -> (decoded: Result<Vec<u8>, HuffmanError>)
        ensures
            self.wf(),
            match decoded {
                Ok(symbols) => ends_at_leaf(self.root(), bits@) && symbols@ == decode_bits(
                    self.root(),
                    bits@,
                ),
                Err(e) => !ends_at_leaf(self.root(), bits@) && e == HuffmanError::IncompleteCode,
            },
    {
        let end = self.walk(bits);
        match end.1 {
            Some(_) => Err(HuffmanError::IncompleteCode),
            None => Ok(end.0),
        }
    }
}

} // verus!
