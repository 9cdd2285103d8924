//! What encoding and decoding mean, as functions on sequences, and the laws
//! that connect them.

use crate::tree::{
    lemma_descend_consumes, lemma_path_reaches_leaf, lemma_walk_is_path, HuffmanNode,
};
use vstd::prelude::*;

verus! {

/// Whether the codebook has a code for every symbol of `data`.
pub open spec fn covers(codebook: Map<u8, Seq<bool>>, data: Seq<u8>) -> bool {
    forall|i: int| 0 <= i < data.len() ==> codebook.contains_key(#[trigger] data[i])
}

/// The codes of the symbols of `data`, one after the other in input order.
pub open spec fn encode_symbols(codebook: Map<u8, Seq<bool>>, data: Seq<u8>) -> Seq<bool>
    decreases data.len(),
{
    if data.len() == 0 {
        Seq::empty()
    } else {
        codebook[data[0]] + encode_symbols(codebook, data.drop_first())
    }
}

/// The symbols that `bits` decode to under the tree `root`.
///
/// The bits are read code by code from the root. A code that ends with the
/// bits emits its symbol and nothing follows. A code that the bits break off
/// in the middle of is completed with zero bits, which emits one last
/// symbol. Under a tree that is a single leaf every bit emits that leaf's
/// symbol. The empty sequence decodes to the empty sequence.
pub open spec fn decode_bits(root: HuffmanNode, bits: Seq<bool>) -> Seq<u8>
    decreases bits.len(),
    via decode_bits_decreases
{
    if bits.len() == 0 {
        Seq::empty()
    } else {
        match root {
            HuffmanNode::Leaf { byte } => seq![byte] + decode_bits(root, bits.drop_first()),
            HuffmanNode::Internal { .. } => {
                let (stop, rest) = root.descend(bits);
                match stop {
                    HuffmanNode::Leaf { byte } => seq![byte] + decode_bits(root, rest),
                    HuffmanNode::Internal { .. } => seq![stop.leftmost()],
                }
            },
        }
    }
}

#[via_fn]
proof fn decode_bits_decreases(root: HuffmanNode, bits: Seq<bool>) {
    lemma_descend_consumes(root, bits);
}

/// What is still to be emitted when the walk stands at `cursor`, below the
/// root or at it, with `rest` left to read: the symbol that the walk
/// completes and all that follows it.
pub open spec fn decode_resume(root: HuffmanNode, cursor: HuffmanNode, rest: Seq<bool>) -> Seq<u8> {
    let (stop, after) = cursor.descend(rest);
    match stop {
        HuffmanNode::Leaf { byte } => seq![byte] + decode_bits(root, after),
        HuffmanNode::Internal { .. } => seq![stop.leftmost()],
    }
}

/// Whether `bits` are made of whole codes of the tree `root`: the walk from
/// the root, begun again after each leaf, stands at the root when the bits
/// end. Under a tree that is a single leaf every bit is a whole code.
pub open spec fn ends_at_leaf(root: HuffmanNode, bits: Seq<bool>) -> bool
    decreases bits.len(),
    via ends_at_leaf_decreases
{
    if bits.len() == 0 {
        true
    } else {
        match root {
            HuffmanNode::Leaf { .. } => true,
            HuffmanNode::Internal { .. } => {
                let (stop, rest) = root.descend(bits);
                stop is Leaf && ends_at_leaf(root, rest)
            },
        }
    }
}

#[via_fn]
proof fn ends_at_leaf_decreases(root: HuffmanNode, bits: Seq<bool>) {
    lemma_descend_consumes(root, bits);
}

/// Whether the walk that stands at `cursor` with `rest` left to read ends
/// at a leaf with the bits.
pub open spec fn resume_ends(root: HuffmanNode, cursor: HuffmanNode, rest: Seq<bool>) -> bool {
    let (stop, after) = cursor.descend(rest);
    stop is Leaf && ends_at_leaf(root, after)
}

/// Appending a symbol to the data appends its code to the encoding.
pub proof fn lemma_encode_push(codebook: Map<u8, Seq<bool>>, data: Seq<u8>, symbol: u8)
    ensures
        encode_symbols(codebook, data.push(symbol)) == encode_symbols(codebook, data)
            + codebook[symbol],
    decreases data.len(),
{
    let longer = data.push(symbol);
    if data.len() == 0 {
        assert(longer.drop_first() =~= Seq::<u8>::empty());
        assert(encode_symbols(codebook, longer.drop_first()) =~= Seq::<bool>::empty());
        assert(encode_symbols(codebook, longer) =~= encode_symbols(codebook, data)
            + codebook[symbol]);
    } else {
        assert(longer.drop_first() =~= data.drop_first().push(symbol));
        lemma_encode_push(codebook, data.drop_first(), symbol);
        assert(encode_symbols(codebook, longer) =~= encode_symbols(codebook, data)
            + codebook[symbol]);
    }
}

/// The lengths of the codes of the symbols of `data` together.
pub open spec fn code_lengths(codebook: Map<u8, Seq<bool>>, data: Seq<u8>) -> nat
    decreases data.len(),
{
    if data.len() == 0 {
        0
    } else {
        codebook[data[0]].len() + code_lengths(codebook, data.drop_first())
    }
}

/// The encoding is as long as the codes of the symbols together.
pub proof fn lemma_encode_len(codebook: Map<u8, Seq<bool>>, data: Seq<u8>)
    ensures
        encode_symbols(codebook, data).len() == code_lengths(codebook, data),
    decreases data.len(),
{
    if data.len() > 0 {
        lemma_encode_len(codebook, data.drop_first());
    }
}

/// Decoding inverts encoding: for every tree and all data made of symbols
/// of the tree, the bits that its codebook encodes the data to are made of
/// whole codes and decode to the data again.
pub proof fn lemma_decode_encode(root: HuffmanNode, data: Seq<u8>)
    requires
        covers(root.codebook(), data),
    ensures
        decode_bits(root, encode_symbols(root.codebook(), data)) == data,
        ends_at_leaf(root, encode_symbols(root.codebook(), data)),
    decreases data.len(),
{
    let codebook = root.codebook();
    let bits = encode_symbols(codebook, data);
    if data.len() == 0 {
        assert(decode_bits(root, bits) =~= data);
    } else {
        let symbol = data[0];
        let rest = data.drop_first();
        let tail = encode_symbols(codebook, rest);
        assert(codebook.contains_key(symbol));
        assert forall|i: int| 0 <= i < rest.len() implies codebook.contains_key(
            #[trigger] rest[i],
        ) by {
            assert(rest[i] == data[i + 1]);
        }
        lemma_decode_encode(root, rest);
        match root {
            HuffmanNode::Leaf { byte } => {
                assert(symbol == byte);
                assert(bits.drop_first() =~= tail);
            },
            HuffmanNode::Internal { .. } => {
                lemma_path_reaches_leaf(root, symbol, tail);
            },
        }
        assert(decode_bits(root, bits) =~= seq![symbol] + rest);
        assert(seq![symbol] + rest =~= data);
    }
}

/// Encoding inverts decoding of whole codes: under a tree with two or more
/// leaves, no two of them for one symbol, bits that are made of whole codes
/// decode to data that the codebook covers and encodes to the same bits.
pub proof fn lemma_encode_decode(root: HuffmanNode, bits: Seq<bool>)
    requires
        root is Internal,
        root.distinct_leaves(),
        ends_at_leaf(root, bits),
    ensures
        covers(root.codebook(), decode_bits(root, bits)),
        encode_symbols(root.codebook(), decode_bits(root, bits)) == bits,
    decreases bits.len(),
{
    let codebook = root.codebook();
    let data = decode_bits(root, bits);
    if bits.len() == 0 {
        assert(encode_symbols(codebook, data) =~= bits);
    } else {
        let (stop, rest) = root.descend(bits);
        let symbol = stop->byte;
        lemma_descend_consumes(root, bits);
        lemma_walk_is_path(root, bits);
        lemma_encode_decode(root, rest);
        let tail = decode_bits(root, rest);
        assert(data == seq![symbol] + tail);
        assert(data.drop_first() =~= tail);
        assert forall|i: int| 0 <= i < data.len() implies codebook.contains_key(
            #[trigger] data[i],
        ) by {
            if i > 0 {
                assert(data[i] == tail[i - 1]);
            }
        }
        assert(encode_symbols(codebook, data) =~= bits);
    }
}

} // verus!
