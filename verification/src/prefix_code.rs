//! Optimality among all prefix codes: whichever prefix-free codebook one
//! assigns to the symbols of a frequency table, it spends at least as many
//! bits on data with these frequencies as the codebook of the built tree.
//!
//! A prefix-free codebook is first turned into a code tree that is no more
//! costly; the optimality of the built tree among code trees does the rest.

use crate::canonical::{huffman_tree, lemma_huffman_tree_leaves};
use crate::optimal::{lemma_huffman_tree_optimal, weighted_length};
use crate::tree::{is_prefix, lemma_codebook_prefix_free, prefix_free, HuffmanNode};
use vstd::prelude::*;

verus! {

/// The sum of `term` over the symbols below `n`.
pub open spec fn sum_below(n: nat, term: spec_fn(u8) -> nat) -> nat
    decreases n,
{
    if n == 0 {
        0
    } else {
        sum_below((n - 1) as nat, term) + term((n - 1) as u8)
    }
}

/// The bits that a codebook spends on one symbol of data with the given
/// frequencies: the symbol's frequency times the length of its code.
pub open spec fn bits_spent(codebook: Map<u8, Seq<bool>>, freqs: Map<u8, usize>) -> spec_fn(
    u8,
) -> nat {
    |symbol: u8|
        if freqs.contains_key(symbol) {
            (freqs[symbol] as nat) * codebook[symbol].len()
        } else {
            0
        }
}

/// The bits that a codebook spends on data with the given frequencies: the
/// sum over the symbols of frequency times code length. Divided by the sum
/// of the frequencies it is the weighted average code length.
pub open spec fn code_cost(codebook: Map<u8, Seq<bool>>, freqs: Map<u8, usize>) -> nat {
    sum_below(256, bits_spent(codebook, freqs))
}

/// A codebook that can stand for the symbols of the table: it has a code
/// for each of them and for no other symbol, every code is at least one bit
/// long, and no code is an initial part of another.
pub open spec fn valid_assignment(codebook: Map<u8, Seq<bool>>, freqs: Map<u8, usize>) -> bool {
    &&& codebook.dom() == freqs.dom()
    &&& prefix_free(codebook)
    &&& forall|symbol: u8| #[trigger]
        codebook.contains_key(symbol) ==> codebook[symbol].len() >= 1
}

/// A valid assignment that no valid assignment for the same table beats:
/// none spends fewer bits on data with these frequencies.
pub open spec fn optimal_assignment(codebook: Map<u8, Seq<bool>>, freqs: Map<u8, usize>) -> bool {
    &&& valid_assignment(codebook, freqs)
    &&& forall|rival: Map<u8, Seq<bool>>|
        valid_assignment(rival, freqs) ==> code_cost(codebook, freqs) <= #[trigger] code_cost(
            rival,
            freqs,
        )
}

/// A sum is no greater than another whose terms are no smaller.
pub proof fn lemma_sum_below_le(n: nat, small: spec_fn(u8) -> nat, large: spec_fn(u8) -> nat)
    requires
        n <= 256,
        forall|symbol: u8| symbol < n ==> #[trigger] small(symbol) <= large(symbol),
    ensures
        sum_below(n, small) <= sum_below(n, large),
    decreases n,
{
    if n > 0 {
        lemma_sum_below_le((n - 1) as nat, small, large);
        assert(small((n - 1) as u8) <= large((n - 1) as u8));
    }
}

/// Sums of equal terms are equal.
pub proof fn lemma_sum_below_eq(n: nat, one: spec_fn(u8) -> nat, other: spec_fn(u8) -> nat)
    requires
        n <= 256,
        forall|symbol: u8| symbol < n ==> #[trigger] one(symbol) == other(symbol),
    ensures
        sum_below(n, one) == sum_below(n, other),
    decreases n,
{
    if n > 0 {
        lemma_sum_below_eq((n - 1) as nat, one, other);
        assert(one((n - 1) as u8) == other((n - 1) as u8));
    }
}

/// The sum of terms that are sums is the sum of the sums.
pub proof fn lemma_sum_below_add(
    n: nat,
    whole: spec_fn(u8) -> nat,
    one: spec_fn(u8) -> nat,
    other: spec_fn(u8) -> nat,
)
    requires
        n <= 256,
        forall|symbol: u8| symbol < n ==> #[trigger] whole(symbol) == one(symbol) + other(symbol),
    ensures
        sum_below(n, whole) == sum_below(n, one) + sum_below(n, other),
    decreases n,
{
    if n > 0 {
        lemma_sum_below_add((n - 1) as nat, whole, one, other);
        assert(whole((n - 1) as u8) == one((n - 1) as u8) + other((n - 1) as u8));
    }
}

/// A sum with one term that is not zero is that term.
pub proof fn lemma_sum_below_single(n: nat, term: spec_fn(u8) -> nat, only: u8)
    requires
        n <= 256,
        forall|symbol: u8| symbol < n && symbol != only ==> #[trigger] term(symbol) == 0,
    ensures
        sum_below(n, term) == if only < n {
            term(only)
        } else {
            0
        },
    decreases n,
{
    if n > 0 {
        lemma_sum_below_single((n - 1) as nat, term, only);
        if (n - 1) as u8 != only {
            assert(term((n - 1) as u8) == 0);
        }
    }
}

/// The bits that the paths of a tree at depth `depth` spend on one symbol.
pub open spec fn leaf_bits(node: HuffmanNode, freqs: Map<u8, usize>, depth: nat) -> spec_fn(
    u8,
) -> nat {
    |symbol: u8|
        if node.has_leaf(symbol) {
            (freqs[symbol] as nat) * (depth + node.path_to(symbol).len())
        } else {
            0
        }
}

/// The weighted length of a tree without double leaves is the sum over its
/// symbols of frequency times the length of the path.
pub proof fn lemma_weighted_length_by_symbol(node: HuffmanNode, freqs: Map<u8, usize>, depth: nat)
    requires
        node.distinct_leaves(),
    ensures
        weighted_length(node, freqs, depth) == sum_below(256, leaf_bits(node, freqs, depth)),
    decreases node,
{
    let whole = leaf_bits(node, freqs, depth);
    match node {
        HuffmanNode::Leaf { byte } => {
            assert(node.path_to(byte).len() == 0);
            assert(node.has_leaf(byte));
            lemma_sum_below_single(256, whole, byte);
        },
        HuffmanNode::Internal { left, right } => {
            assert forall|symbol: u8| left.leaf_count(symbol) + right.leaf_count(symbol)
                <= 1 by {
                assert(node.leaf_count(symbol) <= 1);
            }
            lemma_weighted_length_by_symbol(*left, freqs, depth + 1);
            lemma_weighted_length_by_symbol(*right, freqs, depth + 1);
            let one = leaf_bits(*left, freqs, depth + 1);
            let other = leaf_bits(*right, freqs, depth + 1);
            assert forall|symbol: u8| symbol < 256 implies #[trigger] whole(symbol) == one(symbol)
                + other(symbol) by {
                assert(left.leaf_count(symbol) + right.leaf_count(symbol) <= 1);
                if right.has_leaf(symbol) {
                    assert(node.path_to(symbol).len() == 1 + right.path_to(symbol).len());
                } else if left.has_leaf(symbol) {
                    assert(node.path_to(symbol).len() == 1 + left.path_to(symbol).len());
                }
            }
            lemma_sum_below_add(256, whole, one, other);
        },
    }
}

/// The symbols of `symbols` whose code has the bit `bit` at position `depth`.
pub open spec fn branch(
    codebook: Map<u8, Seq<bool>>,
    symbols: Set<u8>,
    depth: nat,
    bit: bool,
) -> Set<u8> {
    Set::new(|symbol: u8| symbols.contains(symbol) && codebook[symbol][depth as int] == bit)
}

/// Whether `symbols` holds no symbol but `only`.
pub open spec fn at_most(symbols: Set<u8>, only: u8) -> bool {
    forall|symbol: u8| symbols.contains(symbol) ==> symbol == only
}

/// Whether `symbols` holds no symbol at all.
pub open spec fn vacant(symbols: Set<u8>) -> bool {
    forall|symbol: u8| !symbols.contains(symbol)
}

/// The code tree of the codes of `symbols`, read from position `depth` on:
/// a leaf where one symbol is left, the tree of the next position where all
/// codes go on with the same bit, and elsewhere an internal node over the
/// codes that go on with `0` and those that go on with `1`.
pub open spec fn trie(
    codebook: Map<u8, Seq<bool>>,
    symbols: Set<u8>,
    depth: nat,
    fuel: nat,
) -> HuffmanNode
    decreases fuel,
{
    let first = choose|symbol: u8| symbols.contains(symbol);
    if fuel == 0 || at_most(symbols, first) {
        HuffmanNode::Leaf { byte: first }
    } else {
        let zeros = branch(codebook, symbols, depth, false);
        let ones = branch(codebook, symbols, depth, true);
        if vacant(zeros) || vacant(ones) {
            trie(codebook, symbols, depth + 1, (fuel - 1) as nat)
        } else {
            HuffmanNode::Internal {
                left: Box::new(trie(codebook, zeros, depth + 1, (fuel - 1) as nat)),
                right: Box::new(trie(codebook, ones, depth + 1, (fuel - 1) as nat)),
            }
        }
    }
}

/// What `trie` needs: some symbol is there, the codes of the symbols agree
/// up to `depth`, go on for at most `fuel` bits more, and none is an initial
/// part of another.
pub open spec fn trie_ready(
    codebook: Map<u8, Seq<bool>>,
    symbols: Set<u8>,
    depth: nat,
    fuel: nat,
) -> bool {
    &&& exists|symbol: u8| symbols.contains(symbol)
    &&& forall|symbol: u8|
        symbols.contains(symbol) ==> depth <= (#[trigger] codebook[symbol]).len() <= depth + fuel
    &&& forall|a: u8, b: u8|
        #![trigger codebook[a], codebook[b]]
        symbols.contains(a) && symbols.contains(b) ==> codebook[a].take(depth as int)
            == codebook[b].take(depth as int)
    &&& forall|a: u8, b: u8|
        #![trigger codebook[a], codebook[b]]
        symbols.contains(a) && symbols.contains(b) && a != b ==> !is_prefix(
            codebook[a],
            codebook[b],
        )
}

/// The bits that the codes of `symbols` spend on one symbol from position
/// `depth` on, when the node for that position hangs at depth `hang`.
pub open spec fn code_bits(
    codebook: Map<u8, Seq<bool>>,
    symbols: Set<u8>,
    freqs: Map<u8, usize>,
    depth: nat,
    hang: nat,
) -> spec_fn(u8) -> nat {
    |symbol: u8|
        if symbols.contains(symbol) {
            (freqs[symbol] as nat) * ((hang + codebook[symbol].len() - depth) as nat)
        } else {
            0
        }
}

/// Where two or more symbols are left, every code goes on beyond `depth`.
proof fn lemma_codes_go_on(codebook: Map<u8, Seq<bool>>, symbols: Set<u8>, depth: nat, fuel: nat)
    requires
        trie_ready(codebook, symbols, depth, fuel),
        !at_most(symbols, choose|symbol: u8| symbols.contains(symbol)),
    ensures
        fuel >= 1,
        forall|symbol: u8|
            symbols.contains(symbol) ==> (#[trigger] codebook[symbol]).len() >= depth + 1,
{
    let first = choose|symbol: u8| symbols.contains(symbol);
    let second = choose|symbol: u8| symbols.contains(symbol) && symbol != first;
    assert(symbols.contains(first));
    assert(symbols.contains(second) && second != first);
    assert forall|symbol: u8| symbols.contains(symbol) implies (#[trigger] codebook[symbol]).len()
        >= depth + 1 by {
        let rival = if symbol == first { second } else { first };
        if codebook[symbol].len() == depth {
            assert(codebook[symbol].take(depth as int) =~= codebook[symbol]);
            assert(codebook[symbol].take(depth as int) == codebook[rival].take(depth as int));
            assert(depth <= codebook[rival].len());
            assert(is_prefix(codebook[symbol], codebook[rival]));
        }
    }
    assert(codebook[first].len() >= depth + 1);
}

/// The codes of one branch agree one bit further.
proof fn lemma_branch_ready(
    codebook: Map<u8, Seq<bool>>,
    symbols: Set<u8>,
    depth: nat,
    fuel: nat,
    part: Set<u8>,
    bit: bool,
)
    requires
        trie_ready(codebook, symbols, depth, fuel),
        fuel >= 1,
        forall|symbol: u8|
            symbols.contains(symbol) ==> (#[trigger] codebook[symbol]).len() >= depth + 1,
        exists|symbol: u8| part.contains(symbol),
        forall|symbol: u8|
            part.contains(symbol) ==> symbols.contains(symbol) && codebook[symbol][depth as int]
                == bit,
    ensures
        trie_ready(codebook, part, depth + 1, (fuel - 1) as nat),
{
    let next = (depth + 1) as int;
    assert forall|a: u8, b: u8|
        #![trigger codebook[a], codebook[b]]
        part.contains(a) && part.contains(b) implies codebook[a].take(next) == codebook[b].take(
        next,
    ) by {
        assert(codebook[a].take(depth as int) == codebook[b].take(depth as int));
        assert(codebook[a].take(next) =~= codebook[a].take(depth as int).push(bit));
        assert(codebook[b].take(next) =~= codebook[b].take(depth as int).push(bit));
    }
}

/// The tree of a set of prefix-free codes has one leaf for each symbol of
/// the set and no other, and its weighted length is no more than what the
/// codes spend.
pub proof fn lemma_trie(
    codebook: Map<u8, Seq<bool>>,
    symbols: Set<u8>,
    depth: nat,
    fuel: nat,
    freqs: Map<u8, usize>,
    hang: nat,
)
    requires
        trie_ready(codebook, symbols, depth, fuel),
    ensures
        forall|symbol: u8|
            #[trigger] trie(codebook, symbols, depth, fuel).leaf_count(symbol) == if symbols.contains(
                symbol,
            ) {
                1nat
            } else {
                0nat
            },
        weighted_length(trie(codebook, symbols, depth, fuel), freqs, hang) <= sum_below(
            256,
            code_bits(codebook, symbols, freqs, depth, hang),
        ),
    decreases fuel,
{
    let tree = trie(codebook, symbols, depth, fuel);
    let spent = code_bits(codebook, symbols, freqs, depth, hang);
    let first = choose|symbol: u8| symbols.contains(symbol);
    assert(symbols.contains(first));
    if at_most(symbols, first) {
        lemma_sum_below_single(256, spent, first);
        let weight = freqs[first] as nat;
        let length = (hang + codebook[first].len() - depth) as nat;
        assert(weight * hang <= weight * length) by (nonlinear_arith)
            requires
                hang <= length,
        ;
    } else {
        lemma_codes_go_on(codebook, symbols, depth, fuel);
        let zeros = branch(codebook, symbols, depth, false);
        let ones = branch(codebook, symbols, depth, true);
        let less = (fuel - 1) as nat;
        if vacant(zeros) || vacant(ones) {
            let bit = vacant(zeros);
            assert forall|symbol: u8| symbols.contains(symbol) implies codebook[symbol][depth as int]
                == bit by {
                if vacant(zeros) {
                    assert(!zeros.contains(symbol));
                } else {
                    assert(!ones.contains(symbol));
                }
            }
            lemma_branch_ready(codebook, symbols, depth, fuel, symbols, bit);
            lemma_trie(codebook, symbols, depth + 1, less, freqs, hang);
            let deeper = code_bits(codebook, symbols, freqs, depth + 1, hang);
            assert forall|symbol: u8| symbol < 256 implies #[trigger] deeper(symbol) <= spent(
                symbol,
            ) by {
                if symbols.contains(symbol) {
                    let weight = freqs[symbol] as nat;
                    let short = (hang + codebook[symbol].len() - (depth + 1)) as nat;
                    let long = (hang + codebook[symbol].len() - depth) as nat;
                    assert(weight * short <= weight * long) by (nonlinear_arith)
                        requires
                            short <= long,
                    ;
                }
            }
            lemma_sum_below_le(256, deeper, spent);
        } else {
            let zero = choose|symbol: u8| zeros.contains(symbol);
            let one = choose|symbol: u8| ones.contains(symbol);
            assert(zeros.contains(zero) && ones.contains(one));
            lemma_branch_ready(codebook, symbols, depth, fuel, zeros, false);
            lemma_branch_ready(codebook, symbols, depth, fuel, ones, true);
            lemma_trie(codebook, zeros, depth + 1, less, freqs, hang + 1);
            lemma_trie(codebook, ones, depth + 1, less, freqs, hang + 1);
            let left = trie(codebook, zeros, depth + 1, less);
            let right = trie(codebook, ones, depth + 1, less);
            assert forall|symbol: u8|
                #[trigger] tree.leaf_count(symbol) == if symbols.contains(symbol) {
                    1nat
                } else {
                    0nat
                } by {
                assert(left.leaf_count(symbol) == if zeros.contains(symbol) {
                    1nat
                } else {
                    0nat
                });
                assert(right.leaf_count(symbol) == if ones.contains(symbol) {
                    1nat
                } else {
                    0nat
                });
            }
            let spent_zeros = code_bits(codebook, zeros, freqs, depth + 1, hang + 1);
            let spent_ones = code_bits(codebook, ones, freqs, depth + 1, hang + 1);
            assert forall|symbol: u8| symbol < 256 implies #[trigger] spent(symbol) == spent_zeros(
                symbol,
            ) + spent_ones(symbol) by {}
            lemma_sum_below_add(256, spent, spent_zeros, spent_ones);
        }
    }
}

/// The length of the longest code of the symbols below `n`.
pub open spec fn longest(codebook: Map<u8, Seq<bool>>, n: nat) -> nat
    decreases n,
{
    if n == 0 {
        0
    } else {
        let before = longest(codebook, (n - 1) as nat);
        let last = codebook[(n - 1) as u8].len();
        if last > before {
            last
        } else {
            before
        }
    }
}

/// No code of a symbol below `n` is longer than the longest.
pub proof fn lemma_longest(codebook: Map<u8, Seq<bool>>, n: nat)
    requires
        n <= 256,
    ensures
        forall|symbol: u8| symbol < n ==> (#[trigger] codebook[symbol]).len() <= longest(codebook, n),
    decreases n,
{
    if n > 0 {
        lemma_longest(codebook, (n - 1) as nat);
    }
}

/// No valid assignment beats the codebook of the built tree.
proof fn lemma_no_rival_is_cheaper(freqs: Map<u8, usize>, rival: Map<u8, Seq<bool>>)
    requires
        exists|symbol: u8| freqs.contains_key(symbol),
        valid_assignment(rival, freqs),
    ensures
        code_cost(huffman_tree(freqs).codebook(), freqs) <= code_cost(rival, freqs),
{
    let root = huffman_tree(freqs);
    let built = root.codebook();
    lemma_huffman_tree_leaves(freqs);
    match root {
        HuffmanNode::Leaf { byte } => {
            assert forall|symbol: u8| symbol < 256 implies #[trigger] bits_spent(built, freqs)(
                symbol,
            ) <= bits_spent(rival, freqs)(symbol) by {
                if freqs.contains_key(symbol) {
                    assert(root.leaf_count(symbol) == 1);
                    assert(symbol == byte);
                    assert(rival.contains_key(symbol));
                    let weight = freqs[symbol] as nat;
                    assert(weight * 1 <= weight * rival[symbol].len()) by (nonlinear_arith)
                        requires
                            rival[symbol].len() >= 1,
                    ;
                }
            }
            lemma_sum_below_le(256, bits_spent(built, freqs), bits_spent(rival, freqs));
        },
        HuffmanNode::Internal { .. } => {
            lemma_weighted_length_by_symbol(root, freqs, 0);
            assert forall|symbol: u8| symbol < 256 implies #[trigger] bits_spent(built, freqs)(
                symbol,
            ) == leaf_bits(root, freqs, 0)(symbol) by {
                assert(root.leaf_count(symbol) == if freqs.contains_key(symbol) {
                    1nat
                } else {
                    0nat
                });
            }
            lemma_sum_below_eq(256, bits_spent(built, freqs), leaf_bits(root, freqs, 0));
            let symbols = freqs.dom();
            let fuel = longest(rival, 256);
            lemma_longest(rival, 256);
            let witness = choose|symbol: u8| freqs.contains_key(symbol);
            assert(symbols.contains(witness));
            assert forall|a: u8, b: u8|
                #![trigger rival[a], rival[b]]
                symbols.contains(a) && symbols.contains(b) implies rival[a].take(0) == rival[b].take(
                0,
            ) by {
                assert(rival[a].take(0) =~= rival[b].take(0));
            }
            assert(trie_ready(rival, symbols, 0, fuel));
            lemma_trie(rival, symbols, 0, fuel, freqs, 0);
            let other = trie(rival, symbols, 0, fuel);
            assert(other.symbols() =~= freqs.dom());
            lemma_huffman_tree_optimal(freqs, other);
            assert forall|symbol: u8| symbol < 256 implies #[trigger] code_bits(
                rival,
                symbols,
                freqs,
                0,
                0,
            )(symbol) == bits_spent(rival, freqs)(symbol) by {}
            lemma_sum_below_eq(
                256,
                code_bits(rival, symbols, freqs, 0, 0),
                bits_spent(rival, freqs),
            );
        },
    }
}

/// The codebook of the built tree is optimal among all prefix codes. For a
/// frequency table with at least one symbol it is a valid assignment of
/// codes to the symbols of the table, and every valid assignment spends at
/// least as many bits on data with these frequencies: the sum of frequency
/// times code length is least, and with it the weighted average code length.
pub proof fn lemma_huffman_code_optimal(freqs: Map<u8, usize>)
    requires
        exists|symbol: u8| freqs.contains_key(symbol),
    ensures
        optimal_assignment(huffman_tree(freqs).codebook(), freqs),
{
    let built = huffman_tree(freqs).codebook();
    lemma_huffman_tree_leaves(freqs);
    lemma_codebook_prefix_free(huffman_tree(freqs));
    assert forall|rival: Map<u8, Seq<bool>>| valid_assignment(rival, freqs) implies code_cost(
        built,
        freqs,
    ) <= #[trigger] code_cost(rival, freqs) by {
        lemma_no_rival_is_cheaper(freqs, rival);
    }
}

} // verus!
