//! Optimality of the built tree: over all code trees that have one leaf for
//! each symbol of the frequency table, none has a smaller sum of frequency
//! times code length.

use crate::canonical::{
    huffman_tree, first_merge_order, leaf_item, leaf_queue, lemma_insert_anywhere,
    lemma_leaf_queue, lemma_merge_step, lemma_sum_first_two, lemma_sum_insert, merge_all,
    merge_step, merged, sum_over,
};
use crate::exchange::{lemma_exchange, one_if, two_lightest, Key, WeightTree};
use crate::queue::{insert_position, precedes, sorted, Item};
use crate::tree::HuffmanNode;
use vstd::prelude::*;

verus! {

/// The key under which a queue entry counts as a weighted leaf.
pub open spec fn key_of(item: Item) -> Key {
    Key { weight: item.weight, order: item.order }
}

/// One for an entry with the key `key` and zero for any other, as a measure
/// to sum.
pub open spec fn carrying(key: Key) -> spec_fn(Item) -> nat {
    |item: Item| one_if(key_of(item), key)
}

/// The leaves of `tree` carry the keys of the entries, each as often as it
/// stands in the queue.
pub open spec fn same_leaves(tree: WeightTree, items: Seq<Item>) -> bool {
    forall|key: Key| #[trigger] tree.count(key) == sum_over(items, carrying(key))
}

/// What the merges of a queue cost together: each merge costs the weight of
/// the node that it makes.
pub open spec fn greedy_cost(items: Seq<Item>, order: nat) -> nat
    decreases items.len(),
    via greedy_cost_decreases
{
    if items.len() <= 1 {
        0
    } else {
        items[0].weight + items[1].weight + greedy_cost(merge_step(items, order), order + 1)
    }
}

#[via_fn]
proof fn greedy_cost_decreases(items: Seq<Item>, order: nat) {
    if items.len() >= 2 {
        lemma_insert_anywhere(items.skip(2), merged(items[0], items[1], order));
    }
}

/// A positive sum has a positive term.
pub proof fn lemma_sum_positive(items: Seq<Item>, measure: spec_fn(Item) -> nat) -> (at: int)
    requires
        sum_over(items, measure) > 0,
    ensures
        0 <= at < items.len(),
        measure(items[at]) > 0,
    decreases items.len(),
{
    if measure(items[0]) > 0 {
        0
    } else {
        let at = lemma_sum_positive(items.drop_first(), measure);
        at + 1
    }
}

/// A sum of zeros is zero.
pub proof fn lemma_sum_zero(items: Seq<Item>, measure: spec_fn(Item) -> nat)
    requires
        forall|i: int| 0 <= i < items.len() ==> measure(#[trigger] items[i]) == 0,
    ensures
        sum_over(items, measure) == 0,
    decreases items.len(),
{
    if items.len() > 0 {
        let rest = items.drop_first();
        assert forall|i: int| 0 <= i < rest.len() implies measure(#[trigger] rest[i]) == 0 by {
            assert(rest[i] == items[i + 1]);
        }
        lemma_sum_zero(rest, measure);
    }
}

/// The two first entries of a sorted queue are two lightest leaves of every
/// tree that carries the queue's keys.
proof fn lemma_first_two_lightest(items: Seq<Item>, tree: WeightTree)
    requires
        sorted(items),
        items.len() >= 2,
        same_leaves(tree, items),
    ensures
        two_lightest(tree, key_of(items[0]), key_of(items[1])),
{
    let a = key_of(items[0]);
    let b = key_of(items[1]);
    let rest = items.skip(2);
    assert(!precedes(items[1], items[0]));
    lemma_sum_first_two(items, carrying(a));
    lemma_sum_first_two(items, carrying(b));
    assert(tree.count(a) == sum_over(items, carrying(a)));
    assert(tree.count(b) == sum_over(items, carrying(b)));
    assert forall|key: Key| #[trigger]
        tree.count(key) > one_if(a, key) + one_if(b, key) implies b.weight <= key.weight by {
        lemma_sum_first_two(items, carrying(key));
        assert(tree.count(key) == sum_over(items, carrying(key)));
        let at = lemma_sum_positive(rest, carrying(key));
        assert(rest[at] == items[at + 2]);
        assert(key_of(items[at + 2]) == key);
        assert(!precedes(items[at + 2], items[1]));
    }
}

/// No tree is cheaper than greedy merging: every binary tree whose leaves
/// carry the keys of a sorted queue costs at least what the merges of the
/// queue cost.
pub proof fn lemma_greedy_is_least(items: Seq<Item>, order: nat, tree: WeightTree)
    requires
        sorted(items),
        items.len() >= 1,
        same_leaves(tree, items),
    ensures
        greedy_cost(items, order) <= tree.cost(),
    decreases items.len(),
{
    if items.len() >= 2 {
        let a = key_of(items[0]);
        let b = key_of(items[1]);
        let joint = merged(items[0], items[1], order);
        let next = merge_step(items, order);
        lemma_first_two_lightest(items, tree);
        let after = lemma_exchange(tree, a, b, key_of(joint));
        assert forall|key: Key| #[trigger] after.count(key) == sum_over(next, carrying(key)) by {
            lemma_merge_step(items, order, carrying(key));
            assert(tree.count(key) == sum_over(items, carrying(key)));
            assert(after.count(key) + one_if(a, key) + one_if(b, key) == tree.count(key) + one_if(
                key_of(joint),
                key,
            ));
        }
        lemma_merge_step(items, order, carrying(a));
        lemma_greedy_is_least(next, order + 1, after);
    }
}

/// The frequencies of the leaves of a code tree together.
pub open spec fn tree_weight(node: HuffmanNode, freqs: Map<u8, usize>) -> nat
    decreases node,
{
    match node {
        HuffmanNode::Leaf { byte } => freqs[byte] as nat,
        HuffmanNode::Internal { left, right } => tree_weight(*left, freqs) + tree_weight(
            *right,
            freqs,
        ),
    }
}

/// The sum, over the leaves of a code tree that hangs at depth `depth`, of
/// the leaf's frequency times its depth: the number of bits that the tree's
/// codes spend on data with these frequencies.
pub open spec fn weighted_length(node: HuffmanNode, freqs: Map<u8, usize>, depth: nat) -> nat
    decreases node,
{
    match node {
        HuffmanNode::Leaf { byte } => (freqs[byte] as nat) * depth,
        HuffmanNode::Internal { left, right } => weighted_length(*left, freqs, depth + 1)
            + weighted_length(*right, freqs, depth + 1),
    }
}

/// A code tree as a tree of weighted leaves: each leaf carries its symbol's
/// frequency, tagged by the symbol's value.
pub open spec fn weigh(node: HuffmanNode, freqs: Map<u8, usize>) -> WeightTree
    decreases node,
{
    match node {
        HuffmanNode::Leaf { byte } => WeightTree::Leaf {
            key: Key { weight: freqs[byte] as nat, order: byte as nat },
        },
        HuffmanNode::Internal { left, right } => WeightTree::Node {
            left: Box::new(weigh(*left, freqs)),
            right: Box::new(weigh(*right, freqs)),
        },
    }
}

/// Weighing keeps the weight, and the cost is the weighted length.
pub proof fn lemma_weigh(node: HuffmanNode, freqs: Map<u8, usize>, depth: nat)
    ensures
        weigh(node, freqs).weight() == tree_weight(node, freqs),
        weighted_length(node, freqs, depth) == weigh(node, freqs).cost() + depth * tree_weight(
            node,
            freqs,
        ),
    decreases node,
{
    match node {
        HuffmanNode::Leaf { byte } => {
            assert((freqs[byte] as nat) * depth == depth * (freqs[byte] as nat)) by (nonlinear_arith);
        },
        HuffmanNode::Internal { left, right } => {
            lemma_weigh(*left, freqs, depth + 1);
            lemma_weigh(*right, freqs, depth + 1);
            let l = tree_weight(*left, freqs);
            let r = tree_weight(*right, freqs);
            assert((depth + 1) * l + (depth + 1) * r == depth * (l + r) + l + r)
                by (nonlinear_arith);
        },
    }
}

/// The leaves of a weighed code tree carry, for each leaf of the code tree,
/// its symbol's frequency under its symbol's tag.
pub proof fn lemma_weigh_count(node: HuffmanNode, freqs: Map<u8, usize>, key: Key)
    ensures
        weigh(node, freqs).count(key) == if key.order < 256 && key.weight == freqs[key.order as u8] {
            node.leaf_count(key.order as u8)
        } else {
            0
        },
    decreases node,
{
    match node {
        HuffmanNode::Leaf { byte } => {},
        HuffmanNode::Internal { left, right } => {
            lemma_weigh_count(*left, freqs, key);
            lemma_weigh_count(*right, freqs, key);
        },
    }
}

/// The queue of leaves carries, for each symbol of the table below `n`, its
/// frequency under its tag, once.
pub proof fn lemma_leaf_queue_keys(freqs: Map<u8, usize>, n: nat, key: Key)
    requires
        n <= 256,
    ensures
        sum_over(leaf_queue(freqs, n), carrying(key)) == if key.order < n && freqs.contains_key(
            key.order as u8,
        ) && key.weight == freqs[key.order as u8] {
            1nat
        } else {
            0nat
        },
    decreases n,
{
    if n > 0 {
        let last = (n - 1) as u8;
        let before = leaf_queue(freqs, (n - 1) as nat);
        lemma_leaf_queue_keys(freqs, (n - 1) as nat, key);
        if freqs.contains_key(last) {
            let leaf = leaf_item(last, freqs[last]);
            lemma_insert_anywhere(before, leaf);
            lemma_sum_insert(before, insert_position(before, leaf), leaf, carrying(key));
        }
    }
}

/// Each entry weighs what the leaves of its subtree weigh.
pub open spec fn weights_agree(items: Seq<Item>, freqs: Map<u8, usize>) -> bool {
    forall|i: int|
        0 <= i < items.len() ==> (#[trigger] items[i]).weight == tree_weight(items[i].node, freqs)
}

/// The cost of an entry's subtree, as a measure to sum.
pub open spec fn cost_in(freqs: Map<u8, usize>) -> spec_fn(Item) -> nat {
    |item: Item| weigh(item.node, freqs).cost()
}

/// The root that the merges leave costs what the merges cost and what the
/// subtrees of the queue cost already.
pub proof fn lemma_merge_all_cost(items: Seq<Item>, order: nat, freqs: Map<u8, usize>)
    requires
        items.len() >= 1,
        weights_agree(items, freqs),
    ensures
        weigh(merge_all(items, order), freqs).cost() == greedy_cost(items, order) + sum_over(
            items,
            cost_in(freqs),
        ),
    decreases items.len(),
{
    if items.len() == 1 {
        assert(items.drop_first() =~= Seq::<Item>::empty());
        assert(sum_over(items.drop_first(), cost_in(freqs)) == 0);
    } else {
        let rest = items.skip(2);
        let joint = merged(items[0], items[1], order);
        let next = merge_step(items, order);
        lemma_merge_step(items, order, cost_in(freqs));
        lemma_insert_anywhere(rest, joint);
        lemma_weigh(items[0].node, freqs, 0);
        lemma_weigh(items[1].node, freqs, 0);
        let at = insert_position(rest, joint);
        assert forall|i: int| 0 <= i < next.len() implies (#[trigger] next[i]).weight
            == tree_weight(next[i].node, freqs) by {
            if i < at {
                assert(next[i] == items[i + 2]);
            } else if i > at {
                assert(next[i] == items[i + 1]);
            }
        }
        lemma_merge_all_cost(next, order + 1, freqs);
    }
}

/// The queue of leaves is made of leaves that weigh their frequency.
pub proof fn lemma_leaf_queue_weights(freqs: Map<u8, usize>, n: nat)
    requires
        n <= 256,
    ensures
        weights_agree(leaf_queue(freqs, n), freqs),
        sum_over(leaf_queue(freqs, n), cost_in(freqs)) == 0,
    decreases n,
{
    if n > 0 {
        let last = (n - 1) as u8;
        let before = leaf_queue(freqs, (n - 1) as nat);
        lemma_leaf_queue_weights(freqs, (n - 1) as nat);
        if freqs.contains_key(last) {
            let leaf = leaf_item(last, freqs[last]);
            lemma_insert_anywhere(before, leaf);
            let at = insert_position(before, leaf);
            let queue = leaf_queue(freqs, n);
            lemma_sum_insert(before, at, leaf, cost_in(freqs));
            assert forall|i: int| 0 <= i < queue.len() implies (#[trigger] queue[i]).weight
                == tree_weight(queue[i].node, freqs) by {
                if i < at {
                    assert(queue[i] == before[i]);
                } else if i > at {
                    assert(queue[i] == before[i - 1]);
                }
            }
        }
    }
}

/// The built tree is optimal. Among all code trees that have exactly one
/// leaf for each symbol of the frequency table, none spends fewer bits on
/// data with these frequencies than the tree that `build` gives: the sum of
/// frequency times code length is least, and so is the weighted average
/// code length.
pub proof fn lemma_huffman_tree_optimal(freqs: Map<u8, usize>, other: HuffmanNode)
    requires
        exists|symbol: u8| freqs.contains_key(symbol),
        other.distinct_leaves(),
        other.symbols() == freqs.dom(),
    ensures
        weighted_length(huffman_tree(freqs), freqs, 0) <= weighted_length(other, freqs, 0),
{
    let leaves = leaf_queue(freqs, 256);
    let order = first_merge_order();
    let rival = weigh(other, freqs);
    lemma_leaf_queue(freqs, 256);
    let witness = choose|symbol: u8| freqs.contains_key(symbol);
    assert(witness < 256 && freqs.contains_key(witness));
    assert forall|key: Key| #[trigger] rival.count(key) == sum_over(leaves, carrying(key)) by {
        lemma_weigh_count(other, freqs, key);
        lemma_leaf_queue_keys(freqs, 256, key);
        if key.order < 256 {
            let symbol = key.order as u8;
            assert(other.symbols().contains(symbol) == freqs.dom().contains(symbol));
            assert(other.leaf_count(symbol) <= 1);
        }
    }
    lemma_greedy_is_least(leaves, order, rival);
    lemma_leaf_queue_weights(freqs, 256);
    lemma_merge_all_cost(leaves, order, freqs);
    lemma_weigh(huffman_tree(freqs), freqs, 0);
    lemma_weigh(other, freqs, 0);
}

} // verus!
