//! The tree that a frequency table determines.
//!
//! One leaf per symbol of the table enters a queue ordered by weight, ties
//! broken by ascending symbol value. The two first entries are merged again
//! and again into an internal node whose weight is the sum of theirs and
//! whose tag is later than every tag given before, so that among equal
//! weights leaves leave before merged nodes, and merged nodes in the order
//! in which they were made. What remains is the root.

use crate::queue::{insert_sorted, lemma_insert_position, lemma_insert_sorted, insert_position, precedes, sorted, Item};
use crate::tree::HuffmanNode;
use vstd::prelude::*;

verus! {

/// The entry that two entries merge into: the first becomes the left child,
/// the second the right one.
pub open spec fn merged(first: Item, second: Item, order: nat) -> Item {
    Item {
        weight: first.weight + second.weight,
        order,
        node: HuffmanNode::Internal { left: Box::new(first.node), right: Box::new(second.node) },
    }
}

/// The queue after one merge of its two first entries.
pub open spec fn merge_step(items: Seq<Item>, order: nat) -> Seq<Item> {
    insert_sorted(items.skip(2), merged(items[0], items[1], order))
}

/// The root that remains when the entries of a nonempty queue are merged
/// until one is left, the merged nodes tagged `order`, `order + 1`, ...
pub open spec fn merge_all(items: Seq<Item>, order: nat) -> HuffmanNode
    decreases items.len(),
    via merge_all_decreases
{
    if items.len() == 0 {
        HuffmanNode::Leaf { byte: 0 }
    } else if items.len() == 1 {
        items[0].node
    } else {
        merge_all(merge_step(items, order), order + 1)
    }
}

#[via_fn]
proof fn merge_all_decreases(items: Seq<Item>, order: nat) {
    if items.len() >= 2 {
        lemma_insert_anywhere(items.skip(2), merged(items[0], items[1], order));
    }
}

/// The queue entry of a symbol of the table: a leaf, weighted by the
/// symbol's frequency and tagged by the symbol's value.
pub open spec fn leaf_item(symbol: u8, freq: usize) -> Item {
    Item { weight: freq as nat, order: symbol as nat, node: HuffmanNode::Leaf { byte: symbol } }
}

/// The queue of the leaves of the table's symbols below `n`.
pub open spec fn leaf_queue(freqs: Map<u8, usize>, n: nat) -> Seq<Item>
    decreases n,
{
    if n == 0 {
        Seq::empty()
    } else {
        let symbol = (n - 1) as u8;
        let before = leaf_queue(freqs, (n - 1) as nat);
        if freqs.contains_key(symbol) {
            insert_sorted(before, leaf_item(symbol, freqs[symbol]))
        } else {
            before
        }
    }
}

/// The tag of the first merged node: later than the tag of every leaf.
pub open spec fn first_merge_order() -> nat {
    256
}

/// The code tree of a frequency table with at least one symbol.
pub open spec fn huffman_tree(freqs: Map<u8, usize>) -> HuffmanNode {
    merge_all(leaf_queue(freqs, 256), first_merge_order())
}

/// The sum of `measure` over the entries.
pub open spec fn sum_over(items: Seq<Item>, measure: spec_fn(Item) -> nat) -> nat
    decreases items.len(),
{
    if items.len() == 0 {
        0
    } else {
        measure(items[0]) + sum_over(items.drop_first(), measure)
    }
}

/// The weight of an entry, as a measure to sum.
pub open spec fn weight_of() -> spec_fn(Item) -> nat {
    |item: Item| item.weight
}

/// The number of leaves that an entry's subtree has for `symbol`, as a
/// measure to sum.
pub open spec fn leaves_of(symbol: u8) -> spec_fn(Item) -> nat {
    |item: Item| item.node.leaf_count(symbol)
}

/// The weights of all entries together.
pub open spec fn total_weight(items: Seq<Item>) -> nat {
    sum_over(items, weight_of())
}

/// The sum after an insertion is the sum before it and the measure of what
/// was inserted, wherever it was inserted.
pub proof fn lemma_sum_insert(items: Seq<Item>, at: int, item: Item, measure: spec_fn(Item) -> nat)
    requires
        0 <= at <= items.len(),
    ensures
        sum_over(items.insert(at, item), measure) == sum_over(items, measure) + measure(item),
    decreases items.len(),
{
    let longer = items.insert(at, item);
    if at == 0 {
        assert(longer.drop_first() =~= items);
    } else {
        assert(longer.drop_first() =~= items.drop_first().insert(at - 1, item));
        lemma_sum_insert(items.drop_first(), at - 1, item, measure);
    }
}

/// Where `insert_sorted` puts an entry, seen as a plain insertion.
pub proof fn lemma_insert_anywhere(items: Seq<Item>, item: Item)
    ensures
        0 <= insert_position(items, item) <= items.len(),
        insert_sorted(items, item) == items.insert(insert_position(items, item), item),
        insert_sorted(items, item).len() == items.len() + 1,
        sorted(items) ==> sorted(insert_sorted(items, item)),
{
    lemma_insert_position(items, item);
    lemma_insert_sorted(items, item, insert_position(items, item));
}

/// The two first entries and the rest make up the sum.
pub proof fn lemma_sum_first_two(items: Seq<Item>, measure: spec_fn(Item) -> nat)
    requires
        items.len() >= 2,
    ensures
        sum_over(items, measure) == measure(items[0]) + measure(items[1]) + sum_over(
            items.skip(2),
            measure,
        ),
{
    let tail = items.drop_first();
    assert(tail.drop_first() =~= items.skip(2));
    assert(tail[0] == items[1]);
    assert(sum_over(tail, measure) == measure(tail[0]) + sum_over(tail.drop_first(), measure));
}

/// One merge shortens the queue by one and keeps it sorted. In any sum over
/// the entries the two first entries are replaced by the merged one.
pub proof fn lemma_merge_step(items: Seq<Item>, order: nat, measure: spec_fn(Item) -> nat)
    requires
        items.len() >= 2,
    ensures
        merge_step(items, order).len() == items.len() - 1,
        sum_over(merge_step(items, order), measure) + measure(items[0]) + measure(items[1])
            == sum_over(items, measure) + measure(merged(items[0], items[1], order)),
        sorted(items) ==> sorted(merge_step(items, order)),
{
    let rest = items.skip(2);
    let node = merged(items[0], items[1], order);
    lemma_insert_anywhere(rest, node);
    lemma_sum_insert(rest, insert_position(rest, node), node, measure);
    lemma_sum_first_two(items, measure);
    if sorted(items) {
        assert forall|i: int, j: int| 0 <= i < j < rest.len() implies !precedes(
            rest[j],
            rest[i],
        ) by {
            assert(rest[i] == items[i + 2] && rest[j] == items[j + 2]);
        }
    }
}

/// The root that the merges leave has, for every symbol, as many leaves as
/// the subtrees of the queue had together.
pub proof fn lemma_merge_all_leaves(items: Seq<Item>, order: nat, symbol: u8)
    requires
        items.len() >= 1,
    ensures
        merge_all(items, order).leaf_count(symbol) == sum_over(items, leaves_of(symbol)),
    decreases items.len(),
{
    if items.len() == 1 {
        assert(items.drop_first() =~= Seq::<Item>::empty());
        assert(sum_over(items.drop_first(), leaves_of(symbol)) == 0);
    } else {
        lemma_merge_step(items, order, leaves_of(symbol));
        lemma_merge_all_leaves(merge_step(items, order), order + 1, symbol);
    }
}

/// The queue of leaves is sorted, has at most one entry per symbol value,
/// weighs no more than that many frequencies can, and holds one leaf for
/// each symbol of the table below `n` and none for any other.
pub proof fn lemma_leaf_queue(freqs: Map<u8, usize>, n: nat)
    requires
        n <= 256,
    ensures
        sorted(leaf_queue(freqs, n)),
        leaf_queue(freqs, n).len() <= n,
        total_weight(leaf_queue(freqs, n)) <= n * usize::MAX,
        forall|symbol: u8|
            #![trigger leaves_of(symbol)]
            sum_over(leaf_queue(freqs, n), leaves_of(symbol)) == if symbol < n
                && freqs.contains_key(symbol) {
                1nat
            } else {
                0nat
            },
        leaf_queue(freqs, n).len() >= 1 <==> exists|symbol: u8|
            symbol < n && freqs.contains_key(symbol),
    decreases n,
{
    if n > 0 {
        let last = (n - 1) as u8;
        let before = leaf_queue(freqs, (n - 1) as nat);
        lemma_leaf_queue(freqs, (n - 1) as nat);
        if before.len() >= 1 {
            let earlier = choose|symbol: u8| symbol < n - 1 && freqs.contains_key(symbol);
            assert(earlier < n && freqs.contains_key(earlier));
        }
        if freqs.contains_key(last) {
            assert(last < n && freqs.contains_key(last));
        }
        assert(n * usize::MAX == (n - 1) * usize::MAX + usize::MAX) by (nonlinear_arith);
        if freqs.contains_key(last) {
            let leaf = leaf_item(last, freqs[last]);
            lemma_insert_anywhere(before, leaf);
            let at = insert_position(before, leaf);
            lemma_sum_insert(before, at, leaf, weight_of());
            assert forall|symbol: u8|
                #![trigger leaves_of(symbol)]
                sum_over(leaf_queue(freqs, n), leaves_of(symbol)) == if symbol < n
                    && freqs.contains_key(symbol) {
                    1nat
                } else {
                    0nat
                } by {
                lemma_sum_insert(before, at, leaf, leaves_of(symbol));
            }
        }
    }
}

/// The tree of a table with at least one symbol has exactly one leaf for
/// each symbol of the table and no other leaf.
pub proof fn lemma_huffman_tree_leaves(freqs: Map<u8, usize>)
    requires
        exists|symbol: u8| freqs.contains_key(symbol),
    ensures
        forall|symbol: u8|
            #[trigger] huffman_tree(freqs).leaf_count(symbol) == if freqs.contains_key(symbol) {
                1nat
            } else {
                0nat
            },
        huffman_tree(freqs).distinct_leaves(),
        huffman_tree(freqs).symbols() == freqs.dom(),
{
    let leaves = leaf_queue(freqs, 256);
    lemma_leaf_queue(freqs, 256);
    let witness = choose|symbol: u8| freqs.contains_key(symbol);
    assert(witness < 256 && freqs.contains_key(witness));
    assert(leaves.len() >= 1);
    assert forall|symbol: u8|
        #[trigger] huffman_tree(freqs).leaf_count(symbol) == if freqs.contains_key(symbol) {
            1nat
        } else {
            0nat
        } by {
        lemma_merge_all_leaves(leaves, first_merge_order(), symbol);
        assert(sum_over(leaves, leaves_of(symbol)) == if symbol < 256 && freqs.contains_key(
            symbol,
        ) {
            1nat
        } else {
            0nat
        });
    }
    assert(huffman_tree(freqs).symbols() =~= freqs.dom());
}

} // verus!
