//! The min-priority queue that the tree builder merges from.
//!
//! An entry is a subtree with its weight and an order tag. Entries are
//! ordered by weight, and among equal weights by tag, so that the entry that
//! leaves the queue is determined by the entries alone and never by the
//! order in which they were put in.

use crate::tree::HuffmanNode;
use vstd::prelude::*;

verus! {

/// What a queue entry stands for: a subtree, the sum of the frequencies of
/// its leaves, and the tag that breaks ties between equal weights.
pub struct Item {
    pub weight: nat,
    pub order: nat,
    pub node: HuffmanNode,
}

/// The queue order: lighter first; among equal weights the smaller tag first.
pub open spec fn precedes(a: Item, b: Item) -> bool {
    a.weight < b.weight || (a.weight == b.weight && a.order < b.order)
}

/// No entry of `items` precedes an earlier one.
pub open spec fn sorted(items: Seq<Item>) -> bool {
    forall|i: int, j: int| 0 <= i < j < items.len() ==> !precedes(items[j], items[i])
}

/// `items` with `item` put in before the first entry that it precedes, or
/// at the end where it precedes none.
pub open spec fn insert_sorted(items: Seq<Item>, item: Item) -> Seq<Item>
    decreases items.len(),
{
    if items.len() == 0 {
        seq![item]
    } else if precedes(item, items[0]) {
        seq![item] + items
    } else {
        seq![items[0]] + insert_sorted(items.drop_first(), item)
    }
}

/// Putting an entry in is an insertion at the position up to which no entry
/// is preceded by it; it lengthens the queue by one and keeps it sorted.
pub proof fn lemma_insert_sorted(items: Seq<Item>, item: Item, at: int)
    requires
        0 <= at <= items.len(),
        forall|j: int| 0 <= j < at ==> !precedes(item, #[trigger] items[j]),
        at < items.len() ==> precedes(item, items[at]),
    ensures
        insert_sorted(items, item) == items.insert(at, item),
        insert_sorted(items, item).len() == items.len() + 1,
        sorted(items) ==> sorted(insert_sorted(items, item)),
    decreases items.len(),
{
    if items.len() == 0 {
        assert(seq![item] =~= items.insert(at, item));
    } else if at == 0 {
        assert(seq![item] + items =~= items.insert(at, item));
    } else {
        let rest = items.drop_first();
        assert forall|j: int| 0 <= j < at - 1 implies !precedes(item, #[trigger] rest[j]) by {
            assert(rest[j] == items[j + 1]);
        }
        lemma_insert_sorted(rest, item, at - 1);
        assert(seq![items[0]] + rest.insert(at - 1, item) =~= items.insert(at, item));
    }
    let longer = items.insert(at, item);
    if sorted(items) {
        assert forall|i: int, j: int| 0 <= i < j < longer.len() implies !precedes(
            longer[j],
            longer[i],
        ) by {
            if i == at {
                assert(longer[j] == items[j - 1]);
                if at < j - 1 {
                    assert(!precedes(items[j - 1], items[at]));
                }
            } else if j == at {
                assert(longer[i] == items[i]);
            } else {
                let i0 = if i < at { i } else { i - 1 };
                let j0 = if j < at { j } else { j - 1 };
                assert(longer[i] == items[i0] && longer[j] == items[j0]);
            }
        }
    }
}

/// The position at which `insert_sorted` puts `item`.
pub open spec fn insert_position(items: Seq<Item>, item: Item) -> int
    decreases items.len(),
{
    if items.len() == 0 || precedes(item, items[0]) {
        0
    } else {
        1 + insert_position(items.drop_first(), item)
    }
}

/// `insert_position` is the position that `lemma_insert_sorted` asks for.
pub proof fn lemma_insert_position(items: Seq<Item>, item: Item)
    ensures
        0 <= insert_position(items, item) <= items.len(),
        forall|j: int|
            0 <= j < insert_position(items, item) ==> !precedes(item, #[trigger] items[j]),
        insert_position(items, item) < items.len() ==> precedes(
            item,
            items[insert_position(items, item)],
        ),
    decreases items.len(),
{
    if items.len() == 0 || precedes(item, items[0]) {
    } else {
        let rest = items.drop_first();
        lemma_insert_position(rest, item);
        let at = insert_position(items, item);
        assert forall|j: int| 0 <= j < at implies !precedes(item, #[trigger] items[j]) by {
            if j > 0 {
                assert(items[j] == rest[j - 1]);
            }
        }
        if at < items.len() {
            assert(items[at] == rest[at - 1]);
        }
    }
}

/// A queue entry: a subtree, its weight, and its order tag. The weight is
/// wide enough for the sum of the frequencies of all 256 symbols, and the
/// tag for the symbol values and the merged nodes that come after them.
#[derive(Debug)]
pub struct HeapNode {
    pub freq: u128,
    pub order: u16,
    pub node: HuffmanNode,
}

impl View for HeapNode {
    type V = Item;

    open spec fn view(&self) -> Item {
        Item { weight: self.freq as nat, order: self.order as nat, node: self.node }
    }
}

impl HeapNode {
    /// Whether this entry leaves the queue before `other`.
    pub fn precedes(&self, other: &HeapNode) -> (first: bool)
        ensures
            first == precedes(self@, other@),
    {
        self.freq < other.freq || (self.freq == other.freq && self.order < other.order)
    }
}

/// The entries of a vector as the items that they stand for.
pub open spec fn items_of(entries: Seq<HeapNode>) -> Seq<Item> {
    Seq::new(entries.len(), |i: int| entries[i]@)
}

/// A min-priority queue of subtrees, kept as a sorted vector.
#[derive(Debug)]
pub struct MinQueue {
    entries: Vec<HeapNode>,
}

impl View for MinQueue {
    type V = Seq<Item>;

    closed spec fn view(&self) -> Seq<Item> {
        items_of(self.entries@)
    }
}

impl MinQueue {
    /// The entries stand in queue order.
    pub open spec fn wf(&self) -> bool {
        sorted(self@)
    }

    /// The empty queue.
    pub fn new() -> (queue: MinQueue)
        ensures
            queue.wf(),
            queue@ == Seq::<Item>::empty(),
    {
        let queue = MinQueue { entries: Vec::new() };
        assert(queue@ =~= Seq::<Item>::empty());
        queue
    }

    /// The number of entries.
    pub fn len(&self) -> (n: usize)
        ensures
            n == self@.len(),
    {
        self.entries.len()
    }

    /// Puts `entry` in at its place in the queue order.
    pub fn push(&mut self, entry: HeapNode)
        requires
            old(self).wf(),
        ensures
            final(self).wf(),
            final(self)@ == insert_sorted(old(self)@, entry@),
            final(self)@.len() == old(self)@.len() + 1,
    {
        let mut at: usize = 0;
        while at < self.entries.len() && !entry.precedes(&self.entries[at])
            invariant
                at <= self.entries.len(),
                self.entries == old(self).entries,
                forall|j: int| 0 <= j < at ==> !precedes(entry@, #[trigger] self@[j]),
            decreases self.entries.len() - at,
        {
            at += 1;
        }
        proof {
            lemma_insert_sorted(self@, entry@, at as int);
        }
        let ghost before = self@;
        self.entries.insert(at, entry);
        assert(self@ =~= before.insert(at as int, entry@));
    }

    /// Takes out the first entry in the queue order: one that no other entry
    /// precedes. Gives `None` for the empty queue, and only for it.
    pub fn pop(&mut self) -> (first: Option<HeapNode>)
        requires
            old(self).wf(),
        ensures
            final(self).wf(),
            match first {
                Some(entry) => {
                    &&& old(self)@.len() > 0
                    &&& entry@ == old(self)@[0]
                    &&& final(self)@ == old(self)@.drop_first()
                    &&& forall|i: int|
                        0 <= i < old(self)@.len() ==> !precedes(#[trigger] old(self)@[i], entry@)
                },
                None => old(self)@.len() == 0 && final(self)@ == old(self)@,
            },
    {
        if self.entries.len() == 0 {
            return None;
        }
        let ghost before = self@;
        let entry = self.entries.remove(0);
        assert(self@ =~= before.drop_first());
        assert(entry@ == before[0]);
        assert forall|i: int, j: int| 0 <= i < j < self@.len() implies !precedes(
            self@[j],
            self@[i],
        ) by {
            assert(self@[i] == before[i + 1] && self@[j] == before[j + 1]);
        }
        Some(entry)
    }
}

} // verus!
