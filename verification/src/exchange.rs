//! Binary trees with weighted leaves, and the exchange argument on them:
//! in every such tree with two or more leaves, the two lightest leaves can be
//! brought together at the deepest level and merged into one, and the cost
//! falls by at least their weight.

use vstd::prelude::*;

verus! {

/// What a leaf carries: its weight, and a tag that tells leaves of equal
/// weight apart.
pub struct Key {
    pub weight: nat,
    pub order: nat,
}

/// A binary tree in which every inner node has two children and every leaf
/// carries a key.
pub enum WeightTree {
    Leaf { key: Key },
    Node { left: Box<WeightTree>, right: Box<WeightTree> },
}

/// One if the keys are the same, zero if not.
pub open spec fn one_if(a: Key, b: Key) -> nat {
    if a == b {
        1
    } else {
        0
    }
}

impl WeightTree {
    /// How many leaves carry `key`.
    pub open spec fn count(self, key: Key) -> nat
        decreases self,
    {
        match self {
            WeightTree::Leaf { key: own } => one_if(own, key),
            WeightTree::Node { left, right } => left.count(key) + right.count(key),
        }
    }

    /// The weights of all leaves together.
    pub open spec fn weight(self) -> nat
        decreases self,
    {
        match self {
            WeightTree::Leaf { key } => key.weight,
            WeightTree::Node { left, right } => left.weight() + right.weight(),
        }
    }

    /// The sum over the leaves of weight times depth.
    pub open spec fn cost(self) -> nat
        decreases self,
    {
        match self {
            WeightTree::Leaf { .. } => 0,
            WeightTree::Node { left, right } => left.cost() + right.cost() + left.weight()
                + right.weight(),
        }
    }

    /// The depth of the deepest leaf.
    pub open spec fn height(self) -> nat
        decreases self,
    {
        match self {
            WeightTree::Leaf { .. } => 0,
            WeightTree::Node { left, right } => 1 + if left.height() >= right.height() {
                left.height()
            } else {
                right.height()
            },
        }
    }

    /// The tree with one leaf that carries `from` made to carry `to`.
    pub open spec fn replace(self, from: Key, to: Key) -> WeightTree
        decreases self,
    {
        match self {
            WeightTree::Leaf { key } => if key == from {
                WeightTree::Leaf { key: to }
            } else {
                self
            },
            WeightTree::Node { left, right } => if left.count(from) > 0 {
                WeightTree::Node { left: Box::new(left.replace(from, to)), right }
            } else {
                WeightTree::Node { left, right: Box::new(right.replace(from, to)) }
            },
        }
    }

    /// Whether both children are leaves.
    pub open spec fn is_twig(self) -> bool {
        match self {
            WeightTree::Leaf { .. } => false,
            WeightTree::Node { left, right } => *left is Leaf && *right is Leaf,
        }
    }

    /// The keys of two sibling leaves at the deepest level.
    pub open spec fn deepest_pair(self) -> (Key, Key)
        decreases self,
    {
        match self {
            WeightTree::Leaf { key } => (key, key),
            WeightTree::Node { left, right } => if self.is_twig() {
                (left->key, right->key)
            } else if left.height() >= right.height() {
                left.deepest_pair()
            } else {
                right.deepest_pair()
            },
        }
    }

    /// The tree with the siblings of `deepest_pair` and their parent made
    /// into one leaf that carries `merged`.
    pub open spec fn merge_deepest(self, merged: Key) -> WeightTree
        decreases self,
    {
        match self {
            WeightTree::Leaf { .. } => self,
            WeightTree::Node { left, right } => if self.is_twig() {
                WeightTree::Leaf { key: merged }
            } else if left.height() >= right.height() {
                WeightTree::Node { left: Box::new(left.merge_deepest(merged)), right }
            } else {
                WeightTree::Node { left, right: Box::new(right.merge_deepest(merged)) }
            },
        }
    }
}

/// Making a leaf heavier raises the cost by no more than the added weight
/// times the height, and changes nothing else.
pub proof fn lemma_replace(tree: WeightTree, from: Key, to: Key)
    requires
        tree.count(from) >= 1,
        from.weight <= to.weight,
    ensures
        forall|key: Key|
            #[trigger] tree.replace(from, to).count(key) + one_if(from, key) == tree.count(key)
                + one_if(to, key),
        tree.replace(from, to).height() == tree.height(),
        tree.replace(from, to).weight() + from.weight == tree.weight() + to.weight,
        tree.replace(from, to).cost() <= tree.cost() + (to.weight - from.weight) * tree.height(),
    decreases tree,
{
    let gain = (to.weight - from.weight) as nat;
    let after = tree.replace(from, to);
    match tree {
        WeightTree::Leaf { key } => {
            assert(key == from);
            assert forall|key: Key|
                #[trigger] after.count(key) + one_if(from, key) == tree.count(key) + one_if(
                    to,
                    key,
                ) by {}
        },
        WeightTree::Node { left, right } => {
            if left.count(from) > 0 {
                lemma_replace(*left, from, to);
                assert forall|key: Key|
                    #[trigger] after.count(key) + one_if(from, key) == tree.count(key) + one_if(
                        to,
                        key,
                    ) by {
                    assert(left.replace(from, to).count(key) + one_if(from, key) == left.count(key)
                        + one_if(to, key));
                }
                assert(gain * left.height() + gain <= gain * tree.height()) by (nonlinear_arith)
                    requires
                        left.height() + 1 <= tree.height(),
                ;
            } else {
                lemma_replace(*right, from, to);
                assert forall|key: Key|
                    #[trigger] after.count(key) + one_if(from, key) == tree.count(key) + one_if(
                        to,
                        key,
                    ) by {
                    assert(right.replace(from, to).count(key) + one_if(from, key) == right.count(
                        key,
                    ) + one_if(to, key));
                }
                assert(gain * right.height() + gain <= gain * tree.height()) by (nonlinear_arith)
                    requires
                        right.height() + 1 <= tree.height(),
                ;
            }
        },
    }
}

/// Merging the deepest pair of siblings into one leaf: the two keys leave,
/// the merged key comes, and the cost changes by exactly what the depths
/// say.
pub proof fn lemma_merge_deepest(tree: WeightTree, merged: Key)
    requires
        tree is Node,
    ensures
        ({
            let (x, y) = tree.deepest_pair();
            let after = tree.merge_deepest(merged);
            &&& tree.height() >= 1
            &&& tree.count(x) >= 1
            &&& tree.count(y) >= 1
            &&& x == y ==> tree.count(x) >= 2
            &&& forall|key: Key|
                #[trigger] after.count(key) + one_if(x, key) + one_if(y, key) == tree.count(key)
                    + one_if(merged, key)
            &&& after.weight() + x.weight + y.weight == tree.weight() + merged.weight
            &&& after.cost() + (x.weight + y.weight) * tree.height() == tree.cost() + merged.weight
                * (tree.height() - 1)
            &&& after.height() <= tree.height()
        }),
    decreases tree,
{
    let (x, y) = tree.deepest_pair();
    let pair = x.weight + y.weight;
    let after = tree.merge_deepest(merged);
    match tree {
        WeightTree::Leaf { .. } => {},
        WeightTree::Node { left, right } => {
            if tree.is_twig() {
                assert(pair * 1 == pair) by (nonlinear_arith);
                assert(merged.weight * 0 == 0) by (nonlinear_arith);
                assert(left.height() == 0 && right.height() == 0);
                assert(left.cost() == 0 && right.cost() == 0);
                assert(left.weight() == x.weight && right.weight() == y.weight);
                assert forall|key: Key|
                    #[trigger] after.count(key) + one_if(x, key) + one_if(y, key) == tree.count(
                        key,
                    ) + one_if(merged, key) by {
                    assert(left.count(key) == one_if(x, key));
                    assert(right.count(key) == one_if(y, key));
                }
                assert(left.count(x) == 1 && right.count(y) == 1);
            } else if left.height() >= right.height() {
                lemma_merge_deepest(*left, merged);
                let h = left.height();
                let below = left.merge_deepest(merged);
                assert forall|key: Key|
                    #[trigger] after.count(key) + one_if(x, key) + one_if(y, key) == tree.count(
                        key,
                    ) + one_if(merged, key) by {
                    assert(below.count(key) + one_if(x, key) + one_if(y, key) == left.count(key)
                        + one_if(merged, key));
                }
                assert(pair * (h + 1) == pair * h + pair) by (nonlinear_arith);
                assert(merged.weight * h == merged.weight * (h - 1) + merged.weight)
                    by (nonlinear_arith);
            } else {
                lemma_merge_deepest(*right, merged);
                let h = right.height();
                let below = right.merge_deepest(merged);
                assert forall|key: Key|
                    #[trigger] after.count(key) + one_if(x, key) + one_if(y, key) == tree.count(
                        key,
                    ) + one_if(merged, key) by {
                    assert(below.count(key) + one_if(x, key) + one_if(y, key) == right.count(key)
                        + one_if(merged, key));
                }
                assert(pair * (h + 1) == pair * h + pair) by (nonlinear_arith);
                assert(merged.weight * h == merged.weight * (h - 1) + merged.weight)
                    by (nonlinear_arith);
            }
        },
    }
}

/// What the exchange argument needs of two keys `a` and `b` of a tree: both
/// are carried by leaves of their own, `a` is no heavier than `b`, and `b` no
/// heavier than any further leaf.
pub open spec fn two_lightest(tree: WeightTree, a: Key, b: Key) -> bool {
    &&& tree.count(a) >= one_if(a, a) + one_if(b, a)
    &&& tree.count(b) >= 1
    &&& a.weight <= b.weight
    &&& forall|key: Key|
        #[trigger] tree.count(key) > one_if(a, key) + one_if(b, key) ==> b.weight <= key.weight
}

/// What the tree becomes when leaves `a` and `b` are merged into one leaf
/// `merged`, as far as its leaves go.
pub open spec fn leaves_merged(
    before: WeightTree,
    after: WeightTree,
    a: Key,
    b: Key,
    merged: Key,
) -> bool {
    forall|key: Key|
        #[trigger] after.count(key) + one_if(a, key) + one_if(b, key) == before.count(key)
            + one_if(merged, key)
}

/// The exchange argument. For a tree with two lightest leaves `a` and `b`
/// there is a tree with one leaf less, in which one leaf of their joint
/// weight stands for the two, that costs less by at least that weight.
pub proof fn lemma_exchange(tree: WeightTree, a: Key, b: Key, merged: Key) -> (after: WeightTree)
    requires
        two_lightest(tree, a, b),
        merged.weight == a.weight + b.weight,
    ensures
        leaves_merged(tree, after, a, b, merged),
        after.cost() + a.weight + b.weight <= tree.cost(),
{
    assert(tree is Node) by {
        if tree is Leaf {
            assert(tree.count(a) >= 1);
            assert(tree.count(b) >= 1);
        }
    }
    let (x, y) = tree.deepest_pair();
    let h = tree.height();
    let lifted = tree.merge_deepest(merged);
    lemma_merge_deepest(tree, merged);
    assert(lifted.count(a) + one_if(x, a) + one_if(y, a) == tree.count(a) + one_if(merged, a));
    assert(lifted.count(b) + one_if(x, b) + one_if(y, b) == tree.count(b) + one_if(merged, b));
    assert(tree.count(x) > one_if(a, x) + one_if(b, x) ==> b.weight <= x.weight);
    assert(tree.count(y) > one_if(a, y) + one_if(b, y) ==> b.weight <= y.weight);
    if a == x || a == y {
        // `a` already stands in the pair; its sibling gives way to `b`.
        let partner = if a == x { y } else { x };
        if b == partner {
            assert((a.weight + b.weight) * h == merged.weight * (h - 1) + a.weight + b.weight)
                by (nonlinear_arith)
                requires
                    merged.weight == a.weight + b.weight,
            ;
            lifted
        } else {
            assert(b.weight <= partner.weight);
            lemma_replace(lifted, b, partner);
            let after = lifted.replace(b, partner);
            assert forall|key: Key|
                #[trigger] after.count(key) + one_if(a, key) + one_if(b, key) == tree.count(key)
                    + one_if(merged, key) by {
                assert(lifted.count(key) + one_if(x, key) + one_if(y, key) == tree.count(key)
                    + one_if(merged, key));
                assert(after.count(key) + one_if(b, key) == lifted.count(key) + one_if(
                    partner,
                    key,
                ));
            }
            lemma_exchange_cost(
                tree.cost(),
                lifted.cost(),
                after.cost(),
                a.weight,
                partner.weight,
                b.weight,
                merged.weight,
                h,
                lifted.height(),
            );
            after
        }
    } else if b == x || b == y {
        // `b` already stands in the pair; its sibling gives way to `a`.
        let partner = if b == x { y } else { x };
        assert(a.weight <= partner.weight);
        lemma_replace(lifted, a, partner);
        let after = lifted.replace(a, partner);
        assert forall|key: Key|
            #[trigger] after.count(key) + one_if(a, key) + one_if(b, key) == tree.count(key)
                + one_if(merged, key) by {
            assert(lifted.count(key) + one_if(x, key) + one_if(y, key) == tree.count(key)
                + one_if(merged, key));
            assert(after.count(key) + one_if(a, key) == lifted.count(key) + one_if(partner, key));
        }
        lemma_exchange_cost(
            tree.cost(),
            lifted.cost(),
            after.cost(),
            b.weight,
            partner.weight,
            a.weight,
            merged.weight,
            h,
            lifted.height(),
        );
        after
    } else {
        // Neither stands in the pair: both siblings give way.
        lemma_replace(lifted, a, x);
        let half = lifted.replace(a, x);
        assert(half.count(b) + one_if(a, b) == lifted.count(b) + one_if(x, b));
        lemma_replace(half, b, y);
        let after = half.replace(b, y);
        assert forall|key: Key|
            #[trigger] after.count(key) + one_if(a, key) + one_if(b, key) == tree.count(key)
                + one_if(merged, key) by {
            assert(lifted.count(key) + one_if(x, key) + one_if(y, key) == tree.count(key)
                + one_if(merged, key));
            assert(half.count(key) + one_if(a, key) == lifted.count(key) + one_if(x, key));
            assert(after.count(key) + one_if(b, key) == half.count(key) + one_if(y, key));
        }
        let first = (x.weight - a.weight) as nat;
        let second = (y.weight - b.weight) as nat;
        let low = lifted.height();
        assert(first * low <= first * h && second * low <= second * h) by (nonlinear_arith)
            requires
                low <= h,
        ;
        assert((x.weight + y.weight) * h == merged.weight * (h - 1) + a.weight + b.weight + first
            * h + second * h) by (nonlinear_arith)
            requires
                merged.weight == a.weight + b.weight,
                first == x.weight - a.weight,
                second == y.weight - b.weight,
        ;
        after
    }
}

/// The arithmetic of one exchange: a pair of weights `kept` and `partner`
/// at depth `h` becomes one leaf of weight `merged` a level higher, and a
/// leaf of weight `moved` elsewhere, no deeper than `low`, takes the weight
/// `partner`.
proof fn lemma_exchange_cost(
    cost: nat,
    lifted: nat,
    after: nat,
    kept: nat,
    partner: nat,
    moved: nat,
    merged: nat,
    h: nat,
    low: nat,
)
    requires
        h >= 1,
        low <= h,
        moved <= partner,
        merged == kept + moved,
        lifted + (kept + partner) * h == cost + merged * (h - 1),
        after <= lifted + (partner - moved) * low,
    ensures
        after + kept + moved <= cost,
{
    let gain = (partner - moved) as nat;
    assert(gain * low <= gain * h) by (nonlinear_arith)
        requires
            low <= h,
    ;
    assert((kept + partner) * h == merged * (h - 1) + kept + moved + gain * h)
        by (nonlinear_arith)
        requires
            merged == kept + moved,
            gain == partner - moved,
    ;
}

} // verus!
