use huffman::queue::{HeapNode, MinQueue};
use huffman::HuffmanNode;

fn entry(freq: u128, order: u16) -> HeapNode {
    HeapNode { freq, order, node: HuffmanNode::Leaf { byte: order as u8 } }
}

fn drain(queue: &mut MinQueue) -> Vec<(u128, u16)> {
    let mut out = Vec::new();
    while let Some(first) = queue.pop() {
        out.push((first.freq, first.order));
    }
    out
}

#[test]
fn the_empty_queue_gives_nothing() {
    let mut queue = MinQueue::new();
    assert_eq!(queue.len(), 0);
    assert!(queue.pop().is_none());
    assert_eq!(queue.len(), 0);
}

#[test]
fn entries_leave_by_ascending_weight() {
    let mut queue = MinQueue::new();
    for (freq, order) in [(5, 0), (1, 1), (9, 2), (3, 3), (7, 4)] {
        queue.push(entry(freq, order));
    }
    assert_eq!(queue.len(), 5);
    assert_eq!(drain(&mut queue), vec![(1, 1), (3, 3), (5, 0), (7, 4), (9, 2)]);
    assert_eq!(queue.len(), 0);
}

#[test]
fn equal_weights_leave_by_ascending_tag() {
    let mut queue = MinQueue::new();
    for (freq, order) in [(2, 300), (2, 7), (1, 256), (2, 256), (1, 9)] {
        queue.push(entry(freq, order));
    }
    assert_eq!(drain(&mut queue), vec![(1, 9), (1, 256), (2, 7), (2, 256), (2, 300)]);
}

#[test]
fn pushes_and_pops_may_alternate() {
    let mut queue = MinQueue::new();
    queue.push(entry(4, 0));
    queue.push(entry(2, 1));
    let first = queue.pop().unwrap();
    assert_eq!((first.freq, first.order), (2, 1));
    queue.push(entry(3, 2));
    queue.push(entry(u128::MAX, 3));
    queue.push(entry(0, 4));
    assert_eq!(queue.len(), 4);
    assert_eq!(drain(&mut queue), vec![(0, 4), (3, 2), (4, 0), (u128::MAX, 3)]);
}

#[test]
fn precedes_orders_by_weight_then_tag() {
    assert!(entry(1, 9).precedes(&entry(2, 0)));
    assert!(!entry(2, 0).precedes(&entry(1, 9)));
    assert!(entry(2, 0).precedes(&entry(2, 1)));
    assert!(!entry(2, 1).precedes(&entry(2, 0)));
    assert!(!entry(2, 1).precedes(&entry(2, 1)));
}

#[test]
fn the_entry_keeps_its_subtree() {
    let mut queue = MinQueue::new();
    queue.push(HeapNode {
        freq: 3,
        order: 256,
        node: HuffmanNode::Internal {
            left: Box::new(HuffmanNode::Leaf { byte: b'a' }),
            right: Box::new(HuffmanNode::Leaf { byte: b'b' }),
        },
    });
    queue.push(entry(1, 5));
    let first = queue.pop().unwrap();
    assert!(matches!(first.node, HuffmanNode::Leaf { byte: 5 }));
    let second = queue.pop().unwrap();
    match second.node {
        HuffmanNode::Internal { left, right } => {
            assert!(matches!(*left, HuffmanNode::Leaf { byte: b'a' }));
            assert!(matches!(*right, HuffmanNode::Leaf { byte: b'b' }));
        }
        HuffmanNode::Leaf { .. } => panic!("the subtree was lost"),
    }
}
